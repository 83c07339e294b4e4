use linked_lists::stack::List;

#[test]
fn basis() {
    let mut list = List::new();

    assert_eq!(list.pop(), None);

    list.push(1);
    list.push(2);
    list.push(3);

    assert_eq!(list.pop(), Some(3));
    assert_eq!(list.pop(), Some(2));
    assert_eq!(list.pop(), Some(1));
    assert_eq!(list.pop(), None);
}

#[test]
fn second_peek() {
    let mut list = List::new();
    list.push(1);
    list.push(2);
    list.push(3);

    assert_eq!(list.peek(), Some(&3));
    list.pop();

    list.peek_mut().map(|node| *node = 42);
    assert_eq!(list.peek_mut(), Some(&mut 42));
    assert_eq!(list.peek(), Some(&42));
}

#[test]
fn into_iter() {
    let mut list = List::new();
    list.push(1);
    list.push(2);
    list.push(3);

    let mut iter = list.into_iter();
    assert_eq!(iter.next(), Some(3));
    assert_eq!(iter.next(), Some(2));
    assert_eq!(iter.next(), Some(1));
    assert_eq!(iter.next(), None);
    assert_eq!(iter.next(), None);
}

#[test]
fn second_iter() {
    let mut list = List::new();
    list.push(1);
    list.push(2);
    list.push(3);

    let mut iter = list.iter();
    assert_eq!(iter.next(), Some(&3));
    assert_eq!(iter.next(), Some(&2));
    assert_eq!(iter.next(), Some(&1));
    assert_eq!(iter.next(), None);
}

#[test]
fn stack_empty_peeks() {
    let mut list: List<i32> = List::new();
    assert_eq!(list.peek(), None);
    assert_eq!(list.peek_mut(), None);
    assert_eq!(list.pop(), None);
    assert_eq!(list.pop(), None);
    list.push(7);
    assert_eq!(list.peek(), Some(&7));
}

#[test]
fn stack_iter_does_not_consume() {
    let mut list = List::new();
    list.push(10);
    list.push(20);

    let mut iter = list.iter();
    assert_eq!(iter.next(), Some(&20));
    assert_eq!(iter.next(), Some(&10));
    assert_eq!(iter.next(), None);
    assert_eq!(iter.next(), None);

    // The stack is untouched and the traversal can be restarted.
    let mut again = list.iter();
    assert_eq!(again.next(), Some(&20));
    assert_eq!(list.pop(), Some(20));
    assert_eq!(list.pop(), Some(10));
}

#[test]
fn stack_into_iter_drains() {
    let mut list = List::new();
    list.push(1);
    list.push(2);
    let mut iter = list.into_iter();
    assert_eq!(iter.next(), Some(2));
    assert_eq!(iter.next(), Some(1));
    assert_eq!(iter.next(), None);
    assert_eq!(iter.next(), None);
}

#[test]
fn stack_iter_mut() {
    let mut list = List::new();
    list.push(1);
    list.push(2);
    list.push(3);

    let mut it = list.iter_mut();
    while let Some(elem) = it.next() {
        *elem *= 100;
    }

    assert_eq!(list.pop(), Some(300));
    assert_eq!(list.peek(), Some(&200));

    let mut it = list.iter_mut();
    assert_eq!(it.next(), Some(&mut 200));
    assert_eq!(it.next(), Some(&mut 100));
    assert_eq!(it.next(), None);
    assert_eq!(it.next(), None);
}

#[test]
fn stack_clear() {
    let mut list = List::new();
    list.push(1);
    list.push(2);
    list.push(3);
    list.clear();
    assert_eq!(list.pop(), None);
    assert_eq!(list.peek(), None);
    list.push(4);
    assert_eq!(list.pop(), Some(4));
}
