use linked_lists::queue::List;

#[test]
fn fifth_basic() {
    let mut list = List::new();

    // Check empty list behaves right
    assert_eq!(list.pop(), None);

    // Populate list
    list.push(1);
    list.push(2);
    list.push(3);

    // Check normal removal
    assert_eq!(list.pop(), Some(1));
    assert_eq!(list.pop(), Some(2));

    // Push some more just to make sure nothing's corrupted
    list.push(4);
    list.push(5);

    // Check normal removal
    assert_eq!(list.pop(), Some(3));
    assert_eq!(list.pop(), Some(4));

    // Check exhaustion
    assert_eq!(list.pop(), Some(5));
    assert_eq!(list.pop(), None);

    // Check the exhaustion case fixed the pointer right
    list.push(6);
    list.push(7);

    // Check normal removal
    assert_eq!(list.pop(), Some(6));
    assert_eq!(list.pop(), Some(7));
    assert_eq!(list.pop(), None);
}

#[test]
fn miri_food() {
    let mut list = List::new();

    list.push(1);
    list.push(2);
    list.push(3);

    assert!(list.pop() == Some(1));
    list.push(4);
    assert!(list.pop() == Some(2));
    list.push(5);

    assert!(list.peek() == Some(&3));
    list.push(6);
    list.peek_mut().map(|x| *x *= 10);
    assert!(list.peek() == Some(&30));
    assert!(list.pop() == Some(30));

    let mut elems = list.iter_mut();
    while let Some(elem) = elems.next() {
        *elem *= 100;
    }

    let mut iter = list.iter();
    assert_eq!(iter.next(), Some(&400));
    assert_eq!(iter.next(), Some(&500));
    assert_eq!(iter.next(), Some(&600));
    assert_eq!(iter.next(), None);
    assert_eq!(iter.next(), None);

    assert!(list.pop() == Some(400));
    list.peek_mut().map(|x| *x *= 10);
    assert!(list.peek() == Some(&5000));
    list.push(7);

    // Drop it on the ground and let the dtor exercise itself
}

#[test]
fn queue_peek() {
    let mut list = List::new();
    assert_eq!(list.peek(), None);
    assert_eq!(list.peek_mut(), None);

    list.push(1);
    list.push(2);
    list.push(3);

    assert_eq!(list.peek(), Some(&1));
    list.peek_mut().map(|x| *x *= 10);
    assert_eq!(list.peek(), Some(&10));
    assert_eq!(list.pop(), Some(10));
    assert_eq!(list.peek(), Some(&2));
}

#[test]
fn queue_iter() {
    let mut list = List::new();
    list.push(1);
    list.push(2);
    list.push(3);
    assert_eq!(list.pop(), Some(1));
    list.push(4);

    let mut iter = list.iter();
    assert_eq!(iter.next(), Some(&2));
    assert_eq!(iter.next(), Some(&3));
    assert_eq!(iter.next(), Some(&4));
    assert_eq!(iter.next(), None);
    assert_eq!(iter.next(), None);

    // The queue is untouched and the traversal can be restarted.
    let mut again = list.iter();
    assert_eq!(again.next(), Some(&2));
    assert_eq!(list.pop(), Some(2));
}

#[test]
fn queue_into_iter_drains() {
    let mut list = List::new();
    list.push(1);
    list.push(2);
    list.push(3);

    let mut iter = list.into_iter();
    assert_eq!(iter.next(), Some(1));
    assert_eq!(iter.next(), Some(2));
    assert_eq!(iter.next(), Some(3));
    assert_eq!(iter.next(), None);
    assert_eq!(iter.next(), None);
}

#[test]
fn queue_iter_mut_exhaustion() {
    let mut list: List<i32> = List::new();
    let mut it = list.iter_mut();
    assert_eq!(it.next(), None);
    assert_eq!(it.next(), None);

    list.push(1);
    list.push(2);
    let mut it = list.iter_mut();
    *it.next().unwrap() += 5;
    assert_eq!(it.next(), Some(&mut 2));
    assert_eq!(it.next(), None);
    assert_eq!(it.next(), None);
    assert_eq!(list.pop(), Some(6));
    assert_eq!(list.pop(), Some(2));
    assert_eq!(list.pop(), None);
}

#[test]
fn queue_clear() {
    let mut list = List::new();
    list.push(1);
    list.push(2);
    list.push(3);
    list.clear();
    assert_eq!(list.pop(), None);
    assert_eq!(list.peek(), None);
    list.push(4);
    list.push(5);
    assert_eq!(list.pop(), Some(4));
    assert_eq!(list.pop(), Some(5));
}
