use linked_lists::deque::List;

#[test]
fn fourth_basic() {
    let mut list = List::new();
    assert_eq!(list.pop_front(), None);

    list.push_front(1);
    list.push_front(2);
    list.push_front(3);
    assert_eq!(list.pop_front(), Some(3));
    assert_eq!(list.pop_front(), Some(2));
    assert_eq!(list.pop_front(), Some(1));
    assert_eq!(list.pop_front(), None);

    list.push_back(1);
    list.push_back(2);
    list.push_back(3);
    assert_eq!(list.pop_back(), Some(3));
    assert_eq!(list.pop_back(), Some(2));

    assert_eq!(&*list.peek_back().unwrap(), &1);
    list.push_front(2);
    assert_eq!(&*list.peek_back().unwrap(), &1);
    assert_eq!(&*list.peek_front().unwrap(), &2);
}

#[test]
fn fourth_peek() {
    let mut list = List::new();
    list.push_front(1);
    list.push_front(2);
    list.push_front(3);
    assert_eq!(&*list.peek_front().unwrap(), &3);

    assert_eq!(list.pop_front(), Some(3));

    assert_eq!(&*list.peek_front().unwrap(), &2);

    assert_eq!(&*list.peek_front_mut().unwrap(), &mut 2);
    assert_eq!(&*list.peek_back().unwrap(), &1);
    assert_eq!(&*list.peek_back_mut().unwrap(), &mut 1);
}

#[test]
fn deque_peek_mut_write() {
    let mut list = List::new();
    list.push_back(1);
    list.push_back(2);
    list.push_back(3);

    // A write through a mutable peek accessor is visible to later reads.
    list.peek_front_mut().map(|x| *x *= 10);
    assert_eq!(list.peek_front(), Some(&10));
    list.peek_back_mut().map(|x| *x *= 10);
    assert_eq!(list.peek_back(), Some(&30));

    assert_eq!(list.pop_front(), Some(10));
    assert_eq!(list.pop_front(), Some(2));
    assert_eq!(list.pop_front(), Some(30));
    assert_eq!(list.pop_front(), None);
    assert_eq!(list.peek_front(), None);
    assert_eq!(list.peek_back(), None);
}

#[test]
fn deque_mixed_ends() {
    let mut list = List::new();

    // Interleave both ends; the chain keeps its front-to-back order.
    list.push_front(2);
    list.push_back(3);
    list.push_front(1);
    list.push_back(4);

    assert_eq!(list.pop_front(), Some(1));
    assert_eq!(list.pop_back(), Some(4));
    assert_eq!(list.pop_front(), Some(2));
    assert_eq!(list.pop_back(), Some(3));
    assert_eq!(list.pop_back(), None);
    assert_eq!(list.pop_front(), None);

    // An emptied deque accepts new elements at either end.
    list.push_back(5);
    assert_eq!(list.peek_front(), Some(&5));
    assert_eq!(list.peek_back(), Some(&5));
}

#[test]
fn deque_clear() {
    let mut list = List::new();
    list.push_back(1);
    list.push_front(2);
    list.clear();
    assert_eq!(list.pop_front(), None);
    assert_eq!(list.pop_back(), None);
    list.push_back(3);
    assert_eq!(list.pop_front(), Some(3));
}
