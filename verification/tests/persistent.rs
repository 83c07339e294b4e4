use linked_lists::persistent::List;

#[test]
fn third_basic() {
    let list = List::new();

    assert_eq!(list.head(), None);
    let list = list.prepend(1).prepend(2).prepend(3);
    assert_eq!(list.head(), Some(&3));

    let list = list.tail();
    assert_eq!(list.head(), Some(&2));

    let list = list.tail();
    assert_eq!(list.head(), Some(&1));

    let list = list.tail();
    assert_eq!(list.head(), None);
    let list = list.tail();
    assert_eq!(list.head(), None);
}

#[test]
fn third_iter() {
    let list = List::new();
    let list = list.prepend(1).prepend(2).prepend(3);

    let mut iter = list.iter();
    assert_eq!(iter.next(), Some(&3));
    assert_eq!(iter.next(), Some(&2));
    assert_eq!(iter.next(), Some(&1));
    assert_eq!(iter.next(), None);
    assert_eq!(iter.next(), None);
}

#[test]
fn persistent_sharing() {
    // Prepending builds a new list and leaves the receiver untouched, so
    // several lists may share the same suffix.
    let base = List::new().prepend(1).prepend(2);
    let longer = base.prepend(3);
    let other = base.prepend(4);

    assert_eq!(base.head(), Some(&2));
    assert_eq!(longer.head(), Some(&3));
    assert_eq!(other.head(), Some(&4));

    assert_eq!(longer.tail().head(), Some(&2));
    assert_eq!(other.tail().head(), Some(&2));

    let mut iter = base.iter();
    assert_eq!(iter.next(), Some(&2));
    assert_eq!(iter.next(), Some(&1));
    assert_eq!(iter.next(), None);
}

#[test]
fn persistent_clear() {
    let short = List::new().prepend(1).prepend(2);
    let mut long = short.prepend(3);
    long.clear();
    assert_eq!(long.head(), None);

    // The suffix shared with the other list is still alive.
    assert_eq!(short.head(), Some(&2));
    assert_eq!(short.tail().head(), Some(&1));
}
