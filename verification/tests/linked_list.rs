//! Tests of the ownership index: the raw link structure that append and
//! remove maintain inside the sparse store.

use kitties::LinkedItem;
use kitties::OwnedKitties;

fn item(prev: Option<u32>, next: Option<u32>) -> LinkedItem {
    LinkedItem { prev, next }
}

#[test]
fn owned_kitties_can_append_values() {
    let mut owned = OwnedKitties::new();
    owned.append(0, 1);

    assert_eq!(owned.get(0, None), Some(item(Some(1), Some(1))));
    assert_eq!(owned.get(0, Some(1)), Some(item(None, None)));

    owned.append(0, 2);

    assert_eq!(owned.get(0, None), Some(item(Some(2), Some(1))));
    assert_eq!(owned.get(0, Some(1)), Some(item(None, Some(2))));
    assert_eq!(owned.get(0, Some(2)), Some(item(Some(1), None)));

    owned.append(0, 3);

    assert_eq!(owned.get(0, None), Some(item(Some(3), Some(1))));
    assert_eq!(owned.get(0, Some(1)), Some(item(None, Some(2))));
    assert_eq!(owned.get(0, Some(2)), Some(item(Some(1), Some(3))));
    assert_eq!(owned.get(0, Some(3)), Some(item(Some(2), None)));
}

#[test]
fn owned_kitties_can_remove_values() {
    let mut owned = OwnedKitties::new();
    owned.append(0, 1);
    owned.append(0, 2);
    owned.append(0, 3);

    owned.remove(0, 2);

    assert_eq!(owned.get(0, None), Some(item(Some(3), Some(1))));
    assert_eq!(owned.get(0, Some(1)), Some(item(None, Some(3))));
    assert_eq!(owned.get(0, Some(2)), None);
    assert_eq!(owned.get(0, Some(3)), Some(item(Some(1), None)));

    owned.remove(0, 1);

    assert_eq!(owned.get(0, None), Some(item(Some(3), Some(3))));
    assert_eq!(owned.get(0, Some(1)), None);
    assert_eq!(owned.get(0, Some(2)), None);
    assert_eq!(owned.get(0, Some(3)), Some(item(None, None)));

    owned.remove(0, 3);

    assert_eq!(owned.get(0, None), Some(item(None, None)));
    assert_eq!(owned.get(0, Some(1)), None);
    assert_eq!(owned.get(0, Some(2)), None);
    assert_eq!(owned.get(0, Some(2)), None);
}

#[test]
fn remove_of_nonmember_changes_nothing() {
    let mut owned = OwnedKitties::new();
    owned.append(7, 10);
    owned.append(7, 11);

    owned.remove(7, 12);
    owned.remove(8, 10);

    assert_eq!(owned.get(7, None), Some(item(Some(11), Some(10))));
    assert_eq!(owned.get(7, Some(10)), Some(item(None, Some(11))));
    assert_eq!(owned.get(7, Some(11)), Some(item(Some(10), None)));
    assert_eq!(owned.get(7, Some(12)), None);
    assert_eq!(owned.get(8, None), None);
    assert_eq!(owned.get(8, Some(10)), None);
}

#[test]
fn append_remove_round_trip_restores_sentinel() {
    let mut owned = OwnedKitties::new();
    owned.append(3, 100);
    let head_before = owned.read_head(3);
    assert_eq!(head_before, item(Some(100), Some(100)));

    owned.append(3, 4);
    owned.append(3, 5);
    owned.append(3, 6);
    owned.remove(3, 5);
    owned.remove(3, 6);
    owned.remove(3, 4);

    assert_eq!(owned.read_head(3), head_before);
    assert_eq!(owned.iterate(3), vec![100]);

    owned.remove(3, 100);
    assert_eq!(owned.read_head(3), item(None, None));
}

#[test]
fn forward_traversal_is_newest_first() {
    let mut owned = OwnedKitties::new();
    owned.append(1, 1);
    owned.append(1, 2);
    owned.append(1, 3);

    assert_eq!(owned.iterate(1), vec![3, 2, 1]);

    owned.remove(1, 2);

    assert_eq!(owned.iterate(1), vec![3, 1]);
    assert_eq!(owned.get(1, Some(2)), None);
}

#[test]
fn collections_of_owners_are_independent() {
    let mut owned = OwnedKitties::new();
    owned.append(1, 5);
    owned.append(2, 6);
    owned.append(1, 7);

    assert_eq!(owned.iterate(1), vec![7, 5]);
    assert_eq!(owned.iterate(2), vec![6]);
    assert!(owned.contains(1, 5));
    assert!(!owned.contains(2, 5));
    assert!(owned.contains(2, 6));
    assert_eq!(owned.iterate(3), Vec::<u32>::new());
}
