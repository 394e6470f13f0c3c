use crossbeam::atomic::AtomicCell;
use lsm_core::skiplist::{height_from_draws, random_height, Node, SkipList, SkipListError, MAX_HEIGHT};
use std::rc::Rc;

#[test]
fn atomic_cell_doesnt_lock() {
    assert!(AtomicCell::<Rc<Node<&str>>>::is_lock_free());
}

#[test]
fn keys_come_out_sorted() {
    let mut list: SkipList<&str> = SkipList::new();
    let keys = [50_u64, 10, 40, 20, 30, 5, 45];
    let heights = [3_usize, 1, 12, 2, 1, 4, 1];
    for (k, h) in keys.iter().zip(heights.iter()) {
        assert!(list.insert_at_height(*k, "v", *h).is_ok());
    }
    assert_eq!(list.keys_in_order(), vec![5, 10, 20, 30, 40, 45, 50]);
    assert_eq!(list.node_total(), 7);
}

#[test]
fn duplicate_key_is_refused() {
    let mut list: SkipList<u32> = SkipList::new();
    assert_eq!(list.insert_at_height(7, 1, 2), Ok(0));
    assert_eq!(list.insert_at_height(7, 2, 1), Err(SkipListError::DuplicateKey));
    assert_eq!(list.get(7), Some(&1));
    assert_eq!(list.keys_in_order(), vec![7]);
}

#[test]
fn get_finds_values() {
    let mut list: SkipList<String> = SkipList::new();
    for k in [3_u64, 1, 2] {
        list.insert_at_height(k, format!("v{}", k), (k as usize % 3) + 1).unwrap();
    }
    assert_eq!(list.get(2), Some(&"v2".to_string()));
    assert_eq!(list.get(1), Some(&"v1".to_string()));
    assert_eq!(list.get(4), None);
    assert_eq!(list.get(0), None);
}

#[test]
fn random_inserts_stay_ordered() {
    let mut list: SkipList<u64> = SkipList::new();
    let mut k: u64 = 17;
    let mut expected = Vec::new();
    for _ in 0..200 {
        k = (k * 1103515245 + 12345) % 1000;
        match Node::insert(k, k * 2, &mut list) {
            Ok(_) => expected.push(k),
            Err(e) => assert_eq!(e, SkipListError::DuplicateKey),
        }
    }
    expected.sort();
    assert_eq!(list.keys_in_order(), expected);
    for k in &expected {
        assert_eq!(list.get(*k), Some(&(k * 2)));
    }
}

#[test]
fn random_height_in_range() {
    for _ in 0..1000 {
        let h = random_height();
        assert!((1..=MAX_HEIGHT).contains(&h));
    }
}

#[test]
fn finger_brackets_missing_key() {
    let mut list: SkipList<()> = SkipList::new();
    for k in [10_u64, 20, 30] {
        list.insert_at_height(k, (), 1).unwrap();
    }
    assert_eq!(list.get(15), None);
    assert!(list.insert_at_height(15, (), MAX_HEIGHT).is_ok());
    assert_eq!(list.keys_in_order(), vec![10, 15, 20, 30]);
}

#[test]
fn new_node_is_unlinked() {
    let node = Node::new(4, "x");
    assert_eq!(node.key(), 4);
    assert_eq!(*node.value(), "x");
    assert_eq!(node.height(), 0);
}

#[test]
fn finger_holds_neighbours_at_each_level() {
    let mut list: SkipList<()> = SkipList::new();
    assert_eq!(list.insert_at_height(10, (), 1), Ok(0));
    assert_eq!(list.insert_at_height(20, (), 3), Ok(1));
    assert_eq!(list.insert_at_height(30, (), 2), Ok(2));

    let f = list.bracketing_finger(25);
    assert_eq!(f.found(), None);
    assert_eq!(f.prev_nodes()[0], Some(1));
    assert_eq!(f.next_nodes()[0], Some(2));
    assert_eq!(f.prev_nodes()[1], Some(1));
    assert_eq!(f.next_nodes()[1], Some(2));
    assert_eq!(f.prev_nodes()[2], Some(1));
    assert_eq!(f.next_nodes()[2], None);
    assert_eq!(f.prev_nodes()[3], None);
    assert_eq!(f.next_nodes()[3], None);

    let before_all = list.bracketing_finger(5);
    assert_eq!(before_all.prev_nodes()[0], None);
    assert_eq!(before_all.next_nodes()[0], Some(0));
    assert_eq!(before_all.next_nodes()[1], Some(1));

    let hit = list.bracketing_finger(20);
    assert_eq!(hit.found(), Some(1));
    assert_eq!(hit.prev_nodes()[0], Some(0));
    assert_eq!(hit.next_nodes()[0], Some(2));
    assert_eq!(hit.prev_nodes()[2], None);
    assert_eq!(hit.next_nodes()[2], None);
}

#[test]
fn height_follows_leading_zero_draws() {
    assert_eq!(height_from_draws(&[]), 1);
    assert_eq!(height_from_draws(&[1, 0, 0]), 1);
    assert_eq!(height_from_draws(&[0, 0, 3, 0]), 3);
    assert_eq!(height_from_draws(&[0, 0, 0]), 4);
    assert_eq!(height_from_draws(&[0; 11]), MAX_HEIGHT);
    assert_eq!(height_from_draws(&[0; 20]), MAX_HEIGHT);
}
