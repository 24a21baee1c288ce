use point_list::point_list::PointList;

#[test]
fn test_add_element_and_position() {
    let mut list = PointList::new();

    assert!(list.is_empty());
    assert_eq!(list.len(), 0);
    assert_eq!(list.start(), 0);
    assert_eq!(list.end(), 0);
    assert_eq!(list.first_key(), None);
    assert_eq!(list.last_key(), None);

    let a_key = list.add_element('a', 4);
    assert_eq!(list.start(), 4);
    assert_eq!(list.end(), 4);
    assert_eq!(list.len(), 1);
    assert_eq!(list.element(a_key), Some(&'a'));
    assert_eq!(list.position(a_key), Some(4));

    let b_key = list.add_element('b', 2);
    assert_eq!(list.start(), 4);
    assert_eq!(list.end(), 6);
    assert_eq!(list.len(), 2);
    assert_eq!(list.position(a_key), Some(4));
    assert_eq!(list.element(b_key), Some(&'b'));
    assert_eq!(list.position(b_key), Some(6));

    let c_key = list.add_element('c', 3);
    assert_eq!(list.end(), 9);
    assert_eq!(list.len(), 3);
    assert_eq!(list.position(a_key), Some(4));
    assert_eq!(list.position(b_key), Some(6));
    assert_eq!(list.element(c_key), Some(&'c'));
    assert_eq!(list.position(c_key), Some(9));

    let d_key = list.add_element('d', 1);
    assert_eq!(list.start(), 4);
    assert_eq!(list.end(), 10);
    assert_eq!(list.len(), 4);
    assert_eq!(list.position(a_key), Some(4));
    assert_eq!(list.position(b_key), Some(6));
    assert_eq!(list.position(c_key), Some(9));
    assert_eq!(list.element(d_key), Some(&'d'));
    assert_eq!(list.position(d_key), Some(10));
    assert_eq!(list.first_key(), Some(a_key));
    assert_eq!(list.last_key(), Some(d_key));
    assert_eq!(list.length(), 6);
}

#[test]
fn test_add_element_and_position_2() {
    let mut list = PointList::new();
    for i in 0..(1u64 << 17) {
        let key = list.add_element((), 1);
        assert_eq!(list.len() as u64, i + 1);
        assert_eq!(list.start(), 1);
        assert_eq!(list.position(key), Some(i + 1));
    }
}

#[test]
fn test_positions_survive_splits() {
    // nine unit steps force a split into two base frames under a meta root
    let mut list = PointList::new();
    let mut keys = Vec::new();
    for _ in 0..9 {
        keys.push(list.add_element((), 1));
    }
    for (i, key) in keys.iter().enumerate() {
        assert_eq!(list.position(*key), Some(i as u64 + 1));
    }
    assert_eq!(list.start(), 1);
    assert_eq!(list.end(), 9);

    // seventeen force a second level of meta frames
    let mut list = PointList::new();
    let mut keys = Vec::new();
    for _ in 0..17 {
        keys.push(list.add_element((), 1));
    }
    for (i, key) in keys.iter().enumerate() {
        assert_eq!(list.position(*key), Some(i as u64 + 1));
    }
    assert_eq!(list.first_key(), Some(keys[0]));
    assert_eq!(list.last_key(), Some(keys[16]));
}

#[test]
fn test_stale_handle_is_rejected() {
    let list: PointList<char> = PointList::new();
    let forged = point_list::index::Index::new(3);
    assert_eq!(list.position(forged), None);
    assert!(list.element(forged).is_none());
}

#[test]
fn test_set_element_replaces_in_place() {
    let mut list = PointList::new();
    let a_key = list.add_element('a', 4);
    let b_key = list.add_element('b', 2);
    assert!(list.set_element(b_key, 'z'));
    assert_eq!(list.element(a_key), Some(&'a'));
    assert_eq!(list.element(b_key), Some(&'z'));
    assert_eq!(list.position(b_key), Some(6));
    let forged = point_list::index::Index::new(9);
    assert!(!list.set_element(forged, 'q'));
}

#[test]
fn test_new_element_is_last_key() {
    let mut list = PointList::new();
    for i in 0..12u64 {
        let key = list.add_element(i, 1);
        assert_eq!(list.last_key(), Some(key));
        assert_eq!(list.position(key), Some(list.end()));
    }
}
