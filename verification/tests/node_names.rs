use tile_index::node_id::{NodeId, MAX_LEVEL};

#[test]
fn root_is_named_r() {
    let root = NodeId::root();
    assert_eq!(root.level(), 0);
    assert_eq!(root.index(), 0);
    assert_eq!(root.to_string(), "r");
    assert_eq!(NodeId::from_str("r"), Some(root));
}

#[test]
fn name_has_one_digit_per_level() {
    let id = NodeId::new(2, 6).unwrap();
    assert_eq!(id.to_string(), "r12");
    let id = NodeId::new(3, 1).unwrap();
    assert_eq!(id.to_string(), "r001");
    let id = NodeId::new(4, 255).unwrap();
    assert_eq!(id.to_string(), "r3333");
}

#[test]
fn parse_reads_level_and_index() {
    assert_eq!(NodeId::from_str("r12"), NodeId::new(2, 6));
    assert_eq!(NodeId::from_str("r001"), NodeId::new(3, 1));
    assert_eq!(NodeId::from_str("r3210"), NodeId::new(4, 228));
}

#[test]
fn parse_refuses_what_is_no_name() {
    assert_eq!(NodeId::from_str(""), None);
    assert_eq!(NodeId::from_str("x"), None);
    assert_eq!(NodeId::from_str("12"), None);
    assert_eq!(NodeId::from_str("r4"), None);
    assert_eq!(NodeId::from_str("r1a"), None);
    assert_eq!(NodeId::from_str("rr"), None);
    let too_long = format!("r{}", "0".repeat(33));
    assert_eq!(NodeId::from_str(&too_long), None);
    let longest = format!("r{}", "3".repeat(32));
    assert_eq!(NodeId::from_str(&longest), NodeId::new(32, u64::MAX));
}

#[test]
fn new_accepts_exactly_the_valid_pairs() {
    assert!(NodeId::new(0, 0).is_some());
    assert!(NodeId::new(0, 1).is_none());
    assert!(NodeId::new(1, 3).is_some());
    assert!(NodeId::new(1, 4).is_none());
    assert!(NodeId::new(5, 1023).is_some());
    assert!(NodeId::new(5, 1024).is_none());
    assert!(NodeId::new(31, (1u64 << 62) - 1).is_some());
    assert!(NodeId::new(31, 1u64 << 62).is_none());
    assert!(NodeId::new(MAX_LEVEL, u64::MAX).is_some());
    assert!(NodeId::new(MAX_LEVEL + 1, 0).is_none());
}

#[test]
fn names_round_trip() {
    for level in 0..=6u8 {
        let count = 1u64 << (2 * level);
        for index in 0..count {
            let id = NodeId::new(level, index).unwrap();
            let name = id.to_string();
            assert_eq!(name.len(), level as usize + 1);
            assert_eq!(NodeId::from_str(&name), Some(id));
        }
    }
    for &(level, index) in &[(32u8, u64::MAX), (32, 0), (31, 12345678901234567), (20, 1 << 39)] {
        let id = NodeId::new(level, index).unwrap();
        assert_eq!(NodeId::from_str(&id.to_string()), Some(id));
    }
}

#[test]
fn children_extend_the_index_by_one_digit() {
    let id = NodeId::new(2, 6).unwrap();
    for c in 0..4u8 {
        let child = id.get_child_id(c);
        assert_eq!(child.level(), 3);
        assert_eq!(child.index(), 24 + c as u64);
        assert_eq!(child.parent_id(), Some(id));
        assert_eq!(child.to_string(), format!("r12{}", c));
    }
    assert_eq!(NodeId::root().parent_id(), None);
}
