use tile_index::error::PointsViewerError;
use tile_index::meta::{Meta, CURRENT_VERSION};
use tile_index::node_id::NodeId;
use tile_index::region::Relation;
use tile_index::traversal::{validate_matrix_entries, BoundingRect, Node, GRID_EXTENT};

fn window(x0: u64, y0: u64, x1: u64, y1: u64) -> impl Fn(BoundingRect) -> Relation {
    move |b: BoundingRect| {
        let bx1 = b.min_x + b.edge_length;
        let by1 = b.min_y + b.edge_length;
        if bx1 <= x0 || x1 <= b.min_x || by1 <= y0 || y1 <= b.min_y {
            Relation::Out
        } else if x0 <= b.min_x && bx1 <= x1 && y0 <= b.min_y && by1 <= y1 {
            Relation::In
        } else {
            Relation::Cross
        }
    }
}

fn everything(_: BoundingRect) -> Relation {
    Relation::In
}

fn full_tree(depth: u8) -> Vec<(u32, u64)> {
    let mut entries = Vec::new();
    for level in 0..=depth {
        for index in 0..(1u64 << (2 * level)) {
            entries.push((level as u32, index));
        }
    }
    entries
}

fn rect_of(id: NodeId) -> BoundingRect {
    let mut rect = BoundingRect { min_x: 0, min_y: 0, edge_length: GRID_EXTENT };
    for step in (0..id.level()).rev() {
        let c = ((id.index() >> (2 * step)) & 3) as u8;
        rect = rect.get_child(c);
    }
    rect
}

fn brute_force(meta: &Meta, level: u8, view: &impl Fn(BoundingRect) -> Relation) -> Vec<Node> {
    let mut found = Vec::new();
    for index in 0..(1u64 << (2 * level)) {
        let id = NodeId::new(level, index).unwrap();
        let mut seen = true;
        let mut at = Some(id);
        while let Some(a) = at {
            if !meta.contains(&a) || view(rect_of(a)) == Relation::Out {
                seen = false;
            }
            at = a.parent_id();
        }
        if seen {
            found.push(Node { id, bounding_rect: rect_of(id) });
        }
    }
    found
}

fn sorted(mut nodes: Vec<Node>) -> Vec<Node> {
    nodes.sort_by_key(|n| (n.id.level(), n.id.index()));
    nodes
}

#[test]
fn child_squares_are_the_four_quarters() {
    let root = BoundingRect { min_x: 0, min_y: 0, edge_length: GRID_EXTENT };
    let half = GRID_EXTENT / 2;
    assert_eq!(root.get_child(0), BoundingRect { min_x: 0, min_y: 0, edge_length: half });
    assert_eq!(root.get_child(1), BoundingRect { min_x: 0, min_y: half, edge_length: half });
    assert_eq!(root.get_child(2), BoundingRect { min_x: half, min_y: 0, edge_length: half });
    assert_eq!(root.get_child(3), BoundingRect { min_x: half, min_y: half, edge_length: half });
    let quarter = half / 2;
    assert_eq!(
        root.get_child(3).get_child(1),
        BoundingRect { min_x: half, min_y: half + quarter, edge_length: quarter }
    );
}

#[test]
fn stored_versions_are_read_or_refused() {
    let entries = vec![(0u32, 0u64)];
    assert!(Meta::from_proto(CURRENT_VERSION, &entries, 256, 0).is_ok());
    assert!(Meta::from_proto(2, &entries, 256, 0).is_ok());
    assert!(matches!(Meta::from_proto(1, &entries, 256, 0), Err(PointsViewerError::UnsupportedVersion)));
    assert!(matches!(Meta::from_proto(4, &entries, 256, 0), Err(PointsViewerError::UnsupportedVersion)));
    assert!(matches!(Meta::from_proto(0, &entries, 256, 0), Err(PointsViewerError::UnsupportedVersion)));
    assert!(matches!(Meta::from_proto(-3, &entries, 256, 0), Err(PointsViewerError::UnsupportedVersion)));
}

#[test]
fn record_fields_come_back() {
    let entries = vec![(0u32, 0u64), (1, 2), (2, 9), (1, 2)];
    let meta = Meta::from_proto(3, &entries, 512, 2).unwrap();
    assert_eq!(meta.tile_size, 512);
    assert_eq!(meta.deepest_level, 2);
    assert!(meta.contains(&NodeId::new(1, 2).unwrap()));
    assert!(meta.contains(&NodeId::new(2, 9).unwrap()));
    assert!(!meta.contains(&NodeId::new(1, 3).unwrap()));
    assert!(!meta.contains(&NodeId::new(2, 2).unwrap()));
    let (version, mut nodes, tile_size, deepest_level) = meta.to_proto();
    nodes.sort();
    assert_eq!(version, 3);
    assert_eq!(nodes, vec![(0u32, 0u64), (1, 2), (2, 9)]);
    assert_eq!(tile_size, 512);
    assert_eq!(deepest_level, 2);
}

#[test]
fn an_empty_record_holds_no_node() {
    let meta = Meta::from_proto(3, &Vec::new(), 256, 0).unwrap();
    assert!(!meta.contains(&NodeId::root()));
    assert!(meta.to_proto().1.is_empty());
    assert!(meta.nodes_at_level(0, &everything).is_empty());
}

#[test]
fn whole_level_is_selected_when_nothing_is_ruled_out() {
    let meta = Meta::from_proto(3, &full_tree(3), 256, 3).unwrap();
    for level in 0..=3u8 {
        let found = meta.nodes_at_level(level, &everything);
        assert_eq!(found.len(), 1usize << (2 * level));
    }
    assert!(meta.nodes_at_level(4, &everything).is_empty());
    assert!(meta.nodes_at_level(200, &everything).is_empty());
}

#[test]
fn root_level_gives_the_root_with_the_whole_grid() {
    let meta = Meta::from_proto(3, &full_tree(1), 256, 1).unwrap();
    let found = meta.get_nodes_for_level(0, &everything);
    assert_eq!(found.len(), 1);
    assert_eq!(found[0].id, "r");
    assert_eq!(found[0].bounding_rect, BoundingRect { min_x: 0, min_y: 0, edge_length: GRID_EXTENT });
}

#[test]
fn window_selects_the_squares_it_touches() {
    let meta = Meta::from_proto(3, &full_tree(2), 256, 2).unwrap();
    let quarter = GRID_EXTENT / 4;
    let view = window(0, 0, quarter + 1, quarter);
    let mut names: Vec<String> =
        meta.get_nodes_for_level(2, &view).into_iter().map(|n| n.id).collect();
    names.sort();
    assert_eq!(names, vec!["r00".to_string(), "r02".to_string()]);
    let found = sorted(meta.nodes_at_level(2, &view));
    assert_eq!(found[1].id, NodeId::new(2, 2).unwrap());
    assert_eq!(found[1].bounding_rect, BoundingRect { min_x: quarter, min_y: 0, edge_length: quarter });
}

#[test]
fn nothing_is_selected_below_a_node_without_data() {
    let entries = vec![(0u32, 0u64), (1, 0), (1, 3), (2, 0), (2, 1), (2, 4), (2, 12), (2, 15)];
    let meta = Meta::from_proto(3, &entries, 256, 2).unwrap();
    let found = sorted(meta.nodes_at_level(2, &everything));
    let ids: Vec<u64> = found.iter().map(|n| n.id.index()).collect();
    assert_eq!(ids, vec![0, 1, 12, 15]);
    for node in &found {
        assert!(meta.contains(&node.id));
    }
}

#[test]
fn selection_agrees_with_exhaustive_search() {
    let mut entries = full_tree(4);
    entries.retain(|&(level, index)| !(level >= 2 && (index >> (2 * (level - 2))) == 7) && !(level == 4 && index % 5 == 0));
    let meta = Meta::from_proto(3, &entries, 256, 4).unwrap();
    let step = GRID_EXTENT / 16;
    let windows = [
        (0, 0, GRID_EXTENT, GRID_EXTENT),
        (0, 0, 1, 1),
        (3 * step, 5 * step, 9 * step + 1, 6 * step),
        (7 * step + 3, 7 * step + 3, 8 * step + 3, 12 * step),
        (GRID_EXTENT - 1, 0, GRID_EXTENT, GRID_EXTENT),
        (step, step, step, step),
    ];
    for &(x0, y0, x1, y1) in &windows {
        let view = window(x0, y0, x1, y1);
        for level in 0..=4u8 {
            let found = sorted(meta.nodes_at_level(level, &view));
            let expected = brute_force(&meta, level, &view);
            assert_eq!(found, expected);
            for pair in found.windows(2) {
                assert_ne!(pair[0].id, pair[1].id);
            }
            let named = meta.get_nodes_for_level(level, &view);
            assert_eq!(named.len(), found.len());
            for n in &named {
                let id = NodeId::from_str(&n.id).unwrap();
                assert!(meta.contains(&id));
                assert_eq!(id.level(), level);
                assert_eq!(n.bounding_rect, rect_of(id));
            }
        }
    }
}

#[test]
fn a_view_matrix_has_sixteen_entries() {
    assert_eq!(validate_matrix_entries(16), Ok(()));
    assert_eq!(validate_matrix_entries(0), Err(PointsViewerError::InvalidInput));
    assert_eq!(validate_matrix_entries(15), Err(PointsViewerError::InvalidInput));
    assert_eq!(validate_matrix_entries(17), Err(PointsViewerError::InvalidInput));
}

#[test]
fn levels_deeper_than_the_tree_are_empty() {
    let meta = Meta::from_proto(3, &full_tree(2), 256, 2).unwrap();
    for level in [3u8, 4, 32, 33, 255] {
        assert!(meta.nodes_at_level(level, &everything).is_empty());
        assert!(meta.get_nodes_for_level(level, &everything).is_empty());
    }
}

#[test]
fn a_view_that_rules_out_the_root_selects_nothing() {
    let meta = Meta::from_proto(3, &full_tree(2), 256, 2).unwrap();
    let nothing = |_: BoundingRect| Relation::Out;
    for level in 0..=2u8 {
        assert!(meta.nodes_at_level(level, &nothing).is_empty());
    }
}

#[test]
fn a_copy_holds_the_same_nodes() {
    let entries = vec![(0u32, 0u64), (1, 2), (2, 9)];
    let meta = Meta::from_proto(3, &entries, 512, 2).unwrap();
    let copy = meta.clone();
    assert_eq!(copy.tile_size, 512);
    assert_eq!(copy.deepest_level, 2);
    assert!(copy.contains(&NodeId::new(2, 9).unwrap()));
    assert!(!copy.contains(&NodeId::new(2, 8).unwrap()));
    let mut nodes = copy.to_proto().1;
    nodes.sort();
    assert_eq!(nodes, entries);
}
