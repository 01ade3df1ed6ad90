use octree::octree::arena::{Arena, ArenaBlockIndice, ArenaNode, ArenaSegment};
use octree::octree::voxel::Voxel;
use std::mem::size_of;

#[test]
fn test_size_of() {
    assert_eq!(size_of::<ArenaNode>(), size_of::<u8>() * 4 + size_of::<u16>() * 8);
}

#[test]
fn test_available_at() {
    let mut arena: ArenaSegment = ArenaSegment::new(8);
    for i in 0..std::u8::MAX {
        assert_eq!(arena.available_at(i), true);
    }
    arena.set_available_at(18, false);
    assert_eq!(arena.available_at(18), false);

    assert_eq!(arena.available_at(182), true);
    arena.set_available_at(182, false);
    assert_eq!(arena.available_at(182), false);
    arena.set_available_at(182, true);
    assert_eq!(arena.available_at(182), true);
}

#[test]
fn test_find_and_set_next_available() {
    let mut arena: ArenaSegment = ArenaSegment::new(8);
    arena.set_available_at(0, false);
    arena.set_available_at(1, false);
    arena.set_available_at(3, false);
    arena.set_available_at(4, false);
    assert_eq!(arena.find_next_available(), Some(2));

    // Block off a range of slots
    for i in 0..120 {
        arena.set_available_at(i, false);
    }
    arena.set_available_at(121, false);
    arena.set_available_at(183, false);

    assert_eq!(arena.find_next_available(), Some(120));

    // All full
    for i in 0..=std::u8::MAX {
        arena.set_available_at(i, false);
    }
    assert_eq!(arena.find_next_available(), None);
}

#[test]
fn test_arena_alloc() {
    let mut arena = Arena::new();
    for j in 0..=255 {
        for i in 0..=255 {
            let indice = arena.allocate(1);
            assert_eq!(indice.segment, j);
            assert_eq!(indice.indice, i);
        }
        assert!(arena.segment(1, j as usize).is_full());
    }
}

#[test]
fn test_child_on_dir() {
    let node = ArenaNode {
        children_index_segment: 0, // meaningless when all leaf
        children_index_indice: 0,
        leaf_mask: 0b00101101, // 1 for child, 0 for leaf
        load_mask: 0,
        data: Default::default(),
    };
    assert_eq!(node.child_on_dir(0).unwrap().index, 3);
    assert_eq!(node.child_on_dir(2).unwrap().index, 2);
    assert_eq!(node.child_on_dir(3).unwrap().index, 1);
    assert_eq!(node.child_on_dir(5).unwrap().index, 0);
    assert!(node.child_on_dir(1).is_none());
    assert!(node.child_on_dir(4).is_none());
    assert!(node.child_on_dir(6).is_none());
    assert!(node.child_on_dir(7).is_none());
}

#[test]
fn segment_counts_and_frees() {
    let mut seg = ArenaSegment::new(2);
    assert_eq!(seg.count_nodes(), 0);
    assert!(!seg.is_full());
    let a = seg.allocate();
    let b = seg.allocate();
    assert_eq!((a, b), (0, 1));
    assert_eq!(seg.count_nodes(), 2);
    seg.free(a);
    assert!(seg.available_at(0));
    assert_eq!(seg.count_nodes(), 1);
    // The freed slot is handed out again before any later one.
    assert_eq!(seg.allocate(), 0);
    assert_eq!(seg.block(1).len(), 2);
}

#[test]
fn arena_allocates_zeroed_blocks_per_size() {
    let mut arena = Arena::new();
    assert_eq!(arena.count_nodes(), 0);
    let b3 = arena.allocate(3);
    assert_eq!((b3.segment, b3.indice, b3.block_size), (0, 0, 3));
    let b3b = arena.allocate(3);
    assert_eq!((b3b.segment, b3b.indice), (0, 1));
    let b1 = arena.allocate(1);
    assert_eq!((b1.segment, b1.indice), (0, 0));
    assert_eq!(arena.count_nodes(), 3);
    assert_eq!(arena.segment_count(3), 1);
    assert_eq!(arena.get_block(b3b).len(), 3);
    for n in arena.get_block(b3b).iter() {
        assert_eq!(n.leaf_mask, 0);
        assert_eq!(n.data[5], Voxel::new(0));
    }
    arena.free(b3);
    assert_eq!(arena.count_nodes(), 2);
    let again = arena.allocate(3);
    assert_eq!(again, ArenaBlockIndice { segment: 0, indice: 0, block_size: 3 });
}

#[test]
fn realloc_moves_children_and_keeps_their_content() {
    let mut arena = Arena::new();
    let root = arena.allocate(1).child(0);
    // Give the root children on octants 2 and 5.
    arena.realloc(root, 0b0010_0100);
    assert_eq!(arena.get_node(root).num_children(), 2);
    let c5 = arena.get_node(root).child_on_dir(5).unwrap();
    arena.get_node_mut(c5).set_on_dir(1, Voxel::new(9));
    // Add a child on octant 0: the child on 5 keeps what it held.
    arena.realloc(root, 0b0010_0101);
    let c5b = arena.get_node(root).child_on_dir(5).unwrap();
    assert_eq!(arena.get_node(c5b).data[1], Voxel::new(9));
    assert_eq!(arena.get_node(root).child_on_dir(0).unwrap().index, 2);
    // Drop all children: only the root's own block stays in use.
    arena.realloc(root, 0);
    assert!(arena.get_node(root).is_leaf_node());
    assert_eq!(arena.count_nodes(), 1);
}

#[test]
fn condensable_needs_equal_octants_and_no_children() {
    let mut node = ArenaNode::new_empty();
    assert!(node.is_condensable());
    node.set_on_dir(3, Voxel::new(4));
    assert!(!node.is_condensable());
    for d in 0..8 {
        node.set_on_dir(d, Voxel::new(4));
    }
    assert!(node.is_condensable());
    node.leaf_mask = 0b1000_0000;
    assert!(!node.is_condensable());
    assert!(node.has_child_on_dir(7));
    assert_eq!(node.children_block().block_size, 1);
}

#[test]
fn debug_texts_show_slots_and_octants() {
    let seg = ArenaSegment::new(3);
    let mut expected = "X".repeat(256);
    expected.push('\n');
    expected.push('^');
    expected.push_str(&" ".repeat(255));
    expected.push('\n');
    expected.push_str("Each slot has 3 nodes\n");
    assert_eq!(seg.to_debug_string(), expected);

    let mut node = ArenaNode::new_empty();
    node.set_on_dir(2, Voxel::new(17));
    node.set_on_dir(5, Voxel::new(0x1f4));
    node.leaf_mask = 0b0000_0100;
    assert_eq!(Voxel::new(0).to_debug_string(), "00");
    assert_eq!(Voxel::new(10).to_debug_string(), "0A");
    assert_eq!(Voxel::new(0xabcd).to_debug_string(), "ABCD");
    let text = node.to_debug_string();
    let expected = "|---DN---|---UP---|\n| \x1b[0;31m11\x1b[0m  00 | 00  00 |\n| 00  00 | 00  1F4 |\n-------------------\n";
    assert_eq!(text, expected);

    let mut arena = Arena::new();
    arena.allocate(1);
    let text = arena.to_debug_string();
    assert!(text.starts_with("--------- Chunk Arena ----------\n-----Block sized 1-----\n0: \no"));
    assert!(text.ends_with("Each slot has 1 nodes\n-----Block sized 2-----\n-----Block sized 3-----\n-----Block sized 4-----\n-----Block sized 5-----\n-----Block sized 6-----\n-----Block sized 7-----\n-----Block sized 8-----\n------- End Chunk Arena --------\n"));
}
