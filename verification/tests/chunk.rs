use octree::octree::chunk::Chunk;
use octree::octree::direction::Direction;
use octree::octree::index_path::IndexPath;
use octree::octree::voxel::Voxel;
use octree::worldgen::WorldGenerator;

#[test]
fn test_set_first_level() {
    let mut chunk = Chunk::new();
    for i in 0..8 {
        assert_eq!(chunk.sample(IndexPath::new(i.into())), Voxel { data: 0 });
    }
    for i in 0..8 {
        chunk.set(IndexPath::new(i.into()), Voxel { data: i as u16 });
    }
    for i in 0..8 {
        assert_eq!(chunk.sample(IndexPath::new(i.into())), Voxel { data: i as u16 });
    }
}

#[test]
fn test_set_second_level() {
    let mut chunk = Chunk::new();
    let index_path = IndexPath::new(Direction::FrontLeftBottom).push(Direction::FrontRightBottom);
    chunk.set(index_path, Voxel { data: 13 });
    assert_eq!(chunk.sample(index_path), Voxel { data: 13 });

    // Another allocation
    chunk.set(IndexPath::new(Direction::FrontLeftBottom).push(Direction::RearLeftBottom), Voxel { data: 12 });
    assert_eq!(chunk.sample(IndexPath::new(Direction::FrontLeftBottom).push(Direction::FrontRightBottom)), Voxel { data: 13 });
    assert_eq!(chunk.sample(IndexPath::new(Direction::FrontLeftBottom).push(Direction::RearLeftBottom)), Voxel { data: 12 });

    chunk.set(IndexPath::new(Direction::FrontLeftBottom).push(Direction::FrontRightTop), Voxel { data: 5 });
    assert_eq!(chunk.sample(IndexPath::new(Direction::FrontLeftBottom).push(Direction::FrontRightBottom)), Voxel { data: 13 });
    assert_eq!(chunk.sample(IndexPath::new(Direction::FrontLeftBottom).push(Direction::RearLeftBottom)), Voxel { data: 12 });
    assert_eq!(chunk.sample(IndexPath::new(Direction::FrontLeftBottom).push(Direction::FrontRightTop)), Voxel { data: 5 });

    chunk.set(IndexPath::new(Direction::FrontRightBottom).push(Direction::FrontLeftTop), Voxel { data: 4 });
    assert_eq!(chunk.sample(IndexPath::new(Direction::FrontLeftBottom).push(Direction::FrontRightBottom)), Voxel { data: 13 });
    assert_eq!(chunk.sample(IndexPath::new(Direction::FrontLeftBottom).push(Direction::RearLeftBottom)), Voxel { data: 12 });
    assert_eq!(chunk.sample(IndexPath::new(Direction::FrontLeftBottom).push(Direction::FrontRightTop)), Voxel { data: 5 });
    assert_eq!(chunk.sample(IndexPath::new(Direction::FrontRightBottom).push(Direction::FrontLeftTop)), Voxel { data: 4 });

    chunk.set(IndexPath::new(Direction::RearRightTop).push(Direction::RearLeftTop), Voxel { data: 86 });
    assert_eq!(chunk.sample(IndexPath::new(Direction::FrontLeftBottom).push(Direction::FrontRightBottom)), Voxel { data: 13 });
    assert_eq!(chunk.sample(IndexPath::new(Direction::FrontLeftBottom).push(Direction::RearLeftBottom)), Voxel { data: 12 });
    assert_eq!(chunk.sample(IndexPath::new(Direction::FrontLeftBottom).push(Direction::FrontRightTop)), Voxel { data: 5 });
    assert_eq!(chunk.sample(IndexPath::new(Direction::FrontRightBottom).push(Direction::FrontLeftTop)), Voxel { data: 4 });
    assert_eq!(chunk.sample(IndexPath::new(Direction::RearRightTop).push(Direction::RearLeftTop)), Voxel { data: 86 });
}

#[test]
fn test_condense_on_set() {
    let mut chunk = Chunk::new();
    assert_eq!(chunk.arena.count_nodes(), 1);
    for i in Direction::all().iter() {
        let index = IndexPath::new(*i).push(Direction::FrontRightBottom);
        chunk.set(index, Voxel { data: 13 });
        assert_eq!(chunk.sample(IndexPath::new(*i).push(Direction::FrontRightBottom)), Voxel { data: 13 });
        assert_eq!(chunk.arena.count_nodes(), if *i == Direction::RearRightTop { 1 } else { 2 });
    }

    // Test multiple levels
    let mut chunk = Chunk::new();
    assert_eq!(chunk.arena.count_nodes(), 1);
    for i in Direction::all().iter().take(7) {
        let index = IndexPath::new(*i).push(Direction::FrontRightBottom);
        chunk.set(index, Voxel { data: 13 });
        assert_eq!(chunk.sample(IndexPath::new(*i).push(Direction::FrontRightBottom)), Voxel { data: 13 });
        assert_eq!(chunk.arena.count_nodes(), 2);
    }
    for i in Direction::all().iter().take(7) {
        let index = IndexPath::new(*i).push(Direction::RearRightTop).push(Direction::FrontRightBottom);
        chunk.set(index, Voxel { data: 13 });
        assert_eq!(chunk.sample(index), Voxel { data: 13 });
        assert_eq!(chunk.arena.count_nodes(), 3);
    }
    // Adding this node should cause everything to collapse back to 0
    let index = IndexPath::new(Direction::RearRightTop).push(Direction::RearRightTop).push(Direction::FrontRightBottom);
    chunk.set(index, Voxel { data: 13 });
    assert_eq!(chunk.sample(index), Voxel { data: 13 });
    assert_eq!(chunk.arena.count_nodes(), 1);
}

#[test]
fn test_chunk_leaf_iterator() {
    let mut chunk = Chunk::new();
    for i in 0..7 {
        chunk.set(IndexPath::new(i.into()), Voxel::new(i as u16));
    }
    for i in 0..7 {
        chunk.set(IndexPath::new(i.into()).push(Direction::RearRightTop), Voxel::new(i as u16 + 16));
    }

    for i in 0..8 {
        chunk.set(IndexPath::new(i.into()).push(Direction::RearRightTop).push(Direction::RearRightTop), Voxel::new(i as u16 + 32));
    }

    let mut iter = chunk.iter_leaf();
    let mut i: usize = 0;
    while let Some(node) = iter.next() {
        if i < 7 {
            assert_eq!(node.voxel.data, i as u16);
            assert_eq!(node.index_path, IndexPath::new((i as u8).into()));
        } else if i < 14 {
            assert_eq!(node.voxel.data, i as u16 + 9);
            assert_eq!(node.index_path, IndexPath::new((i as u8 - 7).into()).push(Direction::RearRightTop));
        } else {
            assert_eq!(node.voxel.data, i as u16 + 18);
            assert_eq!(node.index_path, IndexPath::new((i as u8 - 14).into()).push(Direction::RearRightTop).push(Direction::RearRightTop));
        }
        i += 1;
    }
}

#[test]
fn new_chunk_reads_empty_everywhere() {
    let chunk = Chunk::new();
    let deep = IndexPath::new(Direction::RearLeftTop).push(Direction::FrontRightTop).push(Direction::RearRightBottom);
    assert_eq!(chunk.sample(deep), Voxel::new(0));
    let mut iter = chunk.iter_leaf();
    let mut n = 0;
    while let Some(node) = iter.next() {
        assert_eq!(node.index_path, IndexPath::new((n as u8).into()));
        assert!(node.is_leaf());
        assert_eq!(node.voxel, Voxel::new(0));
        n += 1;
    }
    assert_eq!(n, 8);
    assert_eq!(iter.next().is_none(), true);
    assert_eq!(iter.size_hint(), (1, Some(8)));
}

#[test]
fn set_reads_back_at_full_depth_and_shallower_paths_keep_their_octant() {
    let mut chunk = Chunk::new();
    let mut path = IndexPath::empty();
    for k in 0..IndexPath::MAX_SIZE {
        path = path.push((k % 8).into());
    }
    chunk.set(path, Voxel::new(77));
    assert_eq!(chunk.sample(path), Voxel::new(77));
    // Every level of the path got a node of its own.
    assert_eq!(chunk.arena.count_nodes(), 21);
    // A path that leaves the written one reads an empty octant.
    let other = path.replace(Direction::FrontRightTop);
    assert_eq!(chunk.sample(other), Voxel::new(0));
    // Writing the same voxel everywhere else below the top node folds it back.
    let root_step = path.peek();
    let mut ones = Chunk::new();
    for d in 0..8u8 {
        ones.set(IndexPath::new(root_step).put(d.into()), Voxel::new(5));
    }
    assert_eq!(ones.arena.count_nodes(), 1);
    assert_eq!(ones.sample(IndexPath::new(root_step)), Voxel::new(5));
    assert_eq!(ones.sample(IndexPath::new(root_step).put(Direction::RearLeftBottom).put(Direction::FrontLeftTop)), Voxel::new(5));
}

#[test]
fn nodes_walk_down_and_set_their_parent_octant() {
    let mut chunk = Chunk::new();
    chunk.set(IndexPath::new(Direction::RearLeftBottom).push(Direction::FrontLeftTop), Voxel::new(3));
    let root = chunk.root();
    assert!(root.is_subdivided());
    assert_eq!(root.index_path, IndexPath::empty());
    let top = root.child(Direction::FrontLeftTop, &chunk);
    assert!(top.is_subdivided());
    assert_eq!(top.index_path, IndexPath::new(Direction::FrontLeftTop));
    let mut leaf = top.child(Direction::RearLeftBottom, &chunk);
    assert!(leaf.is_leaf());
    assert_eq!(leaf.voxel, Voxel::new(3));
    assert_eq!(leaf.bounds.width(), 1 << 29);
    assert_eq!((leaf.bounds.x(), leaf.bounds.y(), leaf.bounds.z()), (0, 1 << 29, 1 << 30));
    // A leaf has no children: asking for one gives the leaf back.
    let same = leaf.child(Direction::RearRightTop, &chunk);
    assert_eq!(same.index_path, leaf.index_path);
    leaf.set(Voxel::new(8), &mut chunk);
    assert_eq!(leaf.voxel, Voxel::new(8));
    let path = IndexPath::new(Direction::FrontLeftTop).put(Direction::RearLeftBottom);
    assert_eq!(chunk.sample(path), Voxel::new(8));
    // Below a leaf, every path reads the leaf's voxel.
    assert_eq!(chunk.sample(path.put(Direction::RearRightTop)), Voxel::new(8));
    let before = chunk.arena.count_nodes();
    leaf.del(&mut chunk);
    assert_eq!(chunk.arena.count_nodes(), before);
    assert_eq!(chunk.sample(path), Voxel::new(8));
}

#[test]
fn generator_leaves_the_new_chunk_as_it_is() {
    let gen = WorldGenerator {};
    let chunk = gen.gen();
    assert_eq!(chunk.arena.count_nodes(), 1);
    assert_eq!(chunk.sample(IndexPath::new(Direction::FrontRightTop)), Voxel::new(0));
    assert!(gen.get(chunk.root().bounds).is_none());
}

#[test]
fn deleting_a_child_folds_its_octant() {
    let mut chunk = Chunk::new();
    let deep = IndexPath::new(Direction::FrontLeftTop).push(Direction::RearLeftBottom).push(Direction::RearRightTop);
    chunk.set(deep, Voxel::new(6));
    assert_eq!(chunk.arena.count_nodes(), 3);
    let root = chunk.root();
    let mut top = root.child(Direction::RearRightTop, &chunk);
    assert!(top.is_subdivided());
    // The octant of the top node that leads down to `deep` reads 0 itself.
    let below = IndexPath::new(Direction::RearRightTop).put(Direction::RearLeftBottom);
    assert_eq!(chunk.sample(below), Voxel::new(0));
    top.del_child(Direction::RearLeftBottom, &mut chunk);
    assert_eq!(chunk.arena.count_nodes(), 2);
    // Everything below the deleted child now reads the octant's voxel.
    assert_eq!(chunk.sample(deep), Voxel::new(0));
    assert_eq!(chunk.sample(below), Voxel::new(0));
    // Deleting on a leaf does nothing.
    let mut leaf = top.child(Direction::FrontLeftBottom, &chunk);
    assert!(leaf.is_leaf());
    leaf.del_child(Direction::FrontLeftBottom, &mut chunk);
    assert_eq!(chunk.arena.count_nodes(), 2);
    let mut root2 = chunk.root();
    root2.del_child(Direction::RearRightTop, &mut chunk);
    assert_eq!(chunk.arena.count_nodes(), 1);
}

#[test]
fn set_leaves_paths_that_part_at_an_existing_node_alone() {
    let mut chunk = Chunk::new();
    chunk.set(IndexPath::new(Direction::FrontRightBottom), Voxel::new(2));
    let a = IndexPath::new(Direction::RearLeftTop).push(Direction::FrontRightBottom);
    chunk.set(a, Voxel::new(9));
    // Parts from `a` at the root, which existed: unchanged.
    assert_eq!(chunk.sample(IndexPath::new(Direction::FrontRightBottom)), Voxel::new(2));
    assert_eq!(chunk.sample(IndexPath::new(Direction::FrontLeftBottom).put(Direction::RearLeftTop)), Voxel::new(0));
    // Parts from `a` below the node the write created: reads the new empty node.
    let b = IndexPath::new(Direction::FrontRightBottom).put(Direction::FrontRightBottom);
    chunk.set(b, Voxel::new(4));
    assert_eq!(chunk.sample(IndexPath::new(Direction::FrontRightBottom).put(Direction::RearRightTop)), Voxel::new(0));
}

#[test]
fn every_leaf_reads_back_through_sample() {
    let mut chunk = Chunk::new();
    chunk.set(IndexPath::new(Direction::RearLeftTop).push(Direction::FrontRightBottom), Voxel::new(3));
    chunk.set(IndexPath::new(Direction::FrontLeftTop).push(Direction::RearRightTop).push(Direction::FrontRightBottom), Voxel::new(8));
    let mut iter = chunk.iter_leaf();
    let mut count = 0;
    while let Some(leaf) = iter.next() {
        assert_eq!(chunk.sample(leaf.index_path), leaf.voxel);
        assert!(leaf.is_leaf());
        count += 1;
    }
    // Root: 7 leaves and one child; that child: 7 leaves and one child,
    // which has 8 leaves.
    assert_eq!(count, 7 + 7 + 8);
}

#[test]
fn folding_a_node_writes_its_voxel_into_the_parent_octant() {
    let mut chunk = Chunk::new();
    let top = IndexPath::new(Direction::RearLeftBottom);
    // Before: the octant reads empty.
    assert_eq!(chunk.sample(top), Voxel::new(0));
    for d in 0..8u8 {
        chunk.set(top.put(d.into()), Voxel::new(6));
    }
    // The node below `top` folded away: `top` itself now reads 6, and so
    // does every path below it.
    assert_eq!(chunk.arena.count_nodes(), 1);
    assert_eq!(chunk.sample(top), Voxel::new(6));
    assert_eq!(chunk.sample(top.put(Direction::FrontLeftTop).put(Direction::RearRightTop)), Voxel::new(6));
    // A path that parts from the written ones at the root keeps its value.
    assert_eq!(chunk.sample(IndexPath::new(Direction::FrontRightTop)), Voxel::new(0));
}

#[test]
fn leaves_come_once_each_in_path_order() {
    let mut chunk = Chunk::new();
    chunk.set(IndexPath::new(Direction::FrontLeftBottom).push(Direction::RearRightTop), Voxel::new(3));
    let mut expected = Vec::new();
    for i in 0..7u8 {
        expected.push(IndexPath::new(i.into()));
    }
    for j in 0..8u8 {
        expected.push(IndexPath::new(j.into()).push(Direction::RearRightTop));
    }
    let mut it = chunk.iter_leaf();
    let mut got = Vec::new();
    while let Some(n) = it.next() {
        assert!(n.is_leaf());
        got.push(n.index_path);
    }
    assert_eq!(got, expected);
    assert!(it.next().is_none());
}

#[test]
fn blocks_in_use_follow_the_nodes_with_children() {
    let mut chunk = Chunk::new();
    assert_eq!(chunk.count_nodes(), 1);
    chunk.set(IndexPath::new(Direction::FrontLeftBottom).push(Direction::RearRightTop).push(Direction::FrontLeftTop), Voxel::new(2));
    // The root's own block, and a block of children for the root and for
    // the node below it on the path.
    assert_eq!(chunk.count_nodes(), 3);
    assert_eq!(chunk.count_nodes(), chunk.arena.count_nodes());
    chunk.set(IndexPath::new(Direction::FrontLeftBottom).push(Direction::RearRightTop).push(Direction::FrontLeftTop), Voxel::new(0));
    // Writing the empty voxel back folds both nodes away again.
    assert_eq!(chunk.count_nodes(), 1);
}
