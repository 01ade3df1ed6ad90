use octree::octree::chunk::Chunk;
use octree::octree::direction::{Direction, Edge};
use octree::octree::index_path::IndexPath;
use octree::octree::edge_table::{decode_row, row_valid, triangles_of, EDGE_TABLE};
use octree::octree::mesh::{cube_index, Axis, DualGrid};
use octree::octree::voxel::Voxel;

#[test]
fn a_new_chunk_has_one_cell_of_empty_corners() {
    let chunk = Chunk::new();
    let mut grid = DualGrid::new(&chunk);
    grid.create_dualgrid();
    assert_eq!(grid.dual_cells.len(), 1);
    let cell = &grid.dual_cells[0];
    for (i, n) in cell.iter().enumerate() {
        assert!(n.is_leaf());
        assert_eq!(n.index_path, IndexPath::new((i as u8).into()));
    }
    assert_eq!(cube_index(cell), 0xff);
}

#[test]
fn cells_meet_around_every_corner_of_a_split_octant() {
    let mut chunk = Chunk::new();
    chunk.set(IndexPath::new(Direction::FrontLeftBottom).push(Direction::RearRightTop), Voxel::new(1));
    let mut grid = DualGrid::new(&chunk);
    grid.create_dualgrid();
    // The write splits octant RearRightTop of the root (`push` adds the
    // first step). The walk finds one cell inside the split octant, one
    // across each of its three faces and along each of its three edges
    // with the root's other octants, and one at the centre.
    assert_eq!(grid.dual_cells.len(), 8);
    let first = &grid.dual_cells[0];
    for (i, n) in first.iter().enumerate() {
        assert_eq!(n.index_path, IndexPath::new((i as u8).into()).push(Direction::RearRightTop));
    }
    for cell in grid.dual_cells.iter() {
        for n in cell.iter() {
            assert!(n.is_leaf());
        }
    }
    // The cell at the centre of the cube reaches into the split octant
    // (the last corner) through its child nearest the centre, which holds
    // the filled voxel: every corner but the last is empty.
    let last = grid.dual_cells.last().unwrap();
    assert_eq!(cube_index(last), 0b0111_1111);
}

#[test]
fn rows_decode_to_edges_until_the_end_marker() {
    let tris = decode_row([0x02b3, 0x0a21, 0xffff, 0xffff, 0xffff]);
    assert_eq!(tris.len(), 2);
    assert_eq!(tris[0], [Edge::from_index(3), Edge::from_index(11), Edge::from_index(2)]);
    assert_eq!(tris[1], [Edge::from_index(1), Edge::from_index(2), Edge::from_index(10)]);
    assert!(decode_row([0xffff; 5]).is_empty());
    assert_eq!(decode_row([0x0289, 0x0129, 0x0278, 0x052a, 0x0257]).len(), 5);
}

#[test]
fn face_axes_follow_their_tables() {
    assert_eq!(Axis::X.face_edges1(), Axis::X);
    assert_eq!(Axis::Y.face_edges1(), Axis::Z);
    assert_eq!(Axis::Z.face_edges2(), Axis::Z);
    assert_eq!(Axis::X.face_proc_dir_groups()[0], (Direction::RearLeftBottom, Direction::FrontLeftBottom));
    assert_eq!(Axis::Y.edge_proc_dir_tuples()[0], (3, Direction::RearRightBottom));
    assert_eq!(Axis::Z.edge_proc_dir_groups()[1][3], Direction::RearLeftBottom);
    assert_eq!(Axis::Z.face_proc_dir_tuples()[7], (0, Direction::RearRightBottom));
}

#[test]
fn every_row_of_the_edge_table_decodes() {
    for i in 0..=255u8 {
        assert!(row_valid(EDGE_TABLE[i as usize]));
        let tris = triangles_of(i).unwrap();
        assert!(tris.len() <= 5);
    }
    assert_eq!(triangles_of(0).unwrap().len(), 0);
    assert_eq!(triangles_of(0xff).unwrap().len(), 0);
    assert_eq!(triangles_of(1).unwrap(), vec![[Edge::from_index(3), Edge::from_index(11), Edge::from_index(2)]]);
    assert!(!row_valid([0x0c00, 0xffff, 0xffff, 0xffff, 0xffff]));
    assert!(!row_valid([0x1000, 0xffff, 0xffff, 0xffff, 0xffff]));
}
