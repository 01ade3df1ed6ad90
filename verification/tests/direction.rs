use octree::octree::bounds::Bounds;
use octree::octree::direction::{Direction, DirectionMapper, Edge};
use octree::octree::index_path::IndexPath;
use octree::octree::VoxelData;

#[test]
fn octant_bits_name_the_axes() {
    let d = Direction::RearRightBottom; // 3 = 0b011
    assert!(d.is_max_x() && d.is_max_y() && d.is_min_z());
    assert!(!d.is_min_x() && !d.is_min_y() && !d.is_max_z());
    assert_eq!(d.to_u8(), 3);
    assert_eq!(Direction::from(12u8), Direction::FrontLeftTop);
}

#[test]
fn opposite_flips_every_axis_and_undoes_itself() {
    for d in Direction::all().iter() {
        let o = d.opposite();
        assert_eq!(o.to_u8(), 7 - d.to_u8());
        assert_eq!(o.opposite(), *d);
        assert_eq!(o.is_max_x(), d.is_min_x());
    }
}

#[test]
fn mapper_holds_one_value_per_octant() {
    let mut m = Direction::map(|d| d.to_u8() * 2);
    assert_eq!(*m.get(Direction::RearLeftTop), 12);
    m.set(Direction::RearLeftTop, 1);
    assert_eq!(*m.get(Direction::RearLeftTop), 1);
    assert_eq!(m.iter().count(), 8);
    let n = DirectionMapper::new([0u8; 8]);
    assert_eq!(*n.get(Direction::FrontRightTop), 0);
}

#[test]
fn edges_join_neighbouring_corners() {
    for i in 0..12u8 {
        let (a, b) = Edge::from_index(i).vertices();
        let diff = a.to_u8() ^ b.to_u8();
        assert!(diff == 1 || diff == 2 || diff == 4);
    }
    assert_eq!(Edge::from_index(0).vertices(), (Direction::RearLeftBottom, Direction::RearRightBottom));
    assert_eq!(Edge::from_index(11).vertices(), (Direction::FrontLeftBottom, Direction::FrontLeftTop));
}

#[test]
fn bounds_halve_towards_the_octant() {
    let whole = Bounds::new();
    assert_eq!(whole.width(), 1 << 31);
    let h = whole.half(Direction::RearRightTop);
    assert_eq!((h.x(), h.y(), h.z(), h.width()), (1 << 30, 1 << 30, 1 << 30, 1 << 30));
    let p = IndexPath::new(Direction::FrontRightBottom).put(Direction::RearLeftTop);
    let b = Bounds::from_index_path(p);
    assert_eq!((b.x(), b.y(), b.z(), b.width()), (1 << 30, 1 << 29, 1 << 29, 1 << 29));
    let c: Bounds = p.into();
    assert_eq!(c.width(), b.width());
}

#[test]
fn voxel_data_zero_is_empty() {
    assert!(VoxelData::empty().is_empty());
    assert!(!VoxelData::from(4u16).is_empty());
    assert!(VoxelData::default().is_empty());
}
