use octree::octree::direction::Direction;
use octree::octree::index_path::IndexPath;
use std::mem::size_of;

#[test]
fn test_iterator() {
    let mut index_path = IndexPath::empty();
    for i in 0..7 {
        index_path = index_path.push(i.into());
    }
    for i in (0..7).rev() {
        let dir: Direction = i.into();
        assert_eq!(index_path.next(), Some(dir));
    }

    let mut index_path = IndexPath::empty();
    for i in 0..7 {
        index_path = index_path.put(i.into());
    }
    for i in 0..7 {
        let dir: Direction = i.into();
        assert_eq!(index_path.next(), Some(dir));
    }

    assert_eq!(index_path.next(), None);
}

#[test]
fn index_path_fills_one_word() {
    assert_eq!(size_of::<IndexPath>(), size_of::<u64>());

    let mut path = IndexPath::empty();
    for i in 0..IndexPath::MAX_SIZE {
        assert_eq!(path.len(), i);
        assert_eq!(path.count(), i);
        path = path.push(Direction::FrontLeftBottom);
    }
    assert_eq!(path.len(), IndexPath::MAX_SIZE);
    assert!(path.is_full());
}

#[test]
fn push_and_pop_undo_each_other() {
    let base = IndexPath::new(Direction::RearRightBottom).put(Direction::FrontRightTop);
    let pushed = base.push(Direction::RearLeftTop);
    assert_eq!(pushed.peek(), Direction::RearLeftTop);
    assert_eq!(pushed.pop(), base);
    assert_eq!(pushed.len(), 3);
    assert_eq!(pushed.get(), Direction::FrontRightTop);
}

#[test]
fn put_get_and_replace_work_on_the_last_step() {
    let p = IndexPath::new(Direction::FrontLeftBottom).put(Direction::RearRightTop);
    assert_eq!(p.get(), Direction::RearRightTop);
    assert_eq!(p.peek(), Direction::FrontLeftBottom);
    let r = p.replace(Direction::RearLeftBottom);
    assert_eq!(r.peek(), Direction::RearLeftBottom);
    assert_eq!(r.get(), Direction::RearRightTop);
    assert_eq!(p.del(), p);
    assert!(IndexPath::empty().is_empty());
    assert!(!p.is_empty());
}

#[test]
fn path_text_lists_octants_first_step_first() {
    let p = IndexPath::new(Direction::RearRightBottom).put(Direction::FrontRightTop);
    assert_eq!(p.to_debug_string(), "3/5/");
    assert_eq!(IndexPath::empty().to_debug_string(), "");
}
