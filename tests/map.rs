use mistery::geometry::Point;
use mistery::map::{TileKind, WorldMap};

fn open_map(w: u32, h: u32) -> WorldMap {
    let mut m = WorldMap::new(w, h);
    for y in 1..h - 1 {
        for x in 1..w - 1 {
            m.set_kind(Point::new(x, y), TileKind::Floor);
        }
    }
    m.reload_blocked_tiles();
    m
}

#[test]
fn new_map_is_all_wall() {
    let m = WorldMap::new(4, 3);
    assert_eq!(m.width(), 4);
    assert_eq!(m.height(), 3);
    assert!(m.rooms().is_empty());
    for y in 0..3 {
        for x in 0..4 {
            assert_eq!(m.get(Point::new(x, y)), Some(TileKind::Wall));
            assert_eq!(m.blocked(Point::new(x, y)), Some(true));
            assert_eq!(m.revealed(Point::new(x, y)), Some(false));
            assert_eq!(m.visible(Point::new(x, y)), Some(false));
        }
    }
}

#[test]
fn out_of_bounds_access_is_absent() {
    let m = WorldMap::new(4, 3);
    assert_eq!(m.get(Point::new(4, 0)), None);
    assert_eq!(m.get(Point::new(0, 3)), None);
    assert_eq!(m.blocked(Point::new(10, 10)), None);
    assert_eq!(m.revealed(Point::new(4, 2)), None);
    assert_eq!(m.visible(Point::new(0, 3)), None);
}

#[test]
fn tile_kinds_and_blocking() {
    assert!(TileKind::Floor.is_walkable());
    assert!(!TileKind::Wall.is_walkable());
    assert!(TileKind::Wall.is_solid());
    assert!(!TileKind::Floor.is_solid());
    let mut m = WorldMap::new(5, 5);
    m.set_kind(Point::new(2, 2), TileKind::Floor);
    assert_eq!(m.blocked(Point::new(2, 2)), Some(true));
    m.reload_blocked_tiles();
    assert_eq!(m.blocked(Point::new(2, 2)), Some(false));
    assert_eq!(m.blocked(Point::new(1, 2)), Some(true));
}

#[test]
fn flags_change_one_tile_only() {
    let mut m = open_map(6, 6);
    m.mark_revealed(Point::new(2, 3));
    m.set_visible(Point::new(2, 3), true);
    m.set_blocked(Point::new(3, 3), true);
    assert_eq!(m.revealed(Point::new(2, 3)), Some(true));
    assert_eq!(m.visible(Point::new(2, 3)), Some(true));
    assert_eq!(m.revealed(Point::new(3, 2)), Some(false));
    assert_eq!(m.blocked(Point::new(3, 3)), Some(true));
    m.clear_visibility();
    assert_eq!(m.visible(Point::new(2, 3)), Some(false));
    assert_eq!(m.revealed(Point::new(2, 3)), Some(true));
}

#[test]
fn adjacent_exits_put_sides_first() {
    let m = open_map(7, 7);
    let exits = m.get_adjacent_exits(Point::new(3, 3));
    assert_eq!(
        exits,
        vec![
            Point::new(3, 4),
            Point::new(4, 3),
            Point::new(3, 2),
            Point::new(2, 3),
            Point::new(4, 4),
            Point::new(4, 2),
            Point::new(2, 2),
            Point::new(2, 4),
        ]
    );
}

#[test]
fn adjacent_exits_skip_blocked_and_off_map_tiles() {
    let mut m = open_map(7, 7);
    m.set_blocked(Point::new(3, 4), true);
    let exits = m.get_adjacent_exits(Point::new(3, 3));
    assert_eq!(exits.len(), 7);
    assert!(!exits.contains(&Point::new(3, 4)));
    let corner = m.get_adjacent_exits(Point::new(0, 0));
    assert_eq!(corner, vec![Point::new(1, 1)]);
}
