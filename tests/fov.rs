use std::collections::HashSet;

use mistery::fov::ShadowcastFoV;
use mistery::geometry::Point;
use mistery::map::{TileKind, WorldMap};

fn open_map(w: u32, h: u32) -> WorldMap {
    let mut m = WorldMap::new(w, h);
    for y in 1..h - 1 {
        for x in 1..w - 1 {
            m.set_kind(Point::new(x, y), TileKind::Floor);
        }
    }
    m.reload_blocked_tiles();
    m
}

fn as_set(v: Vec<Point>) -> HashSet<Point> {
    v.into_iter().collect()
}

#[test]
fn field_of_view_is_deterministic() {
    let m = WorldMap::rooms_and_corridors(80, 50);
    let c = m.rooms()[0].center();
    let a = ShadowcastFoV::run(&m, c.x, c.y, 8);
    let b = ShadowcastFoV::run(&m, c.x, c.y, 8);
    assert_eq!(a, b);
    assert_eq!(as_set(a.clone()).len(), a.len());
}

#[test]
fn origin_is_seen_and_nothing_beyond_the_radius() {
    let m = open_map(31, 31);
    let r = 6u32;
    let seen = ShadowcastFoV::run(&m, 15, 15, r);
    assert!(seen.contains(&Point::new(15, 15)));
    for p in &seen {
        let dx = p.x as i64 - 15;
        let dy = p.y as i64 - 15;
        assert!(dx * dx + dy * dy < (r * r) as i64);
    }
    // In the open every tile strictly inside the circle is seen.
    for y in 9..=21u32 {
        for x in 9..=21u32 {
            let dx = x as i64 - 15;
            let dy = y as i64 - 15;
            if dx * dx + dy * dy < 36 {
                assert!(seen.contains(&Point::new(x, y)), "({}, {})", x, y);
            }
        }
    }
}

#[test]
fn radius_zero_sees_nothing() {
    let m = open_map(9, 9);
    assert!(ShadowcastFoV::run(&m, 4, 4, 0).is_empty());
}

#[test]
fn a_wall_hides_what_is_behind_it() {
    let mut m = open_map(21, 21);
    m.set_kind(Point::new(10, 12), TileKind::Wall);
    let seen = as_set(ShadowcastFoV::run(&m, 10, 10, 8));
    assert!(seen.contains(&Point::new(10, 12)));
    assert!(!seen.contains(&Point::new(10, 15)));
    assert!(!seen.contains(&Point::new(10, 14)));
    assert!(seen.contains(&Point::new(9, 12)));
    assert!(seen.contains(&Point::new(11, 12)));
    assert!(seen.contains(&Point::new(10, 11)));
    assert!(seen.contains(&Point::new(13, 15)));
}

#[test]
fn walls_of_a_room_are_seen_but_not_what_lies_past_them() {
    let mut m = WorldMap::new(20, 20);
    for y in 6..=10 {
        for x in 6..=10 {
            m.set_kind(Point::new(x, y), TileKind::Floor);
        }
    }
    m.set_kind(Point::new(3, 8), TileKind::Floor);
    let seen = as_set(ShadowcastFoV::run(&m, 8, 8, 8));
    assert!(seen.contains(&Point::new(5, 8)));
    assert!(seen.contains(&Point::new(11, 11)));
    assert!(!seen.contains(&Point::new(3, 8)));
    assert!(!seen.contains(&Point::new(4, 8)));
}
