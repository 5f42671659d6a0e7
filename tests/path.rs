use mistery::geometry::{distance_2d, Point};
use mistery::map::{TileKind, WorldMap};
use mistery::path::a_star_search;

fn open_map(w: u32, h: u32) -> WorldMap {
    let mut m = WorldMap::new(w, h);
    for y in 1..h - 1 {
        for x in 1..w - 1 {
            m.set_kind(Point::new(x, y), TileKind::Floor);
        }
    }
    m.reload_blocked_tiles();
    m
}

fn touching(a: Point, b: Point) -> bool {
    a != b && (a.x as i64 - b.x as i64).abs() <= 1 && (a.y as i64 - b.y as i64).abs() <= 1
}

#[test]
fn a_straight_path_in_the_open() {
    let m = open_map(12, 6);
    let path = a_star_search(&m, Point::new(2, 2), Point::new(8, 2)).unwrap();
    assert_eq!(path.first(), Some(&Point::new(2, 2)));
    assert_eq!(path.last(), Some(&Point::new(8, 2)));
    assert_eq!(path.len(), 7);
    for w in path.windows(2) {
        assert!(touching(w[0], w[1]));
    }
    assert!(path.len() as u64 >= distance_2d(Point::new(2, 2), Point::new(8, 2)));
}

#[test]
fn a_path_around_a_wall() {
    let mut m = open_map(12, 9);
    for y in 1..7 {
        m.set_kind(Point::new(5, y), TileKind::Wall);
    }
    m.reload_blocked_tiles();
    let path = a_star_search(&m, Point::new(2, 2), Point::new(8, 2)).unwrap();
    assert_eq!(path[0], Point::new(2, 2));
    assert_eq!(*path.last().unwrap(), Point::new(8, 2));
    for w in path.windows(2) {
        assert!(touching(w[0], w[1]));
    }
    assert!(path.contains(&Point::new(5, 7)));
    for p in &path {
        assert_eq!(m.get(*p), Some(TileKind::Floor));
    }
}

#[test]
fn no_path_to_a_sealed_area() {
    let mut m = open_map(12, 9);
    for y in 1..8 {
        m.set_kind(Point::new(5, y), TileKind::Wall);
    }
    m.reload_blocked_tiles();
    assert_eq!(a_star_search(&m, Point::new(2, 2), Point::new(8, 2)), None);
}

#[test]
fn a_path_can_end_on_a_blocked_goal() {
    let mut m = open_map(12, 6);
    m.set_blocked(Point::new(8, 2), true);
    let path = a_star_search(&m, Point::new(2, 2), Point::new(8, 2)).unwrap();
    assert_eq!(*path.last().unwrap(), Point::new(8, 2));
    assert_eq!(path.len(), 7);
}

#[test]
fn a_path_to_oneself() {
    let m = open_map(6, 6);
    let path = a_star_search(&m, Point::new(2, 2), Point::new(2, 2)).unwrap();
    assert_eq!(path, vec![Point::new(2, 2)]);
}
