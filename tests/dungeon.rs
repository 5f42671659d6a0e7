use std::collections::{HashSet, VecDeque};

use mistery::dungeon::{MAX_ROOMS, MAX_SIZE, MIN_SIZE};
use mistery::geometry::{Point, Rect};
use mistery::map::{TileKind, WorldMap};

fn floor_reachable(m: &WorldMap, from: Point) -> HashSet<Point> {
    let mut seen = HashSet::new();
    let mut queue = VecDeque::new();
    seen.insert(from);
    queue.push_back(from);
    while let Some(p) = queue.pop_front() {
        for (dx, dy) in [(-1i32, -1i32), (-1, 0), (-1, 1), (0, -1), (0, 1), (1, -1), (1, 0), (1, 1)] {
            if let Some(q) = p.checked_translate(dx, dy) {
                if m.get(q) == Some(TileKind::Floor) && seen.insert(q) {
                    queue.push_back(q);
                }
            }
        }
    }
    seen
}

#[test]
fn generated_levels_are_well_formed() {
    let mut most_rooms = 0;
    for _ in 0..20 {
        let m = WorldMap::rooms_and_corridors(80, 50);
        let rooms = m.rooms();
        assert!(!rooms.is_empty());
        most_rooms = most_rooms.max(rooms.len());
        assert!(rooms.len() <= MAX_ROOMS);
        for (i, r) in rooms.iter().enumerate() {
            let (w, h) = (r.width(), r.height());
            assert!(w >= MIN_SIZE && w < MAX_SIZE);
            assert!(h >= MIN_SIZE && h < MAX_SIZE);
            assert!(r.left() >= 1 && r.bottom() >= 1);
            assert!(r.right() + 2 <= 80 && r.top() + 2 <= 50);
            for y in r.bottom() + 1..r.top() {
                for x in r.left() + 1..r.right() {
                    assert_eq!(m.get(Point::new(x, y)), Some(TileKind::Floor));
                }
            }
            for (j, o) in rooms.iter().enumerate() {
                if i != j {
                    assert!(!r.intersects(o));
                }
            }
        }
        let reach = floor_reachable(&m, rooms[0].center());
        for r in rooms.iter() {
            assert!(reach.contains(&r.center()));
        }
        for y in 0..50 {
            for x in 0..80 {
                let p = Point::new(x, y);
                assert_eq!(m.blocked(p), Some(m.get(p) == Some(TileKind::Wall)));
                assert_eq!(m.revealed(p), Some(false));
                assert_eq!(m.visible(p), Some(false));
            }
        }
    }
    // Rooms are drawn at random places, so an 80 by 50 level holds several.
    assert!(most_rooms >= 3);
}

#[test]
fn the_border_stays_wall() {
    let m = WorldMap::rooms_and_corridors(14, 14);
    for i in 0..14 {
        assert_eq!(m.get(Point::new(i, 0)), Some(TileKind::Wall));
        assert_eq!(m.get(Point::new(0, i)), Some(TileKind::Wall));
        assert_eq!(m.get(Point::new(i, 13)), Some(TileKind::Wall));
        assert_eq!(m.get(Point::new(13, i)), Some(TileKind::Wall));
    }
    assert_eq!(m.rooms().len(), 1);
}

#[test]
fn placing_rooms_carves_and_joins_them() {
    let mut m = WorldMap::new(40, 20);
    let a = Rect::new(1, 1, 7, 7);
    let b = Rect::new(20, 10, 8, 7);
    assert!(m.place_room(a, true));
    assert!(m.place_room(b, true));
    assert_eq!(m.rooms().len(), 2);
    // The corridor runs along row 4 from x = 4 to x = 23, then up column 23.
    for x in 4..=23 {
        assert_eq!(m.get(Point::new(x, 4)), Some(TileKind::Floor));
    }
    for y in 4..=13 {
        assert_eq!(m.get(Point::new(23, y)), Some(TileKind::Floor));
    }
    assert_eq!(m.get(Point::new(10, 10)), Some(TileKind::Wall));
    let reach = floor_reachable(&m, a.center());
    assert!(reach.contains(&b.center()));
}

#[test]
fn placing_rooms_column_first() {
    let mut m = WorldMap::new(40, 20);
    assert!(m.place_room(Rect::new(1, 1, 7, 7), true));
    assert!(m.place_room(Rect::new(20, 10, 8, 7), false));
    for y in 4..=13 {
        assert_eq!(m.get(Point::new(4, y)), Some(TileKind::Floor));
    }
    for x in 4..=23 {
        assert_eq!(m.get(Point::new(x, 13)), Some(TileKind::Floor));
    }
}

#[test]
fn an_overlapping_room_is_refused() {
    let mut m = WorldMap::new(40, 20);
    assert!(m.place_room(Rect::new(1, 1, 7, 7), true));
    assert!(!m.place_room(Rect::new(7, 3, 7, 7), true));
    assert_eq!(m.rooms().len(), 1);
    assert_eq!(m.get(Point::new(10, 5)), Some(TileKind::Wall));
}
