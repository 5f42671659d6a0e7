use mistery::combat::{Turn, TurnSystem};
use mistery::components::{ActsOnTurns, WantsToMove};
use mistery::ecs::{LogEntry, World};
use mistery::game::{new_game, spawn_room};
use mistery::geometry::{Point, Rect};
use mistery::map::WorldMap;
use mistery::spawn::{goblin, health_potion, orc, player, random_monster, spawn_points};

#[test]
fn a_new_game_puts_the_player_in_the_first_room() {
    let (world, turns) = new_game(80, 50);
    let center = world.map.rooms()[0].center();
    assert_eq!(world.positions.get(0).map(|p| p.0), Some(center));
    assert_eq!(world.player_pos, center);
    assert!(world.players.contains(0));
    assert_eq!(turns.current(), Turn::Player);
    assert!(matches!(world.log.lines()[0], LogEntry::Welcome));
    for e in 1..world.entities.count_exec() {
        assert!(!world.players.contains(e));
    }
}

#[test]
fn spawned_entities_carry_their_components() {
    let mut world = World::new(WorldMap::new(10, 10), Point::new(0, 0));
    let p = player(&mut world, Point::new(1, 1));
    let o = orc(&mut world, Point::new(2, 2));
    let g = goblin(&mut world, Point::new(3, 3));
    let h = health_potion(&mut world, Point::new(4, 4));
    let r = random_monster(&mut world, Point::new(5, 5));
    assert_eq!((p, o, g, h, r), (0, 1, 2, 3, 4));
    assert_eq!(world.player_pos, Point::new(1, 1));
    assert_eq!(world.names.get(o).unwrap().0, "Orc");
    assert_eq!(world.names.get(g).unwrap().0, "Goblin");
    assert_eq!(world.names.get(h).unwrap().0, "Health Potion");
    let rn = &world.names.get(r).unwrap().0;
    assert!(rn == "Orc" || rn == "Goblin");
    assert_eq!(world.stats.get(p).unwrap().power, 5);
    assert_eq!(world.stats.get(o).unwrap().hp, 16);
    assert_eq!(world.healing.get(h).unwrap().amount, 8);
    assert!(world.consumables.contains(h));
    assert!(world.hidden.contains(o));
    assert!(!world.hidden.contains(p));
    assert!(!world.blockers.contains(h));
}

#[test]
fn spawn_points_are_distinct_and_inside() {
    let room = Rect::new(10, 10, 7, 7);
    for _ in 0..50 {
        let pts = spawn_points(room, 6);
        assert_eq!(pts.len(), 6);
        for (i, a) in pts.iter().enumerate() {
            assert!(a.x > 10 && a.x < 16 && a.y > 10 && a.y < 16);
            for b in &pts[i + 1..] {
                assert_ne!(a, b);
            }
        }
    }
    // A room with a single interior tile cannot hold two.
    assert_eq!(spawn_points(Rect::new(0, 0, 3, 3), 2), vec![Point::new(1, 1)]);
}

#[test]
fn a_room_gets_at_most_six_entities() {
    let mut world = World::new(WorldMap::new(30, 30), Point::new(0, 0));
    for _ in 0..20 {
        let before = world.entities.count_exec();
        spawn_room(&mut world, Rect::new(5, 5, 9, 9));
        assert!(world.entities.count_exec() - before <= 6);
    }
}

#[test]
fn a_turn_moves_the_player() {
    let (mut world, mut turns) = new_game(80, 50);
    let start = world.player_pos;
    // The first turn hands the action point to the monsters, the second back.
    world.tick(&mut turns);
    world.tick(&mut turns);
    world.actors.insert(0, ActsOnTurns { ap: 1 });
    let exits = world.map.get_adjacent_exits(start);
    assert!(!exits.is_empty());
    world.movers.insert(0, WantsToMove { to: exits[0] });
    world.tick(&mut turns);
    assert_eq!(world.player_pos, exits[0]);
    assert_eq!(world.positions.get(0).unwrap().0, exits[0]);
    assert!(world.movers.keys().is_empty());
    let _ = TurnSystem::new();
}
