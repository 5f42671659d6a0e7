use mistery::ai::MonsterAI;
use mistery::components::{ActsOnTurns, Faction, Player, Position, TargetedForMelee, Viewshed, WantsToMove};
use mistery::fov::ShadowcastFoV;
use mistery::geometry::Point;
use mistery::map::{TileKind, WorldMap};
use mistery::storage::Storage;

fn open_map(w: u32, h: u32) -> WorldMap {
    let mut m = WorldMap::new(w, h);
    for y in 1..h - 1 {
        for x in 1..w - 1 {
            m.set_kind(Point::new(x, y), TileKind::Floor);
        }
    }
    m.reload_blocked_tiles();
    m
}

fn run(monster_at: Point, ap: u32) -> (Storage<ActsOnTurns>, Storage<WantsToMove>, Storage<TargetedForMelee>) {
    let mut map = open_map(12, 12);
    let mut players = Storage::new();
    players.insert(0, Player);
    let mut factions = Storage::new();
    factions.insert(0, Faction(0));
    factions.insert(1, Faction(1));
    let mut positions = Storage::new();
    positions.insert(0, Position(Point::new(2, 2)));
    positions.insert(1, Position(monster_at));
    map.set_blocked(Point::new(2, 2), true);
    map.set_blocked(monster_at, true);
    let mut viewsheds = Storage::new();
    let mut vs = Viewshed::new(8);
    vs.visible = ShadowcastFoV::run(&map, monster_at.x, monster_at.y, 8);
    vs.dirty = false;
    viewsheds.insert(1, vs);
    let mut actors = Storage::new();
    actors.insert(0, ActsOnTurns { ap: 1 });
    actors.insert(1, ActsOnTurns { ap });
    let mut movers = Storage::new();
    let mut targets = Storage::new();
    MonsterAI.run(&players, &factions, &positions, &viewsheds, &mut actors, &mut movers, &mut targets, &map);
    (actors, movers, targets)
}

#[test]
fn a_monster_next_to_the_player_attacks() {
    let (actors, movers, targets) = run(Point::new(3, 3), 1);
    assert_eq!(targets.get(0).unwrap().by, vec![1]);
    assert!(movers.keys().is_empty());
    assert_eq!(actors.get(1), Some(&ActsOnTurns { ap: 0 }));
    assert_eq!(actors.get(0), Some(&ActsOnTurns { ap: 1 }));
}

#[test]
fn a_monster_far_from_the_player_steps_closer() {
    let (_, movers, targets) = run(Point::new(8, 2), 1);
    assert!(targets.keys().is_empty());
    let to = movers.get(1).unwrap().to;
    assert_eq!(to.x, 7);
    assert!(to.y >= 1 && to.y <= 3);
}

#[test]
fn a_monster_without_action_points_waits() {
    let (actors, movers, targets) = run(Point::new(3, 3), 0);
    assert!(targets.keys().is_empty());
    assert!(movers.keys().is_empty());
    assert_eq!(actors.get(1), Some(&ActsOnTurns { ap: 0 }));
}
