use mistery::components::{
    BlocksTile, CombatStats, Faction, Player, Position, TargetedForMelee, Viewshed, WantsToMove,
};
use mistery::geometry::Point;
use mistery::map::{TileKind, WorldMap};
use mistery::movement::{MapIndexingSystem, MoveResolver, VisibilitySystem};
use mistery::storage::Storage;

fn open_map(w: u32, h: u32) -> WorldMap {
    let mut m = WorldMap::new(w, h);
    for y in 1..h - 1 {
        for x in 1..w - 1 {
            m.set_kind(Point::new(x, y), TileKind::Floor);
        }
    }
    m.reload_blocked_tiles();
    m
}

struct Scene {
    players: Storage<Player>,
    factions: Storage<Faction>,
    stats: Storage<CombatStats>,
    blockers: Storage<BlocksTile>,
    positions: Storage<Position>,
    movers: Storage<WantsToMove>,
    targets: Storage<TargetedForMelee>,
    viewsheds: Storage<Viewshed>,
    player_pos: Point,
    map: WorldMap,
}

fn scene() -> Scene {
    let mut s = Scene {
        players: Storage::new(),
        factions: Storage::new(),
        stats: Storage::new(),
        blockers: Storage::new(),
        positions: Storage::new(),
        movers: Storage::new(),
        targets: Storage::new(),
        viewsheds: Storage::new(),
        player_pos: Point::new(2, 2),
        map: open_map(10, 10),
    };
    // 0: the player, at (2, 2); 1: an orc, at (3, 2).
    s.players.insert(0, Player);
    for (e, f, x) in [(0usize, 0u32, 2u32), (1, 1, 3)] {
        s.factions.insert(e, Faction(f));
        s.stats.insert(e, CombatStats { hp: 10, max_hp: 10, defense: 1, power: 3 });
        s.blockers.insert(e, BlocksTile);
        s.positions.insert(e, Position(Point::new(x, 2)));
        let mut vs = Viewshed::new(5);
        vs.dirty = false;
        s.viewsheds.insert(e, vs);
    }
    MapIndexingSystem.run(&s.positions, &s.blockers, &mut s.map);
    s
}

fn resolve(s: &mut Scene) {
    MoveResolver.run(
        &s.players,
        &s.factions,
        &s.stats,
        &s.blockers,
        &mut s.positions,
        &mut s.movers,
        &mut s.targets,
        &mut s.viewsheds,
        &mut s.player_pos,
        &mut s.map,
    );
}

#[test]
fn map_indexing_blocks_occupied_tiles() {
    let s = scene();
    assert_eq!(s.map.blocked(Point::new(2, 2)), Some(true));
    assert_eq!(s.map.blocked(Point::new(3, 2)), Some(true));
    assert_eq!(s.map.blocked(Point::new(4, 2)), Some(false));
    assert_eq!(s.map.blocked(Point::new(0, 2)), Some(true));
}

#[test]
fn moving_onto_a_free_tile() {
    let mut s = scene();
    s.movers.insert(0, WantsToMove { to: Point::new(2, 3) });
    resolve(&mut s);
    assert_eq!(s.positions.get(0), Some(&Position(Point::new(2, 3))));
    assert_eq!(s.player_pos, Point::new(2, 3));
    assert_eq!(s.map.blocked(Point::new(2, 2)), Some(false));
    assert_eq!(s.map.blocked(Point::new(2, 3)), Some(true));
    assert!(s.viewsheds.get(0).unwrap().dirty);
    assert!(!s.viewsheds.get(1).unwrap().dirty);
    assert!(s.movers.keys().is_empty());
    assert!(s.targets.keys().is_empty());
}

#[test]
fn moving_into_an_enemy_attacks_it() {
    let mut s = scene();
    s.movers.insert(0, WantsToMove { to: Point::new(3, 2) });
    resolve(&mut s);
    assert_eq!(s.positions.get(0), Some(&Position(Point::new(2, 2))));
    assert_eq!(s.player_pos, Point::new(2, 2));
    assert_eq!(s.targets.keys(), vec![1]);
    assert_eq!(s.targets.get(1).unwrap().by, vec![0]);
}

#[test]
fn moving_into_a_friend_or_a_wall_does_nothing() {
    let mut s = scene();
    s.factions.insert(1, Faction(0));
    s.movers.insert(0, WantsToMove { to: Point::new(3, 2) });
    resolve(&mut s);
    assert_eq!(s.positions.get(0), Some(&Position(Point::new(2, 2))));
    assert!(s.targets.keys().is_empty());
    s.movers.insert(0, WantsToMove { to: Point::new(2, 0) });
    resolve(&mut s);
    assert_eq!(s.positions.get(0), Some(&Position(Point::new(2, 2))));
    s.movers.insert(0, WantsToMove { to: Point::new(20, 20) });
    resolve(&mut s);
    assert_eq!(s.positions.get(0), Some(&Position(Point::new(2, 2))));
}

#[test]
fn two_moves_onto_one_tile_the_second_is_blocked() {
    let mut s = scene();
    s.movers.insert(0, WantsToMove { to: Point::new(3, 3) });
    s.movers.insert(1, WantsToMove { to: Point::new(3, 3) });
    resolve(&mut s);
    assert_eq!(s.positions.get(0), Some(&Position(Point::new(3, 3))));
    assert_eq!(s.positions.get(1), Some(&Position(Point::new(3, 2))));
    // The orc bumped into the player: that is an attack.
    assert_eq!(s.targets.get(0).unwrap().by, vec![1]);
}

#[test]
fn visibility_reveals_and_hides() {
    let mut s = scene();
    let mut hidden = Storage::new();
    s.positions.insert(1, Position(Point::new(7, 7)));
    let mut vs = Viewshed::new(3);
    vs.dirty = true;
    s.viewsheds.insert(0, vs);
    VisibilitySystem.run(&s.players, &s.positions, &mut s.viewsheds, &mut hidden, &mut s.map);
    let v = s.viewsheds.get(0).unwrap();
    assert!(!v.dirty);
    assert!(v.sees(Point::new(2, 2)));
    assert!(v.sees(Point::new(3, 3)));
    assert!(!v.sees(Point::new(6, 2)));
    assert_eq!(s.map.visible(Point::new(3, 3)), Some(true));
    assert_eq!(s.map.revealed(Point::new(3, 3)), Some(true));
    assert_eq!(s.map.visible(Point::new(7, 7)), Some(false));
    assert!(hidden.contains(1));
    assert!(!hidden.contains(0));
    // The orc's view was not marked for recomputation.
    assert!(s.viewsheds.get(1).unwrap().visible.is_empty());
}
