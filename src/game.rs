//! Setting up a level and running one turn of the game.

use vstd::prelude::*;

use crate::ai::{ai_strikes, chase_step, chases_prey, hunter, prey, MonsterAI};
use crate::combat::{resolve_damage, resolve_melee, DamageResolver, MeleeCombatResolver, Turn, TurnSystem};
use crate::components::{
    ActsOnTurns, Entity, SuffersDamage, TargetedForMelee, WantsToDropItem, WantsToMove, WantsToPickUp, WantsToUseItem,
};
use crate::dungeon::MAX_ROOMS;
use crate::ecs::{purged, World};
use crate::fov::field_of_view;
use crate::geometry::{Point, Rect};
use crate::items::{resolve_drops, resolve_pick_ups, resolve_uses, ItemDropResolver, ItemUsageResolver, PickUpSystem};
use crate::map::{TileKind, TileState, WorldMap};
use crate::movement::{
    blocked_tiles, dirty_views, keys_of, melee_view, occupied, resolve_moves, resolve_sight, revealed_tiles, visible_tiles,
    MapIndexingSystem, MoveResolver, VisibilitySystem,
};
use crate::rng::{gen_range, thread_rng};
use crate::spawn::{health_potion, player, random_monster, spawn_points, MAX_ENTITIES, MAX_ITEMS, MAX_MONSTERS};

verus! {

/// Fills `room` with up to `MAX_MONSTERS` random monsters and up to `MAX_ITEMS`
/// health potions, each on its own interior tile.
pub fn spawn_room(world: &mut World, room: Rect)
    requires
        room.bl.x + 2 <= room.tr.x,
        room.bl.y + 2 <= room.tr.y,
        old(world).entities.count() + MAX_MONSTERS + MAX_ITEMS < MAX_ENTITIES,
    ensures
        old(world).entities.count() <= final(world).entities.count() <= old(world).entities.count() + MAX_MONSTERS + MAX_ITEMS,
        final(world).map == old(world).map,
        final(world).player_pos == old(world).player_pos,
        forall|e: Entity| old(world).entities.count() <= e < final(world).entities.count()
            ==> #[trigger] final(world).positions@.contains_key(e) && room.interior_contains(final(world).positions@[e].0),
        forall|e: Entity| e < old(world).entities.count() ==> #[trigger] final(world).positions@.contains_key(e)
            == old(world).positions@.contains_key(e) && (final(world).positions@.contains_key(e) ==> final(world).positions@[e]
            == old(world).positions@[e]),
        forall|e: Entity| e < old(world).entities.count() ==> #[trigger] final(world).players@.contains_key(e)
            == old(world).players@.contains_key(e),
{
    let mut rng = thread_rng();
    let n_monsters = gen_range(&mut rng, 0, MAX_MONSTERS + 1);
    let n_items = gen_range(&mut rng, 0, MAX_ITEMS + 1);
    let points = spawn_points(room, n_monsters + n_items);
    let start = world.entities.count_exec();
    let mut k: usize = 0;
    while k < points.len()
        invariant
            k <= points@.len(),
            points@.len() <= MAX_MONSTERS + MAX_ITEMS,
            forall|j: int| 0 <= j < points@.len() ==> room.interior_contains(#[trigger] points@[j]),
            start == old(world).entities.count(),
            world.entities.count() == start + k,
            start + MAX_MONSTERS + MAX_ITEMS < MAX_ENTITIES,
            world.map == old(world).map,
            world.player_pos == old(world).player_pos,
            forall|e: Entity| start <= e < world.entities.count() ==> #[trigger] world.positions@.contains_key(e)
                && room.interior_contains(world.positions@[e].0),
            forall|e: Entity| e < start ==> #[trigger] world.positions@.contains_key(e) == old(world).positions@.contains_key(e)
                && (world.positions@.contains_key(e) ==> world.positions@[e] == old(world).positions@[e]),
            forall|e: Entity| e < start ==> #[trigger] world.players@.contains_key(e) == old(world).players@.contains_key(e),
        decreases points@.len() - k,
    {
        let at = points[k];
        let ghost before = *world;
        let e = if (k as u64) < n_monsters as u64 {
            random_monster(world, at)
        } else {
            health_potion(world, at)
        };
        assert(points@[k as int] == at);
        proof {
            assert forall|f: Entity| f < start implies #[trigger] world.positions@.contains_key(f) == old(world).positions@.contains_key(f)
                && (world.positions@.contains_key(f) ==> world.positions@[f] == old(world).positions@[f]) by {
                assert(world.positions@.remove(e).contains_key(f) == before.positions@.remove(e).contains_key(f));
            }
            assert forall|f: Entity| f < start implies #[trigger] world.players@.contains_key(f) == old(world).players@.contains_key(f) by {
                assert(world.players@.remove(e).contains_key(f) == before.players@.remove(e).contains_key(f));
            }
        }
        k = k + 1;
    }
}

/// Starts a game on a new level of the given size: the player stands at the
/// center of the first room, and every other room is filled by `spawn_room`.
pub fn new_game(width: u32, height: u32) -> (r: (World, TurnSystem))
    requires
        width >= crate::dungeon::MAX_SIZE + 2,
        height >= crate::dungeon::MAX_SIZE + 2,
        width * height <= usize::MAX,
    ensures
        r.0.map.is_dungeon(),
        r.0.map.spec_width() == width,
        r.0.map.spec_height() == height,
        r.0.positions@.contains_key(0) && r.0.players@.contains_key(0),
        r.0.positions@[0].0 == r.0.map.room_list()[0].spec_center(),
        r.0.player_pos == r.0.map.room_list()[0].spec_center(),
{
    let map = WorldMap::rooms_and_corridors(width, height);
    let rooms = map.rooms().clone();
    let first = rooms[0].center();
    let mut world = World::new(map, first);
    proof {
        assert(world.map.room_fits(world.map.room_list()[0]));
    }
    player(&mut world, first);
    let mut k: usize = 1;
    while k < rooms.len()
        invariant
            1 <= k <= rooms@.len(),
            rooms@.len() <= MAX_ROOMS,
            rooms@ == world.map.room_list(),
            world.map.is_dungeon(),
            world.map.spec_width() == width,
            world.map.spec_height() == height,
            1 <= world.entities.count(),
            world.entities.count() + 5 <= 6 * k,
            world.positions@.contains_key(0) && world.players@.contains_key(0),
            world.positions@[0].0 == first,
            first == rooms@[0].spec_center(),
            world.player_pos == first,
        decreases rooms@.len() - k,
    {
        let room = rooms[k];
        proof {
            assert(world.map.room_fits(rooms@[k as int]));
        }
        spawn_room(&mut world, room);
        proof {
            assert(world.positions@.contains_key(0));
        }
        k = k + 1;
    }
    (world, TurnSystem::new())
}

/// Map indexing from `a` to `b`.
pub open spec fn indexed(a: World, b: World) -> bool {
    &&& b == (World { map: b.map, ..a })
    &&& b.map.wf()
    &&& b.map.same_shape(&a.map)
    &&& forall|p: Point| #[trigger] b.map.in_bounds(p) ==> b.map.tile(p) == (TileState {
        blocked: a.map.tile(p).kind == TileKind::Wall || occupied(a.positions@, a.blockers@, p),
        ..a.map.tile(p)
    })
}

/// Sight from `a` to `b`.
pub open spec fn sighted(a: World, b: World) -> bool {
    let r = resolve_sight(a.map, a.players@, a.positions@, a.viewsheds.entries(), (revealed_tiles(a.map), visible_tiles(a.map), a.hidden@.dom()));
    &&& b == (World { map: b.map, viewsheds: b.viewsheds, hidden: b.hidden, ..a })
    &&& b.map.wf()
    &&& b.map.same_shape(&a.map)
    &&& forall|p: Point| #[trigger] b.map.in_bounds(p) ==> b.map.tile(p) == (TileState {
        revealed: r.0.contains(p),
        visible: r.1.contains(p),
        ..a.map.tile(p)
    })
    &&& b.hidden@.dom() == r.2
    &&& b.viewsheds@.dom() == a.viewsheds@.dom()
    &&& forall|e: Entity| #[trigger] b.viewsheds@.contains_key(e) ==> {
        let v = a.viewsheds@[e];
        let w = b.viewsheds@[e];
        &&& w.range == v.range
        &&& if v.dirty && a.positions@.contains_key(e) {
            &&& !w.dirty
            &&& w.visible@.to_set() == field_of_view(a.map, a.positions@[e].0.x, a.positions@[e].0.y, v.range)
        } else {
            w.dirty == v.dirty && w.visible@ == v.visible@
        }
    }
}

/// Monster decisions from `a` to `b`.
pub open spec fn decided(a: World, b: World) -> bool {
    &&& b == (World { actors: b.actors, movers: b.movers, melee_targets: b.melee_targets, ..a })
    &&& b.actors@.dom() == a.actors@.dom()
    &&& forall|e: Entity| #[trigger] b.actors@.contains_key(e) ==> b.actors@[e] == (
        if hunter(a.players@, a.factions@, a.viewsheds@, a.positions@, e) && a.actors@[e].ap > 0 {
            ActsOnTurns { ap: (a.actors@[e].ap - 1) as u32 }
        } else {
            a.actors@[e]
        })
    &&& melee_view(b.melee_targets@) == ai_strikes(a.players@, a.factions, a.viewsheds@, a.positions@, a.actors@, keys_of(a.actors), melee_view(a.melee_targets@))
    &&& forall|e: Entity| #[trigger] b.movers@.contains_key(e) || a.movers@.contains_key(e) ==> (
        if chases_prey(a.players@, a.factions, a.viewsheds@, a.positions@, a.actors@, e)
            && chase_step(a.map, a.positions@[e].0, a.positions@[prey(a.factions, a.positions@, a.viewsheds@, e)->0].0) is Some {
            b.movers@.contains_key(e) && b.movers@[e] == (WantsToMove {
                to: chase_step(a.map, a.positions@[e].0, a.positions@[prey(a.factions, a.positions@, a.viewsheds@, e)->0].0)->0,
            })
        } else {
            b.movers@.contains_key(e) == a.movers@.contains_key(e) && (b.movers@.contains_key(e) ==> b.movers@[e] == a.movers@[e])
        })
}

/// Movement from `a` to `b`.
pub open spec fn moved(a: World, b: World) -> bool {
    let r = resolve_moves(a.map, a.players@, a.factions, a.stats@, a.blockers@, a.viewsheds@.dom(), a.movers.entries(),
        (a.positions@, blocked_tiles(a.map), melee_view(a.melee_targets@), dirty_views(a.viewsheds@), a.player_pos));
    &&& b == (World { positions: b.positions, movers: b.movers, melee_targets: b.melee_targets, viewsheds: b.viewsheds, player_pos: b.player_pos, map: b.map, ..a })
    &&& b.movers@ == Map::<Entity, WantsToMove>::empty()
    &&& b.map.wf()
    &&& b.map.same_shape(&a.map)
    &&& b.positions@ == r.0
    &&& forall|p: Point| #[trigger] b.map.in_bounds(p) ==> b.map.tile(p) == (TileState { blocked: r.1.contains(p), ..a.map.tile(p) })
    &&& melee_view(b.melee_targets@) == r.2
    &&& dirty_views(b.viewsheds@) == r.3
    &&& b.player_pos == r.4
    &&& b.viewsheds@.dom() == a.viewsheds@.dom()
    &&& forall|e: Entity| #[trigger] b.viewsheds@.contains_key(e) ==> b.viewsheds@[e].range == a.viewsheds@[e].range
        && b.viewsheds@[e].visible@ == a.viewsheds@[e].visible@
}

/// Item pick-ups, uses and drops from `a` to `b`, through `c` and `d`.
pub open spec fn handled_items(a: World, c: World, d: World, b: World) -> bool {
    &&& c == (World { pickers: c.pickers, carried: c.carried, positions: c.positions, hidden: c.hidden, log: c.log, ..a })
    &&& c.pickers@ == Map::<Entity, WantsToPickUp>::empty()
    &&& (c.positions@, c.hidden@.dom(), c.carried@, c.log@) == resolve_pick_ups(a.names@, a.pickers.entries(), (a.positions@, a.hidden@.dom(), a.carried@, a.log@))
    &&& d == (World { entities: d.entities, users: d.users, stats: d.stats, log: d.log, ..c })
    &&& d.users@ == Map::<Entity, WantsToUseItem>::empty()
    &&& ({
        let r = resolve_uses(c.names@, c.consumables@, c.healing@, c.users.entries(), (c.stats@, c.log@, Set::empty()));
        &&& d.stats@ == r.0
        &&& d.log@ == r.1
        &&& d.entities.doomed() == c.entities.doomed().union(r.2)
        &&& forall|f: Entity| d.entities.is_alive(f) == (c.entities.is_alive(f) && !r.2.contains(f))
        &&& d.entities.count() == c.entities.count()
    })
    &&& b == (World { droppers: b.droppers, positions: b.positions, carried: b.carried, hidden: b.hidden, log: b.log, ..d })
    &&& b.droppers@ == Map::<Entity, WantsToDropItem>::empty()
    &&& (b.positions@, b.hidden@.dom(), b.carried@, b.log@) == resolve_drops(d.names@, d.positions@, d.droppers.entries(), (d.positions@, d.hidden@.dom(), d.carried@, d.log@))
}

/// Melee and damage from `a` to `b`, through `c`.
pub open spec fn fought(a: World, c: World, b: World) -> bool {
    &&& c == (World { melee_targets: c.melee_targets, damage: c.damage, log: c.log, ..a })
    &&& c.melee_targets@ == Map::<Entity, TargetedForMelee>::empty()
    &&& (c.damage@, c.log@) == resolve_melee(a.names@, a.stats@, a.melee_targets.entries(), (a.damage@, a.log@))
    &&& b == (World { entities: b.entities, damage: b.damage, stats: b.stats, log: b.log, ..c })
    &&& b.damage@ == Map::<Entity, SuffersDamage>::empty()
    &&& ({
        let r = resolve_damage(c.names@, c.damage.entries(), (c.stats@, c.log@, Set::empty()));
        &&& b.stats@ == r.0
        &&& b.log@ == r.1
        &&& b.entities.doomed() == c.entities.doomed().union(r.2)
        &&& forall|f: Entity| b.entities.is_alive(f) == (c.entities.is_alive(f) && !r.2.contains(f))
        &&& b.entities.count() == c.entities.count()
    })
}

/// Clean-up of deleted entities from `a` to `b`.
pub open spec fn cleaned(a: World, b: World) -> bool {
    let gone = a.entities.doomed();
    &&& b.entities.doomed() == Set::<Entity>::empty()
    &&& b.entities.count() == a.entities.count()
    &&& forall|f: Entity| b.entities.is_alive(f) == a.entities.is_alive(f)
    &&& purged(b.players@, a.players@, gone)
    &&& purged(b.factions@, a.factions@, gone)
    &&& purged(b.actors@, a.actors@, gone)
    &&& purged(b.names@, a.names@, gone)
    &&& purged(b.positions@, a.positions@, gone)
    &&& purged(b.viewsheds@, a.viewsheds@, gone)
    &&& purged(b.blockers@, a.blockers@, gone)
    &&& purged(b.hidden@, a.hidden@, gone)
    &&& purged(b.pickables@, a.pickables@, gone)
    &&& purged(b.consumables@, a.consumables@, gone)
    &&& purged(b.healing@, a.healing@, gone)
    &&& purged(b.carried@, a.carried@, gone)
    &&& purged(b.stats@, a.stats@, gone)
    &&& purged(b.movers@, a.movers@, gone)
    &&& purged(b.pickers@, a.pickers@, gone)
    &&& purged(b.users@, a.users@, gone)
    &&& purged(b.droppers@, a.droppers@, gone)
    &&& purged(b.melee_targets@, a.melee_targets@, gone)
    &&& purged(b.damage@, a.damage@, gone)
    &&& b.map == a.map
    &&& b.player_pos == a.player_pos
    &&& b.log@ == a.log@
}

/// The turn order from `a` to `b`: `b` differs from `a` in the action points only,
/// which change as `TurnSystem::run` says.
pub open spec fn turned(a: World, b: World, t0: Turn, t1: Turn) -> bool {
    let live = t0 == Turn::Player;
    &&& b == (World { actors: b.actors, ..a })
    &&& if crate::combat::side_can_act(a.actors@, a.players@, live) {
        t1 == t0 && b.actors@ == a.actors@
    } else {
        &&& t1 == (if live { Turn::Others } else { Turn::Player })
        &&& b.actors@.dom() == a.actors@.dom()
        &&& forall|e: Entity| #[trigger] b.actors@.contains_key(e) ==> b.actors@[e] == (
        if a.players@.contains_key(e) != live {
            ActsOnTurns { ap: 1 }
        } else {
            a.actors@[e]
        })
    }
}

/// One turn from `w0` to `w11`: each stage in order, the state after each being
/// the next one of the trace.
pub open spec fn tick_trace(
    w0: World, w1: World, w2: World, w3: World, w4: World, w5: World, w6: World, w7: World, w8: World, w9: World,
    w10: World, w11: World, t0: Turn, t1: Turn,
) -> bool {
    &&& indexed(w0, w1)
    &&& sighted(w1, w2)
    &&& decided(w2, w3)
    &&& moved(w3, w4)
    &&& handled_items(w4, w5, w6, w7)
    &&& fought(w7, w8, w9)
    &&& cleaned(w9, w10)
    &&& turned(w10, w11, t0, t1)
}

/// Sight depends on the size and the tile kinds of the map alone.
proof fn lemma_sight_layout(
    m1: WorldMap,
    m2: WorldMap,
    players: Map<Entity, crate::components::Player>,
    positions: Map<Entity, crate::components::Position>,
    views: Seq<(Entity, crate::components::Viewshed)>,
    st: crate::movement::SightState,
)
    requires
        crate::fov::same_layout(m1, m2),
    ensures
        resolve_sight(m1, players, positions, views, st) == resolve_sight(m2, players, positions, views, st),
    decreases views.len(),
{
    if views.len() > 0 {
        lemma_sight_layout(m1, m2, players, positions, views.drop_last(), st);
        let (e, v) = views.last();
        if positions.contains_key(e) {
            crate::fov::lemma_field_of_view_layout(m1, m2, positions[e].0.x, positions[e].0.y, v.range);
        }
    }
}

impl World {
    /// Runs one turn of the game, in this order: map indexing, sight, monster
    /// decisions, movement, pick-ups, item use, drops, melee, damage, the removal
    /// of dead and used-up entities, and the turn order. `tick_trace` states what
    /// each stage does to the state the one before left; the tiles in view and the
    /// tiles revealed are those that sight gives from the state on entry.
    pub fn tick(&mut self, turns: &mut TurnSystem)
        requires
            old(self).map.wf(),
        ensures
            final(self).map.wf(),
            final(self).map.same_shape(&old(self).map),
            final(self).movers@ == Map::<Entity, WantsToMove>::empty(),
            final(self).pickers@ == Map::<Entity, WantsToPickUp>::empty(),
            final(self).users@ == Map::<Entity, WantsToUseItem>::empty(),
            final(self).droppers@ == Map::<Entity, WantsToDropItem>::empty(),
            final(self).melee_targets@ == Map::<Entity, TargetedForMelee>::empty(),
            final(self).damage@ == Map::<Entity, SuffersDamage>::empty(),
            ({
                let r = resolve_sight(old(self).map, old(self).players@, old(self).positions@, old(self).viewsheds.entries(),
                    (revealed_tiles(old(self).map), visible_tiles(old(self).map), old(self).hidden@.dom()));
                forall|p: Point| #[trigger] final(self).map.in_bounds(p) ==> final(self).map.tile(p).visible == r.1.contains(p)
                    && final(self).map.tile(p).revealed == r.0.contains(p)
            }),
            exists|w1: World, w2: World, w3: World, w4: World, w5: World, w6: World, w7: World, w8: World, w9: World, w10: World|
                #[trigger] tick_trace(*old(self), w1, w2, w3, w4, w5, w6, w7, w8, w9, w10, *final(self), old(turns).turn(), final(turns).turn()),
    {
        let ghost w0 = *self;
        MapIndexingSystem.run(&self.positions, &self.blockers, &mut self.map);
        let ghost w1 = *self;
        VisibilitySystem.run(&self.players, &self.positions, &mut self.viewsheds, &mut self.hidden, &mut self.map);
        let ghost w2 = *self;
        MonsterAI.run(
            &self.players,
            &self.factions,
            &self.positions,
            &self.viewsheds,
            &mut self.actors,
            &mut self.movers,
            &mut self.melee_targets,
            &self.map,
        );
        let ghost w3 = *self;
        MoveResolver.run(
            &self.players,
            &self.factions,
            &self.stats,
            &self.blockers,
            &mut self.positions,
            &mut self.movers,
            &mut self.melee_targets,
            &mut self.viewsheds,
            &mut self.player_pos,
            &mut self.map,
        );
        let ghost w4 = *self;
        PickUpSystem.run(&self.names, &mut self.pickers, &mut self.carried, &mut self.positions, &mut self.hidden, &mut self.log);
        let ghost w5 = *self;
        ItemUsageResolver.run(
            &mut self.entities,
            &self.names,
            &self.consumables,
            &self.healing,
            &mut self.users,
            &mut self.stats,
            &mut self.log,
        );
        let ghost w6 = *self;
        ItemDropResolver.run(&self.names, &mut self.droppers, &mut self.positions, &mut self.carried, &mut self.hidden, &mut self.log);
        let ghost w7 = *self;
        MeleeCombatResolver.run(&self.names, &self.stats, &mut self.melee_targets, &mut self.damage, &mut self.log);
        let ghost w8 = *self;
        DamageResolver.run(&mut self.entities, &self.names, &mut self.damage, &mut self.stats, &mut self.log);
        let ghost w9 = *self;
        self.maintain();
        let ghost w10 = *self;
        let ghost t0 = turns.turn();
        turns.run(&mut self.actors, &self.players);
        proof {
            assert(indexed(w0, w1));
            assert(sighted(w1, w2));
            assert(decided(w2, w3));
            assert(moved(w3, w4));
            assert(handled_items(w4, w5, w6, w7));
            assert(fought(w7, w8, w9));
            assert(cleaned(w9, w10));
            assert(turned(w10, *self, t0, turns.turn()));
            assert(tick_trace(w0, w1, w2, w3, w4, w5, w6, w7, w8, w9, w10, *self, t0, turns.turn()));
            assert(crate::fov::same_layout(w1.map, w0.map)) by {
                assert forall|p: Point| #[trigger] w1.map.in_bounds(p) implies w1.map.tile(p).kind == w0.map.tile(p).kind by {
                    assert(w0.map.in_bounds(p));
                }
            }
            assert(revealed_tiles(w1.map) =~= revealed_tiles(w0.map)) by {
                assert forall|p: Point| revealed_tiles(w1.map).contains(p) == revealed_tiles(w0.map).contains(p) by {
                    if w0.map.in_bounds(p) {
                        assert(w1.map.in_bounds(p));
                    }
                }
            }
            assert(visible_tiles(w1.map) =~= visible_tiles(w0.map)) by {
                assert forall|p: Point| visible_tiles(w1.map).contains(p) == visible_tiles(w0.map).contains(p) by {
                    if w0.map.in_bounds(p) {
                        assert(w1.map.in_bounds(p));
                    }
                }
            }
            lemma_sight_layout(w1.map, w0.map, w0.players@, w0.positions@, w0.viewsheds.entries(),
                (revealed_tiles(w0.map), visible_tiles(w0.map), w0.hidden@.dom()));
            let r = resolve_sight(w0.map, w0.players@, w0.positions@, w0.viewsheds.entries(),
                (revealed_tiles(w0.map), visible_tiles(w0.map), w0.hidden@.dom()));
            assert(w1.players == w0.players && w1.positions == w0.positions && w1.viewsheds == w0.viewsheds && w1.hidden == w0.hidden);
            assert(self.map == w4.map);
            assert(w3.map == w2.map);
            assert forall|p: Point| #[trigger] self.map.in_bounds(p) implies self.map.tile(p).visible == r.1.contains(p)
                && self.map.tile(p).revealed == r.0.contains(p) by {
                assert(w3.map.in_bounds(p));
                assert(w4.map.tile(p) == (TileState { blocked: w4.map.tile(p).blocked, ..w3.map.tile(p) }));
                assert(w2.map.in_bounds(p));
            }
        }
    }
}

} // verus!
