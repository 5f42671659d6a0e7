//! Map indexing, field of view upkeep and movement.

use vstd::prelude::*;

use crate::components::{
    BlocksTile, CombatStats, Entity, Faction, Player, Position, TargetedForMelee, Viewshed, WantsToMove,
};
use crate::fov::{field_of_view, lemma_field_of_view_layout, same_layout, ShadowcastFoV};
use crate::geometry::Point;
use crate::map::{TileKind, TileState, WorldMap};
use crate::storage::Storage;

verus! {

/// The attackers of each targeted entity.
pub open spec fn melee_view(m: Map<Entity, TargetedForMelee>) -> Map<Entity, Seq<Entity>> {
    m.map_values(|t: TargetedForMelee| t.by@)
}

/// Whether an entity that blocks its tile stands on `p`.
pub open spec fn occupied(positions: Map<Entity, Position>, blockers: Map<Entity, BlocksTile>, p: Point) -> bool {
    exists|e: Entity| #[trigger] blockers.contains_key(e) && positions.contains_key(e) && positions[e].0 == p
}

/// Rebuilds the blocked flags of the map: a tile is blocked when it is a wall or
/// when an entity that blocks its tile stands on it.
pub struct MapIndexingSystem;

impl MapIndexingSystem {
    pub fn run(&mut self, positions: &Storage<Position>, blockers: &Storage<BlocksTile>, map: &mut WorldMap)
        requires
            old(map).wf(),
        ensures
            final(map).wf(),
            final(map).same_shape(old(map)),
            forall|p: Point| #[trigger]
                final(map).in_bounds(p) ==> final(map).tile(p) == (TileState {
                    blocked: old(map).tile(p).kind == TileKind::Wall || occupied(positions@, blockers@, p),
                    ..old(map).tile(p)
                }),
    {
        map.reload_blocked_tiles();
        let keys = blockers.keys();
        proof {
            blockers.lemma_entries();
        }
        let mut k: usize = 0;
        while k < keys.len()
            invariant
                map.wf(),
                map.same_shape(old(map)),
                k <= keys@.len(),
                keys@.len() == blockers.entries().len(),
                forall|j: int| 0 <= j < keys@.len() ==> keys@[j] == #[trigger] blockers.entries()[j].0,
                forall|j: int| 0 <= j < blockers.entries().len() ==> blockers@.contains_key(#[trigger] blockers.entries()[j].0),
                forall|e: Entity| #[trigger] blockers@.contains_key(e) ==> exists|j: int|
                    0 <= j < blockers.entries().len() && #[trigger] blockers.entries()[j].0 == e,
                forall|p: Point| #[trigger]
                    map.in_bounds(p) ==> map.tile(p) == (TileState {
                        blocked: old(map).tile(p).kind == TileKind::Wall || exists|j: int|
                            0 <= j < k && positions@.contains_key(#[trigger] keys@[j]) && positions@[keys@[j]].0 == p,
                        ..old(map).tile(p)
                    }),
            decreases keys@.len() - k,
        {
            let e = keys[k];
            let ghost before = *map;
            if let Some(pos) = positions.get(e) {
                map.set_blocked(pos.0, true);
            }
            proof {
                assert forall|p: Point| #[trigger] map.in_bounds(p) implies map.tile(p) == (TileState {
                    blocked: old(map).tile(p).kind == TileKind::Wall || exists|j: int|
                        0 <= j < k + 1 && positions@.contains_key(#[trigger] keys@[j]) && positions@[keys@[j]].0 == p,
                    ..old(map).tile(p)
                }) by {
                    assert(before.in_bounds(p));
                    if positions@.contains_key(e) && positions@[e].0 == p {
                        assert(keys@[k as int] == e);
                    } else {
                        assert(map.tile(p) == before.tile(p));
                        if exists|j: int| 0 <= j < k + 1 && positions@.contains_key(#[trigger] keys@[j]) && positions@[keys@[j]].0 == p {
                            let j = choose|j: int| 0 <= j < k + 1 && positions@.contains_key(#[trigger] keys@[j]) && positions@[keys@[j]].0 == p;
                            assert(j < k);
                        }
                    }
                }
            }
            k = k + 1;
        }
        proof {
            assert forall|p: Point| #[trigger] map.in_bounds(p) implies map.tile(p) == (TileState {
                blocked: old(map).tile(p).kind == TileKind::Wall || occupied(positions@, blockers@, p),
                ..old(map).tile(p)
            }) by {
                if occupied(positions@, blockers@, p) {
                    let e = choose|e: Entity| #[trigger] blockers@.contains_key(e) && positions@.contains_key(e) && positions@[e].0 == p;
                    let j = choose|j: int| 0 <= j < blockers.entries().len() && #[trigger] blockers.entries()[j].0 == e;
                    assert(keys@[j] == e);
                }
                if exists|j: int| 0 <= j < keys@.len() && positions@.contains_key(#[trigger] keys@[j]) && positions@[keys@[j]].0 == p {
                    let j = choose|j: int| 0 <= j < keys@.len() && positions@.contains_key(#[trigger] keys@[j]) && positions@[keys@[j]].0 == p;
                    assert(keys@[j] == blockers.entries()[j].0);
                    assert(blockers@.contains_key(keys@[j]));
                }
            }
        }
    }
}

/// What movement changes as it goes: positions, blocked tiles, melee targets,
/// the entities whose view is to be recomputed, and the player's position.
pub type MoveState = (Map<Entity, Position>, Set<Point>, Map<Entity, Seq<Entity>>, Set<Entity>, Point);

/// The entities of `cands` that stand on `to`, can fight, and belong to another
/// faction than `side` are targeted by `mover`, in order.
pub open spec fn engage(
    factions: Map<Entity, Faction>,
    positions: Map<Entity, Position>,
    stats: Map<Entity, CombatStats>,
    side: Faction,
    mover: Entity,
    to: Point,
    cands: Seq<Entity>,
    targets: Map<Entity, Seq<Entity>>,
) -> Map<Entity, Seq<Entity>>
    decreases cands.len(),
{
    if cands.len() == 0 {
        targets
    } else {
        let prev = engage(factions, positions, stats, side, mover, to, cands.drop_last(), targets);
        let c = cands.last();
        if positions.contains_key(c) && positions[c].0 == to && stats.contains_key(c) && factions.contains_key(c)
            && factions[c] != side {
            prev.insert(c, (if prev.contains_key(c) { prev[c] } else { Seq::empty() }).push(mover))
        } else {
            prev
        }
    }
}

/// The entities of a storage, in order.
pub open spec fn keys_of<T>(s: Storage<T>) -> Seq<Entity> {
    s.entries().map_values(|en: (Entity, T)| en.0)
}

/// One intent of `e` to move to `to`. Onto a tile of the map that is not
/// blocked, the move is made: the entity's position changes, the tile it leaves
/// and the one it enters swap their blocked flags if it blocks its tile, its view
/// is marked for recomputation, and the player's position follows the player.
/// Onto a blocked tile, an entity with a faction instead targets in melee every
/// fighter of another faction that stands there, and does not move.
pub open spec fn move_step(
    m: WorldMap,
    players: Map<Entity, Player>,
    factions: Storage<Faction>,
    stats: Map<Entity, CombatStats>,
    blockers: Map<Entity, BlocksTile>,
    viewsheds: Set<Entity>,
    e: Entity,
    to: Point,
    st: MoveState,
) -> MoveState {
    let (pos, blocked, targets, dirty, pp) = st;
    if m.in_bounds(to) && !blocked.contains(to) {
        if pos.contains_key(e) {
            let from = pos[e].0;
            (
                pos.insert(e, Position(to)),
                if blockers.contains_key(e) { blocked.remove(from).insert(to) } else { blocked },
                targets,
                if viewsheds.contains(e) { dirty.insert(e) } else { dirty },
                if players.contains_key(e) { to } else { pp },
            )
        } else {
            st
        }
    } else if factions@.contains_key(e) {
        (pos, blocked, engage(factions@, pos, stats, factions@[e], e, to, keys_of(factions), targets), dirty, pp)
    } else {
        st
    }
}

/// Movement of the intents of `moves`, in order.
pub open spec fn resolve_moves(
    m: WorldMap,
    players: Map<Entity, Player>,
    factions: Storage<Faction>,
    stats: Map<Entity, CombatStats>,
    blockers: Map<Entity, BlocksTile>,
    viewsheds: Set<Entity>,
    moves: Seq<(Entity, WantsToMove)>,
    st: MoveState,
) -> MoveState
    decreases moves.len(),
{
    if moves.len() == 0 {
        st
    } else {
        let prev = resolve_moves(m, players, factions, stats, blockers, viewsheds, moves.drop_last(), st);
        move_step(m, players, factions, stats, blockers, viewsheds, moves.last().0, moves.last().1.to, prev)
    }
}

/// The blocked tiles of a map.
pub open spec fn blocked_tiles(m: WorldMap) -> Set<Point> {
    Set::new(|p: Point| m.in_bounds(p) && m.tile(p).blocked)
}

/// The entities whose view is marked for recomputation.
pub open spec fn dirty_views(v: Map<Entity, Viewshed>) -> Set<Entity> {
    Set::new(|e: Entity| v.contains_key(e) && v[e].dirty)
}

/// Whether `c` stands on `to`, can fight, and belongs to another faction than
/// `side`.
pub open spec fn hostile_at(
    factions: Map<Entity, Faction>,
    positions: Map<Entity, Position>,
    stats: Map<Entity, CombatStats>,
    side: Faction,
    to: Point,
    c: Entity,
) -> bool {
    positions.contains_key(c) && positions[c].0 == to && stats.contains_key(c) && factions.contains_key(c)
        && factions[c] != side
}

proof fn lemma_engage_none(
    factions: Map<Entity, Faction>,
    positions: Map<Entity, Position>,
    stats: Map<Entity, CombatStats>,
    side: Faction,
    mover: Entity,
    to: Point,
    cands: Seq<Entity>,
    targets: Map<Entity, Seq<Entity>>,
)
    requires
        forall|i: int| 0 <= i < cands.len() ==> !hostile_at(factions, positions, stats, side, to, #[trigger] cands[i]),
    ensures
        engage(factions, positions, stats, side, mover, to, cands, targets) == targets,
    decreases cands.len(),
{
    if cands.len() > 0 {
        assert forall|i: int| 0 <= i < cands.drop_last().len() implies !hostile_at(factions, positions, stats, side, to, #[trigger] cands.drop_last()[i]) by {
            assert(cands.drop_last()[i] == cands[i]);
        }
        lemma_engage_none(factions, positions, stats, side, mover, to, cands.drop_last(), targets);
        assert(!hostile_at(factions, positions, stats, side, to, cands[cands.len() - 1]));
    }
}

proof fn lemma_engage_one(
    factions: Map<Entity, Faction>,
    positions: Map<Entity, Position>,
    stats: Map<Entity, CombatStats>,
    side: Faction,
    mover: Entity,
    to: Point,
    cands: Seq<Entity>,
    targets: Map<Entity, Seq<Entity>>,
    v: Entity,
)
    requires
        cands.no_duplicates(),
        cands.contains(v),
        hostile_at(factions, positions, stats, side, to, v),
        forall|i: int| 0 <= i < cands.len() && #[trigger] cands[i] != v ==> !hostile_at(factions, positions, stats, side, to, cands[i]),
    ensures
        engage(factions, positions, stats, side, mover, to, cands, targets) == targets.insert(
            v,
            (if targets.contains_key(v) { targets[v] } else { Seq::empty() }).push(mover),
        ),
    decreases cands.len(),
{
    let last = cands[cands.len() - 1];
    let init = cands.drop_last();
    if last == v {
        assert forall|i: int| 0 <= i < init.len() implies !hostile_at(factions, positions, stats, side, to, #[trigger] init[i]) by {
            assert(init[i] == cands[i]);
            assert(cands[i] != cands[cands.len() - 1]);
        }
        lemma_engage_none(factions, positions, stats, side, mover, to, init, targets);
    } else {
        let j = choose|j: int| 0 <= j < cands.len() && cands[j] == v;
        assert(init[j] == v);
        assert forall|i: int, k: int| 0 <= i < init.len() && 0 <= k < init.len() && i != k implies init[i] != init[k] by {
            assert(init[i] == cands[i] && init[k] == cands[k]);
        }
        assert forall|i: int| 0 <= i < init.len() && #[trigger] init[i] != v implies !hostile_at(factions, positions, stats, side, to, init[i]) by {
            assert(init[i] == cands[i]);
        }
        lemma_engage_one(factions, positions, stats, side, mover, to, init, targets, v);
    }
}

/// A move onto a blocked tile, by an entity with a faction, leaves every position
/// as it was; where exactly one fighter of another faction stands there, it adds
/// exactly one melee registration: the mover, after the earlier attackers of
/// that fighter.
pub proof fn lemma_move_into_enemy(
    m: WorldMap,
    players: Map<Entity, Player>,
    factions: Storage<Faction>,
    stats: Map<Entity, CombatStats>,
    blockers: Map<Entity, BlocksTile>,
    viewsheds: Set<Entity>,
    e: Entity,
    to: Point,
    st: MoveState,
    v: Entity,
)
    requires
        factions.slots().len() <= usize::MAX,
        st.1.contains(to),
        factions@.contains_key(e),
        hostile_at(factions@, st.0, stats, factions@[e], to, v),
        forall|c: Entity| #[trigger] hostile_at(factions@, st.0, stats, factions@[e], to, c) ==> c == v,
    ensures
        move_step(m, players, factions, stats, blockers, viewsheds, e, to, st).0 == st.0,
        move_step(m, players, factions, stats, blockers, viewsheds, e, to, st).2 == st.2.insert(
            v,
            (if st.2.contains_key(v) { st.2[v] } else { Seq::empty() }).push(e),
        ),
{
    factions.lemma_entries();
    let cands = keys_of(factions);
    assert forall|i: int, j: int| 0 <= i < cands.len() && 0 <= j < cands.len() && i != j implies cands[i] != cands[j] by {
        if i < j {
            assert(factions.entries()[i].0 < factions.entries()[j].0);
        } else {
            assert(factions.entries()[j].0 < factions.entries()[i].0);
        }
    }
    let k = choose|k: int| 0 <= k < factions.entries().len() && #[trigger] factions.entries()[k].0 == v;
    assert(cands[k] == v);
    lemma_engage_one(factions@, st.0, stats, factions@[e], e, to, cands, st.2, v);
}

/// Resolves every pending move intent, in order of entity; see `move_step`.
/// All intents are cleared.
pub struct MoveResolver;

impl MoveResolver {
    pub fn run(
        &mut self,
        players: &Storage<Player>,
        factions: &Storage<Faction>,
        stats: &Storage<CombatStats>,
        blockers: &Storage<BlocksTile>,
        positions: &mut Storage<Position>,
        movers: &mut Storage<WantsToMove>,
        melee_targets: &mut Storage<TargetedForMelee>,
        viewsheds: &mut Storage<Viewshed>,
        player_pos: &mut Point,
        map: &mut WorldMap,
    )
        requires
            old(map).wf(),
        ensures
            final(movers)@ == Map::<Entity, WantsToMove>::empty(),
            final(map).wf(),
            final(map).same_shape(old(map)),
            ({
                let r = resolve_moves(
                    *old(map),
                    players@,
                    *factions,
                    stats@,
                    blockers@,
                    old(viewsheds)@.dom(),
                    old(movers).entries(),
                    (old(positions)@, blocked_tiles(*old(map)), melee_view(old(melee_targets)@), dirty_views(old(viewsheds)@), *old(player_pos)),
                );
                &&& final(positions)@ == r.0
                &&& forall|p: Point| #[trigger] final(map).in_bounds(p) ==> final(map).tile(p) == (TileState {
                    blocked: r.1.contains(p),
                    ..old(map).tile(p)
                })
                &&& melee_view(final(melee_targets)@) == r.2
                &&& dirty_views(final(viewsheds)@) == r.3
                &&& *final(player_pos) == r.4
            }),
            final(viewsheds)@.dom() == old(viewsheds)@.dom(),
            forall|e: Entity| #[trigger] final(viewsheds)@.contains_key(e) ==> final(viewsheds)@[e].range == old(viewsheds)@[e].range
                && final(viewsheds)@[e].visible@ == old(viewsheds)@[e].visible@,
    {
        let moves = movers.drain();
        let fkeys = factions.keys();
        proof {
            crate::storage::lemma_entries_from(old(movers).slots(), 0);
            factions.lemma_entries();
            crate::storage::lemma_entries_from(factions.slots(), 0);
            assert(fkeys@ =~= keys_of(*factions));
            assert forall|j: int| 0 <= j < fkeys@.len() implies factions@.contains_key(#[trigger] fkeys@[j])
                && fkeys@[j] < usize::MAX by {
                assert(fkeys@[j] == factions.entries()[j].0);
            }
        }
        let ghost vdom = old(viewsheds)@.dom();
        let ghost init: MoveState = (old(positions)@, blocked_tiles(*old(map)), melee_view(old(melee_targets)@), dirty_views(old(viewsheds)@), *old(player_pos));
        let mut k: usize = 0;
        while k < moves.len()
            invariant
                k <= moves@.len(),
                moves@ == old(movers).entries(),
                forall|j: int| 0 <= j < moves@.len() ==> (#[trigger] moves@[j]).0 < old(movers).slots().len(),
                old(movers).slots().len() <= usize::MAX,
                fkeys@ == keys_of(*factions),
                forall|j: int| 0 <= j < fkeys@.len() ==> factions@.contains_key(#[trigger] fkeys@[j]) && fkeys@[j] < usize::MAX,
                movers@ == Map::<Entity, WantsToMove>::empty(),
                map.wf(),
                map.same_shape(old(map)),
                viewsheds@.dom() == vdom,
                forall|e: Entity| #[trigger] viewsheds@.contains_key(e) ==> viewsheds@[e].range == old(viewsheds)@[e].range
                    && viewsheds@[e].visible@ == old(viewsheds)@[e].visible@,
                ({
                    let r = resolve_moves(*old(map), players@, *factions, stats@, blockers@, vdom, moves@.take(k as int), init);
                    &&& positions@ == r.0
                    &&& forall|p: Point| #[trigger] map.in_bounds(p) ==> map.tile(p) == (TileState {
                        blocked: r.1.contains(p),
                        ..old(map).tile(p)
                    })
                    &&& melee_view(melee_targets@) == r.2
                    &&& dirty_views(viewsheds@) == r.3
                    &&& *player_pos == r.4
                }),
            decreases moves@.len() - k,
        {
            let e = moves[k].0;
            let to = moves[k].1.to;
            proof {
                assert(moves@.take(k + 1).drop_last() =~= moves@.take(k as int));
                assert(moves@.take(k + 1).last() == moves@[k as int]);
            }
            let ghost prev = resolve_moves(*old(map), players@, *factions, stats@, blockers@, vdom, moves@.take(k as int), init);
            if map.blocked(to) == Some(false) {
                if let Some(here) = positions.get(e) {
                    let from = here.0;
                    if blockers.contains(e) {
                        let ghost m0 = *map;
                        map.set_blocked(from, false);
                        let ghost m1 = *map;
                        map.set_blocked(to, true);
                        proof {
                            assert forall|p: Point| #[trigger] map.in_bounds(p) implies map.tile(p) == (TileState {
                                blocked: prev.1.remove(from).insert(to).contains(p),
                                ..old(map).tile(p)
                            }) by {
                                assert(m0.in_bounds(p));
                                assert(m1.in_bounds(p));
                            }
                        }
                    }
                    positions.insert(e, Position(to));
                    if let Some(vs) = viewsheds.remove(e) {
                        let mut vs = vs;
                        vs.dirty = true;
                        viewsheds.insert(e, vs);
                        proof {
                            assert(viewsheds@.dom() =~= vdom);
                            assert(dirty_views(viewsheds@) =~= prev.3.insert(e));
                        }
                    }
                    if players.contains(e) {
                        *player_pos = to;
                    }
                }
            } else if let Some(f1) = factions.get(e) {
                let side = *f1;
                let mut j: usize = 0;
                while j < fkeys.len()
                    invariant
                        j <= fkeys@.len(),
                        fkeys@ == keys_of(*factions),
                        forall|i: int| 0 <= i < fkeys@.len() ==> factions@.contains_key(#[trigger] fkeys@[i]),
                        factions@.contains_key(e),
                        side == factions@[e],
                        positions@ == prev.0,
                        melee_view(melee_targets@) == engage(factions@, prev.0, stats@, side, e, to, fkeys@.take(j as int), prev.2),
                        forall|i: int| 0 <= i < fkeys@.len() ==> (#[trigger] fkeys@[i]) < usize::MAX,
                    decreases fkeys@.len() - j,
                {
                    let c = fkeys[j];
                    proof {
                        assert(fkeys@.take(j + 1).drop_last() =~= fkeys@.take(j as int));
                        assert(fkeys@.take(j + 1).last() == fkeys@[j as int]);
                    }
                    let here = positions.get(c);
                    if here.is_some() && here.unwrap().0 == to && stats.contains(c) {
                        let fc = *factions.get(c).unwrap();
                        if fc.0 != side.0 {
                            let ghost mv = melee_view(melee_targets@);
                            TargetedForMelee::target(melee_targets, e, c);
                            proof {
                                assert(melee_view(melee_targets@) =~= mv.insert(
                                    c,
                                    (if mv.contains_key(c) { mv[c] } else { Seq::empty() }).push(e),
                                ));
                            }
                        }
                    }
                    j = j + 1;
                }
                proof {
                    assert(fkeys@.take(fkeys@.len() as int) =~= fkeys@);
                }
            }
            k = k + 1;
        }
        proof {
            assert(moves@.take(moves@.len() as int) =~= moves@);
        }
    }
}

/// Tiles revealed, tiles in view, and hidden entities, as sight goes.
pub type SightState = (Set<Point>, Set<Point>, Set<Entity>);

/// A player that sees `view`: those tiles become revealed and are the only ones
/// in view, and every other entity on the map is hidden exactly when its tile
/// is out of view.
pub open spec fn sight_step(players: Map<Entity, Player>, positions: Map<Entity, Position>, view: Set<Point>, st: SightState) -> SightState {
    (
        st.0.union(view),
        view,
        Set::new(
            |e: Entity|
                if positions.contains_key(e) && !players.contains_key(e) {
                    !view.contains(positions[e].0)
                } else {
                    st.2.contains(e)
                },
        ),
    )
}

/// What the entries of `views` do to the map and the hidden entities, in order:
/// only players on the map whose view is marked for recomputation count.
pub open spec fn resolve_sight(m: WorldMap, players: Map<Entity, Player>, positions: Map<Entity, Position>, views: Seq<(Entity, Viewshed)>, st: SightState) -> SightState
    decreases views.len(),
{
    if views.len() == 0 {
        st
    } else {
        let prev = resolve_sight(m, players, positions, views.drop_last(), st);
        let (e, v) = views.last();
        if v.dirty && positions.contains_key(e) && players.contains_key(e) {
            sight_step(players, positions, field_of_view(m, positions[e].0.x, positions[e].0.y, v.range), prev)
        } else {
            prev
        }
    }
}

pub open spec fn revealed_tiles(m: WorldMap) -> Set<Point> {
    Set::new(|p: Point| m.in_bounds(p) && m.tile(p).revealed)
}

pub open spec fn visible_tiles(m: WorldMap) -> Set<Point> {
    Set::new(|p: Point| m.in_bounds(p) && m.tile(p).visible)
}

/// Recomputes every view marked for it, of entities on the map. A player's new
/// view also becomes the map's visible area, is revealed for good, and decides
/// which other entities are drawn.
pub struct VisibilitySystem;

impl VisibilitySystem {
    pub fn run(
        &mut self,
        players: &Storage<Player>,
        positions: &Storage<Position>,
        viewsheds: &mut Storage<Viewshed>,
        hidden: &mut Storage<crate::components::Hidden>,
        map: &mut WorldMap,
    )
        requires
            old(map).wf(),
        ensures
            final(map).wf(),
            final(map).same_shape(old(map)),
            ({
                let r = resolve_sight(*old(map), players@, positions@, old(viewsheds).entries(), (revealed_tiles(*old(map)), visible_tiles(*old(map)), old(hidden)@.dom()));
                &&& forall|p: Point| #[trigger] final(map).in_bounds(p) ==> final(map).tile(p) == (TileState {
                    revealed: r.0.contains(p),
                    visible: r.1.contains(p),
                    ..old(map).tile(p)
                })
                &&& final(hidden)@.dom() == r.2
            }),
            final(viewsheds)@.dom() == old(viewsheds)@.dom(),
            forall|e: Entity| #[trigger] final(viewsheds)@.contains_key(e) ==> {
                let v = old(viewsheds)@[e];
                let w = final(viewsheds)@[e];
                &&& w.range == v.range
                &&& if v.dirty && positions@.contains_key(e) {
                    &&& !w.dirty
                    &&& w.visible@.no_duplicates()
                    &&& w.visible@.to_set() == field_of_view(*old(map), positions@[e].0.x, positions@[e].0.y, v.range)
                } else {
                    w.dirty == v.dirty && w.visible@ == v.visible@
                }
            },
    {
        let keys = viewsheds.keys();
        let pkeys = positions.keys();
        proof {
            viewsheds.lemma_entries();
            lemma_entries_below(viewsheds);
            positions.lemma_entries();
            lemma_entries_below(positions);
            assert forall|j: int| 0 <= j < keys@.len() implies old(viewsheds)@.contains_key(#[trigger] keys@[j])
                && keys@[j] < usize::MAX && old(viewsheds)@[keys@[j]] == old(viewsheds).entries()[j].1 by {
                assert(keys@[j] == viewsheds.entries()[j].0);
            }
            assert forall|i: int, j: int| 0 <= i < j < keys@.len() implies keys@[i] != keys@[j] by {
                assert(keys@[i] == viewsheds.entries()[i].0);
                assert(keys@[j] == viewsheds.entries()[j].0);
            }
            assert forall|j: int| 0 <= j < pkeys@.len() implies positions@.contains_key(#[trigger] pkeys@[j]) && pkeys@[j] < usize::MAX by {
                assert(pkeys@[j] == positions.entries()[j].0);
            }
            assert forall|e: Entity| #[trigger] positions@.contains_key(e) implies exists|j: int| 0 <= j < pkeys@.len() && pkeys@[j] == e by {
                let j = choose|j: int| 0 <= j < positions.entries().len() && #[trigger] positions.entries()[j].0 == e;
                assert(pkeys@[j] == e);
            }
            assert forall|e: Entity| #[trigger] old(viewsheds)@.contains_key(e) implies exists|j: int| 0 <= j < keys@.len() && keys@[j] == e by {
                let j = choose|j: int| 0 <= j < viewsheds.entries().len() && #[trigger] viewsheds.entries()[j].0 == e;
                assert(keys@[j] == e);
            }
        }
        let ghost views = old(viewsheds).entries();
        let ghost init: SightState = (revealed_tiles(*old(map)), visible_tiles(*old(map)), old(hidden)@.dom());
        let mut k: usize = 0;
        while k < keys.len()
            invariant
                k <= keys@.len(),
                keys@.len() == views.len(),
                views == old(viewsheds).entries(),
                forall|j: int| 0 <= j < keys@.len() ==> keys@[j] == #[trigger] views[j].0,
                forall|j: int| 0 <= j < keys@.len() ==> old(viewsheds)@.contains_key(#[trigger] keys@[j])
                    && keys@[j] < usize::MAX && old(viewsheds)@[keys@[j]] == views[j].1,
                forall|i: int, j: int| 0 <= i < j < keys@.len() ==> keys@[i] != keys@[j],
                forall|e: Entity| #[trigger] old(viewsheds)@.contains_key(e) ==> exists|j: int| 0 <= j < keys@.len() && keys@[j] == e,
                forall|j: int| 0 <= j < pkeys@.len() ==> positions@.contains_key(#[trigger] pkeys@[j]) && pkeys@[j] < usize::MAX,
                forall|e: Entity| #[trigger] positions@.contains_key(e) ==> exists|j: int| 0 <= j < pkeys@.len() && pkeys@[j] == e,
                map.wf(),
                map.same_shape(old(map)),
                same_layout(*map, *old(map)),
                viewsheds@.dom() == old(viewsheds)@.dom(),
                forall|e: Entity| #[trigger] viewsheds@.contains_key(e) ==> {
                    let v = old(viewsheds)@[e];
                    let w = viewsheds@[e];
                    &&& w.range == v.range
                    &&& if v.dirty && positions@.contains_key(e) && exists|j: int| 0 <= j < k && keys@[j] == e {
                        &&& !w.dirty
                        &&& w.visible@.no_duplicates()
                        &&& w.visible@.to_set() == field_of_view(*old(map), positions@[e].0.x, positions@[e].0.y, v.range)
                    } else {
                        w.dirty == v.dirty && w.visible@ == v.visible@
                    }
                },
                ({
                    let r = resolve_sight(*old(map), players@, positions@, views.take(k as int), init);
                    &&& forall|p: Point| #[trigger] map.in_bounds(p) ==> map.tile(p) == (TileState {
                        revealed: r.0.contains(p),
                        visible: r.1.contains(p),
                        ..old(map).tile(p)
                    })
                    &&& hidden@.dom() == r.2
                }),
            decreases keys@.len() - k,
        {
            let e = keys[k];
            proof {
                assert(views.take(k + 1).drop_last() =~= views.take(k as int));
                assert(views.take(k + 1).last() == views[k as int]);
                assert(keys@[k as int] == e);
            }
            let ghost prev = resolve_sight(*old(map), players@, positions@, views.take(k as int), init);
            let ghost vs_old = old(viewsheds)@[e];
            let ghost map0 = *map;
            proof {
                assert(views[k as int].1 == vs_old);
                let r = resolve_sight(*old(map), players@, positions@, views.take(k + 1), init);
                if vs_old.dirty && positions@.contains_key(e) && players@.contains_key(e) {
                    assert(r == sight_step(players@, positions@, field_of_view(*old(map), positions@[e].0.x, positions@[e].0.y, vs_old.range), prev));
                } else {
                    assert(r == prev);
                }
            }
            assert(viewsheds@.contains_key(e));
            assert(!(exists|j: int| 0 <= j < k && keys@[j] == e));
            if let Some(here) = positions.get(e) {
                let pos = here.0;
                let mut vs = viewsheds.remove(e).unwrap();
                if vs.dirty {
                    let vis = ShadowcastFoV::run(map, pos.x, pos.y, vs.range);
                    proof {
                        lemma_field_of_view_layout(*map, *old(map), pos.x, pos.y, vs.range);
                        crate::fov::lemma_field_of_view_bounds(*old(map), pos.x, pos.y, vs.range);
                    }
                    let ghost view = field_of_view(*old(map), pos.x, pos.y, vs.range);
                    if players.contains(e) {
                        let ghost mid = *map;
                        self.show(players, positions, &pkeys, &vis, hidden, map, Ghost(prev), Ghost(view));
                        proof {
                            assert forall|p: Point| #[trigger] map.in_bounds(p) implies map.tile(p).kind == old(map).tile(p).kind by {
                                assert(mid.in_bounds(p));
                            }
                        }
                    }
                    vs.visible = vis;
                    vs.dirty = false;
                }
                viewsheds.insert(e, vs);
            }
            proof {
                let r = resolve_sight(*old(map), players@, positions@, views.take(k + 1), init);
                assert(hidden@.dom() == r.2);
                assert forall|p: Point| #[trigger] map.in_bounds(p) implies map.tile(p) == (TileState {
                    revealed: r.0.contains(p),
                    visible: r.1.contains(p),
                    ..old(map).tile(p)
                }) by {
                    assert(map0.in_bounds(p));
                }
                assert(viewsheds@.dom() =~= old(viewsheds)@.dom());
                assert forall|f: Entity| #[trigger] viewsheds@.contains_key(f) implies {
                    let v = old(viewsheds)@[f];
                    let w = viewsheds@[f];
                    &&& w.range == v.range
                    &&& if v.dirty && positions@.contains_key(f) && exists|j: int| 0 <= j < k + 1 && keys@[j] == f {
                        &&& !w.dirty
                        &&& w.visible@.no_duplicates()
                        &&& w.visible@.to_set() == field_of_view(*old(map), positions@[f].0.x, positions@[f].0.y, v.range)
                    } else {
                        w.dirty == v.dirty && w.visible@ == v.visible@
                    }
                } by {
                    if f != e {
                        if exists|j: int| 0 <= j < k + 1 && keys@[j] == f {
                            let j = choose|j: int| 0 <= j < k + 1 && keys@[j] == f;
                            assert(j < k);
                        }
                    } else {
                        assert(keys@[k as int] == f);
                    }
                }
            }
            k = k + 1;
        }
        proof {
            assert(views.take(keys@.len() as int) =~= views);
            assert forall|e: Entity| #[trigger] viewsheds@.contains_key(e) implies {
                let v = old(viewsheds)@[e];
                let w = viewsheds@[e];
                &&& w.range == v.range
                &&& if v.dirty && positions@.contains_key(e) {
                    &&& !w.dirty
                    &&& w.visible@.no_duplicates()
                    &&& w.visible@.to_set() == field_of_view(*old(map), positions@[e].0.x, positions@[e].0.y, v.range)
                } else {
                    w.dirty == v.dirty && w.visible@ == v.visible@
                }
            } by {
                assert(old(viewsheds)@.contains_key(e));
            }
        }
    }

    /// Makes `vis` the player's view on the map and decides which other entities
    /// are drawn.
    fn show(
        &mut self,
        players: &Storage<Player>,
        positions: &Storage<Position>,
        pkeys: &Vec<Entity>,
        vis: &Vec<Point>,
        hidden: &mut Storage<crate::components::Hidden>,
        map: &mut WorldMap,
        prev: Ghost<SightState>,
        view: Ghost<Set<Point>>,
    )
        requires
            old(map).wf(),
            vis@.to_set() == view@,
            forall|p: Point| #[trigger] view@.contains(p) ==> old(map).in_bounds(p),
            forall|j: int| 0 <= j < pkeys@.len() ==> positions@.contains_key(#[trigger] pkeys@[j]) && pkeys@[j] < usize::MAX,
            forall|e: Entity| #[trigger] positions@.contains_key(e) ==> exists|j: int| 0 <= j < pkeys@.len() && pkeys@[j] == e,
            old(hidden)@.dom() == prev@.2,
            forall|p: Point| #[trigger] old(map).in_bounds(p) ==> old(map).tile(p).revealed == prev@.0.contains(p),
        ensures
            final(map).wf(),
            final(map).same_shape(old(map)),
            same_layout(*final(map), *old(map)),
            ({
                let r = sight_step(players@, positions@, view@, prev@);
                &&& forall|p: Point| #[trigger] final(map).in_bounds(p) ==> final(map).tile(p) == (TileState {
                    revealed: r.0.contains(p),
                    visible: r.1.contains(p),
                    ..old(map).tile(p)
                })
                &&& final(hidden)@.dom() == r.2
            }),
    {
        map.clear_visibility();
        let mut j: usize = 0;
        while j < vis.len()
            invariant
                j <= vis@.len(),
                map.wf(),
                map.same_shape(old(map)),
                forall|p: Point| #[trigger] map.in_bounds(p) ==> map.tile(p) == (TileState {
                    revealed: old(map).tile(p).revealed || exists|i: int| 0 <= i < j && vis@[i] == p,
                    visible: exists|i: int| 0 <= i < j && vis@[i] == p,
                    ..old(map).tile(p)
                }),
            decreases vis@.len() - j,
        {
            let pt = vis[j];
            let ghost before = *map;
            map.mark_revealed(pt);
            let ghost mid = *map;
            map.set_visible(pt, true);
            proof {
                assert forall|p: Point| #[trigger] map.in_bounds(p) implies map.tile(p) == (TileState {
                    revealed: old(map).tile(p).revealed || exists|i: int| 0 <= i < j + 1 && vis@[i] == p,
                    visible: exists|i: int| 0 <= i < j + 1 && vis@[i] == p,
                    ..old(map).tile(p)
                }) by {
                    assert(before.in_bounds(p) && mid.in_bounds(p));
                    if p == pt {
                        assert(vis@[j as int] == p);
                    } else {
                        if exists|i: int| 0 <= i < j + 1 && vis@[i] == p {
                            let i = choose|i: int| 0 <= i < j + 1 && vis@[i] == p;
                            assert(i < j);
                        }
                    }
                }
            }
            j = j + 1;
        }
        let mut j: usize = 0;
        while j < pkeys.len()
            invariant
                j <= pkeys@.len(),
                vis@.to_set() == view@,
                forall|i: int| 0 <= i < pkeys@.len() ==> positions@.contains_key(#[trigger] pkeys@[i]) && pkeys@[i] < usize::MAX,
                forall|f: Entity| #[trigger] hidden@.contains_key(f) == (
                    if positions@.contains_key(f) && !players@.contains_key(f) && exists|i: int| 0 <= i < j && pkeys@[i] == f {
                        !view@.contains(positions@[f].0)
                    } else {
                        prev@.2.contains(f)
                    }),
            decreases pkeys@.len() - j,
        {
            let f = pkeys[j];
            let ghost before = hidden@;
            if !players.contains(f) {
                let there = positions.get(f).unwrap().0;
                assert(vis@.to_set().contains(there) == vis@.contains(there));
                if crate::geometry::contains_point(vis, there) {
                    hidden.remove(f);
                } else {
                    hidden.insert(f, crate::components::Hidden);
                }
            }
            proof {
                assert forall|g: Entity| #[trigger] hidden@.contains_key(g) == (
                    if positions@.contains_key(g) && !players@.contains_key(g) && exists|i: int| 0 <= i < j + 1 && pkeys@[i] == g {
                        !view@.contains(positions@[g].0)
                    } else {
                        prev@.2.contains(g)
                    }) by {
                    if g == f {
                        assert(pkeys@[j as int] == g);
                        if players@.contains_key(f) {
                            assert(hidden@ == before);
                        }
                    } else {
                        assert(hidden@.contains_key(g) == before.contains_key(g));
                        if exists|i: int| 0 <= i < j + 1 && pkeys@[i] == g {
                            let i = choose|i: int| 0 <= i < j + 1 && pkeys@[i] == g;
                            assert(i < j);
                        }
                    }
                }
            }
            j = j + 1;
        }
        proof {
            let r = sight_step(players@, positions@, view@, prev@);
            assert forall|p: Point| #[trigger] map.in_bounds(p) implies map.tile(p) == (TileState {
                revealed: r.0.contains(p),
                visible: r.1.contains(p),
                ..old(map).tile(p)
            }) by {
                assert(old(map).in_bounds(p));
                assert(vis@.to_set().contains(p) == vis@.contains(p));
                if vis@.contains(p) {
                    let i = choose|i: int| 0 <= i < vis@.len() && vis@[i] == p;
                    assert(vis@.to_set().contains(p));
                }
                if view@.contains(p) {
                    assert(vis@.to_set().contains(p));
                    assert(vis@.contains(p));
                }
            }
            assert(hidden@.dom() =~= r.2) by {
                assert forall|g: Entity| hidden@.dom().contains(g) == r.2.contains(g) by {
                    if positions@.contains_key(g) && !players@.contains_key(g) {
                        let i = choose|i: int| 0 <= i < pkeys@.len() && pkeys@[i] == g;
                    }
                }
            }
        }
    }
}

proof fn lemma_entries_below<T>(s: &Storage<T>)
    requires
        s.slots().len() <= usize::MAX,
    ensures
        forall|j: int| 0 <= j < s.entries().len() ==> (#[trigger] s.entries()[j]).0 < usize::MAX,
{
    crate::storage::lemma_entries_from(s.slots(), 0);
    assert forall|j: int| 0 <= j < s.entries().len() implies (#[trigger] s.entries()[j]).0 < usize::MAX by {
        assert(s.entries()[j].0 < s.slots().len());
    }
}

} // verus!
