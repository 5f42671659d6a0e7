//! What monsters decide on their turn.

use vstd::prelude::*;

use crate::components::{ActsOnTurns, Entity, Faction, Player, Position, TargetedForMelee, Viewshed, WantsToMove};
use crate::geometry::{distance, distance_2d, Point};
use crate::map::WorldMap;
use crate::movement::{keys_of, melee_view};
use crate::path::{a_star_search, astar_route, search_path_exists, step_targets};
use crate::storage::Storage;

verus! {

/// Whether `e` is a monster the AI drives: not the player, with a faction, a view
/// and a place on the map.
pub open spec fn hunter(
    players: Map<Entity, Player>,
    factions: Map<Entity, Faction>,
    viewsheds: Map<Entity, Viewshed>,
    positions: Map<Entity, Position>,
    e: Entity,
) -> bool {
    !players.contains_key(e) && factions.contains_key(e) && viewsheds.contains_key(e) && positions.contains_key(e)
}

/// The first entity of `cands`, in order, that stands on the map, belongs to
/// another faction than `e`, and stands on a tile `e` sees.
pub open spec fn first_prey(
    factions: Map<Entity, Faction>,
    positions: Map<Entity, Position>,
    viewsheds: Map<Entity, Viewshed>,
    e: Entity,
    cands: Seq<Entity>,
) -> Option<Entity>
    decreases cands.len(),
{
    if cands.len() == 0 {
        None
    } else {
        let c = cands[0];
        if positions.contains_key(c) && factions.contains_key(c) && factions[c] != factions[e]
            && viewsheds[e].visible@.contains(positions[c].0) {
            Some(c)
        } else {
            first_prey(factions, positions, viewsheds, e, cands.drop_first())
        }
    }
}

/// The prey of `e` this turn: the visible hostile entity of lowest index.
pub open spec fn prey(
    factions: Storage<Faction>,
    positions: Map<Entity, Position>,
    viewsheds: Map<Entity, Viewshed>,
    e: Entity,
) -> Option<Entity> {
    first_prey(factions@, positions, viewsheds, e, keys_of(factions))
}

/// Whether `e` acts this turn and attacks its prey, which stands next to it.
pub open spec fn strikes_prey(
    players: Map<Entity, Player>,
    factions: Storage<Faction>,
    viewsheds: Map<Entity, Viewshed>,
    positions: Map<Entity, Position>,
    actors: Map<Entity, ActsOnTurns>,
    e: Entity,
) -> bool {
    &&& actors.contains_key(e)
    &&& hunter(players, factions@, viewsheds, positions, e)
    &&& actors[e].ap > 0
    &&& prey(factions, positions, viewsheds, e) is Some
    &&& distance(positions[e].0, positions[prey(factions, positions, viewsheds, e)->0].0) == 1
}

/// Whether `e` acts this turn and chases its prey, which does not stand next to it.
pub open spec fn chases_prey(
    players: Map<Entity, Player>,
    factions: Storage<Faction>,
    viewsheds: Map<Entity, Viewshed>,
    positions: Map<Entity, Position>,
    actors: Map<Entity, ActsOnTurns>,
    e: Entity,
) -> bool {
    &&& actors.contains_key(e)
    &&& hunter(players, factions@, viewsheds, positions, e)
    &&& actors[e].ap > 0
    &&& prey(factions, positions, viewsheds, e) is Some
    &&& distance(positions[e].0, positions[prey(factions, positions, viewsheds, e)->0].0) != 1
}

/// What a chase from `from` toward `to` asks for: the second tile of the path the
/// search finds, where there is one with two tiles or more.
pub open spec fn chase_step(map: WorldMap, from: Point, to: Point) -> Option<Point> {
    let route = astar_route(map.spec_width(), map.spec_height(), map.blocked_grid(), from, to);
    if route is Some && route->0.len() > 1 {
        Some(route->0[1])
    } else {
        None
    }
}

/// The melee targets after the monsters of `order` that strike do so, in order.
pub open spec fn ai_strikes(
    players: Map<Entity, Player>,
    factions: Storage<Faction>,
    viewsheds: Map<Entity, Viewshed>,
    positions: Map<Entity, Position>,
    actors: Map<Entity, ActsOnTurns>,
    order: Seq<Entity>,
    targets: Map<Entity, Seq<Entity>>,
) -> Map<Entity, Seq<Entity>>
    decreases order.len(),
{
    if order.len() == 0 {
        targets
    } else {
        let prev = ai_strikes(players, factions, viewsheds, positions, actors, order.drop_last(), targets);
        let e = order.last();
        if strikes_prey(players, factions, viewsheds, positions, actors, e) {
            let t = prey(factions, positions, viewsheds, e)->0;
            prev.insert(t, (if prev.contains_key(t) { prev[t] } else { Seq::empty() }).push(e))
        } else {
            prev
        }
    }
}

/// Drives the monsters. Each monster that has an action point spends it, and
/// looks for its prey: the hostile entity of lowest index that it sees. A prey
/// next to it (Euclidean distance 1) is targeted in melee; a prey farther away is
/// chased, one step along a path found by the search. Monsters without an
/// action point do nothing.
pub struct MonsterAI;

impl MonsterAI {
    pub fn run(
        &mut self,
        players: &Storage<Player>,
        factions: &Storage<Faction>,
        positions: &Storage<Position>,
        viewsheds: &Storage<Viewshed>,
        actors: &mut Storage<ActsOnTurns>,
        movers: &mut Storage<WantsToMove>,
        melee_targets: &mut Storage<TargetedForMelee>,
        map: &WorldMap,
    )
        requires
            map.wf(),
        ensures
            final(actors)@.dom() == old(actors)@.dom(),
            forall|e: Entity| #[trigger] final(actors)@.contains_key(e) ==> final(actors)@[e] == (
                if hunter(players@, factions@, viewsheds@, positions@, e) && old(actors)@[e].ap > 0 {
                    ActsOnTurns { ap: (old(actors)@[e].ap - 1) as u32 }
                } else {
                    old(actors)@[e]
                }),
            melee_view(final(melee_targets)@) == ai_strikes(
                players@,
                *factions,
                viewsheds@,
                positions@,
                old(actors)@,
                keys_of(*old(actors)),
                melee_view(old(melee_targets)@),
            ),
            forall|e: Entity| !chases_prey(players@, *factions, viewsheds@, positions@, old(actors)@, e) ==> (
                #[trigger] final(movers)@.contains_key(e) == old(movers)@.contains_key(e) && (final(movers)@.contains_key(e)
                    ==> final(movers)@[e] == old(movers)@[e])),
            forall|e: Entity| #[trigger] chases_prey(players@, *factions, viewsheds@, positions@, old(actors)@, e) ==> {
                let from = positions@[e].0;
                let to = positions@[prey(*factions, positions@, viewsheds@, e)->0].0;
                &&& (final(movers)@.contains_key(e) && (!old(movers)@.contains_key(e) || final(movers)@[e] != old(movers)@[e]))
                    ==> step_targets(*map, from, to).contains(final(movers)@[e].to)
                &&& (from != to && search_path_exists(*map, from, to)) ==> final(movers)@.contains_key(e)
                    && step_targets(*map, from, to).contains(final(movers)@[e].to)
                &&& match chase_step(*map, from, to) {
                    Some(step) => final(movers)@.contains_key(e) && final(movers)@[e] == (WantsToMove { to: step }),
                    None => final(movers)@.contains_key(e) == old(movers)@.contains_key(e) && (final(movers)@.contains_key(e)
                        ==> final(movers)@[e] == old(movers)@[e]),
                }
            },
    {
        let keys = actors.keys();
        let fkeys = factions.keys();
        proof {
            actors.lemma_entries();
            crate::storage::lemma_entries_from(actors.slots(), 0);
            factions.lemma_entries();
            assert(fkeys@ =~= keys_of(*factions));
            assert(keys@ =~= keys_of(*actors));
            assert forall|j: int| 0 <= j < keys@.len() implies old(actors)@.contains_key(#[trigger] keys@[j]) && keys@[j] < usize::MAX by {
                assert(keys@[j] == actors.entries()[j].0);
            }
            assert forall|i: int, j: int| 0 <= i < j < keys@.len() implies keys@[i] != keys@[j] by {
                assert(keys@[i] == actors.entries()[i].0);
                assert(keys@[j] == actors.entries()[j].0);
            }
            assert forall|e: Entity| #[trigger] old(actors)@.contains_key(e) implies exists|j: int| 0 <= j < keys@.len() && keys@[j] == e by {
                let j = choose|j: int| 0 <= j < actors.entries().len() && #[trigger] actors.entries()[j].0 == e;
                assert(keys@[j] == e);
            }
            crate::storage::lemma_entries_from(factions.slots(), 0);
            assert forall|j: int| 0 <= j < fkeys@.len() implies factions@.contains_key(#[trigger] fkeys@[j]) && fkeys@[j] < usize::MAX by {
                assert(fkeys@[j] == factions.entries()[j].0);
            }
        }
        let mut k: usize = 0;
        while k < keys.len()
            invariant
                map.wf(),
                k <= keys@.len(),
                keys@ == keys_of(*old(actors)),
                fkeys@ == keys_of(*factions),
                forall|j: int| 0 <= j < keys@.len() ==> old(actors)@.contains_key(#[trigger] keys@[j]) && keys@[j] < usize::MAX,
                forall|i: int, j: int| 0 <= i < j < keys@.len() ==> keys@[i] != keys@[j],
                forall|e: Entity| #[trigger] old(actors)@.contains_key(e) ==> exists|j: int| 0 <= j < keys@.len() && keys@[j] == e,
                forall|j: int| 0 <= j < fkeys@.len() ==> factions@.contains_key(#[trigger] fkeys@[j]) && fkeys@[j] < usize::MAX,
                factions.slots().len() <= usize::MAX,
                actors@.dom() == old(actors)@.dom(),
                forall|e: Entity| #[trigger] actors@.contains_key(e) ==> actors@[e] == (
                    if hunter(players@, factions@, viewsheds@, positions@, e) && old(actors)@[e].ap > 0
                        && exists|j: int| 0 <= j < k && keys@[j] == e {
                        ActsOnTurns { ap: (old(actors)@[e].ap - 1) as u32 }
                    } else {
                        old(actors)@[e]
                    }),
                melee_view(melee_targets@) == ai_strikes(
                    players@,
                    *factions,
                    viewsheds@,
                    positions@,
                    old(actors)@,
                    keys@.take(k as int),
                    melee_view(old(melee_targets)@),
                ),
                forall|e: Entity| !(chases_prey(players@, *factions, viewsheds@, positions@, old(actors)@, e)
                    && exists|j: int| 0 <= j < k && keys@[j] == e) ==> (
                    #[trigger] movers@.contains_key(e) == old(movers)@.contains_key(e) && (movers@.contains_key(e)
                        ==> movers@[e] == old(movers)@[e])),
                forall|e: Entity| #[trigger] chases_prey(players@, *factions, viewsheds@, positions@, old(actors)@, e)
                    && (exists|j: int| 0 <= j < k && keys@[j] == e) ==> {
                    let from = positions@[e].0;
                    let to = positions@[prey(*factions, positions@, viewsheds@, e)->0].0;
                    &&& (movers@.contains_key(e) && (!old(movers)@.contains_key(e) || movers@[e] != old(movers)@[e]))
                        ==> step_targets(*map, from, to).contains(movers@[e].to)
                    &&& (from != to && search_path_exists(*map, from, to)) ==> movers@.contains_key(e)
                        && step_targets(*map, from, to).contains(movers@[e].to)
                    &&& match chase_step(*map, from, to) {
                        Some(step) => movers@.contains_key(e) && movers@[e] == (WantsToMove { to: step }),
                        None => movers@.contains_key(e) == old(movers)@.contains_key(e) && (movers@.contains_key(e)
                            ==> movers@[e] == old(movers)@[e]),
                    }
                },
            decreases keys@.len() - k,
        {
            let e = keys[k];
            proof {
                assert(keys@.take(k + 1).drop_last() =~= keys@.take(k as int));
                assert(keys@.take(k + 1).last() == keys@[k as int]);
                assert(!(exists|j: int| 0 <= j < k && keys@[j] == e));
            }
            let ghost acts0 = actors@;
            let ghost movers0 = movers@;
            let ghost mv0 = melee_view(melee_targets@);
            if !players.contains(e) && factions.contains(e) && viewsheds.contains(e) && positions.contains(e) {
                let mut a = *actors.get(e).unwrap();
                if a.perform() {
                    actors.insert(e, a);
                    assert(actors@.dom() =~= acts0.dom());
                    let side = *factions.get(e).unwrap();
                    let here = positions.get(e).unwrap().0;
                    let vs = viewsheds.get(e).unwrap();
                    // Look for the prey.
                    let mut j: usize = 0;
                    let mut found: Option<Entity> = None;
                    assert(fkeys@.skip(0) =~= fkeys@);
                    while j < fkeys.len() && found.is_none()
                        invariant
                            j <= fkeys@.len(),
                            fkeys@ == keys_of(*factions),
                            factions@.contains_key(e),
                            side == factions@[e],
                            viewsheds@.contains_key(e),
                            *vs == viewsheds@[e],
                            found is None ==> first_prey(factions@, positions@, viewsheds@, e, fkeys@) == first_prey(
                                factions@,
                                positions@,
                                viewsheds@,
                                e,
                                fkeys@.skip(j as int),
                            ),
                            found is Some ==> found == first_prey(factions@, positions@, viewsheds@, e, fkeys@),
                            forall|i: int| 0 <= i < fkeys@.len() ==> factions@.contains_key(#[trigger] fkeys@[i]),
                        decreases fkeys@.len() - j + if found is Some { 0int } else { 1int },
                    {
                        let c = fkeys[j];
                        proof {
                            assert(fkeys@.skip(j as int).drop_first() =~= fkeys@.skip(j + 1));
                            assert(fkeys@.skip(j as int)[0] == c);
                        }
                        match positions.get(c) {
                            Some(p2) => {
                                let fc = *factions.get(c).unwrap();
                                if fc.0 != side.0 && crate::geometry::contains_point(&vs.visible, p2.0) {
                                    found = Some(c);
                                } else {
                                    j = j + 1;
                                }
                            },
                            None => {
                                j = j + 1;
                            },
                        }
                    }
                    proof {
                        if found is None {
                            assert(fkeys@.skip(j as int).len() == 0);
                        }
                    }
                    if let Some(t) = found {
                        proof {
                            lemma_first_prey_in(factions@, positions@, viewsheds@, e, fkeys@);
                        }
                        let there = positions.get(t).unwrap().0;
                        proof {
                            assert(t < usize::MAX) by {
                                assert(fkeys@.contains(t)) by {
                                    lemma_first_prey_in(factions@, positions@, viewsheds@, e, fkeys@);
                                }
                                let i = choose|i: int| 0 <= i < fkeys@.len() && fkeys@[i] == t;
                                assert(factions@.contains_key(fkeys@[i]));
                                lemma_keys_below(factions);
                            }
                        }
                        if distance_2d(here, there) == 1 {
                            TargetedForMelee::target(melee_targets, e, t);
                            proof {
                                assert(melee_view(melee_targets@) =~= mv0.insert(
                                    t,
                                    (if mv0.contains_key(t) { mv0[t] } else { Seq::empty() }).push(e),
                                ));
                            }
                        } else {
                            match a_star_search(map, here, there) {
                                Some(path) => {
                                    if path.len() > 1 {
                                        movers.insert(e, WantsToMove { to: path[1] });
                                        proof {
                                            assert(step_targets(*map, path@[0int], there).contains(path@[0int + 1]));
                                        }
                                    }
                                },
                                None => {},
                            }
                            proof {
                                if here != there && search_path_exists(*map, here, there) {
                                    assert(movers@.contains_key(e));
                                }
                            }
                        }
                    }
                }
            }
            proof {
                assert forall|f: Entity| #[trigger] actors@.contains_key(f) implies actors@[f] == (
                    if hunter(players@, factions@, viewsheds@, positions@, f) && old(actors)@[f].ap > 0
                        && exists|j: int| 0 <= j < k + 1 && keys@[j] == f {
                        ActsOnTurns { ap: (old(actors)@[f].ap - 1) as u32 }
                    } else {
                        old(actors)@[f]
                    }) by {
                    if f != e {
                        if exists|j: int| 0 <= j < k + 1 && keys@[j] == f {
                            let j = choose|j: int| 0 <= j < k + 1 && keys@[j] == f;
                            assert(j < k);
                        }
                    } else {
                        assert(keys@[k as int] == f);
                    }
                }
                assert forall|f: Entity| !(chases_prey(players@, *factions, viewsheds@, positions@, old(actors)@, f)
                    && exists|j: int| 0 <= j < k + 1 && keys@[j] == f) implies (
                    #[trigger] movers@.contains_key(f) == old(movers)@.contains_key(f) && (movers@.contains_key(f)
                        ==> movers@[f] == old(movers)@[f])) by {
                    if f != e {
                        assert(movers@.contains_key(f) == movers0.contains_key(f));
                        if exists|j: int| 0 <= j < k + 1 && keys@[j] == f {
                            let j = choose|j: int| 0 <= j < k + 1 && keys@[j] == f;
                            assert(j < k);
                        }
                    } else {
                        assert(keys@[k as int] == f);
                    }
                }
                assert forall|f: Entity| #[trigger] chases_prey(players@, *factions, viewsheds@, positions@, old(actors)@, f)
                    && (exists|j: int| 0 <= j < k + 1 && keys@[j] == f) implies {
                    let from = positions@[f].0;
                    let to = positions@[prey(*factions, positions@, viewsheds@, f)->0].0;
                    &&& (movers@.contains_key(f) && (!old(movers)@.contains_key(f) || movers@[f] != old(movers)@[f]))
                        ==> step_targets(*map, from, to).contains(movers@[f].to)
                    &&& (from != to && search_path_exists(*map, from, to)) ==> movers@.contains_key(f)
                        && step_targets(*map, from, to).contains(movers@[f].to)
                    &&& match chase_step(*map, from, to) {
                        Some(step) => movers@.contains_key(f) && movers@[f] == (WantsToMove { to: step }),
                        None => movers@.contains_key(f) == old(movers)@.contains_key(f) && (movers@.contains_key(f)
                            ==> movers@[f] == old(movers)@[f]),
                    }
                } by {
                    if f != e {
                        assert(movers@.contains_key(f) == movers0.contains_key(f));
                        let j = choose|j: int| 0 <= j < k + 1 && keys@[j] == f;
                        assert(j < k);
                    } else {
                        assert(keys@[k as int] == f);
                    }
                }
            }
            k = k + 1;
        }
        proof {
            assert(keys@.take(keys@.len() as int) =~= keys@);
        }
    }
}

proof fn lemma_first_prey_in(
    factions: Map<Entity, Faction>,
    positions: Map<Entity, Position>,
    viewsheds: Map<Entity, Viewshed>,
    e: Entity,
    cands: Seq<Entity>,
)
    ensures
        first_prey(factions, positions, viewsheds, e, cands) is Some ==> cands.contains(
            first_prey(factions, positions, viewsheds, e, cands)->0,
        ) && positions.contains_key(first_prey(factions, positions, viewsheds, e, cands)->0),
    decreases cands.len(),
{
    if cands.len() > 0 {
        lemma_first_prey_in(factions, positions, viewsheds, e, cands.drop_first());
        let r = first_prey(factions, positions, viewsheds, e, cands);
        if r is Some && r->0 != cands[0] {
            let i = choose|i: int| 0 <= i < cands.drop_first().len() && cands.drop_first()[i] == r->0;
            assert(cands[i + 1] == r->0);
        }
    }
}

proof fn lemma_keys_below<T>(s: &Storage<T>)
    requires
        s.slots().len() <= usize::MAX,
    ensures
        forall|e: Entity| #[trigger] s@.contains_key(e) ==> e < usize::MAX,
{
    assert forall|e: Entity| #[trigger] s@.contains_key(e) implies e < usize::MAX by {
        assert(e < s.slots().len());
    }
}

} // verus!
