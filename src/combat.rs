//! Turn order, melee resolution and damage.

use vstd::prelude::*;

use crate::components::{ActsOnTurns, CombatStats, Entity, Name, Player, SuffersDamage, TargetedForMelee};
use crate::ecs::{CombatLog, Entities, LogEntry, LogView};
use crate::storage::Storage;

verus! {

impl TargetedForMelee {
    /// The attackers registered against `e` in `store`, in order.
    pub open spec fn attackers(store: Map<Entity, TargetedForMelee>, e: Entity) -> Seq<Entity> {
        if store.contains_key(e) {
            store[e].by@
        } else {
            Seq::empty()
        }
    }

    /// Registers `attacker` as targeting `victim` in melee, after any earlier
    /// attackers of this turn.
    pub fn target(store: &mut Storage<TargetedForMelee>, attacker: Entity, victim: Entity)
        requires
            victim < usize::MAX,
        ensures
            final(store)@ == old(store)@.insert(victim, final(store)@[victim]),
            final(store)@[victim].by@ == TargetedForMelee::attackers(old(store)@, victim).push(attacker),
    {
        let entry = match store.remove(victim) {
            Some(t) => {
                let mut by = t.by;
                by.push(attacker);
                TargetedForMelee { by }
            },
            None => {
                let mut by: Vec<Entity> = Vec::new();
                by.push(attacker);
                assert(by@ =~= Seq::<Entity>::empty().push(attacker));
                TargetedForMelee { by }
            },
        };
        store.insert(victim, entry);
        assert(store@ =~= old(store)@.insert(victim, store@[victim]));
    }
}

impl SuffersDamage {
    /// The damage pending for `e` in `store`; zero where there is none.
    pub open spec fn pending(store: Map<Entity, SuffersDamage>, e: Entity) -> int {
        if store.contains_key(e) {
            store[e].damage as int
        } else {
            0
        }
    }

    /// Adds `amount` to the damage `who` is due to suffer, saturating at `u32::MAX`.
    pub fn damage(store: &mut Storage<SuffersDamage>, who: Entity, amount: u32)
        requires
            who < usize::MAX,
        ensures
            final(store)@ == old(store)@.insert(
                who,
                SuffersDamage { damage: capped(SuffersDamage::pending(old(store)@, who) + amount) },
            ),
    {
        let before: u32 = match store.get(who) {
            Some(d) => d.damage,
            None => 0,
        };
        let total = before.saturating_add(amount);
        store.insert(who, SuffersDamage { damage: total });
    }
}

/// `v` capped at `u32::MAX`.
pub open spec fn capped(v: int) -> u32 {
    if v > u32::MAX {
        u32::MAX
    } else {
        v as u32
    }
}

/// Which side may act.
#[derive(Clone, Copy, Debug, PartialEq, Eq, Structural)]
pub enum Turn {
    Player,
    Others,
}

/// Whether some member of a side (the player's where `player_side`, the others'
/// otherwise) still has an action point.
pub open spec fn side_can_act(actors: Map<Entity, ActsOnTurns>, players: Map<Entity, Player>, player_side: bool) -> bool {
    exists|e: Entity| #[trigger] actors.contains_key(e) && players.contains_key(e) == player_side && actors[e].ap > 0
}

/// Only members of the side whose turn it is have action points.
pub open spec fn only_live_side_acts(current: Turn, actors: Map<Entity, ActsOnTurns>, players: Map<Entity, Player>) -> bool {
    forall|e: Entity| #[trigger] actors.contains_key(e) && actors[e].ap > 0 ==> (players.contains_key(e) == (current == Turn::Player))
}

/// Spending action points never lets the side that is waiting act.
pub proof fn lemma_spending_keeps_turn(current: Turn, actors: Map<Entity, ActsOnTurns>, players: Map<Entity, Player>, e: Entity, after: ActsOnTurns)
    requires
        only_live_side_acts(current, actors, players),
        actors.contains_key(e),
        after.ap <= actors[e].ap,
    ensures
        only_live_side_acts(current, actors.insert(e, after), players),
{
    assert forall|f: Entity| #[trigger] actors.insert(e, after).contains_key(f) && actors.insert(e, after)[f].ap > 0 implies (players.contains_key(f) == (current == Turn::Player)) by {
        if f != e {
            assert(actors.contains_key(f) && actors[f].ap > 0);
        } else {
            assert(actors[e].ap > 0);
        }
    }
}

/// What one run of the turn order does: nothing while the live side can act;
/// otherwise every member of the other side gets one action point and the turn
/// passes to it.
pub open spec fn turn_step(current: Turn, actors: Map<Entity, ActsOnTurns>, players: Map<Entity, Player>) -> (Turn, Map<Entity, ActsOnTurns>) {
    let live = current == Turn::Player;
    if side_can_act(actors, players, live) {
        (current, actors)
    } else {
        (
            if live { Turn::Others } else { Turn::Player },
            Map::new(
                |e: Entity| actors.contains_key(e),
                |e: Entity| if players.contains_key(e) != live { ActsOnTurns { ap: 1 } } else { actors[e] },
            ),
        )
    }
}

/// Once the side whose turn it is has spent its action points, the turn passes:
/// each member of the other side then holds exactly one action point and each
/// member of the side that just played holds none, so neither side can act twice
/// before the other has acted.
pub proof fn lemma_turn_passes(current: Turn, actors: Map<Entity, ActsOnTurns>, players: Map<Entity, Player>)
    requires
        only_live_side_acts(current, actors, players),
        !side_can_act(actors, players, current == Turn::Player),
    ensures
        turn_step(current, actors, players).0 != current,
        forall|e: Entity| #[trigger] turn_step(current, actors, players).1.contains_key(e) ==> turn_step(current, actors, players).1[e].ap == (
            if players.contains_key(e) == (current == Turn::Player) { 0u32 } else { 1u32 }),
        only_live_side_acts(turn_step(current, actors, players).0, turn_step(current, actors, players).1, players),
{
    let live = current == Turn::Player;
    assert forall|e: Entity| #[trigger] actors.contains_key(e) && players.contains_key(e) == live implies actors[e].ap == 0 by {
        if actors[e].ap > 0 {
            assert(side_can_act(actors, players, live));
        }
    }
}

/// Alternates turns between the player's side and everybody else.
pub struct TurnSystem {
    current: Turn,
}

impl TurnSystem {
    /// The player's side moves first.
    pub fn new() -> (r: TurnSystem)
        ensures
            r.turn() == Turn::Player,
    {
        TurnSystem { current: Turn::Player }
    }

    pub closed spec fn turn(&self) -> Turn {
        self.current
    }

    /// Whose turn it is.
    pub fn current(&self) -> (r: Turn)
        ensures
            r == self.turn(),
    {
        self.current
    }

    /// While a member of the live side has an action point, nothing happens.
    /// Once none has, every member of the other side gets exactly one action point
    /// and the turn passes to it. A side with no member never holds the turn.
    pub fn run(&mut self, actors: &mut Storage<ActsOnTurns>, players: &Storage<Player>)
        ensures
            ({
                let live = old(self).turn() == Turn::Player;
                if side_can_act(old(actors)@, players@, live) {
                    final(self).turn() == old(self).turn() && final(actors)@ == old(actors)@
                } else {
                    &&& final(self).turn() == (if live { Turn::Others } else { Turn::Player })
                    &&& final(actors)@.dom() == old(actors)@.dom()
                    &&& forall|e: Entity| #[trigger] final(actors)@.contains_key(e) ==> final(actors)@[e] == (
                    if players@.contains_key(e) != live {
                        ActsOnTurns { ap: 1 }
                    } else {
                        old(actors)@[e]
                    })
                }
            }),
            only_live_side_acts(old(self).turn(), old(actors)@, players@) ==> only_live_side_acts(
                final(self).turn(),
                final(actors)@,
                players@,
            ),
            (final(self).turn(), final(actors)@) == turn_step(old(self).turn(), old(actors)@, players@),
    {
        let live = self.current == Turn::Player;
        let keys = actors.keys();
        proof {
            actors.lemma_entries();
            lemma_entries_below_max(actors);
            assert forall|j: int| 0 <= j < keys@.len() implies old(actors)@.contains_key(#[trigger] keys@[j])
                && keys@[j] < usize::MAX by {
                assert(keys@[j] == actors.entries()[j].0);
            }
            assert forall|i: int, j: int| 0 <= i < j < keys@.len() implies keys@[i] < keys@[j] by {
                assert(keys@[i] == actors.entries()[i].0);
                assert(keys@[j] == actors.entries()[j].0);
            }
            assert forall|e: Entity| #[trigger] old(actors)@.contains_key(e) implies exists|j: int| 0 <= j < keys@.len() && keys@[j] == e by {
                let j = choose|j: int| 0 <= j < actors.entries().len() && #[trigger] actors.entries()[j].0 == e;
                assert(keys@[j] == e);
            }
        }
        let mut k: usize = 0;
        while k < keys.len()
            invariant
                *actors == *old(actors),
                self.current == old(self).current,
                live == (self.current == Turn::Player),
                k <= keys@.len(),
                keys@.len() == actors.entries().len(),
                forall|j: int| 0 <= j < keys@.len() ==> keys@[j] == #[trigger] actors.entries()[j].0,
                forall|j: int| 0 <= j < k ==> !(#[trigger] players@.contains_key(actors.entries()[j].0) == live
                    && actors@[actors.entries()[j].0].ap > 0),
                forall|j: int| 0 <= j < actors.entries().len() ==> actors@.contains_key(#[trigger] actors.entries()[j].0)
                    && actors@[actors.entries()[j].0] == actors.entries()[j].1,
            decreases keys@.len() - k,
        {
            let e = keys[k];
            assert(keys@[k as int] == actors.entries()[k as int].0);
            assert(actors@.contains_key(e));
            let a = *actors.get(e).unwrap();
            if players.contains(e) == live && a.can_act() {
                assert(actors@.contains_key(e) && players@.contains_key(e) == live && actors@[e].ap > 0);
                assert(side_can_act(actors@, players@, live));
                return;
            }
            k = k + 1;
        }
        proof {
            assert forall|e: Entity| #[trigger] actors@.contains_key(e) && players@.contains_key(e) == live implies !(actors@[e].ap > 0) by {
                let j = choose|j: int| 0 <= j < actors.entries().len() && #[trigger] actors.entries()[j].0 == e;
                assert(players@.contains_key(actors.entries()[j].0) == live);
            }
        }
        let ghost before = actors@;
        let mut k: usize = 0;
        while k < keys.len()
            invariant
                k <= keys@.len(),
                keys@.len() == old(actors).entries().len(),
                forall|j: int| 0 <= j < keys@.len() ==> keys@[j] == #[trigger] old(actors).entries()[j].0,
                forall|i: int, j: int| 0 <= i < j < keys@.len() ==> keys@[i] < keys@[j],
                forall|j: int| 0 <= j < keys@.len() ==> old(actors)@.contains_key(#[trigger] keys@[j]) && keys@[j] < usize::MAX,
                forall|e: Entity| #[trigger] old(actors)@.contains_key(e) ==> exists|j: int| 0 <= j < keys@.len() && keys@[j] == e,
                before == old(actors)@,
                actors@.dom() == before.dom(),
                forall|e: Entity| #[trigger] actors@.contains_key(e) ==> actors@[e] == (
                    if players@.contains_key(e) != live && exists|j: int| 0 <= j < k && keys@[j] == e {
                        ActsOnTurns { ap: 1 }
                    } else {
                        before[e]
                    }),
            decreases keys@.len() - k,
        {
            let e = keys[k];
            if players.contains(e) != live {
                let ghost mid = actors@;
                actors.insert(e, ActsOnTurns { ap: 1 });
                assert(actors@.dom() =~= mid.dom());
            }
            proof {
                assert forall|f: Entity| #[trigger] actors@.contains_key(f) implies actors@[f] == (
                    if players@.contains_key(f) != live && exists|j: int| 0 <= j < k + 1 && keys@[j] == f {
                        ActsOnTurns { ap: 1 }
                    } else {
                        before[f]
                    }) by {
                    if f == e {
                        assert(keys@[k as int] == f);
                    } else {
                        if exists|j: int| 0 <= j < k + 1 && keys@[j] == f {
                            let j = choose|j: int| 0 <= j < k + 1 && keys@[j] == f;
                            assert(j < k);
                        }
                    }
                }
            }
            k = k + 1;
        }
        self.current = if live { Turn::Others } else { Turn::Player };
        proof {
            assert forall|e: Entity| #[trigger] actors@.contains_key(e) implies actors@[e] == (
                if players@.contains_key(e) != live {
                    ActsOnTurns { ap: 1 }
                } else {
                    before[e]
                }) by {
                if players@.contains_key(e) != live {
                    let j = choose|j: int| 0 <= j < keys@.len() && keys@[j] == e;
                }
            }
        }
    }
}

/// Whether `e` has both a name and combat statistics.
pub open spec fn fighter(names: Map<Entity, Name>, stats: Map<Entity, CombatStats>, e: Entity) -> bool {
    names.contains_key(e) && stats.contains_key(e)
}

/// The damage one melee blow deals: power minus defense, or nothing.
pub open spec fn blow(attacker: CombatStats, defender: CombatStats) -> int {
    if attacker.power - defender.defense > 0 {
        attacker.power - defender.defense
    } else {
        0
    }
}

/// The pending damage and the log, as melee resolution goes.
pub type MeleeState = (Map<Entity, SuffersDamage>, Seq<LogView>);

/// One blow of `a` against `d`: a hit adds its damage to what `d` is due to
/// suffer and is logged; a blow that deals nothing is logged as a miss. An
/// attacker without a name or statistics does nothing.
pub open spec fn strike(names: Map<Entity, Name>, stats: Map<Entity, CombatStats>, d: Entity, a: Entity, st: MeleeState) -> MeleeState {
    if !fighter(names, stats, a) {
        st
    } else {
        let dmg = blow(stats[a], stats[d]);
        if dmg > 0 {
            (
                st.0.insert(d, SuffersDamage { damage: capped(SuffersDamage::pending(st.0, d) + dmg) }),
                st.1.push(LogView::Hit(names[a].0@, names[d].0@, dmg as u32)),
            )
        } else {
            (st.0, st.1.push(LogView::Miss(names[a].0@, names[d].0@)))
        }
    }
}

/// A blow deals exactly the attacker's power minus the defender's defense when
/// that is positive, adding it to the pending damage; otherwise it is logged as
/// a miss and no damage is recorded.
pub proof fn lemma_strike_outcome(names: Map<Entity, Name>, stats: Map<Entity, CombatStats>, d: Entity, a: Entity, st: MeleeState)
    requires
        fighter(names, stats, a),
    ensures
        stats[a].power - stats[d].defense > 0 ==> strike(names, stats, d, a, st).0 == st.0.insert(
            d,
            SuffersDamage { damage: capped(SuffersDamage::pending(st.0, d) + stats[a].power - stats[d].defense) },
        ),
        stats[a].power - stats[d].defense <= 0 ==> strike(names, stats, d, a, st) == (
            st.0,
            st.1.push(LogView::Miss(names[a].0@, names[d].0@)),
        ),
{
}

/// The blows of `by`, in order, against `d`.
pub open spec fn strikes(names: Map<Entity, Name>, stats: Map<Entity, CombatStats>, d: Entity, by: Seq<Entity>, st: MeleeState) -> MeleeState
    decreases by.len(),
{
    if by.len() == 0 {
        st
    } else {
        strike(names, stats, d, by.last(), strikes(names, stats, d, by.drop_last(), st))
    }
}

/// Melee resolution of the targeted entities in `targets`, in order; a defender
/// without a name or statistics is passed over.
pub open spec fn resolve_melee(names: Map<Entity, Name>, stats: Map<Entity, CombatStats>, targets: Seq<(Entity, TargetedForMelee)>, st: MeleeState) -> MeleeState
    decreases targets.len(),
{
    if targets.len() == 0 {
        st
    } else {
        let prev = resolve_melee(names, stats, targets.drop_last(), st);
        let (d, t) = targets.last();
        if fighter(names, stats, d) {
            strikes(names, stats, d, t.by@, prev)
        } else {
            prev
        }
    }
}

/// Resolves melee combat: every targeted entity receives, for each attacker,
/// the attacker's power minus its defense as pending damage when that is
/// positive; each blow is logged as a hit or a miss. All targets are cleared.
pub struct MeleeCombatResolver;

impl MeleeCombatResolver {
    pub fn run(
        &mut self,
        names: &Storage<Name>,
        stats: &Storage<CombatStats>,
        melee_targets: &mut Storage<TargetedForMelee>,
        damage: &mut Storage<SuffersDamage>,
        log: &mut CombatLog,
    )
        ensures
            final(melee_targets)@ == Map::<Entity, TargetedForMelee>::empty(),
            (final(damage)@, final(log)@) == resolve_melee(
                names@,
                stats@,
                old(melee_targets).entries(),
                (old(damage)@, old(log)@),
            ),
    {
        let targets = melee_targets.drain();
        proof {
            lemma_entries_below_max(old(melee_targets));
        }
        let mut k: usize = 0;
        while k < targets.len()
            invariant
                k <= targets@.len(),
                targets@ == old(melee_targets).entries(),
                forall|j: int| 0 <= j < targets@.len() ==> (#[trigger] targets@[j]).0 < usize::MAX,
                (damage@, log@) == resolve_melee(names@, stats@, targets@.take(k as int), (old(damage)@, old(log)@)),
            decreases targets@.len() - k,
        {
            let d = targets[k].0;
            proof {
                assert(targets@.take(k + 1).drop_last() =~= targets@.take(k as int));
                assert(targets@.take(k + 1).last() == targets@[k as int]);
            }
            let ghost prev = (damage@, log@);
            if names.contains(d) && stats.contains(d) {
                let by = &targets[k].1.by;
                let def_name = names.get(d).unwrap();
                let def_stats = *stats.get(d).unwrap();
                let mut j: usize = 0;
                while j < by.len()
                    invariant
                        j <= by@.len(),
                        d < usize::MAX,
                        names@.contains_key(d),
                        *def_name == names@[d],
                        def_stats == stats@[d],
                        (damage@, log@) == strikes(names@, stats@, d, by@.take(j as int), prev),
                    decreases by@.len() - j,
                {
                    let a = by[j];
                    proof {
                        assert(by@.take(j + 1).drop_last() =~= by@.take(j as int));
                        assert(by@.take(j + 1).last() == by@[j as int]);
                    }
                    if names.contains(a) && stats.contains(a) {
                        let atk_stats = *stats.get(a).unwrap();
                        let atk_name = names.get(a).unwrap();
                        let raw: i64 = atk_stats.power as i64 - def_stats.defense as i64;
                        if raw > 0 {
                            let dmg = raw as u32;
                            log.push(LogEntry::Hit { attacker: atk_name.0.clone(), defender: def_name.0.clone(), damage: dmg });
                            SuffersDamage::damage(damage, d, dmg);
                        } else {
                            log.push(LogEntry::Miss { attacker: atk_name.0.clone(), defender: def_name.0.clone() });
                        }
                    }
                    j = j + 1;
                }
                proof {
                    assert(by@.take(by@.len() as int) =~= by@);
                }
            }
            k = k + 1;
        }
        proof {
            assert(targets@.take(targets@.len() as int) =~= targets@);
        }
    }
}

proof fn lemma_entries_below_max<T>(s: &Storage<T>)
    requires
        s.slots().len() <= usize::MAX,
    ensures
        forall|j: int| 0 <= j < s.entries().len() ==> (#[trigger] s.entries()[j]).0 < usize::MAX,
{
    crate::storage::lemma_entries_from(s.slots(), 0);
    assert forall|j: int| 0 <= j < s.entries().len() implies (#[trigger] s.entries()[j]).0 < usize::MAX by {
        assert(s.entries()[j].0 < s.slots().len());
    }
}

/// The statistics, the log and the entities killed, as damage resolution goes.
pub type DamageState = (Map<Entity, CombatStats>, Seq<LogView>, Set<Entity>);

/// `hp - damage`, kept from going below `i32::MIN`.
pub open spec fn hp_after(hp: i32, damage: u32) -> i32 {
    if hp - damage < i32::MIN {
        i32::MIN
    } else {
        (hp - damage) as i32
    }
}

/// `e` suffers `damage`: its hit points drop by that much, and where they reach
/// zero or less it dies; the death of a named entity is logged. An entity
/// without statistics is passed over.
pub open spec fn suffer(names: Map<Entity, Name>, e: Entity, damage: u32, st: DamageState) -> DamageState {
    if !st.0.contains_key(e) {
        st
    } else {
        let hp = hp_after(st.0[e].hp, damage);
        let stats = st.0.insert(e, CombatStats { hp, ..st.0[e] });
        if hp <= 0 {
            (
                stats,
                if names.contains_key(e) { st.1.push(LogView::Dead(names[e].0@)) } else { st.1 },
                st.2.insert(e),
            )
        } else {
            (stats, st.1, st.2)
        }
    }
}

/// Damage resolution of the entries of `pending`, in order.
pub open spec fn resolve_damage(names: Map<Entity, Name>, pending: Seq<(Entity, SuffersDamage)>, st: DamageState) -> DamageState
    decreases pending.len(),
{
    if pending.len() == 0 {
        st
    } else {
        let prev = resolve_damage(names, pending.drop_last(), st);
        suffer(names, pending.last().0, pending.last().1.damage, prev)
    }
}

/// Applies pending damage: each damaged entity with statistics loses that many
/// hit points, and those left with zero or less are deleted. All pending damage
/// is cleared.
pub struct DamageResolver;

impl DamageResolver {
    pub fn run(
        &mut self,
        entities: &mut Entities,
        names: &Storage<Name>,
        damages: &mut Storage<SuffersDamage>,
        stats: &mut Storage<CombatStats>,
        log: &mut CombatLog,
    )
        ensures
            final(damages)@ == Map::<Entity, SuffersDamage>::empty(),
            ({
                let r = resolve_damage(names@, old(damages).entries(), (old(stats)@, old(log)@, Set::empty()));
                &&& final(stats)@ == r.0
                &&& final(log)@ == r.1
                &&& final(entities).doomed() == old(entities).doomed().union(r.2)
                &&& forall|f: Entity| final(entities).is_alive(f) == (old(entities).is_alive(f) && !r.2.contains(f))
            }),
            final(entities).count() == old(entities).count(),
    {
        let pending = damages.drain();
        proof {
            lemma_entries_below_max(old(damages));
        }
        let mut k: usize = 0;
        while k < pending.len()
            invariant
                k <= pending@.len(),
                pending@ == old(damages).entries(),
                forall|j: int| 0 <= j < pending@.len() ==> (#[trigger] pending@[j]).0 < usize::MAX,
                ({
                    let r = resolve_damage(names@, pending@.take(k as int), (old(stats)@, old(log)@, Set::empty()));
                    &&& stats@ == r.0
                    &&& log@ == r.1
                    &&& entities.doomed() == old(entities).doomed().union(r.2)
                    &&& forall|f: Entity| entities.is_alive(f) == (old(entities).is_alive(f) && !r.2.contains(f))
                }),
                entities.count() == old(entities).count(),
            decreases pending@.len() - k,
        {
            let (e, d) = pending[k];
            proof {
                assert(pending@.take(k + 1).drop_last() =~= pending@.take(k as int));
                assert(pending@.take(k + 1).last() == pending@[k as int]);
            }
            let ghost prev = resolve_damage(names@, pending@.take(k as int), (old(stats)@, old(log)@, Set::empty()));
            if stats.contains(e) {
                let s = *stats.get(e).unwrap();
                let raw: i64 = s.hp as i64 - d.damage as i64;
                let hp: i32 = if raw < i32::MIN as i64 { i32::MIN } else { raw as i32 };
                stats.insert(e, CombatStats { hp, ..s });
                if hp <= 0 {
                    if let Some(name) = names.get(e) {
                        log.push(LogEntry::Dead { name: name.0.clone() });
                    }
                    entities.delete(e);
                    proof {
                        assert(entities.doomed() =~= old(entities).doomed().union(prev.2.insert(e)));
                    }
                }
            }
            k = k + 1;
        }
        proof {
            assert(pending@.take(pending@.len() as int) =~= pending@);
        }
    }
}

} // verus!
