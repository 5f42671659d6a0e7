//! Picking up, using and dropping items.

use vstd::prelude::*;

use crate::components::{
    CombatStats, Consumable, Entity, HealsUser, Hidden, InBackpack, Name, Position, WantsToDropItem,
    WantsToPickUp, WantsToUseItem,
};
use crate::ecs::{CombatLog, Entities, LogEntry, LogView};
use crate::storage::Storage;

verus! {

/// The name of `e`, or `fallback` where it has none.
pub open spec fn name_or(names: Map<Entity, Name>, e: Entity, fallback: Seq<char>) -> Seq<char> {
    if names.contains_key(e) {
        names[e].0@
    } else {
        fallback
    }
}

fn name_or_item(names: &Storage<Name>, e: Entity) -> (r: String)
    ensures
        r@ == name_or(names@, e, "item"@),
{
    match names.get(e) {
        Some(n) => n.0.clone(),
        None => {
            proof {
                reveal_strlit("item");
            }
            String::from_str("item")
        },
    }
}

/// Positions, hidden entities, backpack contents and log, as pick-ups go.
pub type PickUpState = (Map<Entity, Position>, Set<Entity>, Map<Entity, InBackpack>, Seq<LogView>);

/// `who` picks up `what`: the item leaves the map, is hidden, and goes into the
/// backpack of `who`. Where both have names, the pick-up is logged. `usize::MAX`,
/// which no entity can be, is passed over.
pub open spec fn pick_up(names: Map<Entity, Name>, who: Entity, what: Entity, st: PickUpState) -> PickUpState {
    if what == usize::MAX {
        st
    } else {
        pick_up_item(names, who, what, st)
    }
}

pub open spec fn pick_up_item(names: Map<Entity, Name>, who: Entity, what: Entity, st: PickUpState) -> PickUpState {
    (
        st.0.remove(what),
        st.1.insert(what),
        st.2.insert(what, InBackpack { owner: who }),
        if names.contains_key(who) && names.contains_key(what) {
            st.3.push(LogView::PickUp(names[who].0@, names[what].0@))
        } else {
            st.3
        },
    )
}

/// Picking up an item takes it off the map, hides it, and puts it in the
/// backpack of whoever picked it up.
pub proof fn lemma_pick_up_hides(names: Map<Entity, Name>, who: Entity, what: Entity, st: PickUpState)
    requires
        what != usize::MAX,
    ensures
        !pick_up(names, who, what, st).0.contains_key(what),
        pick_up(names, who, what, st).1.contains(what),
        pick_up(names, who, what, st).2[what] == (InBackpack { owner: who }),
{
}

pub open spec fn resolve_pick_ups(names: Map<Entity, Name>, intents: Seq<(Entity, WantsToPickUp)>, st: PickUpState) -> PickUpState
    decreases intents.len(),
{
    if intents.len() == 0 {
        st
    } else {
        let prev = resolve_pick_ups(names, intents.drop_last(), st);
        pick_up(names, intents.last().0, intents.last().1.what, prev)
    }
}

/// Resolves every intent to pick something up, in order of entity; see `pick_up`.
pub struct PickUpSystem;

impl PickUpSystem {
    pub fn run(
        &mut self,
        names: &Storage<Name>,
        pickers: &mut Storage<WantsToPickUp>,
        carried: &mut Storage<InBackpack>,
        positions: &mut Storage<Position>,
        hidden: &mut Storage<Hidden>,
        log: &mut CombatLog,
    )
        ensures
            final(pickers)@ == Map::<Entity, WantsToPickUp>::empty(),
            (final(positions)@, final(hidden)@.dom(), final(carried)@, final(log)@) == resolve_pick_ups(
                names@,
                old(pickers).entries(),
                (old(positions)@, old(hidden)@.dom(), old(carried)@, old(log)@),
            ),
    {
        let intents = pickers.drain();
        let mut k: usize = 0;
        while k < intents.len()
            invariant
                k <= intents@.len(),
                intents@ == old(pickers).entries(),
                pickers@ == Map::<Entity, WantsToPickUp>::empty(),
                (positions@, hidden@.dom(), carried@, log@) == resolve_pick_ups(
                    names@,
                    intents@.take(k as int),
                    (old(positions)@, old(hidden)@.dom(), old(carried)@, old(log)@),
                ),
            decreases intents@.len() - k,
        {
            let (who, intent) = intents[k];
            let what = intent.what;
            proof {
                assert(intents@.take(k + 1).drop_last() =~= intents@.take(k as int));
                assert(intents@.take(k + 1).last() == intents@[k as int]);
            }
            if what < usize::MAX {
                positions.remove(what);
                let ghost h0 = hidden@.dom();
                hidden.insert(what, Hidden);
                assert(hidden@.dom() =~= h0.insert(what));
                carried.insert(what, InBackpack { owner: who });
                if names.contains(who) && names.contains(what) {
                    let a = names.get(who).unwrap().0.clone();
                    let b = names.get(what).unwrap().0.clone();
                    log.push(LogEntry::PickUp { who: a, what: b });
                }
            }
            k = k + 1;
        }
        proof {
            assert(intents@.take(intents@.len() as int) =~= intents@);
        }
    }
}

/// `hp` healed by `amount`, capped at `max_hp`, and kept from going below
/// `i32::MIN`.
pub open spec fn healed(hp: i32, max_hp: i32, amount: i32) -> i32 {
    let v = if max_hp < hp + amount { max_hp as int } else { hp + amount };
    if v < i32::MIN {
        i32::MIN
    } else {
        v as i32
    }
}

/// Statistics, log and entities used up, as item use goes.
pub type UseState = (Map<Entity, CombatStats>, Seq<LogView>, Set<Entity>);

/// `who` uses `what`. A healing item heals a user with statistics by its amount,
/// up to the user's maximum, which is logged. A consumable item is used up.
pub open spec fn use_item(
    names: Map<Entity, Name>,
    consumables: Map<Entity, Consumable>,
    healing: Map<Entity, HealsUser>,
    who: Entity,
    what: Entity,
    st: UseState,
) -> UseState {
    let st1 = if st.0.contains_key(who) && healing.contains_key(what) {
        let s = st.0[who];
        (
            st.0.insert(who, CombatStats { hp: healed(s.hp, s.max_hp, healing[what].amount), ..s }),
            st.1.push(LogView::Heal(name_or(names, what, "item"@), healing[what].amount)),
            st.2,
        )
    } else {
        st
    };
    if consumables.contains_key(what) {
        (st1.0, st1.1, st1.2.insert(what))
    } else {
        st1
    }
}

pub open spec fn resolve_uses(
    names: Map<Entity, Name>,
    consumables: Map<Entity, Consumable>,
    healing: Map<Entity, HealsUser>,
    intents: Seq<(Entity, WantsToUseItem)>,
    st: UseState,
) -> UseState
    decreases intents.len(),
{
    if intents.len() == 0 {
        st
    } else {
        let prev = resolve_uses(names, consumables, healing, intents.drop_last(), st);
        use_item(names, consumables, healing, intents.last().0, intents.last().1.what, prev)
    }
}

/// Resolves every intent to use an item, in order of entity; see `use_item`.
pub struct ItemUsageResolver;

impl ItemUsageResolver {
    pub fn run(
        &mut self,
        entities: &mut Entities,
        names: &Storage<Name>,
        consumables: &Storage<Consumable>,
        healing: &Storage<HealsUser>,
        users: &mut Storage<WantsToUseItem>,
        stats: &mut Storage<CombatStats>,
        log: &mut CombatLog,
    )
        ensures
            final(users)@ == Map::<Entity, WantsToUseItem>::empty(),
            ({
                let r = resolve_uses(names@, consumables@, healing@, old(users).entries(), (old(stats)@, old(log)@, Set::empty()));
                &&& final(stats)@ == r.0
                &&& final(log)@ == r.1
                &&& final(entities).doomed() == old(entities).doomed().union(r.2)
                &&& forall|f: Entity| final(entities).is_alive(f) == (old(entities).is_alive(f) && !r.2.contains(f))
            }),
            final(entities).count() == old(entities).count(),
    {
        let intents = users.drain();
        proof {
            crate::storage::lemma_entries_from(old(users).slots(), 0);
        }
        let mut k: usize = 0;
        while k < intents.len()
            invariant
                k <= intents@.len(),
                intents@ == old(users).entries(),
                old(users).slots().len() <= usize::MAX,
                forall|j: int| 0 <= j < intents@.len() ==> (#[trigger] intents@[j]).0 < old(users).slots().len(),
                users@ == Map::<Entity, WantsToUseItem>::empty(),
                ({
                    let r = resolve_uses(names@, consumables@, healing@, intents@.take(k as int), (old(stats)@, old(log)@, Set::empty()));
                    &&& stats@ == r.0
                    &&& log@ == r.1
                    &&& entities.doomed() == old(entities).doomed().union(r.2)
                    &&& forall|f: Entity| entities.is_alive(f) == (old(entities).is_alive(f) && !r.2.contains(f))
                }),
                entities.count() == old(entities).count(),
            decreases intents@.len() - k,
        {
            let (who, intent) = intents[k];
            let what = intent.what;
            proof {
                assert(intents@.take(k + 1).drop_last() =~= intents@.take(k as int));
                assert(intents@.take(k + 1).last() == intents@[k as int]);
                assert(who < usize::MAX);
            }
            let ghost prev = resolve_uses(names@, consumables@, healing@, intents@.take(k as int), (old(stats)@, old(log)@, Set::empty()));
            if stats.contains(who) && healing.contains(what) {
                let s = *stats.get(who).unwrap();
                let amount = healing.get(what).unwrap().amount;
                let raised: i64 = s.hp as i64 + amount as i64;
                let capped: i64 = if (s.max_hp as i64) < raised { s.max_hp as i64 } else { raised };
                let hp: i32 = if capped < i32::MIN as i64 { i32::MIN } else { capped as i32 };
                stats.insert(who, CombatStats { hp, ..s });
                let item = name_or_item(names, what);
                log.push(LogEntry::Heal { item, amount });
            }
            if consumables.contains(what) {
                let ghost d0 = entities.doomed();
                entities.delete(what);
                proof {
                    assert(entities.doomed() =~= old(entities).doomed().union(d0.difference(old(entities).doomed()).insert(what))) by {
                        assert(d0 =~= old(entities).doomed().union(prev.2));
                    }
                }
            }
            proof {
                let r = resolve_uses(names@, consumables@, healing@, intents@.take(k + 1), (old(stats)@, old(log)@, Set::empty()));
                if consumables@.contains_key(what) {
                    assert(entities.doomed() =~= old(entities).doomed().union(r.2));
                }
            }
            k = k + 1;
        }
        proof {
            assert(intents@.take(intents@.len() as int) =~= intents@);
        }
    }
}

/// Positions, hidden entities, backpack contents and log, as drops go.
pub type DropState = (Map<Entity, Position>, Set<Entity>, Map<Entity, InBackpack>, Seq<LogView>);

/// `who`, standing at `at`, drops `what`: the item leaves the backpack, is no
/// longer hidden, and lies at `at`; the drop is logged. `usize::MAX`, which no
/// entity can be, is passed over.
pub open spec fn drop_item(names: Map<Entity, Name>, what: Entity, at: Position, st: DropState) -> DropState {
    if what == usize::MAX {
        st
    } else {
        (st.0.insert(what, at), st.1.remove(what), st.2.remove(what), st.3.push(LogView::Drop(name_or(names, what, "item"@))))
    }
}

/// The drops of `intents`, in order; only entities that stand on the map at the
/// start (in `origin`) can drop anything.
pub open spec fn resolve_drops(names: Map<Entity, Name>, origin: Map<Entity, Position>, intents: Seq<(Entity, WantsToDropItem)>, st: DropState) -> DropState
    decreases intents.len(),
{
    if intents.len() == 0 {
        st
    } else {
        let prev = resolve_drops(names, origin, intents.drop_last(), st);
        let (who, intent) = intents.last();
        if origin.contains_key(who) {
            drop_item(names, intent.what, origin[who], prev)
        } else {
            prev
        }
    }
}

/// Resolves every intent to drop an item, in order of entity; see `drop_item`.
pub struct ItemDropResolver;

impl ItemDropResolver {
    pub fn run(
        &mut self,
        names: &Storage<Name>,
        droppers: &mut Storage<WantsToDropItem>,
        positions: &mut Storage<Position>,
        carried: &mut Storage<InBackpack>,
        hidden: &mut Storage<Hidden>,
        log: &mut CombatLog,
    )
        ensures
            final(droppers)@ == Map::<Entity, WantsToDropItem>::empty(),
            (final(positions)@, final(hidden)@.dom(), final(carried)@, final(log)@) == resolve_drops(
                names@,
                old(positions)@,
                old(droppers).entries(),
                (old(positions)@, old(hidden)@.dom(), old(carried)@, old(log)@),
            ),
    {
        let intents = droppers.drain();
        // Where each dropper stands, before anything moves.
        let mut spots: Vec<Option<Position>> = Vec::new();
        let mut k: usize = 0;
        while k < intents.len()
            invariant
                k <= intents@.len(),
                spots@.len() == k,
                *positions == *old(positions),
                forall|j: int| 0 <= j < k ==> #[trigger] spots@[j] == (if old(positions)@.contains_key(intents@[j].0) {
                    Some(old(positions)@[intents@[j].0])
                } else {
                    None::<Position>
                }),
            decreases intents@.len() - k,
        {
            let who = intents[k].0;
            let spot = match positions.get(who) {
                Some(p) => Some(*p),
                None => None,
            };
            spots.push(spot);
            k = k + 1;
        }
        let mut k: usize = 0;
        while k < intents.len()
            invariant
                k <= intents@.len(),
                intents@ == old(droppers).entries(),
                spots@.len() == intents@.len(),
                forall|j: int| 0 <= j < intents@.len() ==> #[trigger] spots@[j] == (if old(positions)@.contains_key(intents@[j].0) {
                    Some(old(positions)@[intents@[j].0])
                } else {
                    None::<Position>
                }),
                droppers@ == Map::<Entity, WantsToDropItem>::empty(),
                (positions@, hidden@.dom(), carried@, log@) == resolve_drops(
                    names@,
                    old(positions)@,
                    intents@.take(k as int),
                    (old(positions)@, old(hidden)@.dom(), old(carried)@, old(log)@),
                ),
            decreases intents@.len() - k,
        {
            let what = intents[k].1.what;
            proof {
                assert(intents@.take(k + 1).drop_last() =~= intents@.take(k as int));
                assert(intents@.take(k + 1).last() == intents@[k as int]);
                assert(spots@[k as int] == spots@[k as int]);
            }
            if let Some(at) = spots[k] {
                if what < usize::MAX {
                    carried.remove(what);
                    let ghost h0 = hidden@.dom();
                    hidden.remove(what);
                    assert(hidden@.dom() =~= h0.remove(what));
                    positions.insert(what, at);
                    let item = name_or_item(names, what);
                    log.push(LogEntry::Drop { item });
                }
            }
            k = k + 1;
        }
        proof {
            assert(intents@.take(intents@.len() as int) =~= intents@);
        }
    }
}

} // verus!
