//! What the player's key presses ask for.

use vstd::prelude::*;

use crate::components::{
    ActsOnTurns, Entity, InBackpack, Name, Pickable, Player, Position, WantsToDropItem, WantsToMove,
    WantsToPickUp, WantsToUseItem,
};
use crate::ecs::{CombatLog, LogEntry, LogView};
use crate::geometry::Point;
use crate::movement::keys_of;
use crate::storage::Storage;

verus! {

/// A direction of movement on the grid; north is up, toward larger `y`.
#[derive(Clone, Copy, Debug, PartialEq, Eq, Hash, Structural)]
pub enum Direction {
    N,
    W,
    S,
    E,
    NW,
    SW,
    SE,
    NE,
}

/// The offset of one step in `d`.
pub open spec fn step_of(d: Direction) -> (int, int) {
    match d {
        Direction::N => (0, 1),
        Direction::W => (-1, 0),
        Direction::S => (0, -1),
        Direction::E => (1, 0),
        Direction::NW => (-1, 1),
        Direction::SW => (-1, -1),
        Direction::SE => (1, -1),
        Direction::NE => (1, 1),
    }
}

fn delta(d: Direction) -> (r: (i32, i32))
    ensures
        r.0 == step_of(d).0,
        r.1 == step_of(d).1,
{
    match d {
        Direction::N => (0, 1),
        Direction::W => (-1, 0),
        Direction::S => (0, -1),
        Direction::E => (1, 0),
        Direction::NW => (-1, 1),
        Direction::SW => (-1, -1),
        Direction::SE => (1, -1),
        Direction::NE => (1, 1),
    }
}

/// The actions a key can be bound to.
#[derive(Clone, Copy, Debug, PartialEq, Eq, Hash, Structural)]
pub enum ActionBinding {
    Move(Direction),
    PickUp,
    OpenInventory,
    DropItem,
    Cancel,
}

/// What the player means to do with the item chosen in the inventory.
#[derive(Clone, Copy, Debug, PartialEq, Eq, Structural)]
pub enum Intent {
    UseItem,
    DropItem,
}

/// How the screen changes after an input.
#[derive(Clone, Copy, Debug, PartialEq, Eq, Structural)]
pub enum Transition {
    /// Stay where we are.
    Stay,
    /// Open the inventory to choose an item for the given purpose.
    OpenInventory(Intent),
    /// Close the inventory.
    Close,
}

/// The first entity of `cands` that satisfies `pred`.
pub open spec fn first_match(cands: Seq<Entity>, pred: spec_fn(Entity) -> bool) -> Option<Entity>
    decreases cands.len(),
{
    if cands.len() == 0 {
        None
    } else if pred(cands[0]) {
        Some(cands[0])
    } else {
        first_match(cands.drop_first(), pred)
    }
}

proof fn lemma_first_match(cands: Seq<Entity>, pred: spec_fn(Entity) -> bool)
    ensures
        first_match(cands, pred) is Some ==> cands.contains(first_match(cands, pred)->0) && pred(
            first_match(cands, pred)->0,
        ),
    decreases cands.len(),
{
    if cands.len() > 0 {
        lemma_first_match(cands.drop_first(), pred);
        let r = first_match(cands, pred);
        if r is Some && !pred(cands[0]) {
            let i = choose|i: int| 0 <= i < cands.drop_first().len() && cands.drop_first()[i] == r->0;
            assert(cands[i + 1] == r->0);
        }
    }
}

/// Finds the first entity of `keys` that satisfies `pred`, given a test that
/// decides it.
fn find_first<T>(keys: &Vec<Entity>, store: &Storage<T>, other: &Storage<Position>, pred: Ghost<spec_fn(Entity) -> bool>, at: Option<Point>) -> (r: Option<Entity>)
    requires
        forall|e: Entity| #[trigger] pred@(e) == (store@.contains_key(e) && other@.contains_key(e) && (at is Some ==> other@[e].0 == at->0)),
    ensures
        r == first_match(keys@, pred@),
{
    let mut j: usize = 0;
    assert(keys@.skip(0) =~= keys@);
    while j < keys.len()
        invariant
            j <= keys@.len(),
            first_match(keys@, pred@) == first_match(keys@.skip(j as int), pred@),
            forall|e: Entity| #[trigger] pred@(e) == (store@.contains_key(e) && other@.contains_key(e) && (at is Some ==> other@[e].0 == at->0)),
        decreases keys@.len() - j,
    {
        let e = keys[j];
        proof {
            assert(keys@.skip(j as int).drop_first() =~= keys@.skip(j + 1));
            assert(keys@.skip(j as int)[0] == e);
        }
        if store.contains(e) {
            match other.get(e) {
                Some(p) => {
                    let here = match at {
                        Some(q) => p.0 == q,
                        None => true,
                    };
                    if here {
                        return Some(e);
                    }
                },
                None => {},
            }
        }
        j = j + 1;
    }
    assert(keys@.skip(j as int).len() == 0);
    None
}

/// The entity the player controls: the player of lowest index that acts in turns
/// and stands on the map.
pub open spec fn controlled(players: Storage<Player>, actors: Map<Entity, ActsOnTurns>, positions: Map<Entity, Position>) -> Option<Entity> {
    first_match(keys_of(players), |e: Entity| actors.contains_key(e) && positions.contains_key(e))
}

/// The item the player would pick up at `p`: the pickable entity of lowest index
/// lying there.
pub open spec fn item_at(pickables: Storage<Pickable>, positions: Map<Entity, Position>, p: Point) -> Option<Entity> {
    first_match(keys_of(pickables), |e: Entity| pickables@.contains_key(e) && positions.contains_key(e) && positions[e].0 == p)
}

/// Turns the player's key presses into intents during play.
pub struct RunStateInputDispatcher;

impl RunStateInputDispatcher {
    /// Handles one action of the player. Nothing happens unless the player
    /// entity can act; otherwise the action spends its action point. A move asks
    /// to step in its direction (where the step stays on the grid); a pick-up asks
    /// for the item lying on the player's tile, or logs that there is none; the
    /// inventory actions open the inventory for use or for dropping.
    pub fn handle(
        &mut self,
        players: &Storage<Player>,
        positions: &Storage<Position>,
        pickables: &Storage<Pickable>,
        actors: &mut Storage<ActsOnTurns>,
        movers: &mut Storage<WantsToMove>,
        pickers: &mut Storage<WantsToPickUp>,
        log: &mut CombatLog,
        action: ActionBinding,
    ) -> (r: Transition)
        ensures
            ({
                let who = controlled(*players, old(actors)@, positions@);
                if who is None || old(actors)@[who->0].ap == 0 {
                    &&& r == Transition::Stay
                    &&& final(actors)@ == old(actors)@
                    &&& final(movers)@ == old(movers)@
                    &&& final(pickers)@ == old(pickers)@
                    &&& final(log)@ == old(log)@
                } else {
                    let e = who->0;
                    let here = positions@[e].0;
                    &&& final(actors)@ == old(actors)@.insert(e, ActsOnTurns { ap: (old(actors)@[e].ap - 1) as u32 })
                    &&& r == match action {
                        ActionBinding::OpenInventory => Transition::OpenInventory(Intent::UseItem),
                        ActionBinding::DropItem => Transition::OpenInventory(Intent::DropItem),
                        _ => Transition::Stay,
                    }
                    &&& final(movers)@ == match action {
                        ActionBinding::Move(d) => if 0 <= here.x + step_of(d).0 <= u32::MAX && 0 <= here.y + step_of(d).1 <= u32::MAX {
                            old(movers)@.insert(e, WantsToMove { to: Point { x: (here.x + step_of(d).0) as u32, y: (here.y + step_of(d).1) as u32 } })
                        } else {
                            old(movers)@
                        },
                        _ => old(movers)@,
                    }
                    &&& final(pickers)@ == match action {
                        ActionBinding::PickUp => match item_at(*pickables, positions@, here) {
                            Some(what) => old(pickers)@.insert(e, WantsToPickUp { what }),
                            None => old(pickers)@,
                        },
                        _ => old(pickers)@,
                    }
                    &&& final(log)@ == match action {
                        ActionBinding::PickUp => match item_at(*pickables, positions@, here) {
                            Some(_) => old(log)@,
                            None => old(log)@.push(LogView::NothingToPickUp),
                        },
                        _ => old(log)@,
                    }
                }
            }),
    {
        let pkeys = players.keys();
        proof {
            assert(pkeys@ =~= keys_of(*players));
            crate::storage::lemma_entries_from(players.slots(), 0);
        }
        let ghost is_ctl = |e: Entity| actors@.contains_key(e) && positions@.contains_key(e);
        let who = find_first(&pkeys, actors, positions, Ghost(is_ctl), None);
        let e = match who {
            Some(e) => e,
            None => {
                return Transition::Stay;
            },
        };
        proof {
            lemma_first_match(pkeys@, is_ctl);
            let i = choose|i: int| 0 <= i < pkeys@.len() && pkeys@[i] == e;
            assert(pkeys@[i] == players.entries()[i].0);
        }
        let mut a = *actors.get(e).unwrap();
        if !a.perform() {
            return Transition::Stay;
        }
        actors.insert(e, a);
        let here = positions.get(e).unwrap().0;
        match action {
            ActionBinding::Move(d) => {
                let (dx, dy) = delta(d);
                if let Some(to) = here.checked_translate(dx, dy) {
                    movers.insert(e, WantsToMove { to });
                }
                Transition::Stay
            },
            ActionBinding::PickUp => {
                let ikeys = pickables.keys();
                proof {
                    assert(ikeys@ =~= keys_of(*pickables));
                }
                let ghost lies_here = |i: Entity| pickables@.contains_key(i) && positions@.contains_key(i) && positions@[i].0 == here;
                let found = find_first(&ikeys, pickables, positions, Ghost(lies_here), Some(here));
                match found {
                    Some(what) => {
                        pickers.insert(e, WantsToPickUp { what });
                    },
                    None => {
                        log.push(LogEntry::NothingToPickUp);
                    },
                }
                Transition::Stay
            },
            ActionBinding::OpenInventory => Transition::OpenInventory(Intent::UseItem),
            ActionBinding::DropItem => Transition::OpenInventory(Intent::DropItem),
            ActionBinding::Cancel => Transition::Stay,
        }
    }
}

/// The inventory screen: the player's items, and what choosing one does.
pub struct InventoryState {
    pub intent: Intent,
    pub item_list: Vec<(Entity, String)>,
}

impl InventoryState {
    /// An inventory screen for the given purpose, not yet filled.
    pub fn new(intent: Intent) -> (r: InventoryState)
        ensures
            r.intent == intent,
            r.item_list@.len() == 0,
    {
        InventoryState { intent, item_list: Vec::new() }
    }

    /// Lists the named items held by a player, in order of entity.
    pub fn on_start(&mut self, players: &Storage<Player>, carried: &Storage<InBackpack>, names: &Storage<Name>)
        ensures
            final(self).intent == old(self).intent,
            forall|k: int| 0 <= k < final(self).item_list@.len() ==> {
                let (item, name) = #[trigger] final(self).item_list@[k];
                &&& carried@.contains_key(item)
                &&& players@.contains_key(carried@[item].owner)
                &&& names@.contains_key(item)
                &&& name@ == names@[item].0@
            },
            forall|item: Entity| #[trigger] carried@.contains_key(item) && players@.contains_key(carried@[item].owner)
                && names@.contains_key(item) ==> exists|k: int| 0 <= k < final(self).item_list@.len() && final(self).item_list@[k].0 == item,
    {
        let keys = carried.keys();
        proof {
            carried.lemma_entries();
        }
        let mut list: Vec<(Entity, String)> = Vec::new();
        let mut k: usize = 0;
        while k < keys.len()
            invariant
                k <= keys@.len(),
                keys@.len() == carried.entries().len(),
                forall|j: int| 0 <= j < keys@.len() ==> keys@[j] == #[trigger] carried.entries()[j].0,
                forall|j: int| 0 <= j < carried.entries().len() ==> carried@.contains_key(#[trigger] carried.entries()[j].0),
                forall|i: Entity| #[trigger] carried@.contains_key(i) ==> exists|j: int| 0 <= j < carried.entries().len() && #[trigger] carried.entries()[j].0 == i,
                forall|j: int| 0 <= j < list@.len() ==> {
                    let (item, name) = #[trigger] list@[j];
                    &&& carried@.contains_key(item)
                    &&& players@.contains_key(carried@[item].owner)
                    &&& names@.contains_key(item)
                    &&& name@ == names@[item].0@
                },
                forall|j: int| 0 <= j < k ==> {
                    let item = #[trigger] keys@[j];
                    (players@.contains_key(carried@[item].owner) && names@.contains_key(item)) ==> exists|i: int|
                        0 <= i < list@.len() && list@[i].0 == item
                },
            decreases keys@.len() - k,
        {
            let item = keys[k];
            assert(keys@[k as int] == carried.entries()[k as int].0);
            let owner = carried.get(item).unwrap().owner;
            if players.contains(owner) {
                if let Some(n) = names.get(item) {
                    let ghost before = list@;
                    list.push((item, n.0.clone()));
                    proof {
                        assert forall|j: int| 0 <= j < k + 1 implies {
                            let it = #[trigger] keys@[j];
                            (players@.contains_key(carried@[it].owner) && names@.contains_key(it)) ==> exists|i: int|
                                0 <= i < list@.len() && list@[i].0 == it
                        } by {
                            if j < k {
                                let it = keys@[j];
                                if players@.contains_key(carried@[it].owner) && names@.contains_key(it) {
                                    let i = choose|i: int| 0 <= i < before.len() && before[i].0 == it;
                                    assert(list@[i] == before[i]);
                                }
                            } else {
                                assert(list@[before.len() as int].0 == item);
                            }
                        }
                    }
                }
            }
            k = k + 1;
        }
        let ghost l = list@;
        self.item_list = list;
        proof {
            assert(self.item_list@ == l);
            assert forall|item: Entity| #[trigger] carried@.contains_key(item) && players@.contains_key(carried@[item].owner)
                && names@.contains_key(item) implies exists|k: int| 0 <= k < self.item_list@.len() && self.item_list@[k].0 == item by {
                let j = choose|j: int| 0 <= j < carried.entries().len() && #[trigger] carried.entries()[j].0 == item;
                assert(keys@[j] == item);
                let i = choose|i: int| 0 <= i < l.len() && l[i].0 == item;
                assert(self.item_list@[i].0 == item);
            }
        }
    }

    /// Chooses the item at `index` of the list. The first player, where there is
    /// one, then asks to use or drop it, and the inventory closes. An index past
    /// the list does nothing.
    pub fn select(
        &self,
        index: usize,
        players: &Storage<Player>,
        users: &mut Storage<WantsToUseItem>,
        droppers: &mut Storage<WantsToDropItem>,
    ) -> (r: Transition)
        ensures
            ({
                let who = first_match(keys_of(*players), |e: Entity| true);
                if index >= self.item_list@.len() || who is None {
                    r == Transition::Stay && final(users)@ == old(users)@ && final(droppers)@ == old(droppers)@
                } else {
                    let what = self.item_list@[index as int].0;
                    &&& r == Transition::Close
                    &&& final(users)@ == if self.intent == Intent::UseItem {
                        old(users)@.insert(who->0, WantsToUseItem { what })
                    } else {
                        old(users)@
                    }
                    &&& final(droppers)@ == if self.intent == Intent::DropItem {
                        old(droppers)@.insert(who->0, WantsToDropItem { what })
                    } else {
                        old(droppers)@
                    }
                }
            }),
    {
        if index >= self.item_list.len() {
            return Transition::Stay;
        }
        let what = self.item_list[index].0;
        let keys = players.keys();
        proof {
            assert(keys@ =~= keys_of(*players));
            crate::storage::lemma_entries_from(players.slots(), 0);
        }
        if keys.len() == 0 {
            return Transition::Stay;
        }
        let player = keys[0];
        proof {
            assert(player == players.entries()[0].0);
            assert(player < usize::MAX);
        }
        match self.intent {
            Intent::UseItem => {
                users.insert(player, WantsToUseItem { what });
            },
            Intent::DropItem => {
                droppers.insert(player, WantsToDropItem { what });
            },
        }
        Transition::Close
    }
}

} // verus!
