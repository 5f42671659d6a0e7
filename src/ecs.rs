//! Entities, the combat log, and the world that holds every component storage.

use vstd::prelude::*;

use crate::components::{
    ActsOnTurns, BlocksTile, CombatStats, Consumable, Entity, Faction, HealsUser, Hidden, InBackpack,
    Name, Pickable, Player, Position, SuffersDamage, TargetedForMelee, Viewshed, WantsToDropItem,
    WantsToMove, WantsToPickUp, WantsToUseItem,
};
use crate::geometry::Point;
use crate::map::WorldMap;
use crate::storage::Storage;

verus! {

/// The entities that exist. Deleting one only marks it; `World::maintain` then
/// takes its components away.
pub struct Entities {
    alive: Vec<bool>,
    doomed: Vec<Entity>,
}

impl Entities {
    /// Whether `e` was created and not deleted.
    pub closed spec fn is_alive(&self, e: Entity) -> bool {
        e < self.alive@.len() && self.alive@[e as int]
    }

    /// How many entities were ever created.
    pub closed spec fn count(&self) -> nat {
        self.alive@.len()
    }

    /// The entities deleted since the last clean-up.
    pub closed spec fn doomed(&self) -> Set<Entity> {
        self.doomed@.to_set()
    }

    pub fn new() -> (r: Entities)
        ensures
            r.count() == 0,
            r.doomed() == Set::<Entity>::empty(),
    {
        let r = Entities { alive: Vec::new(), doomed: Vec::new() };
        assert(r.doomed@.to_set() =~= Set::<Entity>::empty());
        r
    }

    /// Creates a new entity and returns it.
    pub fn create(&mut self) -> (e: Entity)
        requires
            old(self).count() < usize::MAX - 1,
        ensures
            e == old(self).count(),
            e < usize::MAX - 1,
            final(self).count() == old(self).count() + 1,
            final(self).is_alive(e),
            forall|f: Entity| f != e ==> final(self).is_alive(f) == old(self).is_alive(f),
            final(self).doomed() == old(self).doomed(),
    {
        let e = self.alive.len();
        self.alive.push(true);
        e
    }

    /// How many entities were ever created.
    pub fn count_exec(&self) -> (r: usize)
        ensures
            r == self.count(),
    {
        self.alive.len()
    }

    /// Whether `e` is alive.
    pub fn alive(&self, e: Entity) -> (r: bool)
        ensures
            r == self.is_alive(e),
    {
        e < self.alive.len() && self.alive[e]
    }

    /// Deletes `e`; its components are taken away by the next clean-up.
    pub fn delete(&mut self, e: Entity)
        ensures
            !final(self).is_alive(e),
            forall|f: Entity| f != e ==> final(self).is_alive(f) == old(self).is_alive(f),
            final(self).count() == old(self).count(),
            final(self).doomed() == old(self).doomed().insert(e),
    {
        if e < self.alive.len() {
            self.alive.set(e, false);
        }
        self.doomed.push(e);
        proof {
            old(self).doomed@.lemma_push_to_set_commute(e);
        }
    }

    /// Hands out the entities deleted since the last clean-up, and forgets them.
    fn take_doomed(&mut self) -> (r: Vec<Entity>)
        ensures
            r@.to_set() == old(self).doomed(),
            final(self).doomed() == Set::<Entity>::empty(),
            final(self).count() == old(self).count(),
            forall|f: Entity| final(self).is_alive(f) == old(self).is_alive(f),
    {
        let mut r: Vec<Entity> = Vec::new();
        std::mem::swap(&mut self.doomed, &mut r);
        assert(self.doomed@.to_set() =~= Set::<Entity>::empty());
        r
    }
}

/// A notable event, kept for display.
#[derive(Debug)]
pub enum LogEntry {
    Welcome,
    Hit { attacker: String, defender: String, damage: u32 },
    Miss { attacker: String, defender: String },
    Dead { name: String },
    PickUp { who: String, what: String },
    NothingToPickUp,
    Heal { item: String, amount: i32 },
    Drop { item: String },
}

/// What a log entry says, with names as text.
pub enum LogView {
    Welcome,
    Hit(Seq<char>, Seq<char>, u32),
    Miss(Seq<char>, Seq<char>),
    Dead(Seq<char>),
    PickUp(Seq<char>, Seq<char>),
    NothingToPickUp,
    Heal(Seq<char>, i32),
    Drop(Seq<char>),
}

impl LogEntry {
    pub open spec fn view(&self) -> LogView {
        match self {
            LogEntry::Welcome => LogView::Welcome,
            LogEntry::Hit { attacker, defender, damage } => LogView::Hit(attacker@, defender@, *damage),
            LogEntry::Miss { attacker, defender } => LogView::Miss(attacker@, defender@),
            LogEntry::Dead { name } => LogView::Dead(name@),
            LogEntry::PickUp { who, what } => LogView::PickUp(who@, what@),
            LogEntry::NothingToPickUp => LogView::NothingToPickUp,
            LogEntry::Heal { item, amount } => LogView::Heal(item@, *amount),
            LogEntry::Drop { item } => LogView::Drop(item@),
        }
    }
}

/// The events of the game so far, oldest first.
pub struct CombatLog {
    entries: Vec<LogEntry>,
}

impl CombatLog {
    pub closed spec fn view(&self) -> Seq<LogView> {
        self.entries@.map_values(|e: LogEntry| e@)
    }

    pub fn new() -> (r: CombatLog)
        ensures
            r@.len() == 0,
    {
        let r = CombatLog { entries: Vec::new() };
        assert(r@ =~= Seq::<LogView>::empty());
        r
    }

    /// Appends an entry.
    pub fn push(&mut self, entry: LogEntry)
        ensures
            final(self)@ == old(self)@.push(entry@),
    {
        self.entries.push(entry);
        assert(self@ =~= old(self)@.push(entry@));
    }

    /// The entries, oldest first.
    pub fn lines(&self) -> (r: &Vec<LogEntry>)
        ensures
            r@.map_values(|e: LogEntry| e@) == self@,
    {
        &self.entries
    }
}

/// The state of a game: entities, their components, the map, the player's
/// position and the log.
pub struct World {
    pub entities: Entities,
    pub players: Storage<Player>,
    pub factions: Storage<Faction>,
    pub actors: Storage<ActsOnTurns>,
    pub names: Storage<Name>,
    pub positions: Storage<Position>,
    pub viewsheds: Storage<Viewshed>,
    pub blockers: Storage<BlocksTile>,
    pub hidden: Storage<Hidden>,
    pub pickables: Storage<Pickable>,
    pub consumables: Storage<Consumable>,
    pub healing: Storage<HealsUser>,
    pub carried: Storage<InBackpack>,
    pub stats: Storage<CombatStats>,
    pub movers: Storage<WantsToMove>,
    pub pickers: Storage<WantsToPickUp>,
    pub users: Storage<WantsToUseItem>,
    pub droppers: Storage<WantsToDropItem>,
    pub melee_targets: Storage<TargetedForMelee>,
    pub damage: Storage<SuffersDamage>,
    pub map: WorldMap,
    pub player_pos: Point,
    pub log: CombatLog,
}

/// `after` is `before` without the entries of `gone`.
pub open spec fn purged<T>(after: Map<Entity, T>, before: Map<Entity, T>, gone: Set<Entity>) -> bool {
    after == before.remove_keys(gone)
}

fn purge<T>(s: &mut Storage<T>, gone: &Vec<Entity>)
    ensures
        purged(final(s)@, old(s)@, gone@.to_set()),
{
    let mut k: usize = 0;
    while k < gone.len()
        invariant
            k <= gone@.len(),
            s@ == old(s)@.remove_keys(gone@.take(k as int).to_set()),
        decreases gone@.len() - k,
    {
        s.remove(gone[k]);
        proof {
            assert(gone@.take(k + 1) =~= gone@.take(k as int).push(gone@[k as int]));
            gone@.take(k as int).lemma_push_to_set_commute(gone@[k as int]);
            assert(s@ =~= old(s)@.remove_keys(gone@.take(k + 1).to_set()));
        }
        k = k + 1;
    }
    assert(gone@.take(gone@.len() as int) =~= gone@);
}

impl World {
    /// A world with no entities on the given map. The log opens with a welcome.
    pub fn new(map: WorldMap, player_pos: Point) -> (r: World)
        ensures
            r.map == map,
            r.player_pos == player_pos,
            r.entities.count() == 0,
            r.log@ == seq![LogView::Welcome],
    {
        let mut log = CombatLog::new();
        log.push(LogEntry::Welcome);
        assert(log@ =~= seq![LogView::Welcome]);
        World {
            entities: Entities::new(),
            players: Storage::new(),
            factions: Storage::new(),
            actors: Storage::new(),
            names: Storage::new(),
            positions: Storage::new(),
            viewsheds: Storage::new(),
            blockers: Storage::new(),
            hidden: Storage::new(),
            pickables: Storage::new(),
            consumables: Storage::new(),
            healing: Storage::new(),
            carried: Storage::new(),
            stats: Storage::new(),
            movers: Storage::new(),
            pickers: Storage::new(),
            users: Storage::new(),
            droppers: Storage::new(),
            melee_targets: Storage::new(),
            damage: Storage::new(),
            map,
            player_pos,
            log,
        }
    }

    /// Takes away every component of the entities deleted since the last
    /// clean-up.
    pub fn maintain(&mut self)
        ensures
            final(self).entities.doomed() == Set::<Entity>::empty(),
            final(self).entities.count() == old(self).entities.count(),
            forall|f: Entity| final(self).entities.is_alive(f) == old(self).entities.is_alive(f),
            purged(final(self).players@, old(self).players@, old(self).entities.doomed()),
            purged(final(self).factions@, old(self).factions@, old(self).entities.doomed()),
            purged(final(self).actors@, old(self).actors@, old(self).entities.doomed()),
            purged(final(self).names@, old(self).names@, old(self).entities.doomed()),
            purged(final(self).positions@, old(self).positions@, old(self).entities.doomed()),
            purged(final(self).viewsheds@, old(self).viewsheds@, old(self).entities.doomed()),
            purged(final(self).blockers@, old(self).blockers@, old(self).entities.doomed()),
            purged(final(self).hidden@, old(self).hidden@, old(self).entities.doomed()),
            purged(final(self).pickables@, old(self).pickables@, old(self).entities.doomed()),
            purged(final(self).consumables@, old(self).consumables@, old(self).entities.doomed()),
            purged(final(self).healing@, old(self).healing@, old(self).entities.doomed()),
            purged(final(self).carried@, old(self).carried@, old(self).entities.doomed()),
            purged(final(self).stats@, old(self).stats@, old(self).entities.doomed()),
            purged(final(self).movers@, old(self).movers@, old(self).entities.doomed()),
            purged(final(self).pickers@, old(self).pickers@, old(self).entities.doomed()),
            purged(final(self).users@, old(self).users@, old(self).entities.doomed()),
            purged(final(self).droppers@, old(self).droppers@, old(self).entities.doomed()),
            purged(final(self).melee_targets@, old(self).melee_targets@, old(self).entities.doomed()),
            purged(final(self).damage@, old(self).damage@, old(self).entities.doomed()),
            final(self).map == old(self).map,
            final(self).player_pos == old(self).player_pos,
            final(self).log@ == old(self).log@,
    {
        let gone = self.entities.take_doomed();
        purge(&mut self.players, &gone);
        purge(&mut self.factions, &gone);
        purge(&mut self.actors, &gone);
        purge(&mut self.names, &gone);
        purge(&mut self.positions, &gone);
        purge(&mut self.viewsheds, &gone);
        purge(&mut self.blockers, &gone);
        purge(&mut self.hidden, &gone);
        purge(&mut self.pickables, &gone);
        purge(&mut self.consumables, &gone);
        purge(&mut self.healing, &gone);
        purge(&mut self.carried, &gone);
        purge(&mut self.stats, &gone);
        purge(&mut self.movers, &gone);
        purge(&mut self.pickers, &gone);
        purge(&mut self.users, &gone);
        purge(&mut self.droppers, &gone);
        purge(&mut self.melee_targets, &gone);
        purge(&mut self.damage, &gone);
    }
}

} // verus!
