//! Creating the player, monsters and items, and filling rooms with them.

use vstd::prelude::*;

use crate::components::{
    ActsOnTurns, BlocksTile, CombatStats, Consumable, Entity, Faction, HealsUser, Hidden, Name, Pickable,
    Player, Position, Viewshed,
};
use crate::ecs::World;
use crate::geometry::{Point, Rect};
use crate::rng::{gen_bool, gen_range, thread_rng};

verus! {

/// Most monsters a room can hold.
pub const MAX_MONSTERS: u32 = 4;

/// Most items a room can hold.
pub const MAX_ITEMS: u32 = 2;

/// How far the player and the monsters see.
pub const VIEW_RANGE: u32 = 8;

/// The faction of the player.
pub const PLAYER_FACTION: u32 = 0;

/// The faction of the monsters.
pub const MONSTER_FACTION: u32 = 1;

/// Bound on the number of entities, so that indices stay clear of `usize::MAX`.
pub const MAX_ENTITIES: usize = 0x1000_0000;

/// `a` and `b` agree everywhere but, perhaps, at `e`.
pub open spec fn agree_except<T>(a: Map<Entity, T>, b: Map<Entity, T>, e: Entity) -> bool {
    a.remove(e) == b.remove(e)
}

impl World {
    /// Only entity `e` changed, and it is new: every storage agrees with `old`
    /// elsewhere, and the map and the log are the same.
    pub open spec fn adds(&self, old: &World, e: Entity) -> bool {
        &&& e == old.entities.count()
        &&& self.entities.count() == old.entities.count() + 1
        &&& self.entities.is_alive(e)
        &&& self.entities.doomed() == old.entities.doomed()
        &&& forall|f: Entity| f != e ==> self.entities.is_alive(f) == old.entities.is_alive(f)
        &&& agree_except(self.players@, old.players@, e)
        &&& agree_except(self.factions@, old.factions@, e)
        &&& agree_except(self.actors@, old.actors@, e)
        &&& agree_except(self.names@, old.names@, e)
        &&& agree_except(self.positions@, old.positions@, e)
        &&& agree_except(self.viewsheds@, old.viewsheds@, e)
        &&& agree_except(self.blockers@, old.blockers@, e)
        &&& agree_except(self.hidden@, old.hidden@, e)
        &&& agree_except(self.pickables@, old.pickables@, e)
        &&& agree_except(self.consumables@, old.consumables@, e)
        &&& agree_except(self.healing@, old.healing@, e)
        &&& agree_except(self.carried@, old.carried@, e)
        &&& agree_except(self.stats@, old.stats@, e)
        &&& self.movers@ == old.movers@
        &&& self.pickers@ == old.pickers@
        &&& self.users@ == old.users@
        &&& self.droppers@ == old.droppers@
        &&& self.melee_targets@ == old.melee_targets@
        &&& self.damage@ == old.damage@
        &&& self.map == old.map
        &&& self.log@ == old.log@
    }
}

proof fn lemma_insert_agrees<T>(m: Map<Entity, T>, e: Entity, v: T)
    ensures
        agree_except(m.insert(e, v), m, e),
{
    assert(m.insert(e, v).remove(e) =~= m.remove(e));
}

/// Spawns the player at `pos`, and records its position.
pub fn player(world: &mut World, pos: Point) -> (e: Entity)
    requires
        old(world).entities.count() < MAX_ENTITIES,
    ensures
        final(world).adds(old(world), e),
        final(world).players@ == old(world).players@.insert(e, Player),
        final(world).factions@ == old(world).factions@.insert(e, Faction(PLAYER_FACTION)),
        final(world).actors@ == old(world).actors@.insert(e, ActsOnTurns { ap: 0 }),
        final(world).positions@ == old(world).positions@.insert(e, Position(pos)),
        final(world).blockers@ == old(world).blockers@.insert(e, BlocksTile),
        final(world).viewsheds@.contains_key(e) && final(world).viewsheds@[e].range == VIEW_RANGE
            && final(world).viewsheds@[e].dirty,
        final(world).stats@ == old(world).stats@.insert(e, CombatStats { hp: 30, max_hp: 30, defense: 2, power: 5 }),
        final(world).names@.contains_key(e) && final(world).names@[e].0@ == "Hero"@,
        final(world).hidden@ == old(world).hidden@,
        final(world).pickables@ == old(world).pickables@,
        final(world).consumables@ == old(world).consumables@,
        final(world).healing@ == old(world).healing@,
        final(world).carried@ == old(world).carried@,
        final(world).player_pos == pos,
{
    let ghost w0 = *world;
    let e = world.entities.create();
    world.players.insert(e, Player);
    world.factions.insert(e, Faction(PLAYER_FACTION));
    world.actors.insert(e, ActsOnTurns { ap: 0 });
    world.positions.insert(e, Position(pos));
    world.blockers.insert(e, BlocksTile);
    world.viewsheds.insert(e, Viewshed::new(VIEW_RANGE));
    world.stats.insert(e, CombatStats { hp: 30, max_hp: 30, defense: 2, power: 5 });
    proof {
        reveal_strlit("Hero");
    }
    world.names.insert(e, Name(String::from_str("Hero")));
    proof {
        lemma_insert_agrees(w0.players@, e, Player);
        lemma_insert_agrees(w0.factions@, e, Faction(PLAYER_FACTION));
        lemma_insert_agrees(w0.actors@, e, ActsOnTurns { ap: 0 });
        lemma_insert_agrees(w0.positions@, e, Position(pos));
        lemma_insert_agrees(w0.blockers@, e, BlocksTile);
        lemma_insert_agrees(w0.viewsheds@, e, world.viewsheds@[e]);
        lemma_insert_agrees(w0.stats@, e, CombatStats { hp: 30, max_hp: 30, defense: 2, power: 5 });
        lemma_insert_agrees(w0.names@, e, world.names@[e]);
    }
    world.player_pos = pos;
    e
}

/// Spawns a monster of the given name at `pos`, hidden until seen.
fn monster(world: &mut World, pos: Point, name: String) -> (e: Entity)
    requires
        old(world).entities.count() < MAX_ENTITIES,
    ensures
        final(world).adds(old(world), e),
        final(world).player_pos == old(world).player_pos,
        final(world).players@ == old(world).players@,
        final(world).factions@ == old(world).factions@.insert(e, Faction(MONSTER_FACTION)),
        final(world).actors@ == old(world).actors@.insert(e, ActsOnTurns { ap: 0 }),
        final(world).positions@ == old(world).positions@.insert(e, Position(pos)),
        final(world).blockers@ == old(world).blockers@.insert(e, BlocksTile),
        final(world).viewsheds@.contains_key(e) && final(world).viewsheds@[e].range == VIEW_RANGE
            && final(world).viewsheds@[e].dirty,
        final(world).stats@ == old(world).stats@.insert(e, CombatStats { hp: 16, max_hp: 16, defense: 1, power: 4 }),
        final(world).names@.contains_key(e) && final(world).names@[e].0@ == name@,
        final(world).hidden@ == old(world).hidden@.insert(e, Hidden),
        final(world).pickables@ == old(world).pickables@,
        final(world).consumables@ == old(world).consumables@,
        final(world).healing@ == old(world).healing@,
        final(world).carried@ == old(world).carried@,
{
    let ghost w0 = *world;
    let e = world.entities.create();
    world.factions.insert(e, Faction(MONSTER_FACTION));
    world.actors.insert(e, ActsOnTurns { ap: 0 });
    world.positions.insert(e, Position(pos));
    world.blockers.insert(e, BlocksTile);
    world.viewsheds.insert(e, Viewshed::new(VIEW_RANGE));
    world.stats.insert(e, CombatStats { hp: 16, max_hp: 16, defense: 1, power: 4 });
    world.names.insert(e, Name(name));
    world.hidden.insert(e, Hidden);
    proof {
        lemma_insert_agrees(w0.factions@, e, Faction(MONSTER_FACTION));
        lemma_insert_agrees(w0.actors@, e, ActsOnTurns { ap: 0 });
        lemma_insert_agrees(w0.positions@, e, Position(pos));
        lemma_insert_agrees(w0.blockers@, e, BlocksTile);
        lemma_insert_agrees(w0.viewsheds@, e, world.viewsheds@[e]);
        lemma_insert_agrees(w0.stats@, e, CombatStats { hp: 16, max_hp: 16, defense: 1, power: 4 });
        lemma_insert_agrees(w0.names@, e, world.names@[e]);
        lemma_insert_agrees(w0.hidden@, e, Hidden);
        assert(world.players@.remove(e) =~= w0.players@.remove(e));
    }
    e
}

/// Spawns an orc at `pos`.
pub fn orc(world: &mut World, pos: Point) -> (e: Entity)
    requires
        old(world).entities.count() < MAX_ENTITIES,
    ensures
        final(world).adds(old(world), e),
        final(world).player_pos == old(world).player_pos,
        final(world).positions@ == old(world).positions@.insert(e, Position(pos)),
        final(world).names@.contains_key(e) && final(world).names@[e].0@ == "Orc"@,
        final(world).factions@ == old(world).factions@.insert(e, Faction(MONSTER_FACTION)),
        final(world).stats@ == old(world).stats@.insert(e, CombatStats { hp: 16, max_hp: 16, defense: 1, power: 4 }),
{
    proof {
        reveal_strlit("Orc");
    }
    monster(world, pos, String::from_str("Orc"))
}

/// Spawns a goblin at `pos`.
pub fn goblin(world: &mut World, pos: Point) -> (e: Entity)
    requires
        old(world).entities.count() < MAX_ENTITIES,
    ensures
        final(world).adds(old(world), e),
        final(world).player_pos == old(world).player_pos,
        final(world).positions@ == old(world).positions@.insert(e, Position(pos)),
        final(world).names@.contains_key(e) && final(world).names@[e].0@ == "Goblin"@,
        final(world).factions@ == old(world).factions@.insert(e, Faction(MONSTER_FACTION)),
        final(world).stats@ == old(world).stats@.insert(e, CombatStats { hp: 16, max_hp: 16, defense: 1, power: 4 }),
{
    proof {
        reveal_strlit("Goblin");
    }
    monster(world, pos, String::from_str("Goblin"))
}

/// Spawns an orc or a goblin at `pos`, at random.
pub fn random_monster(world: &mut World, pos: Point) -> (e: Entity)
    requires
        old(world).entities.count() < MAX_ENTITIES,
    ensures
        final(world).adds(old(world), e),
        final(world).player_pos == old(world).player_pos,
        final(world).positions@ == old(world).positions@.insert(e, Position(pos)),
        final(world).names@.contains_key(e) && (final(world).names@[e].0@ == "Orc"@ || final(world).names@[e].0@ == "Goblin"@),
        final(world).factions@ == old(world).factions@.insert(e, Faction(MONSTER_FACTION)),
{
    let mut rng = thread_rng();
    if gen_bool(&mut rng) {
        orc(world, pos)
    } else {
        goblin(world, pos)
    }
}

/// Spawns a health potion at `pos`: a consumable item that heals 8 hit points.
pub fn health_potion(world: &mut World, pos: Point) -> (e: Entity)
    requires
        old(world).entities.count() < MAX_ENTITIES,
    ensures
        final(world).adds(old(world), e),
        final(world).player_pos == old(world).player_pos,
        final(world).pickables@ == old(world).pickables@.insert(e, Pickable),
        final(world).consumables@ == old(world).consumables@.insert(e, Consumable),
        final(world).healing@ == old(world).healing@.insert(e, HealsUser { amount: 8 }),
        final(world).positions@ == old(world).positions@.insert(e, Position(pos)),
        final(world).names@.contains_key(e) && final(world).names@[e].0@ == "Health Potion"@,
        final(world).players@ == old(world).players@,
        final(world).factions@ == old(world).factions@,
        final(world).actors@ == old(world).actors@,
        final(world).stats@ == old(world).stats@,
        final(world).blockers@ == old(world).blockers@,
{
    let ghost w0 = *world;
    let e = world.entities.create();
    world.pickables.insert(e, Pickable);
    world.consumables.insert(e, Consumable);
    world.healing.insert(e, HealsUser { amount: 8 });
    world.positions.insert(e, Position(pos));
    proof {
        reveal_strlit("Health Potion");
    }
    world.names.insert(e, Name(String::from_str("Health Potion")));
    proof {
        lemma_insert_agrees(w0.pickables@, e, Pickable);
        lemma_insert_agrees(w0.consumables@, e, Consumable);
        lemma_insert_agrees(w0.healing@, e, HealsUser { amount: 8 });
        lemma_insert_agrees(w0.positions@, e, Position(pos));
        lemma_insert_agrees(w0.names@, e, world.names@[e]);
    }
    e
}

/// Picks up to `n` distinct points inside the interior of `room`, at random.
/// Where the room has fewer interior tiles, all of them are returned.
pub fn spawn_points(room: Rect, n: u32) -> (r: Vec<Point>)
    requires
        room.bl.x + 2 <= room.tr.x,
        room.bl.y + 2 <= room.tr.y,
    ensures
        r@.len() <= n,
        r@.no_duplicates(),
        forall|k: int| 0 <= k < r@.len() ==> room.interior_contains(#[trigger] r@[k]),
{
    let mut rng = thread_rng();
    let mut points: Vec<Point> = Vec::new();
    let mut k: u32 = 0;
    while k < n
        invariant
            room.bl.x + 2 <= room.tr.x,
            room.bl.y + 2 <= room.tr.y,
            k <= n,
            points@.len() <= k,
            points@.no_duplicates(),
            forall|j: int| 0 <= j < points@.len() ==> room.interior_contains(#[trigger] points@[j]),
        decreases n - k,
    {
        let x = gen_range(&mut rng, room.bl.x + 1, room.tr.x);
        let y = gen_range(&mut rng, room.bl.y + 1, room.tr.y);
        let first = Point { x, y };
        // Where the drawn tile is taken, the next free one in reading order.
        match next_free(room, &points, first) {
            Some(p) => {
                proof {
                    assert forall|i: int, j: int| 0 <= i < points@.push(p).len() && 0 <= j < points@.push(p).len() && i != j
                        implies points@.push(p)[i] != points@.push(p)[j] by {
                        if i < points@.len() && j < points@.len() {
                        } else if i == points@.len() {
                            assert(!points@.contains(p));
                            assert(points@[j] == points@.push(p)[j]);
                        } else {
                            assert(!points@.contains(p));
                            assert(points@[i] == points@.push(p)[i]);
                        }
                    }
                }
                points.push(p);
            },
            None => {},
        }
        k = k + 1;
    }
    points
}

/// The first interior tile of `room`, in reading order from `from`, that is not
/// among `taken`.
fn next_free(room: Rect, taken: &Vec<Point>, from: Point) -> (r: Option<Point>)
    requires
        room.interior_contains(from),
    ensures
        r is Some ==> room.interior_contains(r->0) && !taken@.contains(r->0),
{
    let mut p = from;
    let mut steps: u64 = 0;
    let w: u64 = (room.tr.x - room.bl.x) as u64;
    let h: u64 = (room.tr.y - room.bl.y) as u64;
    assert(w * h <= 0xffff_ffff * 0xffff_ffffu64) by (nonlinear_arith)
        requires
            w <= 0xffff_ffff,
            h <= 0xffff_ffff,
    ;
    let total: u64 = w * h;
    while steps < total
        invariant
            room.interior_contains(p),
        decreases total - steps,
    {
        if !crate::geometry::contains_point(taken, p) {
            return Some(p);
        }
        p = if p.x + 1 < room.tr.x {
            Point { x: p.x + 1, y: p.y }
        } else if p.y + 1 < room.tr.y {
            Point { x: room.bl.x + 1, y: p.y + 1 }
        } else {
            Point { x: room.bl.x + 1, y: room.bl.y + 1 }
        };
        steps = steps + 1;
    }
    None
}

} // verus!
