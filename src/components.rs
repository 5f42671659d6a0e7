//! The components that entities carry.

use vstd::prelude::*;

use crate::geometry::Point;

verus! {

/// An entity: an index into every component storage.
pub type Entity = usize;

/// Tag of the player's entity.
#[derive(Clone, Copy, Debug, PartialEq, Eq, Structural)]
pub struct Player;

/// Action points of an entity that acts in turns.
#[derive(Clone, Copy, Debug, PartialEq, Eq, Structural)]
pub struct ActsOnTurns {
    pub ap: u32,
}

impl ActsOnTurns {
    /// Whether any action point is left.
    pub fn can_act(self) -> (r: bool)
        ensures
            r == (self.ap > 0),
    {
        self.ap > 0
    }

    /// Gives the entity back its single action point.
    pub fn refresh(&mut self)
        ensures
            final(self).ap == 1,
    {
        self.ap = 1;
    }

    /// Spends one action point if there is one; returns whether it did.
    pub fn perform(&mut self) -> (r: bool)
        ensures
            r == (old(self).ap > 0),
            final(self).ap == (if r { old(self).ap - 1 } else { old(self).ap as int }),
    {
        if self.can_act() {
            self.ap = self.ap - 1;
            true
        } else {
            false
        }
    }
}

/// The group an entity belongs to; entities of one faction never fight each other.
#[derive(Clone, Copy, Debug, PartialEq, Eq, Structural)]
pub struct Faction(pub u32);

/// Tag of entities that can be picked up from the ground.
#[derive(Clone, Copy, Debug, PartialEq, Eq, Structural)]
pub struct Pickable;

/// Tag of items that are used up when used.
#[derive(Clone, Copy, Debug, PartialEq, Eq, Structural)]
pub struct Consumable;

/// Display name of an entity.
#[derive(Debug)]
pub struct Name(pub String);

/// Position of an entity on the map.
#[derive(Clone, Copy, Debug, PartialEq, Eq, Structural)]
pub struct Position(pub Point);

/// The tiles an entity sees within its range. `dirty` asks for a recomputation.
#[derive(Debug)]
pub struct Viewshed {
    pub range: u32,
    pub dirty: bool,
    pub visible: Vec<Point>,
}

impl Viewshed {
    /// A viewshed of the given range that has not been computed yet.
    pub fn new(range: u32) -> (r: Viewshed)
        ensures
            r.range == range,
            r.dirty,
            r.visible@.len() == 0,
    {
        Viewshed { range, dirty: true, visible: Vec::new() }
    }

    /// Whether `p` is among the visible tiles.
    pub fn sees(&self, p: Point) -> (r: bool)
        ensures
            r == self.visible@.contains(p),
    {
        crate::geometry::contains_point(&self.visible, p)
    }
}

/// Tag of entities that block the tile they stand on.
#[derive(Clone, Copy, Debug, PartialEq, Eq, Structural)]
pub struct BlocksTile;

/// Tag of entities that are not drawn.
#[derive(Clone, Copy, Debug, PartialEq, Eq, Structural)]
pub struct Hidden;

/// Items that heal their user.
#[derive(Clone, Copy, Debug, PartialEq, Eq, Structural)]
pub struct HealsUser {
    pub amount: i32,
}

/// Items held in the backpack of `owner`.
#[derive(Clone, Copy, Debug, PartialEq, Eq, Structural)]
pub struct InBackpack {
    pub owner: Entity,
}

/// Fighting statistics. `hp` may drop to zero or below until the damage pass
/// removes the entity.
#[derive(Clone, Copy, Debug, PartialEq, Eq, Structural)]
pub struct CombatStats {
    pub hp: i32,
    pub max_hp: i32,
    pub defense: i32,
    pub power: i32,
}

/// Intent to move to a tile this turn.
#[derive(Clone, Copy, Debug, PartialEq, Eq, Structural)]
pub struct WantsToMove {
    pub to: Point,
}

/// Intent to pick up an entity this turn.
#[derive(Clone, Copy, Debug, PartialEq, Eq, Structural)]
pub struct WantsToPickUp {
    pub what: Entity,
}

/// Intent to use an item this turn.
#[derive(Clone, Copy, Debug, PartialEq, Eq, Structural)]
pub struct WantsToUseItem {
    pub what: Entity,
}

/// Intent to drop an item this turn.
#[derive(Clone, Copy, Debug, PartialEq, Eq, Structural)]
pub struct WantsToDropItem {
    pub what: Entity,
}

/// The attackers that target an entity in melee this turn, in order.
#[derive(Debug)]
pub struct TargetedForMelee {
    pub by: Vec<Entity>,
}

/// Damage an entity is due to suffer this turn.
#[derive(Clone, Copy, Debug, PartialEq, Eq, Structural)]
pub struct SuffersDamage {
    pub damage: u32,
}

} // verus!
