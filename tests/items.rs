use mistery::components::{
    CombatStats, Consumable, HealsUser, Hidden, InBackpack, Name, Position, WantsToDropItem, WantsToPickUp,
    WantsToUseItem,
};
use mistery::ecs::{CombatLog, Entities, LogEntry};
use mistery::geometry::Point;
use mistery::items::{ItemDropResolver, ItemUsageResolver, PickUpSystem};
use mistery::storage::Storage;

#[test]
fn picking_up_takes_the_item_off_the_map() {
    let mut names = Storage::new();
    names.insert(0, Name("Hero".to_string()));
    names.insert(1, Name("Health Potion".to_string()));
    let mut positions = Storage::new();
    positions.insert(0, Position(Point::new(4, 4)));
    positions.insert(1, Position(Point::new(4, 4)));
    let mut pickers = Storage::new();
    pickers.insert(0, WantsToPickUp { what: 1 });
    let mut carried = Storage::new();
    let mut hidden: Storage<Hidden> = Storage::new();
    let mut log = CombatLog::new();
    PickUpSystem.run(&names, &mut pickers, &mut carried, &mut positions, &mut hidden, &mut log);
    assert!(!positions.contains(1));
    assert!(positions.contains(0));
    assert!(hidden.contains(1));
    assert_eq!(carried.get(1), Some(&InBackpack { owner: 0 }));
    assert!(pickers.keys().is_empty());
    assert!(matches!(&log.lines()[0], LogEntry::PickUp { who, what } if who == "Hero" && what == "Health Potion"));
}

#[test]
fn healing_is_capped_at_the_maximum() {
    let mut entities = Entities::new();
    let user = entities.create();
    let potion = entities.create();
    let mut names = Storage::new();
    names.insert(potion, Name("Health Potion".to_string()));
    let mut consumables = Storage::new();
    consumables.insert(potion, Consumable);
    let mut healing = Storage::new();
    healing.insert(potion, HealsUser { amount: 8 });
    let mut users = Storage::new();
    users.insert(user, WantsToUseItem { what: potion });
    let mut stats = Storage::new();
    stats.insert(user, CombatStats { hp: 10, max_hp: 16, defense: 1, power: 1 });
    let mut log = CombatLog::new();
    ItemUsageResolver.run(&mut entities, &names, &consumables, &healing, &mut users, &mut stats, &mut log);
    assert_eq!(stats.get(user).unwrap().hp, 16);
    assert!(!entities.alive(potion));
    assert!(entities.alive(user));
    assert!(matches!(&log.lines()[0], LogEntry::Heal { item, amount: 8 } if item == "Health Potion"));
}

#[test]
fn healing_below_the_maximum_adds_the_amount() {
    let mut entities = Entities::new();
    let user = entities.create();
    let flask = entities.create();
    let names = Storage::new();
    let consumables = Storage::new();
    let mut healing = Storage::new();
    healing.insert(flask, HealsUser { amount: 3 });
    let mut users = Storage::new();
    users.insert(user, WantsToUseItem { what: flask });
    let mut stats = Storage::new();
    stats.insert(user, CombatStats { hp: 4, max_hp: 16, defense: 1, power: 1 });
    let mut log = CombatLog::new();
    ItemUsageResolver.run(&mut entities, &names, &consumables, &healing, &mut users, &mut stats, &mut log);
    assert_eq!(stats.get(user).unwrap().hp, 7);
    // Not consumable: the flask stays.
    assert!(entities.alive(flask));
    assert!(matches!(&log.lines()[0], LogEntry::Heal { item, amount: 3 } if item == "item"));
}

#[test]
fn dropping_puts_the_item_at_the_droppers_feet() {
    let names: Storage<Name> = Storage::new();
    let mut droppers = Storage::new();
    droppers.insert(0, WantsToDropItem { what: 1 });
    let mut positions = Storage::new();
    positions.insert(0, Position(Point::new(5, 6)));
    let mut carried = Storage::new();
    carried.insert(1, InBackpack { owner: 0 });
    let mut hidden = Storage::new();
    hidden.insert(1, Hidden);
    let mut log = CombatLog::new();
    ItemDropResolver.run(&names, &mut droppers, &mut positions, &mut carried, &mut hidden, &mut log);
    assert_eq!(positions.get(1), Some(&Position(Point::new(5, 6))));
    assert!(!carried.contains(1));
    assert!(!hidden.contains(1));
    assert!(matches!(&log.lines()[0], LogEntry::Drop { item } if item == "item"));
}
