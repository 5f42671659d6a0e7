use mistery::combat::{DamageResolver, MeleeCombatResolver};
use mistery::components::{CombatStats, Name, SuffersDamage, TargetedForMelee};
use mistery::ecs::{CombatLog, Entities, LogEntry};
use mistery::storage::Storage;

fn fighter(power: i32, defense: i32, hp: i32) -> CombatStats {
    CombatStats { hp, max_hp: hp, defense, power }
}

fn named(names: &[&str]) -> Storage<Name> {
    let mut s = Storage::new();
    for (i, n) in names.iter().enumerate() {
        s.insert(i, Name(n.to_string()));
    }
    s
}

#[test]
fn a_hit_deals_power_minus_defense() {
    let names = named(&["Hero", "Orc"]);
    let mut stats = Storage::new();
    stats.insert(0, fighter(5, 2, 30));
    stats.insert(1, fighter(4, 2, 16));
    let mut targets = Storage::new();
    TargetedForMelee::target(&mut targets, 0, 1);
    let mut damage = Storage::new();
    let mut log = CombatLog::new();
    MeleeCombatResolver.run(&names, &stats, &mut targets, &mut damage, &mut log);
    assert_eq!(damage.get(1), Some(&SuffersDamage { damage: 3 }));
    assert!(targets.keys().is_empty());
    assert_eq!(log.lines().len(), 1);
    match &log.lines()[0] {
        LogEntry::Hit { attacker, defender, damage } => {
            assert_eq!(attacker, "Hero");
            assert_eq!(defender, "Orc");
            assert_eq!(*damage, 3);
        }
        other => panic!("unexpected {:?}", other),
    }
}

#[test]
fn a_weak_blow_misses_and_records_no_damage() {
    let names = named(&["Rat", "Knight"]);
    let mut stats = Storage::new();
    stats.insert(0, fighter(2, 0, 5));
    stats.insert(1, fighter(4, 5, 16));
    let mut targets = Storage::new();
    TargetedForMelee::target(&mut targets, 0, 1);
    let mut damage = Storage::new();
    let mut log = CombatLog::new();
    MeleeCombatResolver.run(&names, &stats, &mut targets, &mut damage, &mut log);
    assert!(damage.keys().is_empty());
    assert!(matches!(&log.lines()[0], LogEntry::Miss { attacker, defender } if attacker == "Rat" && defender == "Knight"));
}

#[test]
fn damage_from_several_attackers_adds_up() {
    let names = named(&["A", "B", "C"]);
    let mut stats = Storage::new();
    stats.insert(0, fighter(5, 0, 10));
    stats.insert(1, fighter(7, 0, 10));
    stats.insert(2, fighter(1, 2, 10));
    let mut targets = Storage::new();
    TargetedForMelee::target(&mut targets, 0, 2);
    TargetedForMelee::target(&mut targets, 1, 2);
    assert_eq!(targets.get(2).unwrap().by, vec![0, 1]);
    let mut damage = Storage::new();
    SuffersDamage::damage(&mut damage, 2, 1);
    let mut log = CombatLog::new();
    MeleeCombatResolver.run(&names, &stats, &mut targets, &mut damage, &mut log);
    assert_eq!(damage.get(2), Some(&SuffersDamage { damage: 1 + 3 + 5 }));
    assert_eq!(log.lines().len(), 2);
}

#[test]
fn pending_damage_saturates() {
    let mut damage = Storage::new();
    SuffersDamage::damage(&mut damage, 0, u32::MAX - 1);
    SuffersDamage::damage(&mut damage, 0, 5);
    assert_eq!(damage.get(0), Some(&SuffersDamage { damage: u32::MAX }));
}

#[test]
fn lethal_damage_deletes_the_entity() {
    let mut entities = Entities::new();
    let a = entities.create();
    let b = entities.create();
    let names = named(&["Goblin", "Orc"]);
    let mut stats = Storage::new();
    stats.insert(a, fighter(1, 1, 3));
    stats.insert(b, fighter(1, 1, 3));
    let mut damage = Storage::new();
    SuffersDamage::damage(&mut damage, a, 5);
    SuffersDamage::damage(&mut damage, b, 2);
    let mut log = CombatLog::new();
    DamageResolver.run(&mut entities, &names, &mut damage, &mut stats, &mut log);
    assert!(!entities.alive(a));
    assert!(entities.alive(b));
    assert_eq!(stats.get(b).unwrap().hp, 1);
    assert_eq!(stats.get(a).unwrap().hp, -2);
    assert!(damage.keys().is_empty());
    assert_eq!(log.lines().len(), 1);
    assert!(matches!(&log.lines()[0], LogEntry::Dead { name } if name == "Goblin"));
}

#[test]
fn exactly_zero_hit_points_is_death() {
    let mut entities = Entities::new();
    let a = entities.create();
    let names = named(&["Bat"]);
    let mut stats = Storage::new();
    stats.insert(a, fighter(1, 1, 4));
    let mut damage = Storage::new();
    SuffersDamage::damage(&mut damage, a, 4);
    let mut log = CombatLog::new();
    DamageResolver.run(&mut entities, &names, &mut damage, &mut stats, &mut log);
    assert!(!entities.alive(a));
}

#[test]
fn damage_reaches_entities_without_a_name() {
    let mut entities = Entities::new();
    let a = entities.create();
    let names: Storage<Name> = Storage::new();
    let mut stats = Storage::new();
    stats.insert(a, fighter(1, 1, 2));
    let mut damage = Storage::new();
    SuffersDamage::damage(&mut damage, a, 2);
    let mut log = CombatLog::new();
    DamageResolver.run(&mut entities, &names, &mut damage, &mut stats, &mut log);
    assert_eq!(stats.get(a).unwrap().hp, 0);
    assert!(!entities.alive(a));
    assert!(log.lines().is_empty());
}
