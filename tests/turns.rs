use mistery::combat::{Turn, TurnSystem};
use mistery::components::{ActsOnTurns, Entity, Player};
use mistery::storage::Storage;

fn act(actors: &mut Storage<ActsOnTurns>, e: Entity) -> bool {
    let mut a = *actors.get(e).unwrap();
    let done = a.perform();
    actors.insert(e, a);
    done
}

#[test]
fn action_points() {
    let mut a = ActsOnTurns { ap: 0 };
    assert!(!a.can_act());
    assert!(!a.perform());
    a.refresh();
    assert_eq!(a.ap, 1);
    assert!(a.can_act());
    assert!(a.perform());
    assert_eq!(a.ap, 0);
    assert!(!a.perform());
}

#[test]
fn turns_alternate_between_the_sides() {
    // Two player-side actors (0, 1) and three others (2, 3, 4).
    let mut players: Storage<Player> = Storage::new();
    players.insert(0, Player);
    players.insert(1, Player);
    let mut actors: Storage<ActsOnTurns> = Storage::new();
    for e in 0..5 {
        actors.insert(e, ActsOnTurns { ap: 0 });
    }
    let mut turns = TurnSystem::new();
    assert_eq!(turns.current(), Turn::Player);
    // Nobody on the player's side can act, so the turn passes at once.
    turns.run(&mut actors, &players);
    assert_eq!(turns.current(), Turn::Others);
    for cycle in 0..3 {
        let _ = cycle;
        // Others: each acts exactly once, the players never.
        assert!(!act(&mut actors, 0));
        assert!(!act(&mut actors, 1));
        for e in 2..5 {
            turns.run(&mut actors, &players);
            assert_eq!(turns.current(), Turn::Others);
            assert!(act(&mut actors, e));
            assert!(!act(&mut actors, e));
        }
        turns.run(&mut actors, &players);
        assert_eq!(turns.current(), Turn::Player);
        // Players: each acts exactly once, the others never.
        for e in 2..5 {
            assert!(!act(&mut actors, e));
        }
        for e in 0..2 {
            turns.run(&mut actors, &players);
            assert_eq!(turns.current(), Turn::Player);
            assert!(act(&mut actors, e));
        }
        turns.run(&mut actors, &players);
        assert_eq!(turns.current(), Turn::Others);
    }
}

#[test]
fn an_empty_side_never_holds_the_turn() {
    let players: Storage<Player> = Storage::new();
    let mut actors: Storage<ActsOnTurns> = Storage::new();
    actors.insert(0, ActsOnTurns { ap: 0 });
    let mut turns = TurnSystem::new();
    turns.run(&mut actors, &players);
    assert_eq!(turns.current(), Turn::Others);
    assert_eq!(actors.get(0), Some(&ActsOnTurns { ap: 1 }));
    act(&mut actors, 0);
    turns.run(&mut actors, &players);
    assert_eq!(turns.current(), Turn::Player);
    turns.run(&mut actors, &players);
    assert_eq!(turns.current(), Turn::Others);
}
