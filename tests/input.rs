use mistery::components::{ActsOnTurns, InBackpack, Name, Pickable, Player, Position, WantsToMove, WantsToPickUp};
use mistery::ecs::{CombatLog, LogEntry};
use mistery::geometry::Point;
use mistery::input::{ActionBinding, Direction, Intent, InventoryState, RunStateInputDispatcher, Transition};
use mistery::storage::Storage;

struct Pad {
    players: Storage<Player>,
    positions: Storage<Position>,
    pickables: Storage<Pickable>,
    actors: Storage<ActsOnTurns>,
    movers: Storage<WantsToMove>,
    pickers: Storage<WantsToPickUp>,
    log: CombatLog,
}

fn pad(ap: u32, at: Point) -> Pad {
    let mut p = Pad {
        players: Storage::new(),
        positions: Storage::new(),
        pickables: Storage::new(),
        actors: Storage::new(),
        movers: Storage::new(),
        pickers: Storage::new(),
        log: CombatLog::new(),
    };
    p.players.insert(0, Player);
    p.positions.insert(0, Position(at));
    p.actors.insert(0, ActsOnTurns { ap });
    p
}

fn press(p: &mut Pad, action: ActionBinding) -> Transition {
    RunStateInputDispatcher.handle(
        &p.players,
        &p.positions,
        &p.pickables,
        &mut p.actors,
        &mut p.movers,
        &mut p.pickers,
        &mut p.log,
        action,
    )
}

#[test]
fn a_move_key_asks_to_step() {
    let mut p = pad(1, Point::new(5, 5));
    assert_eq!(press(&mut p, ActionBinding::Move(Direction::NE)), Transition::Stay);
    assert_eq!(p.movers.get(0), Some(&WantsToMove { to: Point::new(6, 6) }));
    assert_eq!(p.actors.get(0), Some(&ActsOnTurns { ap: 0 }));
}

#[test]
fn nothing_happens_without_action_points() {
    let mut p = pad(0, Point::new(5, 5));
    assert_eq!(press(&mut p, ActionBinding::Move(Direction::W)), Transition::Stay);
    assert!(p.movers.keys().is_empty());
    assert_eq!(press(&mut p, ActionBinding::OpenInventory), Transition::Stay);
}

#[test]
fn a_step_off_the_grid_is_not_asked_for() {
    let mut p = pad(1, Point::new(0, 5));
    press(&mut p, ActionBinding::Move(Direction::SW));
    assert!(p.movers.keys().is_empty());
    assert_eq!(p.actors.get(0), Some(&ActsOnTurns { ap: 0 }));
}

#[test]
fn picking_up_what_lies_here() {
    let mut p = pad(1, Point::new(5, 5));
    p.pickables.insert(3, Pickable);
    p.positions.insert(3, Position(Point::new(5, 5)));
    p.pickables.insert(2, Pickable);
    p.positions.insert(2, Position(Point::new(5, 6)));
    press(&mut p, ActionBinding::PickUp);
    assert_eq!(p.pickers.get(0), Some(&WantsToPickUp { what: 3 }));
    assert!(p.log.lines().is_empty());
}

#[test]
fn picking_up_nothing_is_logged() {
    let mut p = pad(1, Point::new(5, 5));
    press(&mut p, ActionBinding::PickUp);
    assert!(p.pickers.keys().is_empty());
    assert!(matches!(p.log.lines()[0], LogEntry::NothingToPickUp));
}

#[test]
fn inventory_keys_open_the_inventory() {
    let mut p = pad(1, Point::new(5, 5));
    assert_eq!(press(&mut p, ActionBinding::OpenInventory), Transition::OpenInventory(Intent::UseItem));
    p.actors.insert(0, ActsOnTurns { ap: 1 });
    assert_eq!(press(&mut p, ActionBinding::DropItem), Transition::OpenInventory(Intent::DropItem));
    p.actors.insert(0, ActsOnTurns { ap: 1 });
    assert_eq!(press(&mut p, ActionBinding::Cancel), Transition::Stay);
}

#[test]
fn the_inventory_lists_the_players_items_and_chooses_one() {
    let mut players = Storage::new();
    players.insert(0, Player);
    let mut carried = Storage::new();
    carried.insert(4, InBackpack { owner: 0 });
    carried.insert(2, InBackpack { owner: 0 });
    carried.insert(3, InBackpack { owner: 1 });
    let mut names = Storage::new();
    names.insert(2, Name("Health Potion".to_string()));
    names.insert(3, Name("Stone".to_string()));
    names.insert(4, Name("Scroll".to_string()));
    let mut inv = InventoryState::new(Intent::DropItem);
    inv.on_start(&players, &carried, &names);
    assert_eq!(inv.item_list, vec![(2, "Health Potion".to_string()), (4, "Scroll".to_string())]);
    let mut users = Storage::new();
    let mut droppers = Storage::new();
    assert_eq!(inv.select(5, &players, &mut users, &mut droppers), Transition::Stay);
    assert_eq!(inv.select(1, &players, &mut users, &mut droppers), Transition::Close);
    assert_eq!(droppers.get(0).map(|d| d.what), Some(4));
    assert!(users.keys().is_empty());
}
