use time_game_lib::ecs::Ecs;
use time_game_lib::error::GameError;
use time_game_lib::item::{Item, Key};
use time_game_lib::listeners::{
    Action, CounterChange, CounterTest, EventTrigger, ImageId, PositionTest,
};
use time_game_lib::map_element::MapElement;
use time_game_lib::types::{Counter, Direction, Entity, EventTriggerModifier, Group, Point, Priority};

fn key() -> Item {
    Item::Key(Key {})
}

#[test]
fn walls_refuse_players_and_are_drawn() {
    let mut ecs = Ecs::new();
    let w = MapElement::Wall.add(Point::new(3, 3), &mut ecs);
    assert_eq!(ecs.entities_at(Point::new(3, 3)), vec![w]);
    assert!(!MapElement::Wall.passable());
    assert!(MapElement::ClosedDoor.passable());
    assert_eq!(MapElement::Wall.image(), Some(ImageId::Wall));
    assert_eq!(MapElement::Empty.image(), None);
    assert_eq!(MapElement::RemoteDoor.image(), Some(ImageId::ClosedDoor));
}

#[test]
fn listeners_are_built_as_data() {
    let e = Entity { idx: 4, version: 0 };
    let l = time_game_lib::listeners::EventListener::new(
        EventTrigger::CounterPredicate(Counter::Unlock, CounterTest::Equals(3)),
        Action::SetImage { target: e, img: ImageId::Light(3) },
    )
    .with_priority(Priority::Cleanup)
    .with_modifier(EventTriggerModifier::Rising(false))
    .with_group(Group::Locked);
    assert_eq!(l.priority, Priority::Cleanup);
    assert_eq!(l.group, Group::Locked);
    assert_eq!(l.modifier, EventTriggerModifier::Rising(false));
    assert_eq!(l.trigger, EventTrigger::CounterPredicate(Counter::Unlock, CounterTest::Equals(3)));
    let a = Action::All(vec![Action::Reject("x"), Action::AlterCounter(e, Counter::Unlock, CounterChange::Add(1))]);
    match a.duplicate() {
        Action::All(v) => assert_eq!(v.len(), 2),
        _ => panic!("copy changed the action"),
    }
    let _ = PositionTest::Equals(Point::new(0, 0));
}

#[test]
fn adding_elements_makes_fresh_entities() {
    let mut ecs = Ecs::new();
    let door = MapElement::RemoteDoor.add(Point::new(5, 6), &mut ecs);
    let light = MapElement::Light {
        counter: Counter::Unlock,
        rising: Action::All(vec![
            Action::SetImage { target: door, img: ImageId::OpenDoor },
            Action::DisableGroup(door, Group::Locked),
        ]),
        falling: Action::EnableGroup(door, Group::Locked),
    }
    .add(Point::new(5, 5), &mut ecs);
    let plate = MapElement::Plate(Counter::Unlock, light).add(Point::new(1, 5), &mut ecs);
    let mover = MapElement::MovingWall {
        direction: Direction::Left,
        reset: Some((Point::new(9, 0), Point::new(0, 0))),
    }
    .add(Point::new(9, 0), &mut ecs);
    let open = MapElement::OpenDoor.add(Point::new(2, 2), &mut ecs);
    let all = [door, light, plate, mover, open];
    for i in 0..all.len() {
        for j in 0..i {
            assert!(all[i] != all[j]);
        }
    }
    assert_eq!(ecs.entities_at(Point::new(1, 5)), vec![plate]);
    assert_eq!(ecs.player_at(Point::new(9, 0)), None);
    let _ = key();
}

#[test]
fn error_messages() {
    assert_eq!(GameError::Message("Position occupied").message(), "Position occupied");
    assert_eq!(GameError::NoSpaceFor(key()).message(), "Can't find space for Key(Key)");
    assert_eq!(GameError::NotEnough { item: key(), short: 1 }.message(), "Not enough Key(Key) : 1 short");
    assert_eq!(
        GameError::TooMany { item: key(), overflow: 3 }.message(),
        "Too many Key(Key) : can't find space for 3"
    );
    assert_eq!(GameError::LoopFor(key()).message(), "Created infinite loop for Key(Key)");
}

#[test]
fn players_carry_their_image_and_refuse_others() {
    let mut ecs = Ecs::new();
    let p = ecs.insert_player(Point::new(0, 0), time_game_lib::inventory::Inventory::Actual(
        time_game_lib::inventory::ActualInventory::new(),
    ));
    assert!(ecs.contains_player(&p));
}
