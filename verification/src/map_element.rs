use vstd::prelude::*;
use crate::ecs::Ecs;
use crate::item::{Item, Key};
use crate::listeners::{
    same_action, Action, CounterChange, CounterTest, EventListener, EventTrigger, ImageId,
    PositionTest,
};
use crate::types::{
    Counter, Direction, Entity, EventTriggerModifier, Group, Movement, MovementType, Point,
    Priority,
};

verus! {

/// What a tile of a level can hold.
#[derive(Debug)]
pub enum MapElement {
    Empty,
    Wall,
    /// A door that a player holding a key opens, using the key up.
    ClosedDoor,
    /// A door opened from elsewhere (see `Light`).
    RemoteDoor,
    OpenDoor,
    /// A plate that counts, on the counter `.0` of the entity `.1`, the players standing on it.
    Plate(Counter, Entity),
    /// A light that shows the value of its counter, and does `rising` when the counter
    /// reaches 3 and `falling` when it leaves 3.
    Light { counter: Counter, rising: Action, falling: Action },
    /// A wall that keeps moving in `direction`; where `reset` is `(start, end)`, reaching
    /// `end` puts it back at `start`.
    MovingWall { direction: Direction, reset: Option<(Point, Point)> },
}

/// The image an element is drawn with, if it is drawn.
pub open spec fn image_of(m: MapElement) -> Option<ImageId> {
    match m {
        MapElement::Empty => None,
        MapElement::Wall => Some(ImageId::Wall),
        MapElement::ClosedDoor | MapElement::RemoteDoor => Some(ImageId::ClosedDoor),
        MapElement::OpenDoor => Some(ImageId::OpenDoor),
        MapElement::Plate(_, _) => Some(ImageId::Plate),
        MapElement::Light { .. } => Some(ImageId::Light(0)),
        MapElement::MovingWall { .. } => Some(ImageId::Wall),
    }
}

/// The listener `l` watches for `trigger` through `modifier` and does `action`, in `group`
/// and with `priority`.
pub open spec fn listener_is(
    l: EventListener,
    trigger: EventTrigger,
    modifier: EventTriggerModifier,
    action: Action,
    group: Group,
    priority: Priority,
) -> bool {
    &&& l.trigger == trigger
    &&& l.modifier == modifier
    &&& same_action(action, l.action)
    &&& l.group == group
    &&& l.priority == priority
}

/// The listener that keeps players off an entity's tile.
pub open spec fn impassable(l: EventListener) -> bool {
    listener_is(
        l,
        EventTrigger::PlayerIntersect,
        EventTriggerModifier::Unmodified,
        Action::Reject("impassible"),
        Group::Default,
        Priority::Main,
    )
}

/// The listeners that the element `m`, added as the entity `e`, reacts with: none for an
/// empty tile or an open door.
pub open spec fn listeners_of(m: MapElement, e: Entity, ls: Seq<EventListener>) -> bool {
    match m {
        MapElement::Empty | MapElement::OpenDoor => ls.len() == 0,
        MapElement::ClosedDoor => {
            &&& ls.len() == 2
            &&& ls[0].trigger == EventTrigger::PlayerIntersectHasItems(Item::Key(Key {}), 1)
            &&& ls[0].modifier == EventTriggerModifier::Unmodified
            &&& ls[0].group == Group::Locked
            &&& ls[0].priority == Priority::Main
            &&& ls[0].action matches Action::All(v) && v@ == seq![
                Action::PlayerMarkUsed(Item::Key(Key {}), 1),
                Action::SetImage { target: e, img: ImageId::OpenDoor },
                Action::DisableGroup(e, Group::Locked),
            ]
            &&& listener_is(
                ls[1],
                EventTrigger::PlayerIntersect,
                EventTriggerModifier::Unmodified,
                Action::Reject("Door locked"),
                Group::Locked,
                Priority::Main,
            )
        },
        MapElement::RemoteDoor => {
            &&& ls.len() == 1
            &&& listener_is(
                ls[0],
                EventTrigger::PlayerIntersect,
                EventTriggerModifier::Unmodified,
                Action::Reject("Door locked remotely"),
                Group::Locked,
                Priority::Main,
            )
        },
        MapElement::Light { counter, rising, falling } => {
            &&& ls.len() == 6
            &&& forall|i: int|
                0 <= i < 4 ==> #[trigger] listener_is(
                    ls[i],
                    EventTrigger::CounterPredicate(counter, CounterTest::Equals(i as i64)),
                    EventTriggerModifier::Unmodified,
                    Action::SetImage { target: e, img: ImageId::Light(i as u8) },
                    Group::Default,
                    Priority::Cleanup,
                )
            &&& listener_is(
                ls[4],
                EventTrigger::CounterPredicate(counter, CounterTest::Equals(3)),
                EventTriggerModifier::Rising(false),
                rising,
                Group::Default,
                Priority::Cleanup,
            )
            &&& listener_is(
                ls[5],
                EventTrigger::CounterPredicate(counter, CounterTest::Equals(3)),
                EventTriggerModifier::Falling(false),
                falling,
                Group::Default,
                Priority::Cleanup,
            )
        },
        MapElement::Plate(counter, target) => {
            &&& ls.len() == 2
            &&& listener_is(
                ls[0],
                EventTrigger::PlayerIntersect,
                EventTriggerModifier::Rising(false),
                Action::AlterCounter(target, counter, CounterChange::Add(1)),
                Group::Default,
                Priority::Main,
            )
            &&& listener_is(
                ls[1],
                EventTrigger::PlayerIntersect,
                EventTriggerModifier::Falling(false),
                Action::AlterCounter(target, counter, CounterChange::Add(-1i64)),
                Group::Default,
                Priority::Main,
            )
        },
        MapElement::Wall => ls.len() == 1 && impassable(ls[0]),
        MapElement::MovingWall { direction, reset } => match reset {
            None => ls.len() == 1 && impassable(ls[0]),
            Some((start, end)) => {
                &&& ls.len() == 2
                &&& impassable(ls[0])
                &&& listener_is(
                    ls[1],
                    EventTrigger::PositionPredicate(PositionTest::Equals(end)),
                    EventTriggerModifier::Unmodified,
                    Action::SetPosition { target: e, position: start },
                    Group::Default,
                    Priority::Main,
                )
            },
        },
    }
}

/// Law: a plate's listeners count players on it: stepping on (the listener read through
/// `Rising`) changes its target's counter by a positive amount, and stepping off (through
/// `Falling`) by the opposite amount, so stepping on and off leaves the counter as it was and
/// a pressed plate has raised it.
pub proof fn law_plate_counts(counter: Counter, target: Entity, e: Entity, ls: Seq<EventListener>)
    requires
        listeners_of(MapElement::Plate(counter, target), e, ls),
    ensures
        ls.len() == 2,
        ls[0].trigger == EventTrigger::PlayerIntersect && ls[1].trigger == EventTrigger::PlayerIntersect,
        ls[0].modifier is Rising && ls[1].modifier is Falling,
        ls[0].action matches Action::AlterCounter(t0, c0, CounterChange::Add(on)) && ls[1].action
            matches Action::AlterCounter(t1, c1, CounterChange::Add(off)) && t0 == target && t1
            == target && c0 == counter && c1 == counter && on > 0 && on + off == 0,
{
}

impl MapElement {
    /// The image this element is drawn with, if it is drawn.
    pub fn image(&self) -> (r: Option<ImageId>)
        ensures
            r == image_of(*self),
    {
        match self {
            MapElement::Empty => None,
            MapElement::Wall => Some(ImageId::Wall),
            MapElement::ClosedDoor | MapElement::RemoteDoor => Some(ImageId::ClosedDoor),
            MapElement::OpenDoor => Some(ImageId::OpenDoor),
            MapElement::Plate(_, _) => Some(ImageId::Plate),
            MapElement::Light { .. } => Some(ImageId::Light(0)),
            MapElement::MovingWall { .. } => Some(ImageId::Wall),
        }
    }

    /// Whether players can walk onto this element; doors are passable here, and it is their
    /// listeners that keep players out while they are locked.
    pub fn passable(&self) -> (r: bool)
        ensures
            r == !(*self is Wall || *self is MovingWall),
    {
        match self {
            MapElement::Empty
            | MapElement::OpenDoor
            | MapElement::ClosedDoor
            | MapElement::RemoteDoor
            | MapElement::Plate(_, _)
            | MapElement::Light { .. } => true,
            MapElement::Wall | MapElement::MovingWall { .. } => false,
        }
    }

    /// The listeners this element reacts with once added as the entity `e`.
    #[verifier::rlimit(60)]
    fn make_listeners(&self, e: Entity) -> (ls: Vec<EventListener>)
        ensures
            listeners_of(*self, e, ls@),
            ls@.len() == 0 <==> (*self is Empty || *self is OpenDoor),
    {
        let mut listeners: Vec<EventListener> = Vec::new();
        match self {
            MapElement::ClosedDoor => {
                let mut open: Vec<Action> = Vec::new();
                open.push(Action::PlayerMarkUsed(Item::Key(Key {}), 1));
                open.push(Action::SetImage { target: e, img: ImageId::OpenDoor });
                open.push(Action::DisableGroup(e, Group::Locked));
                proof {
                    assert(open@ =~= seq![
                        Action::PlayerMarkUsed(Item::Key(Key {}), 1),
                        Action::SetImage { target: e, img: ImageId::OpenDoor },
                        Action::DisableGroup(e, Group::Locked),
                    ]);
                }
                listeners.push(
                    EventListener::new(
                        EventTrigger::PlayerIntersectHasItems(Item::Key(Key {}), 1),
                        Action::All(open),
                    ).with_group(Group::Locked),
                );
                listeners.push(
                    EventListener::new(EventTrigger::PlayerIntersect, Action::Reject("Door locked"))
                        .with_group(Group::Locked),
                );
            },
            MapElement::RemoteDoor => {
                listeners.push(
                    EventListener::new(
                        EventTrigger::PlayerIntersect,
                        Action::Reject("Door locked remotely"),
                    ).with_group(Group::Locked),
                );
            },
            MapElement::Light { counter, rising, falling } => {
                let mut i: u8 = 0;
                while i < 4
                    invariant
                        i <= 4,
                        listeners@.len() == i,
                        forall|j: int|
                            0 <= j < i ==> #[trigger] listener_is(
                                listeners@[j],
                                EventTrigger::CounterPredicate(*counter, CounterTest::Equals(j as i64)),
                                EventTriggerModifier::Unmodified,
                                Action::SetImage { target: e, img: ImageId::Light(j as u8) },
                                Group::Default,
                                Priority::Cleanup,
                            ),
                    decreases 4 - i,
                {
                    listeners.push(
                        EventListener::new(
                            EventTrigger::CounterPredicate(*counter, CounterTest::Equals(i as i64)),
                            Action::SetImage { target: e, img: ImageId::Light(i) },
                        ).with_priority(Priority::Cleanup),
                    );
                    i += 1;
                }
                listeners.push(
                    EventListener::new(
                        EventTrigger::CounterPredicate(*counter, CounterTest::Equals(3)),
                        rising.duplicate(),
                    ).with_priority(Priority::Cleanup).with_modifier(
                        EventTriggerModifier::Rising(false),
                    ),
                );
                listeners.push(
                    EventListener::new(
                        EventTrigger::CounterPredicate(*counter, CounterTest::Equals(3)),
                        falling.duplicate(),
                    ).with_priority(Priority::Cleanup).with_modifier(
                        EventTriggerModifier::Falling(false),
                    ),
                );
            },
            MapElement::Plate(counter, target) => {
                listeners.push(
                    EventListener::new(
                        EventTrigger::PlayerIntersect,
                        Action::AlterCounter(*target, *counter, CounterChange::Add(1)),
                    ).with_modifier(EventTriggerModifier::Rising(false)),
                );
                listeners.push(
                    EventListener::new(
                        EventTrigger::PlayerIntersect,
                        Action::AlterCounter(*target, *counter, CounterChange::Add(-1)),
                    ).with_modifier(EventTriggerModifier::Falling(false)),
                );
            },
            MapElement::Wall => {
                listeners.push(
                    EventListener::new(EventTrigger::PlayerIntersect, Action::Reject("impassible")),
                );
            },
            MapElement::MovingWall { reset, .. } => {
                listeners.push(
                    EventListener::new(EventTrigger::PlayerIntersect, Action::Reject("impassible")),
                );
                if let Some((start, end)) = *reset {
                    listeners.push(
                        EventListener::new(
                            EventTrigger::PositionPredicate(PositionTest::Equals(end)),
                            Action::SetPosition { target: e, position: start },
                        ),
                    );
                }
            },
            _ => {},
        }
        listeners
    }

    /// Adds this element at `pt` as a new entity: drawn with its image, reacting with its
    /// listeners (see `listeners_of`), and moving where it is a moving wall.
    pub fn add(&self, pt: Point, ecs: &mut Ecs) -> (e: Entity)
        requires
            old(ecs).has_room(),
        ensures
            !old(ecs).live().contains(e),
            final(ecs).live() == old(ecs).live().insert(e),
            final(ecs).positions() == old(ecs).positions().insert(e, pt),
            final(ecs).players() == old(ecs).players(),
            final(ecs).images() == match image_of(*self) {
                Some(img) => old(ecs).images().insert(e, img),
                None => old(ecs).images(),
            },
            final(ecs).movement() == match *self {
                MapElement::MovingWall { direction, .. } => old(ecs).movement().insert(
                    e,
                    Movement {
                        direction: Some(direction),
                        movement_type: MovementType::Constant(direction),
                    },
                ),
                _ => old(ecs).movement(),
            },
            *self is Empty || *self is OpenDoor ==> final(ecs).listeners() == old(ecs).listeners(),
            !(*self is Empty || *self is OpenDoor) ==> {
                &&& final(ecs).listeners().dom() == old(ecs).listeners().dom().insert(e)
                &&& forall|x: Entity| #[trigger] old(ecs).listeners().contains_key(x)
                    ==> final(ecs).listeners()[x] == old(ecs).listeners()[x]
                &&& listeners_of(*self, e, final(ecs).listeners()[e]@)
            },
    {
        let e = ecs.spawn();
        if let Some(image) = self.image() {
            ecs.set_image(e, image);
        }
        ecs.set_position(e, pt);
        let listeners = self.make_listeners(e);
        if let MapElement::MovingWall { direction, .. } = self {
            ecs.set_movement(
                e,
                Movement {
                    direction: Some(*direction),
                    movement_type: MovementType::Constant(*direction),
                },
            );
        }
        if listeners.len() > 0 {
            ecs.set_listeners(e, listeners);
        }
        e
    }
}

} // verus!
