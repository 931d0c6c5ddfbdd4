use vstd::prelude::*;
use crate::item::Item;
use crate::types::{Counter, Entity, EventTriggerModifier, Group, Point, Priority};

verus! {

/// The pictures that entities are drawn with. The program that draws the game loads one
/// image for each.
#[derive(Clone, Copy, Debug, PartialEq, Eq, Structural)]
pub enum ImageId {
    Player,
    Selection,
    MoveArrow,
    JumpIcon,
    PickUpIcon,
    DropIcon,
    Portal,
    Key,
    Wall,
    OpenDoor,
    ClosedDoor,
    Plate,
    /// A light showing how many of its plates are pressed, from 0 to 3.
    Light(u8),
}

/// A test on the value of a counter.
#[derive(Clone, Copy, Debug, PartialEq, Eq, Structural)]
pub enum CounterTest {
    /// The counter holds exactly this value.
    Equals(i64),
}

/// A change to the value of a counter.
#[derive(Clone, Copy, Debug, PartialEq, Eq, Structural)]
pub enum CounterChange {
    /// The counter goes up by this amount (down where it is negative).
    Add(i64),
}

/// A test on a position.
#[derive(Clone, Copy, Debug, PartialEq, Eq, Structural)]
pub enum PositionTest {
    /// The position is this tile.
    Equals(Point),
}

/// What an event listener watches for, on the tile of its entity.
#[derive(Clone, Copy, Debug, PartialEq, Eq, Structural)]
pub enum EventTrigger {
    PlayerIntersect,
    PlayerNotIntersect,
    /// A player stands here holding at least this many of the item.
    PlayerIntersectHasItems(Item, usize),
    ItemIntersect(Item),
    CounterPredicate(Counter, CounterTest),
    PositionPredicate(PositionTest),
}

/// What an event listener does when it fires.
#[derive(Debug)]
pub enum Action {
    AlterCounter(Entity, Counter, CounterChange),
    /// Marks that the player standing here used this many of the item.
    PlayerMarkUsed(Item, usize),
    /// Refuses the step with this message.
    Reject(&'static str),
    SetImage { target: Entity, img: ImageId },
    EnableGroup(Entity, Group),
    DisableGroup(Entity, Group),
    SetPosition { target: Entity, position: Point },
    /// All of these, the last first.
    All(Vec<Action>),
}

/// `b` is `a`, action by action: the same actions in the same order.
pub open spec fn same_action(a: Action, b: Action) -> bool
    decreases a,
{
    match (a, b) {
        (Action::All(va), Action::All(vb)) => va@.len() == vb@.len() && forall|i: int|
            0 <= i < va@.len() ==> same_action(#[trigger] va@[i], vb@[i]),
        (Action::All(_), _) => false,
        _ => a == b,
    }
}

impl Action {
    /// A copy of this action.
    pub fn duplicate(&self) -> (r: Action)
        ensures
            same_action(*self, r),
        decreases self,
    {
        match self {
            Action::AlterCounter(e, c, f) => Action::AlterCounter(*e, *c, *f),
            Action::PlayerMarkUsed(item, n) => Action::PlayerMarkUsed(*item, *n),
            Action::Reject(msg) => Action::Reject(msg),
            Action::SetImage { target, img } => Action::SetImage { target: *target, img: *img },
            Action::EnableGroup(e, g) => Action::EnableGroup(*e, *g),
            Action::DisableGroup(e, g) => Action::DisableGroup(*e, *g),
            Action::SetPosition { target, position } => Action::SetPosition {
                target: *target,
                position: *position,
            },
            Action::All(v) => {
                let mut w: Vec<Action> = Vec::new();
                let mut i: usize = 0;
                while i < v.len()
                    invariant
                        *self == Action::All(*v),
                        i <= v@.len(),
                        w@.len() == i,
                        forall|j: int| 0 <= j < i ==> same_action(#[trigger] v@[j], w@[j]),
                    decreases v@.len() - i,
                {
                    proof {
                        assert(decreases_to!(*self => (*self)->All_0));
                        assert((*self)->All_0 == *v);
                        assert(decreases_to!(*v => v@));
                        assert(decreases_to!(v@ => v@[i as int]));
                        assert(decreases_to!(*self => v@[i as int]));
                    }
                    let a = v[i].duplicate();
                    w.push(a);
                    i += 1;
                }
                Action::All(w)
            },
        }
    }
}

/// Something an entity reacts to: when `trigger` holds (as read through `modifier`) and the
/// listener's group is not switched off, `action` is done; `Main` listeners run before
/// `Cleanup` ones.
#[derive(Debug)]
pub struct EventListener {
    pub trigger: EventTrigger,
    pub modifier: EventTriggerModifier,
    pub action: Action,
    pub group: Group,
    pub priority: Priority,
}

impl EventListener {
    /// A listener that does `action` whenever `trigger` holds, in the `Default` group, among
    /// the `Main` listeners.
    pub fn new(trigger: EventTrigger, action: Action) -> (l: Self)
        ensures
            l == (EventListener {
                trigger,
                modifier: EventTriggerModifier::Unmodified,
                action,
                group: Group::Default,
                priority: Priority::Main,
            }),
    {
        EventListener {
            trigger,
            modifier: EventTriggerModifier::Unmodified,
            action,
            group: Group::Default,
            priority: Priority::Main,
        }
    }

    /// The same listener in the group `group`.
    pub fn with_group(self, group: Group) -> (l: Self)
        ensures
            l == (EventListener { group, ..self }),
    {
        EventListener { group, ..self }
    }

    /// The same listener reading its trigger through `modifier`.
    pub fn with_modifier(self, modifier: EventTriggerModifier) -> (l: Self)
        ensures
            l == (EventListener { modifier, ..self }),
    {
        EventListener { modifier, ..self }
    }

    /// The same listener with the priority `priority`.
    pub fn with_priority(self, priority: Priority) -> (l: Self)
        ensures
            l == (EventListener { priority, ..self }),
    {
        EventListener { priority, ..self }
    }
}

} // verus!
