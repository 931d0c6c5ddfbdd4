use vstd::prelude::*;
use crate::inventory::{ActualInventory, Inventory};
use crate::item::Item;

verus! {

/// An identifier of a player, portal or item drop that stays the same from one game frame to
/// the next, while the thing it names may change.
#[derive(Clone, Copy, Debug, PartialEq, Eq, PartialOrd, Ord, Hash, Structural)]
pub struct Id(pub u64);

/// A fresh identifier drawn at random (by `rand::random`).
#[verifier::external_body]
fn random_raw_id() -> u64 {
    rand::random::<u64>()
}

/// A tile of the map, by its column `x` and row `y`.
#[derive(Clone, Copy, Debug, PartialEq, Eq, Hash, Structural)]
pub struct Point {
    pub x: i32,
    pub y: i32,
}

impl Point {
    pub fn new(x: i32, y: i32) -> (p: Point)
        ensures
            p == (Point { x, y }),
    {
        Point { x, y }
    }

    /// The tile one step in `direction` from this one: rows count downwards, so `Up` lowers
    /// `y` and `Down` raises it; `Left` lowers `x` and `Right` raises it.
    pub open spec fn after_step(self, direction: Direction) -> Point {
        match direction {
            Direction::Up => Point { x: self.x, y: (self.y - 1) as i32 },
            Direction::Down => Point { x: self.x, y: (self.y + 1) as i32 },
            Direction::Left => Point { x: (self.x - 1) as i32, y: self.y },
            Direction::Right => Point { x: (self.x + 1) as i32, y: self.y },
        }
    }

    /// Whether a step in `direction` stays within the range of coordinates.
    pub open spec fn can_step(self, direction: Direction) -> bool {
        match direction {
            Direction::Up => self.y > i32::MIN,
            Direction::Down => self.y < i32::MAX,
            Direction::Left => self.x > i32::MIN,
            Direction::Right => self.x < i32::MAX,
        }
    }

    /// Moves a player one step in `direction`.
    pub fn step(self, direction: Direction) -> (p: Point)
        requires
            self.can_step(direction),
        ensures
            p == self.after_step(direction),
    {
        match direction {
            Direction::Up => Point { x: self.x, y: self.y - 1 },
            Direction::Down => Point { x: self.x, y: self.y + 1 },
            Direction::Left => Point { x: self.x - 1, y: self.y },
            Direction::Right => Point { x: self.x + 1, y: self.y },
        }
    }
}

#[derive(Clone, Copy, Eq, PartialEq, Debug, Structural)]
pub enum Direction {
    Up,
    Down,
    Left,
    Right,
}

/// What a player does in one step of the game.
#[derive(Clone, Copy, Debug, PartialEq, Eq, Structural)]
pub enum Move {
    Direction(Direction),
    Jump,
    PickUp,
    Drop(usize),
}

/// A thing in the world: a player, a wall, a door, a plate...
#[derive(Clone, Copy, Debug, PartialEq, Eq, Hash, Structural)]
pub struct Entity {
    pub idx: u32,
    pub version: u32,
}

/// What the user has selected, from the world down to a slot of an inventory.
#[derive(PartialEq, Eq, Clone, Copy, Debug, Structural)]
pub enum Selection {
    Top,
    Player(Entity),
    GridCell(Point),
    Inventory(Entity, Option<usize>),
    WishPicker(Entity, usize),
    WishPickerInventoryViewer(Entity, usize, Entity),
}

impl Selection {
    /// The selection one level up from `s`.
    pub open spec fn parent(s: Selection) -> Selection {
        match s {
            Selection::Top => Selection::Top,
            Selection::Player(_) => Selection::Top,
            Selection::GridCell(_) => Selection::Top,
            Selection::Inventory(id, None) => Selection::Player(id),
            Selection::Inventory(id, Some(_)) => Selection::Inventory(id, None),
            Selection::WishPicker(id, ix) => Selection::Inventory(id, Some(ix)),
            Selection::WishPickerInventoryViewer(id, ix, _) => Selection::WishPicker(id, ix),
        }
    }

    /// The selection `k` levels up from `s`.
    pub open spec fn ancestor(s: Selection, k: nat) -> Selection
        decreases k,
    {
        if k == 0 {
            s
        } else {
            Selection::parent(Selection::ancestor(s, (k - 1) as nat))
        }
    }

    /// Going up five times from any selection reaches `Top`, which going up keeps.
    pub proof fn law_pop_reaches_top(s: Selection)
        ensures
            Selection::ancestor(s, 5) == Selection::Top,
            Selection::parent(Selection::Top) == Selection::Top,
    {
        reveal_with_fuel(Selection::ancestor, 6);
    }

    /// Goes one level up: back towards `Top`.
    pub fn pop(&mut self)
        ensures
            *final(self) == Selection::parent(*old(self)),
    {
        match *self {
            Selection::Top => {},
            Selection::Player(_) => *self = Selection::Top,
            Selection::GridCell(_) => *self = Selection::Top,
            Selection::Inventory(id, None) => *self = Selection::Player(id),
            Selection::Inventory(id, Some(_)) => *self = Selection::Inventory(id, None),
            Selection::WishPicker(id, ix) => *self = Selection::Inventory(id, Some(ix)),
            Selection::WishPickerInventoryViewer(id, ix, _) => {
                *self = Selection::WishPicker(id, ix)
            },
        }
    }
}

/// A portal: a player came out of it at `player_position`, and another must later jump
/// into it there.
#[derive(Debug)]
pub struct Portal {
    pub timestamp: usize,
    pub id: Id,
    pub player_position: Point,
}

impl Portal {
    /// A portal at `player_position` with a fresh random id.
    pub fn new(timestamp: usize, player_position: Point) -> (p: Portal)
        ensures
            p.timestamp == timestamp,
            p.player_position == player_position,
    {
        Portal { timestamp, id: Id(random_raw_id()), player_position }
    }
}

impl Clone for Portal {
    fn clone(&self) -> (r: Self)
        ensures
            r.timestamp == self.timestamp,
            r.id == self.id,
            r.player_position == self.player_position,
    {
        Portal { timestamp: self.timestamp, id: self.id, player_position: self.player_position }
    }
}

/// An item lying on the map.
#[derive(Debug)]
pub struct ItemDrop {
    pub id: Id,
    pub position: Point,
    pub item: Item,
}

impl ItemDrop {
    /// A drop of `item` at `position` with a fresh random id.
    pub fn new(item: Item, position: Point) -> (d: ItemDrop)
        ensures
            d.item == item,
            d.position == position,
    {
        ItemDrop { id: Id(random_raw_id()), item, position }
    }
}

impl Clone for ItemDrop {
    fn clone(&self) -> (r: Self)
        ensures
            r.id == self.id,
            r.position == self.position,
            r.item == self.item,
    {
        ItemDrop { id: self.id, position: self.position, item: self.item }
    }
}

/// What occupies one tile of the map.
#[derive(Clone, Copy, Debug, PartialEq, Eq, Structural)]
pub struct GameCell {
    pub player: Option<Id>,
    pub portal: Option<Id>,
    pub item: Option<Item>,
}

impl GameCell {
    pub fn new() -> (c: GameCell)
        ensures
            c == (GameCell { player: None, portal: None, item: None }),
    {
        GameCell { player: None, portal: None, item: None }
    }

    /// Nothing occupies the tile.
    pub fn is_empty(&self) -> (r: bool)
        ensures
            r == (self.player is None && self.portal is None && self.item is None),
    {
        return self.player.is_none() && self.portal.is_none() && self.item.is_none();
    }
}

/// A player: where it stands and what it carries.
#[derive(Debug)]
pub struct Player {
    pub id: Id,
    pub position: Point,
    pub inventory: Inventory,
}

impl Player {
    /// A player at `position` with a fresh random id and an empty actual inventory.
    pub fn new(position: Point) -> (p: Player)
        ensures
            p.position == position,
            p.inventory matches Inventory::Actual(a) && a.cells@ == Seq::new(
                32,
                |i: int| None::<crate::cells::InventoryCell>,
            ),
    {
        Player { id: Id(random_raw_id()), position, inventory: Inventory::Actual(ActualInventory::new()) }
    }
}

/// A counter that a map element keeps, such as the number of plates pressed.
#[derive(Copy, Clone, Debug, PartialEq, Eq, Structural)]
pub enum Counter {
    Unlock,
}

/// How an event listener's trigger is read against the previous step.
#[derive(Clone, Copy, Debug, PartialEq, Eq, Structural)]
pub enum EventTriggerModifier {
    /// Fires whenever the trigger holds.
    Unmodified,
    /// Fires when the trigger starts to hold; remembers whether it held last time.
    Rising(bool),
    /// Fires when the trigger stops holding; remembers whether it held last time.
    Falling(bool),
    /// Fires whenever the trigger does not hold.
    Negated,
}

impl EventTriggerModifier {
    /// Whether a listener with this modifier fires when its trigger reads `base`, and the
    /// modifier's memory after this step.
    pub open spec fn fires(self, base: bool) -> (bool, EventTriggerModifier) {
        match self {
            EventTriggerModifier::Unmodified => (base, self),
            EventTriggerModifier::Negated => (!base, self),
            EventTriggerModifier::Rising(prior) => (!prior && base, EventTriggerModifier::Rising(base)),
            EventTriggerModifier::Falling(prior) => (prior && !base, EventTriggerModifier::Falling(base)),
        }
    }

    /// Law: read step after step through a `Rising` modifier that starts remembering
    /// `prior`, a trigger fires exactly at the steps where it holds and did not hold at the
    /// step before (before the first step: `prior`); a `Falling` one fires exactly where it
    /// stopped holding. So a rising listener never fires while its trigger is off, and neither
    /// kind fires at two steps in a row. `ms` are the modifiers before and after each step,
    /// `fired` what each step gave.
    pub proof fn law_edges_of_a_trigger(
        rising: bool,
        prior: bool,
        bases: Seq<bool>,
        ms: Seq<EventTriggerModifier>,
        fired: Seq<bool>,
    )
        requires
            ms.len() == bases.len() + 1,
            fired.len() == bases.len(),
            ms[0] == if rising {
                EventTriggerModifier::Rising(prior)
            } else {
                EventTriggerModifier::Falling(prior)
            },
            forall|i: int| 0 <= i < bases.len() ==> (fired[i], ms[i + 1]) == #[trigger] ms[i].fires(
                bases[i],
            ),
        ensures
            forall|i: int|
                0 <= i < bases.len() ==> {
                    let before = if i == 0 {
                        prior
                    } else {
                        bases[i - 1]
                    };
                    #[trigger] fired[i] == if rising {
                        bases[i] && !before
                    } else {
                        !bases[i] && before
                    }
                },
            forall|i: int| 0 <= i < bases.len() && rising && !bases[i] ==> !#[trigger] fired[i],
            forall|i: int|
                0 < i < bases.len() && #[trigger] fired[i] ==> !fired[i - 1],
    {
        if bases.len() > 0 {
            assert forall|i: int| 0 <= i < bases.len() implies {
                let before = if i == 0 {
                    prior
                } else {
                    bases[i - 1]
                };
                #[trigger] fired[i] == if rising {
                    bases[i] && !before
                } else {
                    !bases[i] && before
                }
            } by {
                Self::lemma_memory(rising, prior, bases, ms, fired, i);
                assert((fired[i], ms[i + 1]) == ms[i].fires(bases[i]));
            }
        }
    }

    /// Before step `i`, the modifier of `law_edges_of_a_trigger` remembers the reading of the
    /// step before.
    proof fn lemma_memory(
        rising: bool,
        prior: bool,
        bases: Seq<bool>,
        ms: Seq<EventTriggerModifier>,
        fired: Seq<bool>,
        i: int,
    )
        requires
            ms.len() == bases.len() + 1,
            fired.len() == bases.len(),
            ms[0] == if rising {
                EventTriggerModifier::Rising(prior)
            } else {
                EventTriggerModifier::Falling(prior)
            },
            forall|i: int| 0 <= i < bases.len() ==> (fired[i], ms[i + 1]) == #[trigger] ms[i].fires(
                bases[i],
            ),
            0 <= i <= bases.len(),
        ensures
            ms[i] == if rising {
                EventTriggerModifier::Rising(if i == 0 { prior } else { bases[i - 1] })
            } else {
                EventTriggerModifier::Falling(if i == 0 { prior } else { bases[i - 1] })
            },
        decreases i,
    {
        if i > 0 {
            Self::lemma_memory(rising, prior, bases, ms, fired, i - 1);
            let j = i - 1;
            assert((fired[j], ms[j + 1]) == ms[j].fires(bases[j]));
        }
    }

    /// Reads the trigger `base` through this modifier, updating what it remembers.
    pub fn triggered(&mut self, base: bool) -> (r: bool)
        ensures
            (r, *final(self)) == old(self).fires(base),
    {
        match self {
            EventTriggerModifier::Unmodified => base,
            EventTriggerModifier::Negated => !base,
            EventTriggerModifier::Rising(triggered_prior) => {
                let triggered = !*triggered_prior && base;
                *triggered_prior = base;
                triggered
            },
            EventTriggerModifier::Falling(triggered_prior) => {
                let triggered = *triggered_prior && !base;
                *triggered_prior = base;
                triggered
            },
        }
    }
}

/// When an event listener runs within a step: all `Main` listeners before any `Cleanup` one.
#[derive(Clone, Copy, Debug, PartialEq, Eq, PartialOrd, Ord, Structural)]
pub enum Priority {
    Main,
    Cleanup,
}

/// The layer an image is drawn in, back to front.
#[derive(Clone, Copy, Debug, PartialEq, Eq, PartialOrd, Ord, Structural)]
pub enum Layer {
    Background,
    Foreground,
    UI,
}

/// A group of event listeners that can be switched off together.
#[derive(Clone, Copy, Debug, PartialEq, Eq, Structural)]
pub enum Group {
    Default,
    Locked,
}

#[derive(Clone, Copy, Eq, PartialEq, Debug, Structural)]
pub enum MovementType {
    PlayerControlled,
    Constant(Direction),
}

#[derive(Clone, Copy, Debug, PartialEq, Eq, Structural)]
pub struct Movement {
    pub direction: Option<Direction>,
    pub movement_type: MovementType,
}

/// The outcome of wishing in a game frame.
#[derive(Clone, Copy, Debug, PartialEq, Eq, Structural)]
pub enum FrameWishResult {
    Success,
    NoItem,
}

} // verus!
