use vstd::prelude::*;
use crate::item::Item;

verus! {

/// Why a step of the game was refused.
#[derive(Clone, Copy, Debug, PartialEq, Eq)]
pub enum GameError {
    /// A refusal described by a fixed message.
    Message(&'static str),
    /// An inventory had no room for one more `Item`.
    NoSpaceFor(Item),
    /// Merging inventories found `short` too few of `item`.
    NotEnough { item: Item, short: isize },
    /// Merging inventories found no room for `overflow` of `item`.
    TooMany { item: Item, overflow: usize },
    /// Closing a portal left items of this kind with nowhere to end up.
    LoopFor(Item),
}

/// How an item is written in a message.
pub open spec fn item_text(item: Item) -> Seq<char> {
    match item {
        Item::Key(_) => "Key(Key)"@,
    }
}

/// How an item is written in a message (see `item_text`).
fn item_name(item: &Item) -> (r: &'static str)
    ensures
        r@ == item_text(*item),
{
    proof {
        reveal_strlit("Key(Key)");
    }
    match item {
        Item::Key(_) => "Key(Key)",
    }
}

impl GameError {
    /// The message that tells the user of this refusal. The numbers in it are written as
    /// `to_string` writes them.
    pub fn message(&self) -> (r: String)
        ensures
            match *self {
                GameError::Message(m) => r@ == m@,
                GameError::NoSpaceFor(item) => r@ == "Can't find space for "@ + item_text(item),
                GameError::NotEnough { item, short } => exists|d: String|
                    #[trigger] vstd::string::to_string_from_display_ensures::<isize>(&short, d)
                        && r@ == "Not enough "@ + item_text(item) + " : "@ + d@ + " short"@,
                GameError::TooMany { item, overflow } => exists|d: String|
                    #[trigger] vstd::string::to_string_from_display_ensures::<usize>(&overflow, d)
                        && r@ == "Too many "@ + item_text(item) + " : can't find space for "@ + d@,
                GameError::LoopFor(item) => r@ == "Created infinite loop for "@ + item_text(item),
            },
    {
        match self {
            GameError::Message(m) => String::from_str(m),
            GameError::NoSpaceFor(item) => String::from_str("Can't find space for ").concat(
                item_name(item),
            ),
            GameError::NotEnough { item, short } => {
                let d = short.to_string();
                String::from_str("Not enough ").concat(item_name(item)).concat(" : ").concat(
                    d.as_str(),
                ).concat(" short")
            },
            GameError::TooMany { item, overflow } => {
                let d = overflow.to_string();
                String::from_str("Too many ").concat(item_name(item)).concat(
                    " : can't find space for ",
                ).concat(d.as_str())
            },
            GameError::LoopFor(item) => String::from_str("Created infinite loop for ").concat(
                item_name(item),
            ),
        }
    }
}

} // verus!
