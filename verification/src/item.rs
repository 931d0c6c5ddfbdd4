use vstd::prelude::*;

verus! {

/// A key, which opens a locked door.
#[derive(Clone, Copy, Debug, PartialEq, Eq, Hash, Structural)]
pub struct Key {}

/// Something that a player can carry.
#[derive(Clone, Copy, Debug, PartialEq, Eq, Hash, Structural)]
pub enum Item {
    Key(Key),
}

/// There is a single kind of item, and a key carries no data: any two items are equal.
pub proof fn lemma_items_equal(a: Item, b: Item)
    ensures
        a == b,
{
    match (a, b) {
        (Item::Key(ka), Item::Key(kb)) => {
            assert(ka == kb);
        },
    }
}

} // verus!
