use vstd::prelude::*;
use crate::cells::{
    InventoryCell, add_result, cell_count, cells_count, count_cells_items, drop_from_cells, holds_item,
    insert_into_cells, lemma_cells_count_bound, lemma_cells_count_take, lemma_cells_count_update, stack,
};
use crate::counts::{ItemCounts, count_or_zero, keys_distinct};
use crate::error::GameError;
use crate::item::{Item, lemma_items_equal};

verus! {

/// Since all items are alike, a map from items holds at most one entry.
pub proof fn lemma_at_most_one_pair(s: Seq<(Item, usize)>)
    requires
        keys_distinct(s),
    ensures
        s.len() <= 1,
{
    if s.len() > 1 {
        lemma_items_equal(s[0].0, s[1].0);
    }
}

/// The slots of an inventory hold at most 255 of an item each.
pub proof fn lemma_inventory_count_bound(cells: [Option<InventoryCell>; 32], item: Item)
    ensures
        cells_count(cells@, item) <= 8160,
{
    lemma_cells_count_bound(cells@, item);
}

/// `h1` is `h0` after a wish for one `item` into slot `ix` (see `HypotheticalInventory::wish`).
pub open spec fn wish_step(h0: HypotheticalInventory, h1: HypotheticalInventory, item: Item, ix: int) -> bool {
    &&& h1.cells@ == h0.cells@.update(ix, stack(item, cell_count(h0.cells@[ix], item) + 1int))
    &&& h1.minima@ == h0.minima@.insert(item, (count_or_zero(h0.minima@, item) + 1) as usize)
    &&& h1.constraints@ == h0.constraints@.insert(
        item,
        (count_or_zero(h0.constraints@, item) + 1) as usize,
    )
}

/// `h1` is `h0` after dropping one item from slot `ix`, which held some (see
/// `HypotheticalInventory::drop`).
pub open spec fn drop_step(h0: HypotheticalInventory, h1: HypotheticalInventory, ix: int) -> bool {
    h0.cells@[ix] matches Some(c) && {
        &&& h1.cells@ == h0.cells@.update(
            ix,
            if c.count == 1 {
                None
            } else {
                stack(c.item, c.count - 1)
            },
        )
        &&& h1.constraints@ == h0.constraints@
        &&& h1.minima@ == h0.minima@.insert(
            c.item,
            vstd::math::min(
                cells_count(h1.cells@, c.item) as int,
                count_or_zero(h0.minima@, c.item) as int,
            ) as usize,
        )
    }
}

/// The inventory of a player who came through a portal: items it has been assumed to hold
/// ("wished" for), which must be made good when the portal closes.
#[derive(Debug)]
pub struct HypotheticalInventory {
    pub cells: [Option<InventoryCell>; 32],
    /// What the player has wished for.
    pub constraints: ItemCounts,
    /// The fewest of each item that the player has held since; items never listed count as 0.
    /// Subtracted from the constraints when the portal closes.
    pub minima: ItemCounts,
}

impl HypotheticalInventory {
    /// The invariant: the player never held fewer of an item than its recorded minimum.
    pub open spec fn wf(&self) -> bool {
        forall|it: Item| #[trigger]
            self.minima@.contains_key(it) ==> self.minima@[it] <= cells_count(self.cells@, it)
    }

    /// The fewest of each item that the player has held since wishing never exceeds what it
    /// wished for.
    pub open spec fn within_wishes(&self) -> bool {
        forall|it: Item| #[trigger]
            self.minima@.contains_key(it) ==> self.minima@[it] <= count_or_zero(self.constraints@, it)
    }

    pub fn new() -> (r: Self)
        ensures
            r.cells@ == Seq::new(32, |i: int| None::<InventoryCell>),
            r.constraints@ == Map::<Item, usize>::empty(),
            r.minima@ == Map::<Item, usize>::empty(),
            r.wf(),
            r.within_wishes(),
    {
        let r = HypotheticalInventory {
            cells: [None; 32],
            constraints: ItemCounts::new(),
            minima: ItemCounts::new(),
        };
        assert(r.cells@ =~= Seq::new(32, |i: int| None::<InventoryCell>));
        r
    }

    /// Wishes for one `item` in slot `ix`, which must be empty or hold `item`.
    pub fn wish(&mut self, item: Item, ix: usize) -> (r: Result<(), &'static str>)
        requires
            ix < 32,
            old(self).cells@[ix as int] matches Some(c) ==> (c.item == item ==> c.count < 255),
            count_or_zero(old(self).minima@, item) < usize::MAX,
            count_or_zero(old(self).constraints@, item) < usize::MAX,
        ensures
            r is Err <==> (old(self).cells@[ix as int] matches Some(c) && c.item != item),
            r is Err ==> *final(self) == *old(self) && r == Err::<(), &'static str>(
                "Tried to insert conflicting item",
            ),
            r is Ok ==> {
                &&& final(self).cells@ == old(self).cells@.update(
                    ix as int,
                    stack(item, cell_count(old(self).cells@[ix as int], item) + 1int),
                )
                &&& final(self).minima@ == old(self).minima@.insert(
                    item,
                    (count_or_zero(old(self).minima@, item) + 1) as usize,
                )
                &&& final(self).constraints@ == old(self).constraints@.insert(
                    item,
                    (count_or_zero(old(self).constraints@, item) + 1) as usize,
                )
            },
            old(self).wf() ==> final(self).wf(),
            old(self).within_wishes() ==> final(self).within_wishes(),
            r is Ok ==> wish_step(*old(self), *final(self), item, ix as int),
    {
        let ghost old_cells = self.cells@;
        match self.cells[ix] {
            None => {
                self.cells[ix] = Some(InventoryCell { item, count: 1 });
            },
            Some(cell) => {
                if cell.item != item {
                    return Err("Tried to insert conflicting item");
                }
                self.cells[ix] = Some(InventoryCell { item: cell.item, count: cell.count + 1 });
            },
        }
        self.minima.add(item, 1);
        self.constraints.add(item, 1);
        proof {
            assert forall|it: Item| #[trigger] self.minima@.contains_key(it) && old(self).wf()
                implies self.minima@[it] <= cells_count(self.cells@, it) by {
                lemma_cells_count_update(old_cells, ix as int, self.cells@[ix as int], it);
            }
        }
        Ok(())
    }

    /// Takes back one wish for the item in slot `ix`. Refused where the slot is empty, or the
    /// player's recorded minimum or wishes for the item are 0; the first refusal after looking
    /// up the minimum, and the second, still record 0 for the item where it had no entry.
    pub fn unwish(&mut self, ix: usize) -> (r: Result<(), &'static str>)
        requires
            ix < 32,
            old(self).cells@[ix as int] matches Some(c) ==> (count_or_zero(old(self).minima@, c.item)
                > 0 && count_or_zero(old(self).constraints@, c.item) > 0 ==> c.count > 0),
        ensures
            match old(self).cells@[ix as int] {
                None => r == Err::<(), &'static str>("Can't un-wish: empty inventory cell")
                    && *final(self) == *old(self),
                Some(c) => {
                    let m = count_or_zero(old(self).minima@, c.item);
                    let k = count_or_zero(old(self).constraints@, c.item);
                    &&& (m == 0 ==> r == Err::<(), &'static str>("Can't un-wish: minimum value 0"))
                    &&& (m > 0 && k == 0 ==> r == Err::<(), &'static str>(
                        "Can't un-wish: never wished in the first place",
                    ))
                    &&& final(self).cells@ == if r is Ok {
                        old(self).cells@.update(
                            ix as int,
                            if c.count == 1 {
                                None
                            } else {
                                stack(c.item, c.count - 1)
                            },
                        )
                    } else {
                        old(self).cells@
                    }
                    &&& (r is Ok <==> m > 0 && k > 0)
                    &&& final(self).minima@ == old(self).minima@.insert(
                        c.item,
                        (if r is Ok {
                            m - 1
                        } else {
                            m as int
                        }) as usize,
                    )
                    &&& final(self).constraints@ == if m == 0 {
                        old(self).constraints@
                    } else {
                        old(self).constraints@.insert(
                            c.item,
                            (if r is Ok {
                                k - 1
                            } else {
                                k as int
                            }) as usize,
                        )
                    }
                },
            },
            old(self).wf() ==> final(self).wf(),
            old(self).within_wishes() ==> final(self).within_wishes(),
    {
        let ghost old_cells = self.cells@;
        let cell = match self.cells[ix] {
            None => {
                return Err("Can't un-wish: empty inventory cell");
            },
            Some(cell) => cell,
        };
        let item = cell.item;
        let min = self.minima.get_or_zero(&item);
        self.minima.insert(item, min);
        if min == 0 {
            proof {
                assert(self.minima@ =~= old(self).minima@.insert(item, 0));
            }
            return Err("Can't un-wish: minimum value 0");
        }
        let constraint = self.constraints.get_or_zero(&item);
        self.constraints.insert(item, constraint);
        if constraint == 0 {
            proof {
                assert(self.minima@ =~= old(self).minima@.insert(item, min));
            }
            return Err("Can't un-wish: never wished in the first place");
        }
        let count = cell.count - 1;
        self.minima.insert(item, min - 1);
        self.constraints.insert(item, constraint - 1);
        if count == 0 {
            self.cells[ix] = None;
        } else {
            self.cells[ix] = Some(InventoryCell { item, count });
        }
        proof {
            assert(self.minima@ =~= old(self).minima@.insert(item, (min - 1) as usize));
            assert(self.constraints@ =~= old(self).constraints@.insert(
                item,
                (constraint - 1) as usize,
            ));
            assert forall|it: Item| #[trigger] self.minima@.contains_key(it) && old(self).wf()
                implies self.minima@[it] <= cells_count(self.cells@, it) by {
                lemma_cells_count_update(old_cells, ix as int, self.cells@[ix as int], it);
            }
        }
        Ok(())
    }

    /// Drops one item from slot `ix`; the recorded minimum for the item becomes the number the
    /// player still holds, where that is lower.
    pub fn drop(&mut self, item_ix: usize) -> (r: Result<Item, &'static str>)
        requires
            item_ix < 32,
            old(self).cells@[item_ix as int] matches Some(c) ==> c.count > 0,
        ensures
            match old(self).cells@[item_ix as int] {
                None => {
                    &&& r == Err::<Item, &'static str>("Tried to drop from empty inventory slot")
                    &&& final(self).cells@ == old(self).cells@
                    &&& final(self).constraints == old(self).constraints
                    &&& final(self).minima == old(self).minima
                },
                Some(c) => {
                    &&& r == Ok::<Item, &'static str>(c.item)
                    &&& final(self).cells@ == old(self).cells@.update(
                        item_ix as int,
                        if c.count == 1 {
                            None
                        } else {
                            stack(c.item, c.count - 1)
                        },
                    )
                    &&& final(self).constraints@ == old(self).constraints@
                    &&& final(self).minima@ == old(self).minima@.insert(
                        c.item,
                        vstd::math::min(
                            cells_count(final(self).cells@, c.item) as int,
                            count_or_zero(old(self).minima@, c.item) as int,
                        ) as usize,
                    )
                },
            },
            old(self).wf() ==> final(self).wf(),
            old(self).within_wishes() ==> final(self).within_wishes(),
            r is Ok ==> drop_step(*old(self), *final(self), item_ix as int),
    {
        let ghost old_cells = self.cells@;
        let item = drop_from_cells(&mut self.cells, item_ix)?;
        let mut count: usize = 0;
        let mut i: usize = 0;
        while i < 32
            invariant
                i <= 32,
                count == cells_count(self.cells@.take(i as int), item),
                count <= 255 * i,
            decreases 32 - i,
        {
            proof {
                lemma_cells_count_take(self.cells@, i as int, item);
            }
            match self.cells[i] {
                Some(cell) => {
                    if cell.item == item {
                        count += cell.count as usize;
                    }
                },
                None => {},
            }
            i += 1;
        }
        assert(self.cells@.take(32) =~= self.cells@);
        let item_min = self.minima.get_or_zero(&item);
        let new_min = if count < item_min {
            count
        } else {
            item_min
        };
        self.minima.insert(item, new_min);
        proof {
            assert forall|it: Item| #[trigger] self.minima@.contains_key(it) && old(self).wf()
                implies self.minima@[it] <= cells_count(self.cells@, it) by {
                lemma_cells_count_update(old_cells, item_ix as int, self.cells@[item_ix as int], it);
            }
        }
        Ok(item)
    }

    /// How many of each item the slots hold.
    pub fn count_items(&self) -> (r: ItemCounts)
        ensures
            forall|it: Item| #[trigger] r@.contains_key(it) <==> holds_item(self.cells@, it),
            forall|it: Item| #[trigger] r@.contains_key(it) ==> r@[it] == cells_count(self.cells@, it),
    {
        count_cells_items(&self.cells)
    }
}

impl Default for HypotheticalInventory {
    fn default() -> (r: Self)
        ensures
            r.cells@ == Seq::new(32, |i: int| None::<InventoryCell>),
            r.constraints@ == Map::<Item, usize>::empty(),
            r.minima@ == Map::<Item, usize>::empty(),
    {
        HypotheticalInventory::new()
    }
}

/// The inventory of a player whose items are all real.
#[derive(Clone, Copy, Debug)]
pub struct ActualInventory {
    pub cells: [Option<InventoryCell>; 32],
}

impl ActualInventory {
    pub fn new() -> (r: Self)
        ensures
            r.cells@ == Seq::new(32, |i: int| None::<InventoryCell>),
    {
        let r = ActualInventory { cells: [None; 32] };
        assert(r.cells@ =~= Seq::new(32, |i: int| None::<InventoryCell>));
        r
    }

    /// Drops one item from slot `item_ix`.
    pub fn drop(&mut self, item_ix: usize) -> (r: Result<Item, &'static str>)
        requires
            item_ix < 32,
            old(self).cells@[item_ix as int] matches Some(c) ==> c.count > 0,
        ensures
            match old(self).cells@[item_ix as int] {
                None => r == Err::<Item, &'static str>("Tried to drop from empty inventory slot") && final(self).cells@ == old(
                    self,
                ).cells@,
                Some(c) => r == Ok::<Item, &'static str>(c.item) && final(self).cells@ == old(
                    self,
                ).cells@.update(
                    item_ix as int,
                    if c.count == 1 {
                        None
                    } else {
                        stack(c.item, c.count - 1)
                    },
                ),
            },
    {
        drop_from_cells(&mut self.cells, item_ix)
    }

    /// How many of each item the slots hold.
    pub fn count_items(&self) -> (r: ItemCounts)
        ensures
            forall|it: Item| #[trigger] r@.contains_key(it) <==> holds_item(self.cells@, it),
            forall|it: Item| #[trigger] r@.contains_key(it) ==> r@[it] == cells_count(self.cells@, it),
    {
        count_cells_items(&self.cells)
    }
}

impl Default for ActualInventory {
    fn default() -> (r: Self)
        ensures
            r.cells@ == Seq::new(32, |i: int| None::<InventoryCell>),
    {
        ActualInventory::new()
    }
}

/// A player's inventory.
#[derive(Debug)]
pub enum Inventory {
    Actual(ActualInventory),
    Hypothetical(HypotheticalInventory),
}

impl Inventory {
    /// The slots of the inventory.
    pub open spec fn cells_view(&self) -> Seq<Option<InventoryCell>> {
        match self {
            Inventory::Actual(a) => a.cells@,
            Inventory::Hypothetical(h) => h.cells@,
        }
    }

    /// Adds one `item` (see `add_result`).
    pub fn insert(&mut self, item: &Item) -> (r: Result<(), GameError>)
        ensures
            ({
                let (c, left, done) = add_result(old(self).cells_view(), *item, 1);
                &&& final(self).cells_view() == c
                &&& (r is Ok <==> done)
                &&& (r matches Err(e) ==> e == GameError::NoSpaceFor(*item))
            }),
            match (*old(self), *final(self)) {
                (Inventory::Actual(_), Inventory::Actual(_)) => true,
                (Inventory::Hypothetical(h0), Inventory::Hypothetical(h1)) => h1.constraints
                    == h0.constraints && h1.minima == h0.minima,
                _ => false,
            },
    {
        match self {
            Inventory::Actual(actual) => insert_into_cells(&mut actual.cells, item),
            Inventory::Hypothetical(hypothetical) => insert_into_cells(&mut hypothetical.cells, item),
        }
    }

    /// Drops one item from slot `item_ix` (see `ActualInventory::drop` and
    /// `HypotheticalInventory::drop`).
    pub fn drop(&mut self, item_ix: usize) -> (r: Result<Item, &'static str>)
        requires
            item_ix < 32,
            old(self).cells_view()[item_ix as int] matches Some(c) ==> c.count > 0,
        ensures
            match old(self).cells_view()[item_ix as int] {
                None => r == Err::<Item, &'static str>("Tried to drop from empty inventory slot") && final(self).cells_view()
                    == old(self).cells_view(),
                Some(c) => r == Ok::<Item, &'static str>(c.item) && final(self).cells_view() == old(
                    self,
                ).cells_view().update(
                    item_ix as int,
                    if c.count == 1 {
                        None
                    } else {
                        stack(c.item, c.count - 1)
                    },
                ),
            },
            match (*old(self), *final(self)) {
                (Inventory::Actual(_), Inventory::Actual(_)) => true,
                (Inventory::Hypothetical(h0), Inventory::Hypothetical(h1)) => {
                    &&& h1.constraints@ == h0.constraints@
                    &&& (h0.wf() ==> h1.wf())
                    &&& (old(self).cells_view()[item_ix as int] matches Some(c) ==> h1.minima@
                        == h0.minima@.insert(
                        c.item,
                        vstd::math::min(
                            cells_count(h1.cells@, c.item) as int,
                            count_or_zero(h0.minima@, c.item) as int,
                        ) as usize,
                    ))
                    &&& (old(self).cells_view()[item_ix as int] is None ==> h1.minima == h0.minima)
                },
                _ => false,
            },
    {
        match self {
            Inventory::Actual(actual) => actual.drop(item_ix),
            Inventory::Hypothetical(hypothetical) => hypothetical.drop(item_ix),
        }
    }

    pub fn cells(&self) -> (r: &[Option<InventoryCell>; 32])
        ensures
            r@ == self.cells_view(),
    {
        match self {
            Inventory::Actual(inventory) => &inventory.cells,
            Inventory::Hypothetical(inventory) => &inventory.cells,
        }
    }

    /// The slots of the inventory, to be changed in place; nothing else of it changes.
    pub fn cells_mut(&mut self) -> (r: &mut [Option<InventoryCell>; 32])
        ensures
            (*r)@ == old(self).cells_view(),
            match (*old(self), *final(self)) {
                (Inventory::Actual(_), Inventory::Actual(a1)) => a1.cells == *final(r),
                (Inventory::Hypothetical(h0), Inventory::Hypothetical(h1)) => {
                    &&& h1.cells == *final(r)
                    &&& h1.constraints == h0.constraints
                    &&& h1.minima == h0.minima
                },
                _ => false,
            },
    {
        match self {
            Inventory::Actual(inventory) => &mut inventory.cells,
            Inventory::Hypothetical(inventory) => &mut inventory.cells,
        }
    }

    /// How many of each item the slots hold.
    pub fn count_items(&self) -> (r: ItemCounts)
        ensures
            forall|it: Item| #[trigger] r@.contains_key(it) <==> holds_item(self.cells_view(), it),
            forall|it: Item| #[trigger]
                r@.contains_key(it) ==> r@[it] == cells_count(self.cells_view(), it),
    {
        match self {
            Inventory::Actual(actual) => actual.count_items(),
            Inventory::Hypothetical(hypothetical) => hypothetical.count_items(),
        }
    }
}

} // verus!
