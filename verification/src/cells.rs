use vstd::prelude::*;
use crate::counts::{ItemCounts, count_or_zero};
use crate::item::Item;
use crate::error::GameError;

verus! {

/// A stack of identical items in one inventory slot.
#[derive(Clone, Copy, Debug, PartialEq, Eq, Structural)]
pub struct InventoryCell {
    pub item: Item,
    pub count: u8,
}

/// How many of `item` a slot holds.
pub open spec fn cell_count(c: Option<InventoryCell>, item: Item) -> nat {
    match c {
        Some(cell) => if cell.item == item {
            cell.count as nat
        } else {
            0
        },
        None => 0,
    }
}

/// How many of `item` the slots hold in all.
pub open spec fn cells_count(cells: Seq<Option<InventoryCell>>, item: Item) -> nat
    decreases cells.len(),
{
    if cells.len() == 0 {
        0
    } else {
        cells_count(cells.drop_last(), item) + cell_count(cells.last(), item)
    }
}

/// Whether some slot holds a stack of `item`.
pub open spec fn holds_item(cells: Seq<Option<InventoryCell>>, item: Item) -> bool {
    exists|i: int| 0 <= i < cells.len() && cells[i] is Some && cells[i]->Some_0.item == item
}

/// The stack that holds `count` of `item`.
pub open spec fn stack(item: Item, count: int) -> Option<InventoryCell> {
    Some(InventoryCell { item, count: count as u8 })
}

/// Filling the stacks of `item` from slot `i` on, each up to 255, with `count` more items:
/// the slots afterwards, how many items found no room, and whether all found room.
pub open spec fn fill_stacks(cells: Seq<Option<InventoryCell>>, item: Item, count: nat, i: int) -> (
    Seq<Option<InventoryCell>>,
    nat,
    bool,
)
    decreases cells.len() - i,
{
    if i < 0 || i >= cells.len() {
        (cells, count, false)
    } else {
        match cells[i] {
            Some(c) => if c.item == item {
                if count <= 255 - c.count {
                    (cells.update(i, stack(item, c.count + count)), 0, true)
                } else {
                    fill_stacks(
                        cells.update(i, stack(item, 255)),
                        item,
                        (count - (255 - c.count)) as nat,
                        i + 1,
                    )
                }
            } else {
                fill_stacks(cells, item, count, i + 1)
            },
            None => fill_stacks(cells, item, count, i + 1),
        }
    }
}

/// Filling the empty slots from slot `i` on, each with up to 255 of `item`, with `count` items:
/// the slots afterwards, how many items found no room, and whether all found room.
pub open spec fn fill_empty(cells: Seq<Option<InventoryCell>>, item: Item, count: nat, i: int) -> (
    Seq<Option<InventoryCell>>,
    nat,
    bool,
)
    decreases cells.len() - i,
{
    if i < 0 || i >= cells.len() {
        (cells, count, false)
    } else {
        match cells[i] {
            None => if count <= 255 {
                (cells.update(i, stack(item, count as int)), 0, true)
            } else {
                fill_empty(cells.update(i, stack(item, 255)), item, (count - 255) as nat, i + 1)
            },
            Some(_) => fill_empty(cells, item, count, i + 1),
        }
    }
}

/// Adding `count` of `item` to the slots: first topping up the stacks of `item`, in slot order,
/// then filling empty slots in slot order. Gives the slots afterwards, how many items found no
/// room, and whether all found room.
pub open spec fn add_result(cells: Seq<Option<InventoryCell>>, item: Item, count: nat) -> (
    Seq<Option<InventoryCell>>,
    nat,
    bool,
) {
    let (c1, r1, d1) = fill_stacks(cells, item, count, 0);
    if d1 {
        (c1, 0, true)
    } else {
        fill_empty(c1, item, r1, 0)
    }
}

/// Taking `count` of `item` from the stacks in slots `i - 1` down to 0, emptying slots that
/// run out: the slots afterwards, how many items were missing, and whether all were found.
pub open spec fn take_from(cells: Seq<Option<InventoryCell>>, item: Item, count: nat, i: int) -> (
    Seq<Option<InventoryCell>>,
    nat,
    bool,
)
    decreases i,
{
    if i <= 0 || i > cells.len() {
        (cells, count, false)
    } else {
        let j = i - 1;
        match cells[j] {
            Some(c) => if c.item == item {
                if count < c.count {
                    (cells.update(j, stack(item, c.count - count)), 0, true)
                } else if count == c.count {
                    (cells.update(j, None), 0, true)
                } else {
                    take_from(cells.update(j, None), item, (count - c.count) as nat, j)
                }
            } else {
                take_from(cells, item, count, j)
            },
            None => take_from(cells, item, count, j),
        }
    }
}

/// Taking `count` of `item` from the slots, last slot first.
pub open spec fn remove_result(cells: Seq<Option<InventoryCell>>, item: Item, count: nat) -> (
    Seq<Option<InventoryCell>>,
    nat,
    bool,
) {
    take_from(cells, item, count, cells.len() as int)
}

/// Room left in the stacks of `item` from slot `i` on.
pub open spec fn stack_room(cells: Seq<Option<InventoryCell>>, item: Item, i: int) -> nat
    decreases cells.len() - i,
{
    if i < 0 || i >= cells.len() {
        0
    } else {
        (match cells[i] {
            Some(c) => if c.item == item {
                (255 - c.count) as nat
            } else {
                0nat
            },
            None => 0nat,
        }) + stack_room(cells, item, i + 1)
    }
}

/// Room in the empty slots from slot `i` on.
pub open spec fn empty_room(cells: Seq<Option<InventoryCell>>, i: int) -> nat
    decreases cells.len() - i,
{
    if i < 0 || i >= cells.len() {
        0
    } else {
        (if cells[i] is None {
            255nat
        } else {
            0nat
        }) + empty_room(cells, i + 1)
    }
}

/// Changing one slot changes the count of an item by what the slot held and now holds.
pub proof fn lemma_cells_count_update(
    cells: Seq<Option<InventoryCell>>,
    i: int,
    v: Option<InventoryCell>,
    item: Item,
)
    requires
        0 <= i < cells.len(),
    ensures
        cells_count(cells.update(i, v), item) + cell_count(cells[i], item) == cells_count(cells, item)
            + cell_count(v, item),
    decreases cells.len(),
{
    let u = cells.update(i, v);
    if i == cells.len() - 1 {
        assert(u.drop_last() =~= cells.drop_last());
    } else {
        lemma_cells_count_update(cells.drop_last(), i, v, item);
        assert(u.drop_last() =~= cells.drop_last().update(i, v));
    }
}

/// The slots hold at most 255 of an item each.
pub proof fn lemma_cells_count_bound(cells: Seq<Option<InventoryCell>>, item: Item)
    ensures
        cells_count(cells, item) <= 255 * cells.len(),
    decreases cells.len(),
{
    if cells.len() > 0 {
        lemma_cells_count_bound(cells.drop_last(), item);
    }
}

/// The count over a prefix one slot longer.
pub proof fn lemma_cells_count_take(cells: Seq<Option<InventoryCell>>, i: int, item: Item)
    requires
        0 <= i < cells.len(),
    ensures
        cells_count(cells.take(i + 1), item) == cells_count(cells.take(i), item) + cell_count(
            cells[i],
            item,
        ),
{
    assert(cells.take(i + 1).drop_last() =~= cells.take(i));
}

/// Filling stacks keeps the number of slots and which slots are empty, leaves other items
/// alone, and places all the items that it does not report as left over.
pub proof fn lemma_fill_stacks(cells: Seq<Option<InventoryCell>>, item: Item, count: nat, i: int)
    requires
        0 <= i <= cells.len(),
    ensures
        ({
            let (c, r, d) = fill_stacks(cells, item, count, i);
            &&& c.len() == cells.len()
            &&& forall|k: int| 0 <= k < cells.len() ==> (#[trigger] c[k] is None <==> cells[k] is None)
            &&& forall|k: int|
                0 <= k < cells.len() && (cells[k] is None || cells[k]->Some_0.item != item) ==> c[k]
                    == cells[k]
            &&& cells_count(c, item) + r == cells_count(cells, item) + count
            &&& forall|other: Item| other != item ==> cells_count(c, other) == cells_count(cells, other)
            &&& d ==> r == 0
            &&& !d ==> r + stack_room(cells, item, i) == count
            &&& !d ==> (count > stack_room(cells, item, i) || count == 0)
            &&& !d ==> empty_room(c, 0) == empty_room(cells, 0)
        }),
    decreases cells.len() - i,
{
    if i < cells.len() {
        match cells[i] {
            Some(c) => {
                if c.item == item {
                    if count <= 255 - c.count {
                        let v = stack(item, c.count + count);
                        lemma_cells_count_update(cells, i, v, item);
                        assert forall|other: Item| other != item implies cells_count(
                            cells.update(i, v),
                            other,
                        ) == cells_count(cells, other) by {
                            lemma_cells_count_update(cells, i, v, other);
                        }
                    } else {
                        let v = stack(item, 255);
                        let u = cells.update(i, v);
                        lemma_cells_count_update(cells, i, v, item);
                        lemma_fill_stacks(u, item, (count - (255 - c.count)) as nat, i + 1);
                        assert forall|other: Item| other != item implies cells_count(u, other)
                            == cells_count(cells, other) by {
                            lemma_cells_count_update(cells, i, v, other);
                        }
                        lemma_stack_room_update(cells, item, i, v);
                        lemma_empty_room_same(cells, u, 0);
                    }
                } else {
                    lemma_fill_stacks(cells, item, count, i + 1);
                }
            },
            None => {
                lemma_fill_stacks(cells, item, count, i + 1);
            },
        }
    }
}

/// Room in the stacks after `i` does not depend on slot `i`.
proof fn lemma_stack_room_update(
    cells: Seq<Option<InventoryCell>>,
    item: Item,
    i: int,
    v: Option<InventoryCell>,
)
    requires
        0 <= i < cells.len(),
    ensures
        stack_room(cells.update(i, v), item, i + 1) == stack_room(cells, item, i + 1),
    decreases cells.len() - i,
{
    lemma_stack_room_suffix(cells, cells.update(i, v), item, i + 1);
}

/// Room in the stacks from `i` on depends only on the slots from `i` on.
proof fn lemma_stack_room_suffix(
    a: Seq<Option<InventoryCell>>,
    b: Seq<Option<InventoryCell>>,
    item: Item,
    i: int,
)
    requires
        a.len() == b.len(),
        0 <= i,
        forall|k: int| i <= k < a.len() ==> a[k] == b[k],
    ensures
        stack_room(a, item, i) == stack_room(b, item, i),
    decreases a.len() - i,
{
    if i < a.len() {
        lemma_stack_room_suffix(a, b, item, i + 1);
    }
}

/// Room in the empty slots from `i` on depends only on which slots from `i` on are empty.
proof fn lemma_empty_room_same(a: Seq<Option<InventoryCell>>, b: Seq<Option<InventoryCell>>, i: int)
    requires
        a.len() == b.len(),
        0 <= i,
        forall|k: int| i <= k < a.len() ==> (a[k] is None <==> b[k] is None),
    ensures
        empty_room(a, i) == empty_room(b, i),
    decreases a.len() - i,
{
    if i < a.len() {
        lemma_empty_room_same(a, b, i + 1);
    }
}

/// Filling empty slots keeps the number of slots and the other stacks, and places all the items
/// that it does not report as left over; with room for them all, and some to place, it succeeds.
pub proof fn lemma_fill_empty(cells: Seq<Option<InventoryCell>>, item: Item, count: nat, i: int)
    requires
        0 <= i <= cells.len(),
    ensures
        ({
            let (c, r, d) = fill_empty(cells, item, count, i);
            &&& c.len() == cells.len()
            &&& forall|k: int| 0 <= k < cells.len() && cells[k] is Some ==> c[k] == cells[k]
            &&& cells_count(c, item) + r == cells_count(cells, item) + count
            &&& forall|other: Item| other != item ==> cells_count(c, other) == cells_count(cells, other)
            &&& d ==> r == 0
            &&& 0 < count <= empty_room(cells, i) ==> d
        }),
    decreases cells.len() - i,
{
    if i < cells.len() {
        match cells[i] {
            None => {
                if count <= 255 {
                    let v = stack(item, count as int);
                    lemma_cells_count_update(cells, i, v, item);
                    assert forall|other: Item| other != item implies cells_count(
                        cells.update(i, v),
                        other,
                    ) == cells_count(cells, other) by {
                        lemma_cells_count_update(cells, i, v, other);
                    }
                } else {
                    let v = stack(item, 255);
                    let u = cells.update(i, v);
                    lemma_cells_count_update(cells, i, v, item);
                    lemma_fill_empty(u, item, (count - 255) as nat, i + 1);
                    assert forall|other: Item| other != item implies cells_count(u, other)
                        == cells_count(cells, other) by {
                        lemma_cells_count_update(cells, i, v, other);
                    }
                    lemma_empty_room_same(cells, u, i + 1);
                }
            },
            Some(_) => {
                lemma_fill_empty(cells, item, count, i + 1);
            },
        }
    }
}

/// Taking items keeps the number of slots and leaves other items alone; all items not reported
/// missing are taken, and with enough of them, taking succeeds.
pub proof fn lemma_take_from(cells: Seq<Option<InventoryCell>>, item: Item, count: nat, i: int)
    requires
        0 <= i <= cells.len(),
    ensures
        ({
            let (c, r, d) = take_from(cells, item, count, i);
            &&& c.len() == cells.len()
            &&& forall|k: int|
                0 <= k < cells.len() && (cells[k] is None || cells[k]->Some_0.item != item) ==> c[k]
                    == cells[k]
            &&& cells_count(c, item) + count == cells_count(cells, item) + r
            &&& forall|other: Item| other != item ==> cells_count(c, other) == cells_count(cells, other)
            &&& d ==> r == 0
            &&& 0 < count <= cells_count(cells.take(i), item) ==> d
        }),
    decreases i,
{
    if i > 0 {
        let j = i - 1;
        lemma_cells_count_take(cells, j, item);
        match cells[j] {
            Some(c) => {
                if c.item == item {
                    if count < c.count {
                        let v = stack(item, c.count - count);
                        lemma_cells_count_update(cells, j, v, item);
                        assert forall|other: Item| other != item implies cells_count(
                            cells.update(j, v),
                            other,
                        ) == cells_count(cells, other) by {
                            lemma_cells_count_update(cells, j, v, other);
                        }
                    } else if count == c.count {
                        lemma_cells_count_update(cells, j, None, item);
                        assert forall|other: Item| other != item implies cells_count(
                            cells.update(j, None),
                            other,
                        ) == cells_count(cells, other) by {
                            lemma_cells_count_update(cells, j, None, other);
                        }
                    } else {
                        let u = cells.update(j, None);
                        lemma_cells_count_update(cells, j, None, item);
                        lemma_take_from(u, item, (count - c.count) as nat, j);
                        assert forall|other: Item| other != item implies cells_count(u, other)
                            == cells_count(cells, other) by {
                            lemma_cells_count_update(cells, j, None, other);
                        }
                        assert(u.take(j) =~= cells.take(j));
                    }
                } else {
                    lemma_take_from(cells, item, count, j);
                }
            },
            None => {
                lemma_take_from(cells, item, count, j);
            },
        }
    }
}

/// Adding items keeps the number of slots and leaves other items alone; all items not reported
/// left over are added, and with room for them all, and some to add, adding succeeds.
pub proof fn lemma_add_result(cells: Seq<Option<InventoryCell>>, item: Item, count: nat)
    ensures
        ({
            let (c, r, d) = add_result(cells, item, count);
            &&& c.len() == cells.len()
            &&& forall|k: int|
                0 <= k < cells.len() && cells[k] is Some && cells[k]->Some_0.item != item ==> c[k]
                    == cells[k]
            &&& cells_count(c, item) + r == cells_count(cells, item) + count
            &&& forall|other: Item| other != item ==> cells_count(c, other) == cells_count(cells, other)
            &&& d ==> r == 0
            &&& 0 < count <= stack_room(cells, item, 0) + empty_room(cells, 0) ==> d
        }),
{
    lemma_fill_stacks(cells, item, count, 0);
    let (c1, r1, d1) = fill_stacks(cells, item, count, 0);
    if !d1 {
        lemma_fill_empty(c1, item, r1, 0);
        if 0 < count <= stack_room(cells, item, 0) + empty_room(cells, 0) {
            if r1 == 0 {
                // no room was used at all only if there were no stacks of the item and no items
                assert(stack_room(cells, item, 0) == count);
            }
        }
    }
}

/// The counts of the items in the slots, in the order in which the items first appear.
pub fn count_cells_items(cells: &[Option<InventoryCell>]) -> (counts: ItemCounts)
    requires
        255 * cells@.len() <= usize::MAX,
    ensures
        counts.wf(),
        forall|it: Item| #[trigger] counts@.contains_key(it) <==> holds_item(cells@, it),
        forall|it: Item| #[trigger] counts@.contains_key(it) ==> counts@[it] == cells_count(cells@, it),
{
    let mut counts = ItemCounts::new();
    let mut i: usize = 0;
    while i < cells.len()
        invariant
            i <= cells@.len(),
            255 * cells@.len() <= usize::MAX,
            counts.wf(),
            forall|it: Item| #[trigger]
                counts@.contains_key(it) <==> holds_item(cells@.take(i as int), it),
            forall|it: Item| #[trigger]
                counts@.contains_key(it) ==> counts@[it] == cells_count(cells@.take(i as int), it),
        decreases cells@.len() - i,
    {
        let ghost prefix = cells@.take(i as int);
        let ghost next = cells@.take(i + 1);
        proof {
            assert(next.drop_last() =~= prefix);
            assert forall|it: Item| holds_item(prefix, it) implies holds_item(next, it) by {
                let k = choose|k: int| 0 <= k < prefix.len() && prefix[k] is Some && prefix[k]->Some_0.item == it;
                assert(next[k] == prefix[k]);
            }
        }
        match cells[i] {
            Some(cell) => {
                proof {
                    lemma_cells_count_bound(prefix, cell.item);
                    if !counts@.contains_key(cell.item) {
                        assert(cells_count(prefix, cell.item) == 0) by {
                            lemma_not_held_count_zero(prefix, cell.item);
                        }
                    }
                }
                counts.add(cell.item, cell.count as usize);
                proof {
                    assert(next[i as int] == cells@[i as int]);
                    assert forall|it: Item| #[trigger]
                        counts@.contains_key(it) <==> holds_item(next, it) by {
                        if holds_item(next, it) && it != cell.item {
                            let k = choose|k: int| 0 <= k < next.len() && next[k] is Some && next[k]->Some_0.item == it;
                            assert(k < i);
                            assert(prefix[k] == next[k]);
                        }
                    }
                }
            },
            None => {
                proof {
                    assert forall|it: Item| #[trigger]
                        counts@.contains_key(it) <==> holds_item(next, it) by {
                        if holds_item(next, it) {
                            let k = choose|k: int| 0 <= k < next.len() && next[k] is Some && next[k]->Some_0.item == it;
                            assert(k < i);
                            assert(prefix[k] == next[k]);
                        }
                    }
                }
            },
        }
        i += 1;
    }
    assert(cells@.take(i as int) =~= cells@);
    counts
}

/// Slots that hold no stack of an item hold none of it.
pub proof fn lemma_not_held_count_zero(cells: Seq<Option<InventoryCell>>, item: Item)
    requires
        !holds_item(cells, item),
    ensures
        cells_count(cells, item) == 0,
    decreases cells.len(),
{
    if cells.len() > 0 {
        let p = cells.drop_last();
        assert(!holds_item(p, item)) by {
            if holds_item(p, item) {
                let k = choose|k: int| 0 <= k < p.len() && p[k] is Some && p[k]->Some_0.item == item;
                assert(cells[k] == p[k]);
            }
        }
        lemma_not_held_count_zero(p, item);
        if cells.last() is Some {
            assert(cells[cells.len() - 1] == cells.last());
        }
    }
}

/// Adds `count` of `item` to the slots (see `add_result`). On failure, gives back how many items
/// found no room; the slots then hold the ones that did.
pub fn add_to_cells(cells: &mut [Option<InventoryCell>], item: &Item, count: usize) -> (r: Result<
    (),
    usize,
>)
    ensures
        ({
            let (c, left, done) = add_result(old(cells)@, *item, count as nat);
            &&& final(cells)@ == c
            &&& (r is Ok <==> done)
            &&& (r matches Err(n) ==> n == left)
        }),
        r matches Err(n) ==> cells_count(final(cells)@, *item) + n == cells_count(old(cells)@, *item)
            + count,
        r is Ok ==> cells_count(final(cells)@, *item) == cells_count(old(cells)@, *item) + count,
        forall|other: Item|
            other != *item ==> cells_count(final(cells)@, other) == cells_count(
                old(cells)@,
                other,
            ),
        forall|k: int|
            0 <= k < old(cells)@.len() && old(cells)@[k] is Some && old(cells)@[k]->Some_0.item
                != *item ==> final(cells)@[k] == old(cells)@[k],
        0 < count <= stack_room(old(cells)@, *item, 0) + empty_room(old(cells)@, 0) ==> r is Ok,
{
    proof {
        lemma_add_result(old(cells)@, *item, count as nat);
    }
    let ghost orig = cells@;
        let n = cells.len();
    let mut rest = count;
    let mut i: usize = 0;
    while i < n
        invariant
            n == cells@.len(),
            orig.len() == n,
            orig == old(cells)@,
            i <= n,
            fill_stacks(orig, *item, count as nat, 0) == fill_stacks(
                cells@,
                *item,
                rest as nat,
                i as int,
            ),
        decreases n - i,
    {
        match cells[i] {
            Some(cell) => {
                if cell.item == *item {
                    let room = 255u8 - cell.count;
                    if rest <= room as usize {
                        let ghost before = cells@;
                        cells[i] = Some(InventoryCell { item: *item, count: cell.count + rest as u8 });
                        assert(cells@ == before.update(i as int, stack(*item, cell.count + rest)));
                        assert(fill_stacks(before, *item, rest as nat, i as int) == (
                            cells@,
                            0nat,
                            true,
                        ));
                        proof {
                    lemma_add_result(old(cells)@, *item, count as nat);
                }
                return Ok(());
                    } else {
                        rest -= room as usize;
                        cells[i] = Some(InventoryCell { item: *item, count: 255 });
                    }
                }
            },
            None => {},
        }
        i += 1;
    }
    let ghost mid = cells@;
    let ghost count1 = rest;
    assert(add_result(orig, *item, count as nat) == fill_empty(mid, *item, count1 as nat, 0));
    let mut i: usize = 0;
    while i < n
        invariant
            n == cells@.len(),
            i <= n,
            add_result(old(cells)@, *item, count as nat) == fill_empty(
                cells@,
                *item,
                rest as nat,
                i as int,
            ),
        decreases n - i,
    {
        if cells[i].is_none() {
            if rest <= 255 {
                let ghost before = cells@;
                cells[i] = Some(InventoryCell { item: *item, count: rest as u8 });
                assert(cells@ == before.update(i as int, stack(*item, rest as int)));
                assert(fill_empty(before, *item, rest as nat, i as int) == (cells@, 0nat, true));
                proof {
                    lemma_add_result(old(cells)@, *item, count as nat);
                }
                return Ok(());
            } else {
                rest -= 255;
                cells[i] = Some(InventoryCell { item: *item, count: 255 });
            }
        }
        i += 1;
    }
    Err(rest)
}

/// Takes `count` of `item` from the slots (see `remove_result`). On failure, gives back how many
/// items were missing; the slots then lack all the stacks of `item`.
pub fn remove_from_cells(cells: &mut [Option<InventoryCell>], item: &Item, count: usize) -> (r:
    Result<(), usize>)
    ensures
        ({
            let (c, missing, done) = remove_result(old(cells)@, *item, count as nat);
            &&& final(cells)@ == c
            &&& (r is Ok <==> done)
            &&& (r matches Err(n) ==> n == missing)
        }),
        cells_count(final(cells)@, *item) + count == cells_count(old(cells)@, *item) + match r {
            Ok(_) => 0,
            Err(n) => n,
        },
        0 < count <= cells_count(old(cells)@, *item) ==> r is Ok,
        forall|other: Item|
            other != *item ==> cells_count(final(cells)@, other) == cells_count(
                old(cells)@,
                other,
            ),
        forall|k: int|
            0 <= k < old(cells)@.len() && (old(cells)@[k] is None || old(cells)@[k]->Some_0.item
                != *item) ==> final(cells)@[k] == old(cells)@[k],
{
    proof {
        lemma_take_from(old(cells)@, *item, count as nat, old(cells)@.len() as int);
        assert(old(cells)@.take(old(cells)@.len() as int) =~= old(cells)@);
    }
    let ghost orig = cells@;
    let mut rest = count;
    let mut i: usize = cells.len();
    while i > 0
        invariant
            orig.len() == cells@.len(),
            orig == old(cells)@,
            i <= cells@.len(),
            take_from(orig, *item, count as nat, orig.len() as int) == take_from(
                cells@,
                *item,
                rest as nat,
                i as int,
            ),
        decreases i,
    {
        let j = i - 1;
        match cells[j] {
            Some(cell) => {
                if cell.item == *item {
                    if rest < cell.count as usize {
                        let ghost before = cells@;
                        cells[j] = Some(InventoryCell { item: *item, count: cell.count - rest as u8 });
                        assert(cells@ == before.update(j as int, stack(*item, cell.count - rest)));
                        assert(take_from(before, *item, rest as nat, i as int) == (
                            cells@,
                            0nat,
                            true,
                        ));
                        proof {
                    lemma_take_from(old(cells)@, *item, count as nat, old(cells)@.len() as int);
                }
                return Ok(());
                    } else if rest == cell.count as usize {
                        let ghost before = cells@;
                        cells[j] = None;
                        assert(take_from(before, *item, rest as nat, i as int) == (
                            cells@,
                            0nat,
                            true,
                        ));
                        proof {
                    lemma_take_from(old(cells)@, *item, count as nat, old(cells)@.len() as int);
                }
                return Ok(());
                    } else {
                        rest -= cell.count as usize;
                        cells[j] = None;
                    }
                }
            },
            None => {},
        }
        i = j;
    }
    Err(rest)
}

/// Takes one item from slot `item_ix`, emptying the slot when it runs out.
pub fn drop_from_cells(cells: &mut [Option<InventoryCell>], item_ix: usize) -> (r: Result<
    Item,
    &'static str,
>)
    requires
        item_ix < old(cells)@.len(),
        old(cells)@[item_ix as int] matches Some(c) ==> c.count > 0,
    ensures
        match old(cells)@[item_ix as int] {
            None => r == Err::<Item, &'static str>("Tried to drop from empty inventory slot") && final(cells)@ == old(cells)@,
            Some(c) => r == Ok::<Item, &'static str>(c.item) && final(cells)@ == old(cells)@.update(
                item_ix as int,
                if c.count == 1 {
                    None
                } else {
                    stack(c.item, c.count - 1)
                },
            ),
        },
{
    match cells[item_ix] {
        None => Err("Tried to drop from empty inventory slot"),
        Some(cell) => {
            let count = cell.count - 1;
            if count == 0 {
                cells[item_ix] = None;
            } else {
                cells[item_ix] = Some(InventoryCell { item: cell.item, count });
            }
            Ok(cell.item)
        },
    }
}

/// Adds one `item` to the slots.
pub fn insert_into_cells(cells: &mut [Option<InventoryCell>; 32], item: &Item) -> (r: Result<
    (),
    GameError,
>)
    ensures
        ({
            let (c, left, done) = add_result(old(cells)@, *item, 1);
            &&& final(cells)@ == c
            &&& (r is Ok <==> done)
            &&& (r matches Err(e) ==> e == GameError::NoSpaceFor(*item))
        }),
{
    match add_to_cells(cells, item, 1) {
        Ok(()) => Ok(()),
        Err(_) => Err(GameError::NoSpaceFor(*item)),
    }
}

} // verus!
