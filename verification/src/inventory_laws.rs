use vstd::prelude::*;
use crate::cells::{
    InventoryCell, add_result, cell_count, cells_count, empty_room, lemma_add_result,
    lemma_cells_count_bound, lemma_cells_count_update, stack, stack_room,
};
use crate::counts::count_or_zero;
use crate::inventory::{drop_step, wish_step, HypotheticalInventory, Inventory};
use crate::item::{Item, lemma_items_equal};
use crate::merge::{
    actual_merge_outcome, hypothetical_merge_outcome, left_over, left_over_or_zero, net_need, shortfall,
    MergeWish,
};
use crate::error::GameError;

verus! {

/// Slots that are empty from slot 1 on hold what slot 0 holds.
proof fn lemma_count_first_slot(s: Seq<Option<InventoryCell>>, it: Item)
    requires
        s.len() > 0,
        forall|i: int| 1 <= i < s.len() ==> #[trigger] s[i] is None,
    ensures
        cells_count(s, it) == cell_count(s[0], it),
    decreases s.len(),
{
    if s.len() > 1 {
        lemma_count_first_slot(s.drop_last(), it);
        assert(s[s.len() - 1] is None);
        assert(s.last() == s[s.len() - 1]);
        assert(s.drop_last()[0] == s[0]);
    } else {
        assert(s.drop_last().len() == 0);
        assert(cells_count(s.drop_last(), it) == 0);
        assert(s.last() == s[0]);
    }
}

/// Room in slots that are empty from slot `i` on.
proof fn lemma_empty_room_all(s: Seq<Option<InventoryCell>>, i: int)
    requires
        0 <= i <= s.len(),
        forall|k: int| i <= k < s.len() ==> #[trigger] s[k] is None,
    ensures
        empty_room(s, i) == 255 * (s.len() - i),
    decreases s.len() - i,
{
    if i < s.len() {
        lemma_empty_room_all(s, i + 1);
    }
}

/// The slots of a fresh inventory.
pub open spec fn empty_slots() -> Seq<Option<InventoryCell>> {
    Seq::new(32, |i: int| None::<InventoryCell>)
}

/// The slots of an inventory whose first slot holds `n` of `it` (empty where `n` is 0) and whose
/// other slots are empty.
pub open spec fn first_slot_cells(it: Item, n: nat) -> Seq<Option<InventoryCell>> {
    Seq::new(
        32,
        |i: int|
            if i == 0 && n > 0 {
                stack(it, n as int)
            } else {
                None
            },
    )
}

/// Law: merging any actual inventory into a fresh hypothetical one succeeds, and afterwards the
/// merged inventory holds as many of each item as the actual one did.
pub proof fn law_merge_into_fresh_hypothetical(post: HypotheticalInventory, prior: Seq<Option<InventoryCell>>)
    requires
        post.cells@ == empty_slots(),
        post.constraints@ == Map::<Item, usize>::empty(),
        post.minima@ == Map::<Item, usize>::empty(),
        prior.len() == 32,
    ensures
        post.wf(),
        forall|it: Item|
            net_need(post.constraints@, prior, it) < 0 ==> #[trigger] add_result(
                post.cells@,
                it,
                (-net_need(post.constraints@, prior, it)) as nat,
            ).2,
        forall|r: Result<(Inventory, Vec<crate::merge::MergeWish>), crate::error::GameError>|
            #[trigger] actual_merge_outcome(post, prior, r) ==> {
                &&& r is Ok
                &&& forall|it: Item| #[trigger]
                    cells_count(r->Ok_0.0.cells_view(), it) == cells_count(prior, it)
            },
{
    let e = post.cells@;
    assert forall|it: Item| cells_count(e, it) == 0 by {
        lemma_count_first_slot(e, it);
    }
    assert forall|it: Item|
        net_need(post.constraints@, prior, it) < 0 implies #[trigger] add_result(
            post.cells@,
            it,
            (-net_need(post.constraints@, prior, it)) as nat,
        ).2 by {
        lemma_cells_count_bound(prior, it);
        lemma_empty_room_all(e, 0);
        lemma_add_result(e, it, cells_count(prior, it));
    }
    assert forall|r: Result<(Inventory, Vec<crate::merge::MergeWish>), crate::error::GameError>|
        #[trigger] actual_merge_outcome(post, prior, r) implies {
            &&& r is Ok
            &&& forall|it: Item| #[trigger]
                cells_count(r->Ok_0.0.cells_view(), it) == cells_count(prior, it)
        } by {
        assert forall|it: Item| !(#[trigger] net_need(post.constraints@, prior, it) > count_or_zero(
            post.minima@,
            it,
        )) by {}
        if r is Ok {
            assert forall|it: Item| #[trigger]
                cells_count(r->Ok_0.0.cells_view(), it) == cells_count(prior, it) by {
                assert(cells_count(e, it) == 0);
            }
        }
    }
}

/// Law: a hypothetical inventory that wished for `w` of an item in its first slot and has since
/// dropped `d` of them (`d <= w <= 255`) merges with an actual inventory holding `t` of the item
/// if and only if `d <= t`; the merged inventory then holds `t - d` of the item.
pub proof fn law_merge_after_wishes_and_drops(
    post: HypotheticalInventory,
    it: Item,
    w: nat,
    d: nat,
    prior: Seq<Option<InventoryCell>>,
)
    requires
        d <= w <= 255,
        post.cells@ == first_slot_cells(it, (w - d) as nat),
        post.constraints@ == map![it => w as usize],
        post.minima@ == map![it => (w - d) as usize],
        prior.len() == 32,
    ensures
        post.wf(),
        forall|o: Item|
            net_need(post.constraints@, prior, o) < 0 ==> #[trigger] add_result(
                post.cells@,
                o,
                (-net_need(post.constraints@, prior, o)) as nat,
            ).2,
        forall|r: Result<(Inventory, Vec<crate::merge::MergeWish>), crate::error::GameError>|
            #[trigger] actual_merge_outcome(post, prior, r) ==> {
                &&& (r is Err <==> cells_count(prior, it) < d)
                &&& r is Ok ==> cells_count(r->Ok_0.0.cells_view(), it) == cells_count(prior, it) - d
            },
{
    let s = post.cells@;
    lemma_count_first_slot(s, it);
    assert(cells_count(s, it) == w - d);
    assert(post.wf()) by {
        assert forall|o: Item| #[trigger] post.minima@.contains_key(o) implies post.minima@[o] <= cells_count(post.cells@, o) by {
            lemma_items_equal(o, it);
        }
    }
    lemma_cells_count_bound(prior, it);
    assert forall|o: Item|
        net_need(post.constraints@, prior, o) < 0 implies #[trigger] add_result(
            post.cells@,
            o,
            (-net_need(post.constraints@, prior, o)) as nat,
        ).2 by {
        lemma_items_equal(o, it);
        lemma_empty_room_all(s, 1);
        assert(empty_room(s, 0) == empty_room(s, 1) + (if s[0] is None { 255nat } else { 0nat }));
        if w > d {
            assert(stack_room(s, it, 0) >= 255 - (w - d));
        }
        lemma_add_result(s, it, (cells_count(prior, it) - w) as nat);
    }
    assert forall|r: Result<(Inventory, Vec<crate::merge::MergeWish>), crate::error::GameError>|
        #[trigger] actual_merge_outcome(post, prior, r) implies {
            &&& (r is Err <==> cells_count(prior, it) < d)
            &&& r is Ok ==> cells_count(r->Ok_0.0.cells_view(), it) == cells_count(prior, it) - d
        } by {
        if cells_count(prior, it) < d {
            assert(net_need(post.constraints@, prior, it) > count_or_zero(post.minima@, it));
        } else {
            assert forall|o: Item| !(#[trigger] net_need(post.constraints@, prior, o) > count_or_zero(
                post.minima@,
                o,
            )) by {
                lemma_items_equal(o, it);
            }
        }
    }
}

/// Law: `unwish` undoes `wish`. After wishing for one `item` in slot `ix` (empty, or holding a
/// stack of `item`) and taking the wish back, the slots are as before, and so are the counts of wishes and minima (an item that had
/// no entry keeps one with count 0).
pub proof fn law_unwish_undoes_wish(
    h0: HypotheticalInventory,
    h1: HypotheticalInventory,
    h2: HypotheticalInventory,
    item: Item,
    ix: int,
)
    requires
        0 <= ix < 32,
        h0.cells@.len() == 32,
        h0.cells@[ix] matches Some(c) ==> c.item == item && c.count > 0,
        h1.cells@ == h0.cells@.update(ix, stack(item, cell_count(h0.cells@[ix], item) + 1int)),
        h1.minima@ == h0.minima@.insert(item, (count_or_zero(h0.minima@, item) + 1) as usize),
        h1.constraints@ == h0.constraints@.insert(
            item,
            (count_or_zero(h0.constraints@, item) + 1) as usize,
        ),
        count_or_zero(h0.minima@, item) + 1 <= usize::MAX,
        count_or_zero(h0.constraints@, item) + 1 <= usize::MAX,
        cell_count(h0.cells@[ix], item) + 1 <= 255,
        h2.cells@ == h1.cells@.update(
            ix,
            if h1.cells@[ix]->Some_0.count == 1 {
                None
            } else {
                stack(item, h1.cells@[ix]->Some_0.count - 1)
            },
        ),
        h2.minima@ == h1.minima@.insert(item, (count_or_zero(h1.minima@, item) - 1) as usize),
        h2.constraints@ == h1.constraints@.insert(
            item,
            (count_or_zero(h1.constraints@, item) - 1) as usize,
        ),
    ensures
        count_or_zero(h1.minima@, item) > 0,
        count_or_zero(h1.constraints@, item) > 0,
        h2.cells@ == h0.cells@,
        forall|i: Item| #[trigger] count_or_zero(h2.minima@, i) == count_or_zero(h0.minima@, i),
        forall|i: Item| #[trigger] count_or_zero(h2.constraints@, i) == count_or_zero(h0.constraints@, i),
{
    assert(h1.cells@[ix] == stack(item, cell_count(h0.cells@[ix], item) + 1int));
    assert(h2.cells@[ix] == h0.cells@[ix]) by {
        match h0.cells@[ix] {
            Some(c) => {
                assert(cell_count(h0.cells@[ix], item) == c.count);
                assert(h1.cells@[ix]->Some_0.count == c.count + 1);
                assert(h2.cells@[ix] == stack(item, c.count as int));
            },
            None => {
                assert(h1.cells@[ix]->Some_0.count == 1);
            },
        }
    }
    assert(h2.cells@ =~= h0.cells@);
}

/// Law: a wish that succeeds raises the number of its item that the slots hold by exactly one
/// and leaves the number of every other item as it was. `cells` are the slots before the
/// wish into slot `ix`, which is empty or holds `item` (see `HypotheticalInventory::wish`).
pub proof fn law_wish_adds_one(cells: Seq<Option<InventoryCell>>, ix: int, item: Item, other: Item)
    requires
        0 <= ix < cells.len(),
        cells[ix] matches Some(c) ==> c.item == item && c.count < 255,
    ensures
        cells_count(cells.update(ix, stack(item, cell_count(cells[ix], item) + 1int)), item)
            == cells_count(cells, item) + 1,
        other != item ==> cells_count(
            cells.update(ix, stack(item, cell_count(cells[ix], item) + 1int)),
            other,
        ) == cells_count(cells, other),
{
    let v = stack(item, cell_count(cells[ix], item) + 1int);
    lemma_cells_count_update(cells, ix, v, item);
    lemma_cells_count_update(cells, ix, v, other);
}

/// The state after the first `k` of the wishes of `law_wishes_then_drops`.
proof fn lemma_wishes_prefix(hs: Seq<HypotheticalInventory>, it: Item, w: nat, k: nat)
    requires
        k <= w <= 255,
        hs.len() > w,
        hs[0].cells@ == empty_slots(),
        hs[0].constraints@ == Map::<Item, usize>::empty(),
        hs[0].minima@ == Map::<Item, usize>::empty(),
        forall|i: int| 0 <= i < w ==> #[trigger] wish_step(hs[i], hs[i + 1], it, 0),
    ensures
        hs[k as int].cells@ == first_slot_cells(it, k),
        k > 0 ==> hs[k as int].constraints@ == map![it => k as usize],
        k > 0 ==> hs[k as int].minima@ == map![it => k as usize],
        k == 0 ==> hs[k as int].constraints@ == Map::<Item, usize>::empty(),
        k == 0 ==> hs[k as int].minima@ == Map::<Item, usize>::empty(),
    decreases k,
{
    if k == 0 {
        assert(hs[0].cells@ =~= first_slot_cells(it, 0));
    } else {
        let j = (k - 1) as nat;
        lemma_wishes_prefix(hs, it, w, j);
        let i = j as int;
        assert(wish_step(hs[i], hs[i + 1], it, 0));
        assert(hs[i + 1] == hs[k as int]);
        let c0 = hs[i].cells@;
        assert(cell_count(c0[0], it) == j);
        assert(hs[k as int].cells@ =~= first_slot_cells(it, k));
        assert(hs[k as int].constraints@ =~= map![it => k as usize]);
        assert(hs[k as int].minima@ =~= map![it => k as usize]);
    }
}

/// The state after the wishes and the first `k` of the drops of `law_wishes_then_drops`.
proof fn lemma_drops_prefix(hs: Seq<HypotheticalInventory>, it: Item, w: nat, d: nat, k: nat)
    requires
        k <= d <= w <= 255,
        w > 0,
        hs.len() == w + d + 1,
        hs[w as int].cells@ == first_slot_cells(it, w),
        hs[w as int].constraints@ == map![it => w as usize],
        hs[w as int].minima@ == map![it => w as usize],
        forall|i: int| w <= i < w + d ==> #[trigger] drop_step(hs[i], hs[i + 1], 0),
    ensures
        hs[(w + k) as int].cells@ == first_slot_cells(it, (w - k) as nat),
        hs[(w + k) as int].constraints@ == map![it => w as usize],
        hs[(w + k) as int].minima@ == map![it => (w - k) as usize],
    decreases k,
{
    if k > 0 {
        let j = (k - 1) as nat;
        lemma_drops_prefix(hs, it, w, d, j);
        let i = (w + j) as int;
        assert(drop_step(hs[i], hs[i + 1], 0));
        assert(hs[i + 1] == hs[(w + k) as int]);
        let c0 = hs[i].cells@;
        assert(c0[0] == stack(it, (w - j) as int));
        let c1 = hs[(w + k) as int].cells@;
        assert(c1 =~= first_slot_cells(it, (w - k) as nat));
        lemma_count_first_slot(c1, it);
        assert(cells_count(c1, it) == w - k);
        assert(hs[(w + k) as int].minima@ =~= map![it => (w - k) as usize]);
    }
}

/// Law: starting from a fresh hypothetical inventory, `w` wishes for `it` into the first slot
/// followed by `d <= w` drops from it leave the first slot holding `w - d` of `it`, the
/// wishes at `w` and the minimum at `w - d`: the state that `law_merge_after_wishes_and_drops`
/// speaks of. `hs` are the inventories before and after each call.
pub proof fn law_wishes_then_drops(hs: Seq<HypotheticalInventory>, it: Item, w: nat, d: nat)
    requires
        d <= w <= 255,
        w > 0,
        hs.len() == w + d + 1,
        hs[0].cells@ == empty_slots(),
        hs[0].constraints@ == Map::<Item, usize>::empty(),
        hs[0].minima@ == Map::<Item, usize>::empty(),
        forall|i: int| 0 <= i < w ==> #[trigger] wish_step(hs[i], hs[i + 1], it, 0),
        forall|i: int| w <= i < w + d ==> #[trigger] drop_step(hs[i], hs[i + 1], 0),
    ensures
        hs.last().cells@ == first_slot_cells(it, (w - d) as nat),
        hs.last().constraints@ == map![it => w as usize],
        hs.last().minima@ == map![it => (w - d) as usize],
{
    lemma_wishes_prefix(hs, it, w, w);
    lemma_drops_prefix(hs, it, w, d, d);
    assert(hs.last() == hs[(w + d) as int]);
}

/// Law: when two hypothetical inventories merge, the merged minimum of an item is the lower
/// of the two sides' lowest holdings: the posterior player's minimum raised by what the prior
/// player brings beyond the wishes, and the prior player's minimum raised by what it must
/// still find. A side that never recorded the item and brings nothing to it has held none,
/// so the merged inventory records no minimum for it.
pub proof fn law_merged_minima(
    post: HypotheticalInventory,
    h: HypotheticalInventory,
    r: Result<(Inventory, Vec<MergeWish>), GameError>,
    it: Item,
)
    requires
        hypothetical_merge_outcome(post, h, r),
        r is Ok,
        count_or_zero(post.minima@, it) <= isize::MAX,
        count_or_zero(h.minima@, it) <= isize::MAX,
        count_or_zero(post.constraints@, it) <= isize::MAX,
    ensures
        r->Ok_0.0 matches Inventory::Hypothetical(hh) && {
            let needed = post.constraints@;
            let prior = h.cells@;
            let post_side = count_or_zero(post.minima@, it) + left_over_or_zero(needed, prior, it);
            let prior_side = count_or_zero(h.minima@, it) + shortfall(needed, prior, it);
            &&& (!h.minima@.contains_key(it) && shortfall(needed, prior, it) == 0
                ==> !hh.minima@.contains_key(it))
            &&& (!post.minima@.contains_key(it) && left_over(needed, prior, it) is None
                ==> !hh.minima@.contains_key(it))
            &&& ((h.minima@.contains_key(it) || shortfall(needed, prior, it) > 0)
                && (post.minima@.contains_key(it) || left_over(needed, prior, it) is Some)
                ==> hh.minima@.contains_key(it))
            &&& (hh.minima@.contains_key(it) ==> {
                &&& hh.minima@[it] <= post_side
                &&& hh.minima@[it] <= prior_side
                &&& (hh.minima@[it] == post_side || hh.minima@[it] == prior_side)
            })
        },
{
    lemma_cells_count_bound(h.cells@, it);
}

} // verus!
