use vstd::prelude::*;
use crate::cells::{
    InventoryCell, add_result, add_to_cells, cells_count, count_cells_items, holds_item,
    lemma_not_held_count_zero, remove_from_cells, remove_result,
};
use crate::counts::{ItemCounts, count_or_zero, keys_distinct, lemma_entries_map};
use crate::error::GameError;
use crate::inventory::{
    ActualInventory, HypotheticalInventory, Inventory, lemma_at_most_one_pair,
    lemma_inventory_count_bound,
};
use crate::item::{Item, lemma_items_equal};

verus! {

/// A change in the number of an item that closing a portal requires: `post_count` more (or
/// fewer) held by the player who came out of the portal, `prior_count` more wished for by the
/// player who went in.
#[derive(Clone, Copy, Debug)]
pub struct MergeWish {
    pub item: Item,
    pub post_count: i32,
    pub prior_count: i32,
}

/// How many more of `it` the wishes `constraints` ask for than the slots `prior` hold.
pub open spec fn net_need(constraints: Map<Item, usize>, prior: Seq<Option<InventoryCell>>, it: Item) -> int {
    count_or_zero(constraints, it) - cells_count(prior, it)
}

/// `cells` after adding `-net` of `it` where `net` is negative, or taking `net` where positive.
pub open spec fn adjusted_cells(cells: Seq<Option<InventoryCell>>, it: Item, net: int) -> Seq<
    Option<InventoryCell>,
> {
    if net < 0 {
        add_result(cells, it, (-net) as nat).0
    } else if net > 0 {
        remove_result(cells, it, net as nat).0
    } else {
        cells
    }
}

/// The change recorded for an item whose wishes differ by `net` from what the prior player held.
pub open spec fn actual_wish(it: Item, net: int) -> MergeWish {
    MergeWish {
        item: it,
        post_count: (if net < 0 {
            -net
        } else {
            net
        }) as i32,
        prior_count: 0,
    }
}

/// Where a prior player holds more of `it` than the wishes `needed` account for, how many more.
pub open spec fn left_over(needed: Map<Item, usize>, prior: Seq<Option<InventoryCell>>, it: Item) -> Option<nat> {
    if !holds_item(prior, it) {
        None
    } else if needed.contains_key(it) {
        if (needed[it] as nat) < cells_count(prior, it) {
            Some((cells_count(prior, it) - needed[it]) as nat)
        } else {
            None
        }
    } else {
        Some(cells_count(prior, it))
    }
}

/// Where the wishes `needed` ask for more of `it` than a prior player holds, how many more.
pub open spec fn shortfall(needed: Map<Item, usize>, prior: Seq<Option<InventoryCell>>, it: Item) -> nat {
    if holds_item(prior, it) && needed.contains_key(it) && needed[it] > cells_count(prior, it) {
        (needed[it] - cells_count(prior, it)) as nat
    } else {
        0
    }
}

/// `left_over` as a number.
pub open spec fn left_over_or_zero(needed: Map<Item, usize>, prior: Seq<Option<InventoryCell>>, it: Item) -> nat {
    match left_over(needed, prior, it) {
        Some(x) => x,
        None => 0,
    }
}

/// The wishes of the prior player after merging: raised by the shortfalls.
pub open spec fn raised_constraints(
    prior_constraints: Map<Item, usize>,
    needed: Map<Item, usize>,
    prior: Seq<Option<InventoryCell>>,
) -> Map<Item, usize> {
    Map::new(
        |it: Item| prior_constraints.contains_key(it) || shortfall(needed, prior, it) > 0,
        |it: Item| (count_or_zero(prior_constraints, it) + shortfall(needed, prior, it)) as usize,
    )
}

/// The minima after merging: for items with a minimum on both sides (the posterior's raised by
/// what was left over, the prior's by the shortfall), the lower of the two.
pub open spec fn merged_minima(
    post_minima: Map<Item, usize>,
    prior_minima: Map<Item, usize>,
    needed: Map<Item, usize>,
    prior: Seq<Option<InventoryCell>>,
) -> Map<Item, usize> {
    Map::new(
        |it: Item|
            (post_minima.contains_key(it) || left_over(needed, prior, it) is Some) && (
            prior_minima.contains_key(it) || shortfall(needed, prior, it) > 0),
        |it: Item|
            vstd::math::min(
                (count_or_zero(post_minima, it) + left_over_or_zero(needed, prior, it)) as int,
                (count_or_zero(prior_minima, it) + shortfall(needed, prior, it)) as int,
            ) as usize,
    )
}

/// The changes recorded when merging with a hypothetical prior inventory.
pub open spec fn hypothetical_wish(w: MergeWish, needed: Map<Item, usize>, prior: Seq<Option<InventoryCell>>) -> bool {
    ||| shortfall(needed, prior, w.item) > 0 && w == MergeWish {
        item: w.item,
        post_count: 0,
        prior_count: shortfall(needed, prior, w.item) as i32,
    }
    ||| left_over(needed, prior, w.item) matches Some(x) && w == MergeWish {
        item: w.item,
        post_count: x as i32,
        prior_count: 0,
    }
}

/// Whether no item occurs twice among the keys of a sequence of signed counts.
spec fn signed_keys_distinct(s: Seq<(Item, isize)>) -> bool {
    forall|i: int, j: int| 0 <= i < j < s.len() ==> s[i].0 != s[j].0
}

/// For each item wished for in `constraints` or held in `cells`, the wishes less the items
/// held: first the items wished for, in order, then the others held, in the order in which
/// they first appear.
fn net_counts(constraints: &ItemCounts, cells: &[Option<InventoryCell>; 32]) -> (r: Vec<(Item, isize)>)
    requires
        forall|it: Item| #[trigger]
            constraints@.contains_key(it) ==> constraints@[it] <= isize::MAX,
    ensures
        signed_keys_distinct(r@),
        forall|k: int|
            0 <= k < r@.len() ==> #[trigger] r@[k].1 == net_need(constraints@, cells@, r@[k].0),
        forall|it: Item|
            (constraints@.contains_key(it) || holds_item(cells@, it)) ==> exists|k: int|
                0 <= k < r@.len() && #[trigger] r@[k].0 == it,
{
    constraints.check_wf();
    let held = count_cells_items(cells);
    held.check_wf();
    let pairs = constraints.to_vec();
    let held_pairs = held.to_vec();
    proof {
        lemma_entries_map(constraints.pairs());
        lemma_entries_map(held.pairs());
    }
    let mut r: Vec<(Item, isize)> = Vec::new();
    let mut j: usize = 0;
    while j < pairs.len()
        invariant
            j <= pairs@.len(),
            pairs@ == constraints.pairs(),
            keys_distinct(pairs@),
            r@.len() == j,
            forall|k: int| 0 <= k < j ==> #[trigger] r@[k].0 == pairs@[k].0,
            forall|k: int|
                0 <= k < j ==> #[trigger] r@[k].1 == net_need(constraints@, cells@, r@[k].0),
            forall|it: Item| #[trigger] constraints@.contains_key(it) ==> constraints@[it] <= isize::MAX,
            forall|it: Item| #[trigger] held@.contains_key(it) <==> holds_item(cells@, it),
            forall|it: Item| #[trigger] held@.contains_key(it) ==> held@[it] == cells_count(cells@, it),
        decreases pairs@.len() - j,
    {
        let (it, c) = pairs[j];
        proof {
            lemma_entries_map(constraints.pairs());
            assert(constraints@[pairs@[j as int].0] == pairs@[j as int].1);
            lemma_inventory_count_bound(*cells, it);
            if !held@.contains_key(it) {
                lemma_not_held_count_zero(cells@, it);
            }
        }
        let h = held.get_or_zero(&it);
        proof {
            assert(constraints@.contains_key(it));
        }
        r.push((it, c as isize - h as isize));
        j += 1;
    }
    proof {
        lemma_at_most_one_pair(constraints.pairs());
        lemma_at_most_one_pair(held.pairs());
    }
    let mut j: usize = 0;
    while j < held_pairs.len()
        invariant
            j <= held_pairs@.len() <= 1,
            held_pairs@ == held.pairs(),
            keys_distinct(held_pairs@),
            pairs@ == constraints.pairs(),
            keys_distinct(pairs@),
            pairs@.len() <= 1,
            r@.len() <= 1,
            pairs@.len() > 0 ==> r@.len() == 1,
            j > 0 ==> r@.len() == 1,
            pairs@.len() == 0 && j == 0 ==> r@.len() == 0,
            forall|k: int|
                0 <= k < r@.len() ==> #[trigger] r@[k].1 == net_need(constraints@, cells@, r@[k].0),
            forall|it: Item| #[trigger] held@.contains_key(it) <==> holds_item(cells@, it),
            forall|it: Item| #[trigger] held@.contains_key(it) ==> held@[it] == cells_count(cells@, it),
        decreases held_pairs@.len() - j,
    {
        let (it, x) = held_pairs[j];
        proof {
            lemma_entries_map(constraints.pairs());
            lemma_entries_map(held.pairs());
            assert(held@[held_pairs@[j as int].0] == held_pairs@[j as int].1);
            assert(held@.contains_key(it));
            lemma_inventory_count_bound(*cells, it);
        }
        if !constraints.get(&it).is_some() {
            proof {
                if pairs@.len() > 0 {
                    lemma_items_equal(pairs@[0].0, it);
                    assert(constraints@.contains_key(pairs@[0].0));
                }
            }
            r.push((it, 0 - x as isize));
        }
        j += 1;
    }
    proof {
        lemma_entries_map(constraints.pairs());
        lemma_entries_map(held.pairs());
        assert forall|it: Item|
            (constraints@.contains_key(it) || holds_item(cells@, it)) implies exists|k: int|
                0 <= k < r@.len() && #[trigger] r@[k].0 == it by {
            if constraints@.contains_key(it) {
                let k = choose|k: int| 0 <= k < pairs@.len() && pairs@[k].0 == it;
            } else {
                assert(held@.contains_key(it));
                let m = choose|m: int| 0 <= m < held_pairs@.len() && held_pairs@[m].0 == it;
            }
            lemma_items_equal(r@[0].0, it);
            assert(r@[0].0 == it);
        }
    }
    r
}

/// The contract of merging an actual prior inventory with slots `prior`.
pub open spec fn actual_merge_outcome(
    post: HypotheticalInventory,
    prior: Seq<Option<InventoryCell>>,
    r: Result<(Inventory, Vec<MergeWish>), GameError>,
) -> bool {
    let needed = post.constraints@;
    &&& (r is Err <==> exists|it: Item| #[trigger]
        net_need(needed, prior, it) > count_or_zero(post.minima@, it))
    &&& (r matches Err(e) ==> exists|it: Item|
        #[trigger] net_need(needed, prior, it) > count_or_zero(post.minima@, it) && e
            == GameError::NotEnough {
            item: it,
            short: (net_need(needed, prior, it) - count_or_zero(post.minima@, it)) as isize,
        })
    &&& (r matches Ok((inv, changes)) ==> {
        &&& inv is Actual
        &&& forall|it: Item|
            #[trigger] cells_count(inv.cells_view(), it) + net_need(needed, prior, it) == cells_count(
                post.cells@,
                it,
            )
        &&& forall|it: Item|
            (forall|o: Item| o != it ==> net_need(needed, prior, o) == 0) ==> inv.cells_view()
                == #[trigger] adjusted_cells(post.cells@, it, net_need(needed, prior, it))
        &&& changes@.no_duplicates()
        &&& forall|w: MergeWish| #[trigger]
            changes@.contains(w) <==> (net_need(needed, prior, w.item) != 0 && w == actual_wish(
                w.item,
                net_need(needed, prior, w.item),
            ))
    })
}

/// The contract of merging a hypothetical prior inventory `h`.
pub open spec fn hypothetical_merge_outcome(
    post: HypotheticalInventory,
    h: HypotheticalInventory,
    r: Result<(Inventory, Vec<MergeWish>), GameError>,
) -> bool {
    let needed = post.constraints@;
    let prior = h.cells@;
    &&& (r is Err <==> exists|it: Item| #[trigger]
        left_over(needed, prior, it) matches Some(x) && !add_result(post.cells@, it, x).2)
    &&& (r matches Err(e) ==> exists|it: Item| #[trigger]
        left_over(needed, prior, it) matches Some(x) && !add_result(post.cells@, it, x).2 && e
            == GameError::TooMany { item: it, overflow: add_result(post.cells@, it, x).1 as usize })
    &&& (r matches Ok((inv, changes)) ==> {
        &&& inv matches Inventory::Hypothetical(hh)
        &&& forall|it: Item| #[trigger]
            cells_count(inv.cells_view(), it) == cells_count(post.cells@, it) + left_over_or_zero(
                needed,
                prior,
                it,
            )
        &&& forall|it: Item|
            (forall|o: Item| o != it ==> left_over(needed, prior, o) is None) ==> inv.cells_view()
                == match #[trigger] left_over(needed, prior, it) {
                Some(x) => add_result(post.cells@, it, x).0,
                None => post.cells@,
            }
        &&& hh.constraints@ == raised_constraints(h.constraints@, needed, prior)
        &&& hh.minima@ == merged_minima(post.minima@, h.minima@, needed, prior)
        &&& changes@.no_duplicates()
        &&& forall|w: MergeWish| #[trigger] changes@.contains(w) <==> hypothetical_wish(w, needed, prior)
    })
}

impl HypotheticalInventory {
    /// Merges `other`, the inventory of the player who went into a portal (the prior player),
    /// into this one, the inventory of the player who came out of it (the posterior player).
    /// With an actual prior inventory, the posterior player's wishes are settled against what
    /// the prior player holds: surplus items are added, and missing ones taken, which is
    /// refused where more would be taken than the posterior player's recorded minimum. With a
    /// hypothetical prior inventory, the prior player's wishes are raised to cover the
    /// posterior player's, and the prior player's surplus is added to the posterior's slots.
    pub fn merge_in(&self, other: Inventory) -> (r: Result<(Inventory, Vec<MergeWish>), GameError>)
        requires
            self.wf(),
            forall|it: Item| #[trigger]
                self.constraints@.contains_key(it) ==> self.constraints@[it] <= isize::MAX,
            other matches Inventory::Actual(a) ==> forall|it: Item|
                net_need(self.constraints@, a.cells@, it) < 0 ==> #[trigger] add_result(
                    self.cells@,
                    it,
                    (-net_need(self.constraints@, a.cells@, it)) as nat,
                ).2,
            other matches Inventory::Hypothetical(h) ==> {
                &&& forall|it: Item| #[trigger]
                    h.constraints@.contains_key(it) ==> h.constraints@[it] <= isize::MAX
                &&& forall|it: Item| #[trigger] h.minima@.contains_key(it) ==> h.minima@[it] <= isize::MAX
            },
        ensures
            other matches Inventory::Actual(a) ==> actual_merge_outcome(*self, a.cells@, r),
            other matches Inventory::Hypothetical(h) ==> hypothetical_merge_outcome(*self, h, r),
    {
        match other {
            Inventory::Actual(actual_other) => self.merge_actual(actual_other),
            Inventory::Hypothetical(hypothetical_other) => self.merge_hypothetical(
                hypothetical_other,
            ),
        }
    }

    #[verifier::loop_isolation(false)]
    fn merge_actual(&self, other: ActualInventory) -> (r: Result<(Inventory, Vec<MergeWish>), GameError>)
        requires
            self.wf(),
            forall|it: Item| #[trigger]
                self.constraints@.contains_key(it) ==> self.constraints@[it] <= isize::MAX,
            forall|it: Item|
                net_need(self.constraints@, other.cells@, it) < 0 ==> #[trigger] add_result(
                    self.cells@,
                    it,
                    (-net_need(self.constraints@, other.cells@, it)) as nat,
                ).2,
        ensures
            actual_merge_outcome(*self, other.cells@, r),
    {
        let net = net_counts(&self.constraints, &other.cells);
        proof {
            if net@.len() > 1 {
                lemma_items_equal(net@[0].0, net@[1].0);
            }
        }
        let ghost needed = self.constraints@;
        let ghost prior = other.cells@;
        let mut cells = self.cells;
        let mut changes: Vec<MergeWish> = Vec::new();
        let mut k: usize = 0;
        while k < net.len()
            invariant
                k <= net@.len(),
                k == 0 ==> cells@ == self.cells@ && changes@.len() == 0,
                k == 1 ==> {
                    &&& cells@ == adjusted_cells(self.cells@, net@[0].0, net@[0].1 as int)
                    &&& changes@ == if net@[0].1 != 0 {
                        seq![actual_wish(net@[0].0, net@[0].1 as int)]
                    } else {
                        Seq::<MergeWish>::empty()
                    }
                    &&& net@[0].1 <= count_or_zero(self.minima@, net@[0].0)
                    &&& cells_count(cells@, net@[0].0) + net@[0].1 == cells_count(
                        self.cells@,
                        net@[0].0,
                    )
                },
            decreases net@.len() - k,
        {
            let (item, count) = net[k];
            proof {
                lemma_inventory_count_bound(other.cells, item);
                lemma_inventory_count_bound(self.cells, item);
                assert(net_need(needed, prior, net@[0].0) == count);
            }
            if count < 0 {
                proof {
                    assert(add_result(self.cells@, item, (-net_need(needed, prior, item)) as nat).2);
                }
                let added = add_to_cells(&mut cells, &item, (-count) as usize);
                assert(added is Ok);
                changes.push(MergeWish { item, post_count: -(count as i32), prior_count: 0 });
            } else if count > 0 {
                let minimum = self.minima.get_or_zero(&item) as isize;
                if count > minimum {
                    return Err(GameError::NotEnough { item, short: count - minimum });
                }
                let removed = remove_from_cells(&mut cells, &item, count as usize);
                changes.push(MergeWish { item, post_count: count as i32, prior_count: 0 });
            }
            k += 1;
            proof {
                assert(changes@ =~= if net@[0].1 != 0 {
                    seq![actual_wish(net@[0].0, net@[0].1 as int)]
                } else {
                    Seq::<MergeWish>::empty()
                });
            }
        }
        proof {
            if net@.len() == 0 {
                assert forall|it: Item| #[trigger] net_need(needed, prior, it) == 0 by {
                    if needed.contains_key(it) || holds_item(prior, it) {
                        let j = choose|j: int| 0 <= j < net@.len() && #[trigger] net@[j].0 == it;
                        assert(net@[j].0 == it);
                    }
                    lemma_not_held_count_zero(prior, it);
                }
                assert(changes@ =~= Seq::<MergeWish>::empty());
            } else {
                let i0 = net@[0].0;
                assert forall|it: Item| #[trigger] net_need(needed, prior, it) == net@[0].1 by {
                    lemma_items_equal(it, i0);
                }
                assert forall|it: Item|
                    #[trigger] cells_count(cells@, it) + net_need(needed, prior, it) == cells_count(
                        self.cells@,
                        it,
                    ) by {
                    lemma_items_equal(it, i0);
                }
                assert forall|it: Item|
                    (forall|o: Item| o != it ==> net_need(needed, prior, o) == 0) implies cells@
                        == #[trigger] adjusted_cells(self.cells@, it, net_need(needed, prior, it)) by {
                    lemma_items_equal(it, i0);
                }
                assert forall|w: MergeWish| #[trigger]
                    changes@.contains(w) <==> (net_need(needed, prior, w.item) != 0 && w == actual_wish(
                        w.item,
                        net_need(needed, prior, w.item),
                    )) by {
                    lemma_items_equal(w.item, i0);
                    if changes@.len() > 0 {
                        assert(changes@[0] == actual_wish(i0, net@[0].1 as int));
                    }
                }
                assert(!(exists|it: Item| #[trigger]
                    net_need(needed, prior, it) > count_or_zero(self.minima@, it))) by {
                    assert forall|it: Item| #[trigger] net_need(needed, prior, it) <= count_or_zero(self.minima@, it) by {
                        lemma_items_equal(it, i0);
                    }
                }
            }
        }
        Ok((Inventory::Actual(ActualInventory { cells }), changes))
    }

    #[verifier::rlimit(60)]
    fn merge_hypothetical(&self, other: HypotheticalInventory) -> (r: Result<
        (Inventory, Vec<MergeWish>),
        GameError,
    >)
        requires
            self.wf(),
            forall|it: Item| #[trigger]
                self.constraints@.contains_key(it) ==> self.constraints@[it] <= isize::MAX,
            forall|it: Item| #[trigger]
                other.constraints@.contains_key(it) ==> other.constraints@[it] <= isize::MAX,
            forall|it: Item| #[trigger] other.minima@.contains_key(it) ==> other.minima@[it] <= isize::MAX,
        ensures
            hypothetical_merge_outcome(*self, other, r),
    {
        let ghost needed = self.constraints@;
        let ghost prior = other.cells@;
        let ghost oc0 = other.constraints@;
        let ghost om0 = other.minima@;
        let mut extras = count_cells_items(&other.cells);
        let mut other_minima = other.minima.duplicate();
        let HypotheticalInventory { cells: prior_cells, constraints: mut other_constraints, minima: _ } = other;
        let mut changes = settle_wishes(
            &self.constraints,
            &prior_cells,
            &mut extras,
            &mut other_constraints,
            &mut other_minima,
        );
        let ghost changes1 = changes@;
        let mut minima = self.minima.duplicate();
        let mut cells = self.cells;
        proof {
            assert forall|it: Item| #[trigger] minima@.contains_key(it) implies minima@[it] <= 8160 by {
                lemma_inventory_count_bound(self.cells, it);
            }
            assert forall|it: Item| #[trigger] left_over_or_zero(needed, prior, it) <= 8160 by {
                lemma_inventory_count_bound(prior_cells, it);
            }
        }
        add_left_over(&mut cells, &mut minima, &extras, &mut changes, Ghost(needed), Ghost(prior))?;
        let merged = merge_minima(&minima, &other_minima);
        proof {
            assert forall|it: Item| #[trigger] merged@.contains_key(it) == merged_minima(self.minima@, om0, needed, prior).contains_key(it) by {}
            assert(merged@ =~= merged_minima(self.minima@, om0, needed, prior));
            assert(changes@.no_duplicates()) by {
                if changes@.len() >= 2 {
                    assert(changes1.len() == 1);
                    let w0 = changes1[0];
                    assert(changes1.contains(w0));
                    let it = choose|it: Item| #[trigger] (left_over(needed, prior, it) is Some);
                    lemma_items_equal(it, w0.item);
                }
            }
        }
        Ok((
            Inventory::Hypothetical(
                HypotheticalInventory { cells, minima: merged, constraints: other_constraints },
            ),
            changes,
        ))
    }
}

/// Settles the posterior player's wishes against the surplus `extras` of the prior player, who
/// holds the slots `prior`: surplus is used up, and where it falls short the prior player's
/// wishes and minima are raised. Gives back the changes recorded.
fn settle_wishes(
    post_constraints: &ItemCounts,
    prior: &[Option<InventoryCell>; 32],
    extras: &mut ItemCounts,
    other_constraints: &mut ItemCounts,
    other_minima: &mut ItemCounts,
) -> (changes: Vec<MergeWish>)
    requires
        forall|it: Item| #[trigger] old(extras)@.contains_key(it) <==> holds_item(prior@, it),
        forall|it: Item| #[trigger] old(extras)@.contains_key(it) ==> old(extras)@[it] == cells_count(prior@, it),
        forall|it: Item| #[trigger]
            post_constraints@.contains_key(it) ==> post_constraints@[it] <= isize::MAX,
        forall|it: Item| #[trigger]
            old(other_constraints)@.contains_key(it) ==> old(other_constraints)@[it] <= isize::MAX,
        forall|it: Item| #[trigger] old(other_minima)@.contains_key(it) ==> old(other_minima)@[it] <= isize::MAX,
    ensures
        forall|it: Item| #[trigger]
            final(extras)@.contains_key(it) <==> left_over(post_constraints@, prior@, it) is Some,
        forall|it: Item| #[trigger]
            final(extras)@.contains_key(it) ==> final(extras)@[it] == left_over_or_zero(post_constraints@, prior@, it),
        final(other_constraints)@ == raised_constraints(old(other_constraints)@, post_constraints@, prior@),
        final(other_minima)@ == Map::new(
            |it: Item| old(other_minima)@.contains_key(it) || shortfall(post_constraints@, prior@, it) > 0,
            |it: Item| (count_or_zero(old(other_minima)@, it) + shortfall(post_constraints@, prior@, it)) as usize,
        ),
        forall|w: MergeWish| #[trigger]
            changes@.contains(w) <==> (shortfall(post_constraints@, prior@, w.item) > 0 && w == MergeWish {
                item: w.item,
                post_count: 0,
                prior_count: shortfall(post_constraints@, prior@, w.item) as i32,
            }),
        changes@.len() <= 1,
{
    let ghost needed = post_constraints@;
    let ghost extras0 = extras@;
    let ghost oc0 = other_constraints@;
    let ghost om0 = other_minima@;
    let mut changes: Vec<MergeWish> = Vec::new();
    post_constraints.check_wf();
    let self_constraints = post_constraints.to_vec();
    proof {
        lemma_entries_map(post_constraints.pairs());
        lemma_at_most_one_pair(post_constraints.pairs());
    }
    if self_constraints.len() == 0 {
        proof {
            assert forall|it: Item| !needed.contains_key(it) by {
                if needed.contains_key(it) {
                    let j = choose|j: int| 0 <= j < self_constraints@.len() && self_constraints@[j].0 == it;
                }
            }
            assert(other_constraints@ =~= raised_constraints(oc0, needed, prior@));
            assert(other_minima@ =~= Map::new(
                |it: Item| om0.contains_key(it) || shortfall(needed, prior@, it) > 0,
                |it: Item| (count_or_zero(om0, it) + shortfall(needed, prior@, it)) as usize,
            ));
        }
        return changes;
    }
    let (item, needed_count) = self_constraints[0];
    proof {
        assert(needed[self_constraints@[0].0] == self_constraints@[0].1);
        lemma_inventory_count_bound(*prior, item);
    }
    match extras.get(&item) {
        Some(extra) => {
            if needed_count < extra {
                extras.insert(item, extra - needed_count);
            } else if needed_count == extra {
                extras.remove(&item);
            } else {
                extras.remove(&item);
                other_constraints.add(item, needed_count - extra);
                other_minima.add(item, needed_count - extra);
                changes.push(
                    MergeWish { item, post_count: 0, prior_count: (needed_count - extra) as i32 },
                );
            }
        },
        None => {},
    }
    proof {
        assert forall|it: Item| #[trigger]
            extras@.contains_key(it) <==> left_over(needed, prior@, it) is Some by {
            lemma_items_equal(it, item);
        }
        assert forall|it: Item| #[trigger]
            extras@.contains_key(it) implies extras@[it] == left_over_or_zero(needed, prior@, it) by {
            lemma_items_equal(it, item);
        }
        assert(other_constraints@ =~= raised_constraints(oc0, needed, prior@)) by {
            assert forall|it: Item| other_constraints@.contains_key(it) == raised_constraints(oc0, needed, prior@).contains_key(it) by {
                lemma_items_equal(it, item);
            }
            assert forall|it: Item| #[trigger] other_constraints@.contains_key(it) implies other_constraints@[it] == raised_constraints(oc0, needed, prior@)[it] by {
                lemma_items_equal(it, item);
            }
        }
        assert(other_minima@ =~= Map::new(
            |it: Item| om0.contains_key(it) || shortfall(needed, prior@, it) > 0,
            |it: Item| (count_or_zero(om0, it) + shortfall(needed, prior@, it)) as usize,
        )) by {
            assert forall|it: Item| other_minima@.contains_key(it) == (om0.contains_key(it) || shortfall(needed, prior@, it) > 0) by {
                lemma_items_equal(it, item);
            }
            assert forall|it: Item| #[trigger] other_minima@.contains_key(it) implies other_minima@[it] == (count_or_zero(om0, it) + shortfall(needed, prior@, it)) as usize by {
                lemma_items_equal(it, item);
            }
        }
        assert forall|w: MergeWish| #[trigger]
            changes@.contains(w) <==> (shortfall(needed, prior@, w.item) > 0 && w == MergeWish {
                item: w.item,
                post_count: 0,
                prior_count: shortfall(needed, prior@, w.item) as i32,
            }) by {
            lemma_items_equal(w.item, item);
            if changes@.len() == 1 {
                assert(changes@.contains(changes@[0]));
            }
        }
    }
    changes
}

/// Adds the prior player's surplus `extras` to the posterior player's slots and minima,
/// recording the changes; refused where the slots have no room for it.
fn add_left_over(
    cells: &mut [Option<InventoryCell>; 32],
    minima: &mut ItemCounts,
    extras: &ItemCounts,
    changes: &mut Vec<MergeWish>,
    Ghost(needed): Ghost<Map<Item, usize>>,
    Ghost(prior): Ghost<Seq<Option<InventoryCell>>>,
) -> (r: Result<(), GameError>)
    requires
        forall|it: Item| #[trigger] extras@.contains_key(it) <==> (left_over(needed, prior, it) is Some),
        forall|it: Item| #[trigger] extras@.contains_key(it) ==> extras@[it] == left_over_or_zero(needed, prior, it),
        forall|it: Item| #[trigger] left_over_or_zero(needed, prior, it) <= 8160,
        forall|it: Item| #[trigger] old(minima)@.contains_key(it) ==> old(minima)@[it] <= 8160,
    ensures
        (r is Err <==> exists|it: Item| #[trigger]
            left_over(needed, prior, it) matches Some(x) && !add_result(old(cells)@, it, x).2),
        r matches Err(e) ==> exists|it: Item| #[trigger]
            left_over(needed, prior, it) matches Some(x) && !add_result(old(cells)@, it, x).2 && e
                == (GameError::TooMany { item: it, overflow: add_result(old(cells)@, it, x).1 as usize }),
        r is Ok ==> {
            &&& forall|it: Item| (forall|o: Item| o != it ==> (left_over(needed, prior, o) is None)) ==> final(cells)@
                == match #[trigger] left_over(needed, prior, it) {
                Some(x) => add_result(old(cells)@, it, x).0,
                None => old(cells)@,
            }
            &&& forall|it: Item| #[trigger]
                cells_count(final(cells)@, it) == cells_count(old(cells)@, it) + left_over_or_zero(needed, prior, it)
            &&& final(minima)@ == Map::new(
                |it: Item| old(minima)@.contains_key(it) || (left_over(needed, prior, it) is Some),
                |it: Item| (count_or_zero(old(minima)@, it) + left_over_or_zero(needed, prior, it)) as usize,
            )
            &&& forall|w: MergeWish| #[trigger] final(changes)@.contains(w) <==> (old(changes)@.contains(w) || (
                left_over(needed, prior, w.item) matches Some(x) && w == (MergeWish {
                    item: w.item,
                    post_count: x as i32,
                    prior_count: 0,
                })))
            &&& final(changes)@.len() <= old(changes)@.len() + 1
            &&& (final(changes)@.len() > old(changes)@.len() ==> exists|it: Item| #[trigger]
                (left_over(needed, prior, it) is Some))
        },
{
    extras.check_wf();
    let rest = extras.to_vec();
    proof {
        lemma_entries_map(extras.pairs());
        lemma_at_most_one_pair(extras.pairs());
    }
    if rest.len() == 0 {
        proof {
            assert forall|it: Item| #[trigger] left_over(needed, prior, it) is None by {
                if left_over(needed, prior, it) is Some {
                    assert(extras@.contains_key(it));
                    let j = choose|j: int| 0 <= j < rest@.len() && rest@[j].0 == it;
                }
            }
            assert(minima@ =~= Map::new(
                |it: Item| old(minima)@.contains_key(it) || left_over(needed, prior, it) is Some,
                |it: Item| (count_or_zero(old(minima)@, it) + left_over_or_zero(needed, prior, it)) as usize,
            ));
        }
        return Ok(());
    }
    let (item, extra) = rest[0];
    proof {
        assert(extras@[rest@[0].0] == rest@[0].1);
        assert(extras@.contains_key(item));
        assert(extra == left_over_or_zero(needed, prior, item));
        crate::cells::lemma_add_result(old(cells)@, item, extra as nat);
    }
    match add_to_cells(cells, &item, extra) {
        Ok(()) => {},
        Err(overflow) => {
            return Err(GameError::TooMany { item, overflow });
        },
    }
    minima.add(item, extra);
    changes.push(MergeWish { item, post_count: extra as i32, prior_count: 0 });
    proof {
        assert forall|it: Item| #[trigger]
            cells_count(cells@, it) == cells_count(old(cells)@, it) + left_over_or_zero(needed, prior, it) by {
            lemma_items_equal(it, item);
        }
        assert(minima@ =~= Map::new(
            |it: Item| old(minima)@.contains_key(it) || left_over(needed, prior, it) is Some,
            |it: Item| (count_or_zero(old(minima)@, it) + left_over_or_zero(needed, prior, it)) as usize,
        )) by {
            assert forall|it: Item| minima@.contains_key(it) == (old(minima)@.contains_key(it) || left_over(needed, prior, it) is Some) by {
                lemma_items_equal(it, item);
            }
            assert forall|it: Item| #[trigger] minima@.contains_key(it) implies minima@[it] == (count_or_zero(old(minima)@, it) + left_over_or_zero(needed, prior, it)) as usize by {
                lemma_items_equal(it, item);
            }
        }
        assert forall|it: Item| (forall|o: Item| o != it ==> left_over(needed, prior, o) is None) implies cells@
            == match #[trigger] left_over(needed, prior, it) {
            Some(x) => add_result(old(cells)@, it, x).0,
            None => old(cells)@,
        } by {
            lemma_items_equal(it, item);
        }
        assert forall|w: MergeWish| #[trigger] changes@.contains(w) <==> (old(changes)@.contains(w) || (
            left_over(needed, prior, w.item) matches Some(x) && w == MergeWish {
                item: w.item,
                post_count: x as i32,
                prior_count: 0,
            })) by {
            lemma_items_equal(w.item, item);
            if changes@.contains(w) && !old(changes)@.contains(w) {
                let j = choose|j: int| 0 <= j < changes@.len() && changes@[j] == w;
                if j < old(changes)@.len() {
                    assert(old(changes)@[j] == w);
                }
            }
            if old(changes)@.contains(w) {
                let j = choose|j: int| 0 <= j < old(changes)@.len() && old(changes)@[j] == w;
                assert(changes@[j] == w);
            }
            if left_over(needed, prior, w.item) is Some && w == (MergeWish {
                item: w.item,
                post_count: left_over_or_zero(needed, prior, w.item) as i32,
                prior_count: 0,
            }) {
                assert(changes@[changes@.len() - 1] == w);
            }
        }
    }
    Ok(())
}

/// For each item with a minimum in both `minima` and `other_minima`, the lower of the two.
fn merge_minima(minima: &ItemCounts, other_minima: &ItemCounts) -> (merged: ItemCounts)
    ensures
        merged@ == Map::new(
            |it: Item| minima@.contains_key(it) && other_minima@.contains_key(it),
            |it: Item| vstd::math::min(minima@[it] as int, other_minima@[it] as int) as usize,
        ),
{
    minima.check_wf();
    let pairs = minima.to_vec();
    let mut merged = ItemCounts::new();
    proof {
        lemma_entries_map(minima.pairs());
    }
    let mut k: usize = 0;
    while k < pairs.len()
        invariant
            k <= pairs@.len(),
            pairs@ == minima.pairs(),
            keys_distinct(pairs@),
            merged@ == Map::new(
                |it: Item| (exists|j: int| 0 <= j < k && #[trigger] pairs@[j].0 == it) && other_minima@.contains_key(it),
                |it: Item| vstd::math::min(minima@[it] as int, other_minima@[it] as int) as usize,
            ),
        decreases pairs@.len() - k,
    {
        let (item, minimum) = pairs[k];
        proof {
            assert(minima@[pairs@[k as int].0] == pairs@[k as int].1);
        }
        match other_minima.get(&item) {
            Some(other_minimum) => {
                merged.insert(
                    item,
                    if minimum < other_minimum {
                        minimum
                    } else {
                        other_minimum
                    },
                );
            },
            None => {},
        }
        proof {
            let target = Map::new(
                |it: Item| (exists|j: int| 0 <= j < k + 1 && #[trigger] pairs@[j].0 == it) && other_minima@.contains_key(it),
                |it: Item| vstd::math::min(minima@[it] as int, other_minima@[it] as int) as usize,
            );
            assert forall|it: Item| merged@.contains_key(it) == target.contains_key(it) by {
                if exists|j: int| 0 <= j < k + 1 && #[trigger] pairs@[j].0 == it {
                    let j = choose|j: int| 0 <= j < k + 1 && #[trigger] pairs@[j].0 == it;
                    if j < k {
                        assert(exists|j2: int| 0 <= j2 < k && #[trigger] pairs@[j2].0 == it);
                    }
                }
                if exists|j: int| 0 <= j < k && #[trigger] pairs@[j].0 == it {
                    let j = choose|j: int| 0 <= j < k && #[trigger] pairs@[j].0 == it;
                    assert(0 <= j < k + 1 && pairs@[j].0 == it);
                }
            }
            assert(merged@ =~= target);
        }
        k += 1;
    }
    proof {
        assert forall|it: Item| #[trigger] minima@.contains_key(it) implies exists|j: int|
            0 <= j < k && #[trigger] pairs@[j].0 == it by {
            let j = choose|j: int| 0 <= j < pairs@.len() && pairs@[j].0 == it;
            assert(pairs@[j].0 == it);
        }
        assert(merged@ =~= Map::new(
            |it: Item| minima@.contains_key(it) && other_minima@.contains_key(it),
            |it: Item| vstd::math::min(minima@[it] as int, other_minima@[it] as int) as usize,
        ));
    }
    merged
}

} // verus!
