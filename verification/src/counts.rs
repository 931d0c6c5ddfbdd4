use vstd::prelude::*;
use crate::item::Item;

verus! {

/// No item occurs twice among the keys of `s`.
pub open spec fn keys_distinct(s: Seq<(Item, usize)>) -> bool {
    forall|i: int, j: int| 0 <= i < j < s.len() ==> s[i].0 != s[j].0
}

/// The map from items to counts that a sequence of pairs denotes.
pub open spec fn entries_map(s: Seq<(Item, usize)>) -> Map<Item, usize>
    decreases s.len(),
{
    if s.len() == 0 {
        Map::empty()
    } else {
        entries_map(s.drop_last()).insert(s.last().0, s.last().1)
    }
}

/// The count of `item` in `m`, or 0 where `m` has none.
pub open spec fn count_or_zero(m: Map<Item, usize>, item: Item) -> nat {
    if m.contains_key(item) {
        m[item] as nat
    } else {
        0
    }
}

/// The entry of `m` for `item`, if it has one.
pub open spec fn lookup(m: Map<Item, usize>, item: Item) -> Option<usize> {
    if m.contains_key(item) {
        Some(m[item])
    } else {
        None
    }
}

/// What the map of a sequence of pairs with distinct keys holds.
pub proof fn lemma_entries_map(s: Seq<(Item, usize)>)
    requires
        keys_distinct(s),
    ensures
        forall|it: Item|
            #[trigger] entries_map(s).contains_key(it) <==> exists|k: int|
                0 <= k < s.len() && s[k].0 == it,
        forall|k: int| 0 <= k < s.len() ==> #[trigger] entries_map(s)[s[k].0] == s[k].1,
        entries_map(s).dom().finite(),
        entries_map(s).dom().len() == s.len(),
    decreases s.len(),
{
    if s.len() > 0 {
        let p = s.drop_last();
        lemma_entries_map(p);
        assert forall|it: Item| #[trigger]
            entries_map(s).contains_key(it) <==> exists|k: int|
                0 <= k < s.len() && s[k].0 == it by {
            if entries_map(s).contains_key(it) && it != s.last().0 {
                let k = choose|k: int| 0 <= k < p.len() && p[k].0 == it;
                assert(s[k].0 == it);
            }
            if exists|k: int| 0 <= k < s.len() && s[k].0 == it {
                let k = choose|k: int| 0 <= k < s.len() && s[k].0 == it;
                if k < p.len() {
                    assert(p[k].0 == it);
                }
            }
        }
        assert forall|k: int| 0 <= k < s.len() implies #[trigger] entries_map(s)[s[k].0]
            == s[k].1 by {
            if k < p.len() {
                assert(p[k] == s[k]);
                assert(s[k].0 != s.last().0);
            }
        }
        assert(!entries_map(p).contains_key(s.last().0)) by {
            if entries_map(p).contains_key(s.last().0) {
                let k = choose|k: int| 0 <= k < p.len() && p[k].0 == s.last().0;
                assert(s[k].0 == s[s.len() - 1].0);
            }
        }
    }
}

/// A map from items to counts, held as a sequence of pairs in the order in which the items
/// were first entered.
#[derive(Debug)]
pub struct ItemCounts {
    entries: Vec<(Item, usize)>,
}

impl View for ItemCounts {
    type V = Map<Item, usize>;

    open spec fn view(&self) -> Map<Item, usize> {
        entries_map(self.pairs())
    }
}

impl ItemCounts {
    /// The pairs held, in order.
    pub closed spec fn pairs(&self) -> Seq<(Item, usize)> {
        self.entries@
    }

    /// The invariant: no item is held twice.
    pub open spec fn wf(&self) -> bool {
        keys_distinct(self.pairs())
    }

    #[verifier::type_invariant]
    spec fn inv(&self) -> bool {
        keys_distinct(self.entries@)
    }

    /// Every value of this type keeps its invariant.
    pub fn check_wf(&self)
        ensures
            self.wf(),
    {
        proof {
            use_type_invariant(self);
        }
    }

    /// A copy holding the same pairs.
    pub fn duplicate(&self) -> (r: Self)
        ensures
            r.pairs() == self.pairs(),
            r@ == self@,
            r.wf(),
    {
        proof {
            use_type_invariant(self);
        }
        let v = self.to_vec();
        ItemCounts { entries: v }
    }

    pub fn new() -> (r: Self)
        ensures
            r.wf(),
            r.pairs() == Seq::<(Item, usize)>::empty(),
            r@ == Map::<Item, usize>::empty(),
    {
        ItemCounts { entries: Vec::new() }
    }

    fn find(&self, item: &Item) -> (r: Option<usize>)
        ensures
            match r {
                Some(k) => k < self.pairs().len() && self.pairs()[k as int].0 == *item,
                None => forall|k: int|
                    0 <= k < self.pairs().len() ==> self.pairs()[k].0 != *item,
            },
    {
        let mut k: usize = 0;
        while k < self.entries.len()
            invariant
                k <= self.entries@.len(),
                forall|j: int| 0 <= j < k ==> self.entries@[j].0 != *item,
            decreases self.entries@.len() - k,
        {
            if self.entries[k].0 == *item {
                return Some(k);
            }
            k += 1;
        }
        None
    }

    /// The count held for `item`, if any.
    pub fn get(&self, item: &Item) -> (r: Option<usize>)
        ensures
            r == lookup(self@, *item),
    {
        proof {
            use_type_invariant(self);
            lemma_entries_map(self.pairs());
        }
        match self.find(item) {
            Some(k) => Some(self.entries[k].1),
            None => None,
        }
    }

    /// The count held for `item`, or 0.
    pub fn get_or_zero(&self, item: &Item) -> (r: usize)
        ensures
            r == count_or_zero(self@, *item),
    {
        match self.get(item) {
            Some(c) => c,
            None => 0,
        }
    }

    /// Sets the count of `item` to `value`; a new item goes after the others.
    pub fn insert(&mut self, item: Item, value: usize)
        ensures
            final(self).wf(),
            final(self)@ == old(self)@.insert(item, value),
            old(self)@.contains_key(item) ==> final(self).pairs().len() == old(self).pairs().len(),
            !old(self)@.contains_key(item) ==> final(self).pairs() == old(self).pairs().push(
                (item, value),
            ),
    {
        proof {
            use_type_invariant(&*self);
            lemma_entries_map(self.pairs());
        }
        let ghost old_pairs = self.pairs();
        match self.find(&item) {
            Some(k) => {
                let mut v: Vec<(Item, usize)> = Vec::new();
                std::mem::swap(&mut v, &mut self.entries);
                v.set(k, (item, value));
                proof {
                    assert(keys_distinct(v@)) by {
                        assert forall|i: int, j: int| 0 <= i < j < v@.len() implies v@[i].0
                            != v@[j].0 by {
                            assert(v@[i].0 == old_pairs[i].0);
                            assert(v@[j].0 == old_pairs[j].0);
                        }
                    }
                }
                self.entries = v;
                proof {
                    let s = self.pairs();
                    assert(s == old_pairs.update(k as int, (item, value)));
                    lemma_entries_map(s);
                    assert(self@ =~= old(self)@.insert(item, value)) by {
                        assert forall|it: Item| #[trigger]
                            self@.contains_key(it) == old(self)@.insert(
                                item,
                                value,
                            ).contains_key(it) by {
                            if self@.contains_key(it) {
                                let j = choose|j: int| 0 <= j < s.len() && s[j].0 == it;
                                assert(old_pairs[j].0 == it);
                            }
                            if old(self)@.contains_key(it) {
                                let j = choose|j: int| 0 <= j < old_pairs.len() && old_pairs[j].0 == it;
                                assert(s[j].0 == it);
                            }
                        }
                        assert forall|it: Item| #[trigger] self@.contains_key(it) implies self@[it]
                            == old(self)@.insert(item, value)[it] by {
                            let j = choose|j: int| 0 <= j < s.len() && s[j].0 == it;
                            assert(self@[s[j].0] == s[j].1);
                            if j != k {
                                assert(old(self)@[old_pairs[j].0] == old_pairs[j].1);
                            }
                        }
                    }
                }
            },
            None => {
                let mut v: Vec<(Item, usize)> = Vec::new();
                std::mem::swap(&mut v, &mut self.entries);
                v.push((item, value));
                proof {
                    assert(keys_distinct(v@)) by {
                        assert forall|i: int, j: int| 0 <= i < j < v@.len() implies v@[i].0
                            != v@[j].0 by {
                            if j < old_pairs.len() {
                                assert(v@[i] == old_pairs[i]);
                                assert(v@[j] == old_pairs[j]);
                            } else {
                                assert(v@[i] == old_pairs[i]);
                            }
                        }
                    }
                }
                self.entries = v;
                proof {
                    let s = self.pairs();
                    assert(s.drop_last() =~= old_pairs);
                }
            },
        }
    }

    /// Adds `n` to the count of `item`, which starts from 0 where there is none.
    pub fn add(&mut self, item: Item, n: usize)
        requires
            count_or_zero(old(self)@, item) + n <= usize::MAX,
        ensures
            final(self).wf(),
            final(self)@ == old(self)@.insert(item, (count_or_zero(old(self)@, item) + n) as usize),
            !old(self)@.contains_key(item) ==> final(self).pairs() == old(self).pairs().push(
                (item, n),
            ),
            old(self)@.contains_key(item) ==> final(self).pairs().len() == old(self).pairs().len(),
    {
        proof {
            use_type_invariant(&*self);
        }
        let c = self.get_or_zero(&item);
        self.insert(item, c + n);
    }

    /// Removes the entry for `item`, giving back its count.
    pub fn remove(&mut self, item: &Item) -> (r: Option<usize>)
        ensures
            final(self).wf(),
            r == lookup(old(self)@, *item),
            final(self)@ == old(self)@.remove(*item),
    {
        proof {
            use_type_invariant(&*self);
            lemma_entries_map(self.pairs());
        }
        let ghost old_pairs = self.pairs();
        match self.find(item) {
            Some(k) => {
                proof {
                    let s = old_pairs.remove(k as int);
                    assert(keys_distinct(s)) by {
                        assert forall|i: int, j: int| 0 <= i < j < s.len() implies s[i].0
                            != s[j].0 by {
                            let oi = if i < k { i } else { i + 1 };
                            let oj = if j < k { j } else { j + 1 };
                            assert(s[i] == old_pairs[oi]);
                            assert(s[j] == old_pairs[oj]);
                        }
                    }
                }
                let mut v: Vec<(Item, usize)> = Vec::new();
                std::mem::swap(&mut v, &mut self.entries);
                let (_, c) = v.remove(k);
                self.entries = v;
                proof {
                    let s = self.pairs();
                    assert(s == old_pairs.remove(k as int));
                    lemma_entries_map(s);
                    assert(self@ =~= old(self)@.remove(*item)) by {
                        assert forall|it: Item| #[trigger]
                            self@.contains_key(it) == old(self)@.remove(*item).contains_key(it) by {
                            if self@.contains_key(it) {
                                let j = choose|j: int| 0 <= j < s.len() && s[j].0 == it;
                                let oj = if j < k { j } else { j + 1 };
                                assert(old_pairs[oj].0 == it);
                                assert(oj != k);
                            }
                            if old(self)@.remove(*item).contains_key(it) {
                                let j = choose|j: int| 0 <= j < old_pairs.len() && old_pairs[j].0 == it;
                                assert(j != k);
                                let sj = if j < k { j } else { j - 1 };
                                assert(s[sj].0 == it);
                            }
                        }
                        assert forall|it: Item| #[trigger] self@.contains_key(it) implies self@[it]
                            == old(self)@.remove(*item)[it] by {
                            let j = choose|j: int| 0 <= j < s.len() && s[j].0 == it;
                            let oj = if j < k { j } else { j + 1 };
                            assert(self@[s[j].0] == s[j].1);
                            assert(old(self)@[old_pairs[oj].0] == old_pairs[oj].1);
                        }
                    }
                }
                Some(c)
            },
            None => {
                proof {
                    assert(self@ =~= old(self)@.remove(*item));
                }
                None
            },
        }
    }

    /// The number of items held.
    pub fn len(&self) -> (r: usize)
        ensures
            r == self@.dom().len(),
    {
        proof {
            use_type_invariant(self);
            lemma_entries_map(self.pairs());
        }
        self.entries.len()
    }

    /// The pairs held, in order.
    pub fn to_vec(&self) -> (r: Vec<(Item, usize)>)
        ensures
            r@ == self.pairs(),
    {
        let mut r: Vec<(Item, usize)> = Vec::new();
        let mut k: usize = 0;
        while k < self.entries.len()
            invariant
                k <= self.entries@.len(),
                r@ == self.entries@.take(k as int),
            decreases self.entries@.len() - k,
        {
            r.push(self.entries[k]);
            k += 1;
            assert(r@ =~= self.entries@.take(k as int));
        }
        assert(self.entries@.take(k as int) =~= self.entries@);
        r
    }

    /// Whether `self` and `other` hold the same counts for the same items.
    pub fn same_counts(&self, other: &ItemCounts) -> (r: bool)
        ensures
            r == (self@ == other@),
    {
        proof {
            use_type_invariant(self);
            use_type_invariant(other);
            lemma_entries_map(self.pairs());
            lemma_entries_map(other.pairs());
        }
        if self.entries.len() != other.entries.len() {
            return false;
        }
        let mut k: usize = 0;
        while k < self.entries.len()
            invariant
                self.wf(),
                other.wf(),
                self.pairs().len() == other.pairs().len(),
                k <= self.pairs().len(),
                forall|j: int|
                    0 <= j < k ==> #[trigger] other@.contains_key(self.pairs()[j].0)
                        && other@[self.pairs()[j].0] == self.pairs()[j].1,
            decreases self.pairs().len() - k,
        {
            let (it, c) = self.entries[k];
            match other.get(&it) {
                Some(c2) => {
                    if c2 != c {
                        assert(self@[self.pairs()[k as int].0] == self.pairs()[k as int].1);
                        return false;
                    }
                },
                None => {
                    assert(self@.contains_key(self.pairs()[k as int].0));
                    return false;
                },
            }
            k += 1;
        }
        proof {
            assert(self@.dom().subset_of(other@.dom())) by {
                assert forall|it: Item| self@.contains_key(it) implies other@.contains_key(it) by {
                    let j = choose|j: int| 0 <= j < self.pairs().len() && self.pairs()[j].0 == it;
                    assert(other@.contains_key(self.pairs()[j].0));
                }
            }
            vstd::set_lib::lemma_subset_equality(self@.dom(), other@.dom());
            assert(self@ =~= other@) by {
                assert forall|it: Item| #[trigger] self@.contains_key(it) implies self@[it]
                    == other@[it] by {
                    let j = choose|j: int| 0 <= j < self.pairs().len() && self.pairs()[j].0 == it;
                    assert(self@[self.pairs()[j].0] == self.pairs()[j].1);
                }
            }
        }
        true
    }
}

} // verus!
