use vstd::prelude::*;
use crate::error::GameError;
use crate::types::{Entity, Move, Point};

verus! {

/// No entity occurs twice among the keys of `s`.
pub open spec fn entities_distinct(s: Seq<(Entity, Move)>) -> bool {
    forall|i: int, j: int| 0 <= i < j < s.len() ==> s[i].0 != s[j].0
}

/// The map from entities to moves that a sequence of pairs denotes.
pub open spec fn moves_map(s: Seq<(Entity, Move)>) -> Map<Entity, Move>
    decreases s.len(),
{
    if s.len() == 0 {
        Map::empty()
    } else {
        moves_map(s.drop_last()).insert(s.last().0, s.last().1)
    }
}

/// The move of `entity` in `m`, if it has one.
pub open spec fn move_lookup(m: Map<Entity, Move>, entity: Entity) -> Option<Move> {
    if m.contains_key(entity) {
        Some(m[entity])
    } else {
        None
    }
}

/// What the map of a sequence of pairs with distinct keys holds.
pub proof fn lemma_moves_map(s: Seq<(Entity, Move)>)
    requires
        entities_distinct(s),
    ensures
        forall|it: Entity|
            #[trigger] moves_map(s).contains_key(it) <==> exists|k: int|
                0 <= k < s.len() && s[k].0 == it,
        forall|k: int| 0 <= k < s.len() ==> #[trigger] moves_map(s)[s[k].0] == s[k].1,
        moves_map(s).dom().finite(),
        moves_map(s).dom().len() == s.len(),
    decreases s.len(),
{
    if s.len() > 0 {
        let p = s.drop_last();
        lemma_moves_map(p);
        assert forall|it: Entity| #[trigger]
            moves_map(s).contains_key(it) <==> exists|k: int|
                0 <= k < s.len() && s[k].0 == it by {
            if moves_map(s).contains_key(it) && it != s.last().0 {
                let k = choose|k: int| 0 <= k < p.len() && p[k].0 == it;
                assert(s[k].0 == it);
            }
            if exists|k: int| 0 <= k < s.len() && s[k].0 == it {
                let k = choose|k: int| 0 <= k < s.len() && s[k].0 == it;
                if k < p.len() {
                    assert(p[k].0 == it);
                }
            }
        }
        assert forall|k: int| 0 <= k < s.len() implies #[trigger] moves_map(s)[s[k].0]
            == s[k].1 by {
            if k < p.len() {
                assert(p[k] == s[k]);
                assert(s[k].0 != s.last().0);
            }
        }
        assert(!moves_map(p).contains_key(s.last().0)) by {
            if moves_map(p).contains_key(s.last().0) {
                let k = choose|k: int| 0 <= k < p.len() && p[k].0 == s.last().0;
                assert(s[k].0 == s[s.len() - 1].0);
            }
        }
    }
}

/// The moves planned for players, at most one per player, in the order first planned.
#[derive(Debug)]
pub struct MoveMap {
    entries: Vec<(Entity, Move)>,
}

impl View for MoveMap {
    type V = Map<Entity, Move>;

    open spec fn view(&self) -> Map<Entity, Move> {
        moves_map(self.pairs())
    }
}

impl MoveMap {
    /// The pairs held, in order.
    pub closed spec fn pairs(&self) -> Seq<(Entity, Move)> {
        self.entries@
    }

    #[verifier::type_invariant]
    spec fn inv(&self) -> bool {
        entities_distinct(self.entries@)
    }

    pub fn new() -> (r: Self)
        ensures
            r@ == Map::<Entity, Move>::empty(),
    {
        MoveMap { entries: Vec::new() }
    }

    fn find(&self, entity: &Entity) -> (r: Option<usize>)
        ensures
            match r {
                Some(k) => k < self.pairs().len() && self.pairs()[k as int].0 == *entity,
                None => forall|k: int|
                    0 <= k < self.pairs().len() ==> self.pairs()[k].0 != *entity,
            },
    {
        let mut k: usize = 0;
        while k < self.entries.len()
            invariant
                k <= self.entries@.len(),
                forall|j: int| 0 <= j < k ==> self.entries@[j].0 != *entity,
            decreases self.entries@.len() - k,
        {
            if self.entries[k].0 == *entity {
                return Some(k);
            }
            k += 1;
        }
        None
    }

    /// The move planned for `entity`, if any.
    pub fn get(&self, entity: &Entity) -> (r: Option<Move>)
        ensures
            r == move_lookup(self@, *entity),
    {
        proof {
            use_type_invariant(self);
            lemma_moves_map(self.pairs());
        }
        match self.find(entity) {
            Some(k) => Some(self.entries[k].1),
            None => None,
        }
    }

    /// Plans `value` for `entity`, replacing any earlier move; a new entity goes after the others.
    pub fn insert(&mut self, entity: Entity, value: Move)
        ensures
            final(self)@ == old(self)@.insert(entity, value),
            old(self)@.contains_key(entity) ==> final(self).pairs().len() == old(self).pairs().len(),
            !old(self)@.contains_key(entity) ==> final(self).pairs() == old(self).pairs().push(
                (entity, value),
            ),
    {
        proof {
            use_type_invariant(&*self);
            lemma_moves_map(self.pairs());
        }
        let ghost old_pairs = self.pairs();
        match self.find(&entity) {
            Some(k) => {
                let mut v: Vec<(Entity, Move)> = Vec::new();
                std::mem::swap(&mut v, &mut self.entries);
                v.set(k, (entity, value));
                proof {
                    assert(entities_distinct(v@)) by {
                        assert forall|i: int, j: int| 0 <= i < j < v@.len() implies v@[i].0
                            != v@[j].0 by {
                            assert(v@[i].0 == old_pairs[i].0);
                            assert(v@[j].0 == old_pairs[j].0);
                        }
                    }
                }
                self.entries = v;
                proof {
                    let s = self.pairs();
                    assert(s == old_pairs.update(k as int, (entity, value)));
                    lemma_moves_map(s);
                    assert(self@ =~= old(self)@.insert(entity, value)) by {
                        assert forall|it: Entity| #[trigger]
                            self@.contains_key(it) == old(self)@.insert(
                                entity,
                                value,
                            ).contains_key(it) by {
                            if self@.contains_key(it) {
                                let j = choose|j: int| 0 <= j < s.len() && s[j].0 == it;
                                assert(old_pairs[j].0 == it);
                            }
                            if old(self)@.contains_key(it) {
                                let j = choose|j: int| 0 <= j < old_pairs.len() && old_pairs[j].0 == it;
                                assert(s[j].0 == it);
                            }
                        }
                        assert forall|it: Entity| #[trigger] self@.contains_key(it) implies self@[it]
                            == old(self)@.insert(entity, value)[it] by {
                            let j = choose|j: int| 0 <= j < s.len() && s[j].0 == it;
                            assert(self@[s[j].0] == s[j].1);
                            if j != k {
                                assert(old(self)@[old_pairs[j].0] == old_pairs[j].1);
                            }
                        }
                    }
                }
            },
            None => {
                let mut v: Vec<(Entity, Move)> = Vec::new();
                std::mem::swap(&mut v, &mut self.entries);
                v.push((entity, value));
                proof {
                    assert(entities_distinct(v@)) by {
                        assert forall|i: int, j: int| 0 <= i < j < v@.len() implies v@[i].0
                            != v@[j].0 by {
                            if j < old_pairs.len() {
                                assert(v@[i] == old_pairs[i]);
                                assert(v@[j] == old_pairs[j]);
                            } else {
                                assert(v@[i] == old_pairs[i]);
                            }
                        }
                    }
                }
                self.entries = v;
                proof {
                    let s = self.pairs();
                    assert(s.drop_last() =~= old_pairs);
                }
            },
        }
    }

    /// Removes the move planned for `entity`, giving it back.
    pub fn remove(&mut self, entity: &Entity) -> (r: Option<Move>)
        ensures
            r == move_lookup(old(self)@, *entity),
            final(self)@ == old(self)@.remove(*entity),
    {
        proof {
            use_type_invariant(&*self);
            lemma_moves_map(self.pairs());
        }
        let ghost old_pairs = self.pairs();
        match self.find(entity) {
            Some(k) => {
                proof {
                    let s = old_pairs.remove(k as int);
                    assert(entities_distinct(s)) by {
                        assert forall|i: int, j: int| 0 <= i < j < s.len() implies s[i].0
                            != s[j].0 by {
                            let oi = if i < k { i } else { i + 1 };
                            let oj = if j < k { j } else { j + 1 };
                            assert(s[i] == old_pairs[oi]);
                            assert(s[j] == old_pairs[oj]);
                        }
                    }
                }
                let mut v: Vec<(Entity, Move)> = Vec::new();
                std::mem::swap(&mut v, &mut self.entries);
                let (_, c) = v.remove(k);
                self.entries = v;
                proof {
                    let s = self.pairs();
                    assert(s == old_pairs.remove(k as int));
                    lemma_moves_map(s);
                    assert(self@ =~= old(self)@.remove(*entity)) by {
                        assert forall|it: Entity| #[trigger]
                            self@.contains_key(it) == old(self)@.remove(*entity).contains_key(it) by {
                            if self@.contains_key(it) {
                                let j = choose|j: int| 0 <= j < s.len() && s[j].0 == it;
                                let oj = if j < k { j } else { j + 1 };
                                assert(old_pairs[oj].0 == it);
                                assert(oj != k);
                            }
                            if old(self)@.remove(*entity).contains_key(it) {
                                let j = choose|j: int| 0 <= j < old_pairs.len() && old_pairs[j].0 == it;
                                assert(j != k);
                                let sj = if j < k { j } else { j - 1 };
                                assert(s[sj].0 == it);
                            }
                        }
                        assert forall|it: Entity| #[trigger] self@.contains_key(it) implies self@[it]
                            == old(self)@.remove(*entity)[it] by {
                            let j = choose|j: int| 0 <= j < s.len() && s[j].0 == it;
                            let oj = if j < k { j } else { j + 1 };
                            assert(self@[s[j].0] == s[j].1);
                            assert(old(self)@[old_pairs[oj].0] == old_pairs[oj].1);
                        }
                    }
                }
                Some(c)
            },
            None => {
                proof {
                    assert(self@ =~= old(self)@.remove(*entity));
                }
                None
            },
        }
    }

    /// The number of items held.
    pub fn len(&self) -> (r: usize)
        ensures
            r == self@.dom().len(),
    {
        proof {
            use_type_invariant(self);
            lemma_moves_map(self.pairs());
        }
        self.entries.len()
    }

    pub fn to_vec(&self) -> (r: Vec<(Entity, Move)>)
        ensures
            r@ == self.pairs(),
    {
        let mut r: Vec<(Entity, Move)> = Vec::new();
        let mut k: usize = 0;
        while k < self.entries.len()
            invariant
                k <= self.entries@.len(),
                r@ == self.entries@.take(k as int),
            decreases self.entries@.len() - k,
        {
            r.push(self.entries[k]);
            k += 1;
            assert(r@ =~= self.entries@.take(k as int));
        }
        assert(self.entries@.take(k as int) =~= self.entries@);
        r
    }

}

impl Clone for MoveMap {
    fn clone(&self) -> (r: Self)
        ensures
            r@ == self@,
    {
        proof {
            use_type_invariant(self);
        }
        MoveMap { entries: self.to_vec() }
    }
}


/// A set of tiles, each held once, in the order first added.
#[derive(Debug)]
pub struct PointSet {
    points: Vec<Point>,
}

impl View for PointSet {
    type V = Set<Point>;

    open spec fn view(&self) -> Set<Point> {
        self.elems().to_set()
    }
}

impl PointSet {
    /// The tiles held, in order.
    pub closed spec fn elems(&self) -> Seq<Point> {
        self.points@
    }

    #[verifier::type_invariant]
    spec fn inv(&self) -> bool {
        self.points@.no_duplicates()
    }

    pub fn new() -> (r: Self)
        ensures
            r@ == Set::<Point>::empty(),
    {
        let r = PointSet { points: Vec::new() };
        assert(r@ =~= Set::<Point>::empty());
        r
    }

    fn find(&self, p: &Point) -> (r: Option<usize>)
        ensures
            match r {
                Some(k) => k < self.elems().len() && self.elems()[k as int] == *p,
                None => !self@.contains(*p),
            },
    {
        let mut k: usize = 0;
        while k < self.points.len()
            invariant
                k <= self.points@.len(),
                forall|j: int| 0 <= j < k ==> self.points@[j] != *p,
            decreases self.points@.len() - k,
        {
            if self.points[k] == *p {
                return Some(k);
            }
            k += 1;
        }
        None
    }

    pub fn contains(&self, p: &Point) -> (r: bool)
        ensures
            r == self@.contains(*p),
    {
        match self.find(p) {
            Some(k) => {
                assert(self.elems().contains(*p)) by {
                    assert(self.elems()[k as int] == *p);
                }
                true
            },
            None => false,
        }
    }

    /// Adds `p`; whether it was new.
    pub fn insert(&mut self, p: Point) -> (r: bool)
        ensures
            final(self)@ == old(self)@.insert(p),
            r == !old(self)@.contains(p),
    {
        proof {
            use_type_invariant(&*self);
        }
        match self.find(&p) {
            Some(k) => {
                proof {
                    assert(self.elems()[k as int] == p);
                    assert(self@.contains(p));
                    assert(old(self)@.insert(p) =~= old(self)@);
                }
                false
            },
            None => {
                let ghost before = self.points@;
                let mut v: Vec<Point> = Vec::new();
                std::mem::swap(&mut v, &mut self.points);
                v.push(p);
                proof {
                    assert(v@ == before.push(p));
                    assert forall|i: int, j: int| 0 <= i < j < v@.len() implies v@[i] != v@[j] by {
                        if j == before.len() {
                            assert(before.contains(before[i]));
                        } else {
                            assert(v@[i] == before[i] && v@[j] == before[j]);
                        }
                    }
                    assert(v@.to_set() =~= before.to_set().insert(p)) by {
                        assert forall|q: Point| v@.to_set().contains(q) == before.to_set().insert(p).contains(q) by {
                            if v@.contains(q) && q != p {
                                let i = choose|i: int| 0 <= i < v@.len() && v@[i] == q;
                                assert(before[i] == q);
                            }
                            if before.contains(q) {
                                let i = choose|i: int| 0 <= i < before.len() && before[i] == q;
                                assert(v@[i] == q);
                            }
                            if q == p {
                                assert(v@[before.len() as int] == p);
                            }
                        }
                    }
                }
                self.points = v;
                true
            },
        }
    }

    /// Takes out `p`; whether it was there.
    pub fn remove(&mut self, p: &Point) -> (r: bool)
        ensures
            final(self)@ == old(self)@.remove(*p),
            r == old(self)@.contains(*p),
    {
        proof {
            use_type_invariant(&*self);
        }
        match self.find(p) {
            Some(k) => {
                let ghost before = self.points@;
                let mut v: Vec<Point> = Vec::new();
                std::mem::swap(&mut v, &mut self.points);
                v.remove(k);
                proof {
                    assert(v@ == before.remove(k as int));
                    assert forall|i: int, j: int| 0 <= i < j < v@.len() implies v@[i] != v@[j] by {
                        let oi = if i < k { i } else { i + 1 };
                        let oj = if j < k { j } else { j + 1 };
                        assert(v@[i] == before[oi] && v@[j] == before[oj]);
                    }
                    assert(before.contains(*p)) by {
                        assert(before[k as int] == *p);
                    }
                    assert(v@.to_set() =~= before.to_set().remove(*p)) by {
                        assert forall|q: Point| v@.to_set().contains(q) == before.to_set().remove(*p).contains(q) by {
                            if v@.contains(q) {
                                let i = choose|i: int| 0 <= i < v@.len() && v@[i] == q;
                                let oi = if i < k { i } else { i + 1 };
                                assert(before[oi] == q);
                                assert(oi != k);
                            }
                            if before.contains(q) && q != *p {
                                let i = choose|i: int| 0 <= i < before.len() && before[i] == q;
                                assert(i != k);
                                let vi = if i < k { i } else { i - 1 };
                                assert(v@[vi] == q);
                            }
                        }
                    }
                }
                self.points = v;
                true
            },
            None => {
                proof {
                    assert(old(self)@.remove(*p) =~= old(self)@);
                }
                false
            },
        }
    }

    pub fn len(&self) -> (r: usize)
        ensures
            r == self@.len(),
    {
        proof {
            use_type_invariant(self);
            self.points@.unique_seq_to_set();
        }
        self.points.len()
    }

    /// The tiles, each once, in the order first added.
    pub fn iter(&self) -> (r: &[Point])
        ensures
            r@ == self.elems(),
            r@.no_duplicates(),
    {
        proof {
            use_type_invariant(self);
        }
        self.points.as_slice()
    }
}

impl Clone for PointSet {
    fn clone(&self) -> (r: Self)
        ensures
            r@ == self@,
    {
        proof {
            use_type_invariant(self);
        }
        let mut v: Vec<Point> = Vec::new();
        let mut k: usize = 0;
        while k < self.points.len()
            invariant
                k <= self.points@.len(),
                v@ == self.points@.take(k as int),
            decreases self.points@.len() - k,
        {
            v.push(self.points[k]);
            k += 1;
            assert(v@ =~= self.points@.take(k as int));
        }
        assert(self.points@.take(k as int) =~= self.points@);
        PointSet { points: v }
    }
}

/// What the players are to do in the next step: a move for some of them, and the tiles
/// where new portals open.
#[derive(Debug)]
pub struct Plan {
    pub moves: MoveMap,
    pub portals: PointSet,
}

impl Plan {
    /// The plan in which nobody moves and no portal opens.
    pub fn new() -> (p: Self)
        ensures
            p.moves@ == Map::<Entity, Move>::empty(),
            p.portals@ == Set::<Point>::empty(),
    {
        Plan { moves: MoveMap::new(), portals: PointSet::new() }
    }

    /// The plans agree on every move and every portal.
    pub open spec fn same_as(self, other: Plan) -> bool {
        self.moves@ == other.moves@ && self.portals@ == other.portals@
    }
}

impl Clone for Plan {
    fn clone(&self) -> (r: Self)
        ensures
            r.same_as(*self),
    {
        Plan { moves: self.moves.clone(), portals: self.portals.clone() }
    }
}

impl Default for Plan {
    fn default() -> (p: Self)
        ensures
            p.moves@ == Map::<Entity, Move>::empty(),
            p.portals@ == Set::<Point>::empty(),
    {
        Plan::new()
    }
}

/// The plan being edited: a new one, or the plan of one of the futures already recorded
/// (by its index among the children of the current frame), copied only once it changes.
#[derive(Debug)]
pub enum CachablePlan {
    Novel(Plan),
    Old(usize),
}

impl Default for CachablePlan {
    fn default() -> (c: Self)
        ensures
            c matches CachablePlan::Novel(p) && p.moves@ == Map::<Entity, Move>::empty()
                && p.portals@ == Set::<Point>::empty(),
    {
        Self::new()
    }
}

impl CachablePlan {
    pub fn new() -> (c: Self)
        ensures
            c matches CachablePlan::Novel(p) && p.moves@ == Map::<Entity, Move>::empty()
                && p.portals@ == Set::<Point>::empty(),
    {
        CachablePlan::Novel(Plan::new())
    }

    /// The plan this stands for, among the recorded futures `history_children`.
    pub fn get<'a, T>(&'a self, history_children: &'a [(Plan, T)]) -> (r: &'a Plan)
        requires
            self matches CachablePlan::Old(ix) ==> ix < history_children@.len(),
        ensures
            match *self {
                CachablePlan::Novel(p) => *r == p,
                CachablePlan::Old(ix) => *r == history_children@[ix as int].0,
            },
    {
        match self {
            CachablePlan::Novel(p) => p,
            CachablePlan::Old(ix) => &history_children[*ix].0,
        }
    }

    /// The plan this stands for, to be edited: a recorded plan is copied first, and this
    /// becomes the copy.
    pub fn cow<'a, T>(&'a mut self, history_children: &'a [(Plan, T)]) -> (r: &'a mut Plan)
        requires
            *old(self) matches CachablePlan::Old(ix) ==> ix < history_children@.len(),
        ensures
            match *old(self) {
                CachablePlan::Novel(p) => *r == p,
                CachablePlan::Old(ix) => (*r).same_as(history_children@[ix as int].0),
            },
            *final(self) == CachablePlan::Novel(*final(r)),
    {
        if let CachablePlan::Old(ix) = *self {
            *self = CachablePlan::Novel(history_children[ix].0.clone());
        }
        match self {
            CachablePlan::Novel(plan) => plan,
            CachablePlan::Old(_) => vstd::pervasive::unreached(),
        }
    }
}

/// The plan after one turn of `rotate_plan` among `n` recorded futures.
pub open spec fn rotated(c: CachablePlan, n: nat) -> CachablePlan {
    CachablePlan::Old(
        match c {
            CachablePlan::Old(i) => if i >= 1 {
                (i - 1) as usize
            } else {
                (n - 1) as usize
            },
            CachablePlan::Novel(_) => (n - 1) as usize,
        },
    )
}

/// The plan after `k` turns of `rotate_plan` among `n` recorded futures.
pub open spec fn rotated_times(c: CachablePlan, n: nat, k: nat) -> CachablePlan
    decreases k,
{
    if k == 0 {
        c
    } else {
        rotated(rotated_times(c, n, (k - 1) as nat), n)
    }
}

/// Turning `a` times and then `b` times is turning `a + b` times.
proof fn lemma_rotated_times_add(c: CachablePlan, n: nat, a: nat, b: nat)
    ensures
        rotated_times(rotated_times(c, n, a), n, b) == rotated_times(c, n, a + b),
    decreases b,
{
    if b > 0 {
        lemma_rotated_times_add(c, n, a, (b - 1) as nat);
        assert((a + b - 1) as nat == a + (b - 1) as nat);
    }
}

/// From `Old(i)`, `k` turns (no more than `i`) count down to `Old(i - k)`.
proof fn lemma_rotated_down(i: nat, n: nat, k: nat)
    requires
        k <= i < n,
        n <= usize::MAX,
    ensures
        rotated_times(CachablePlan::Old(i as usize), n, k) == CachablePlan::Old((i - k) as usize),
    decreases k,
{
    if k > 0 {
        lemma_rotated_down(i, n, (k - 1) as nat);
    }
}

/// Rotating through `n` recorded futures comes back, after `n` turns, to the plan it started
/// from.
pub proof fn law_rotate_plan_cycles(i: usize, n: usize)
    requires
        i < n,
    ensures
        rotated_times(CachablePlan::Old(i), n as nat, n as nat) == CachablePlan::Old(i),
{
    let c = CachablePlan::Old(i);
    lemma_rotated_down(i as nat, n as nat, i as nat);
    assert(rotated_times(c, n as nat, (i + 1) as nat) == CachablePlan::Old((n - 1) as usize));
    let rest = (n - 1 - i) as nat;
    lemma_rotated_down((n - 1) as nat, n as nat, rest);
    lemma_rotated_times_add(c, n as nat, (i + 1) as nat, rest);
    assert((i + 1) as nat + rest == n as nat);
}

/// Cycles the plan being edited through the recorded futures, of which there are
/// `n_children`: from a recorded one to the one before it (the last after the first), and
/// from a new plan to the last one. Refused where there is no recorded future.
pub fn rotate_plan(current_plan: &mut CachablePlan, n_children: usize) -> (r: Result<(), GameError>)
    ensures
        n_children == 0 <==> r is Err,
        r is Err ==> r == Err::<(), GameError>(
            GameError::Message("No future recorded: can't cycle plans"),
        ) && *final(current_plan) == *old(current_plan),
        r is Ok ==> *final(current_plan) == rotated(*old(current_plan), n_children as nat),
{
    if n_children == 0 {
        return Err(GameError::Message("No future recorded: can't cycle plans"));
    }
    let l = n_children;
    *current_plan = match *current_plan {
        CachablePlan::Old(i) => CachablePlan::Old(
            match i.checked_sub(1) {
                Some(j) => j,
                None => l - 1,
            },
        ),
        CachablePlan::Novel(_) => CachablePlan::Old(l - 1),
    };
    Ok(())
}

} // verus!
