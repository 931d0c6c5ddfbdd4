use vstd::prelude::*;
use crate::error::GameError;
use crate::types::{Id, ItemDrop, Player, Point, Portal};

verus! {

/// Things that sit on one tile of the map and carry an id.
pub trait DoubleMappable: Sized {
    spec fn spec_position(&self) -> Point;

    spec fn spec_id(&self) -> Id;

    fn position(&self) -> (p: Point)
        ensures
            p == self.spec_position(),
    ;

    fn id(&self) -> (i: Id)
        ensures
            i == self.spec_id(),
    ;
}

impl DoubleMappable for Portal {
    open spec fn spec_position(&self) -> Point {
        self.player_position
    }

    open spec fn spec_id(&self) -> Id {
        self.id
    }

    fn position(&self) -> (p: Point) {
        self.player_position
    }

    fn id(&self) -> (i: Id) {
        self.id
    }
}

impl DoubleMappable for ItemDrop {
    open spec fn spec_position(&self) -> Point {
        self.position
    }

    open spec fn spec_id(&self) -> Id {
        self.id
    }

    fn position(&self) -> (p: Point) {
        self.position
    }

    fn id(&self) -> (i: Id) {
        self.id
    }
}

impl DoubleMappable for Player {
    open spec fn spec_position(&self) -> Point {
        self.position
    }

    open spec fn spec_id(&self) -> Id {
        self.id
    }

    fn position(&self) -> (p: Point) {
        self.position
    }

    fn id(&self) -> (i: Id) {
        self.id
    }
}

/// No two members of `s` share an id or a position.
pub open spec fn apart<T: DoubleMappable>(s: Seq<T>) -> bool {
    forall|i: int, j: int|
        #![trigger s[i], s[j]]
        0 <= i < j < s.len() ==> s[i].spec_id() != s[j].spec_id() && s[i].spec_position()
            != s[j].spec_position()
}

/// The members of `s` by id.
pub open spec fn id_map<T: DoubleMappable>(s: Seq<T>) -> Map<Id, T>
    decreases s.len(),
{
    if s.len() == 0 {
        Map::empty()
    } else {
        id_map(s.drop_last()).insert(s.last().spec_id(), s.last())
    }
}

/// The ids of the members of `s` by position.
pub open spec fn position_map<T: DoubleMappable>(s: Seq<T>) -> Map<Point, Id>
    decreases s.len(),
{
    if s.len() == 0 {
        Map::empty()
    } else {
        position_map(s.drop_last()).insert(s.last().spec_position(), s.last().spec_id())
    }
}

/// What the two maps of a sequence whose members lie apart hold.
pub proof fn lemma_maps<T: DoubleMappable>(s: Seq<T>)
    requires
        apart(s),
    ensures
        forall|id: Id|
            #[trigger] id_map(s).contains_key(id) <==> exists|k: int|
                0 <= k < s.len() && s[k].spec_id() == id,
        forall|p: Point|
            #[trigger] position_map(s).contains_key(p) <==> exists|k: int|
                0 <= k < s.len() && s[k].spec_position() == p,
        forall|k: int| 0 <= k < s.len() ==> #[trigger] id_map(s)[s[k].spec_id()] == s[k],
        forall|k: int|
            0 <= k < s.len() ==> #[trigger] position_map(s)[s[k].spec_position()]
                == s[k].spec_id(),
        id_map(s).dom().finite(),
        id_map(s).dom().len() == s.len(),
    decreases s.len(),
{
    if s.len() > 0 {
        let p = s.drop_last();
        let t = s.last();
        assert(apart(p)) by {
            assert forall|i: int, j: int| 0 <= i < j < p.len() implies p[i].spec_id()
                != p[j].spec_id() && p[i].spec_position() != p[j].spec_position() by {
                assert(p[i] == s[i] && p[j] == s[j]);
            }
        }
        lemma_maps(p);
        assert forall|id: Id| #[trigger]
            id_map(s).contains_key(id) <==> exists|k: int| 0 <= k < s.len() && s[k].spec_id() == id by {
            if id_map(s).contains_key(id) && id != t.spec_id() {
                assert(id_map(p).contains_key(id));
                let k = choose|k: int| 0 <= k < p.len() && p[k].spec_id() == id;
                assert(s[k] == p[k]);
            }
            if exists|k: int| 0 <= k < s.len() && s[k].spec_id() == id {
                let k = choose|k: int| 0 <= k < s.len() && s[k].spec_id() == id;
                if k < p.len() {
                    assert(s[k] == p[k]);
                }
            }
        }
        assert forall|q: Point| #[trigger]
            position_map(s).contains_key(q) <==> exists|k: int|
                0 <= k < s.len() && s[k].spec_position() == q by {
            if position_map(s).contains_key(q) && q != t.spec_position() {
                assert(position_map(p).contains_key(q));
                let k = choose|k: int| 0 <= k < p.len() && p[k].spec_position() == q;
                assert(s[k] == p[k]);
            }
            if exists|k: int| 0 <= k < s.len() && s[k].spec_position() == q {
                let k = choose|k: int| 0 <= k < s.len() && s[k].spec_position() == q;
                if k < p.len() {
                    assert(s[k] == p[k]);
                    assert(position_map(p).contains_key(q));
                }
            }
        }
        assert forall|k: int| 0 <= k < s.len() implies #[trigger] id_map(s)[s[k].spec_id()]
            == s[k] && position_map(s)[s[k].spec_position()] == s[k].spec_id() by {
            if k < p.len() {
                assert(p[k] == s[k]);
                assert(s[k].spec_id() != s[s.len() - 1].spec_id());
                assert(s[k].spec_position() != s[s.len() - 1].spec_position());
                assert(id_map(p)[p[k].spec_id()] == p[k]);
                assert(position_map(p)[p[k].spec_position()] == p[k].spec_id());
            }
        }
        assert forall|k: int| 0 <= k < s.len() implies #[trigger] position_map(
            s,
        )[s[k].spec_position()] == s[k].spec_id() by {
            assert(id_map(s)[s[k].spec_id()] == s[k]);
        }
        assert(!id_map(p).contains_key(t.spec_id())) by {
            if id_map(p).contains_key(t.spec_id()) {
                let k = choose|k: int| 0 <= k < p.len() && p[k].spec_id() == t.spec_id();
                assert(s[k] == p[k]);
            }
        }
    }
}

/// Taking out member `k` takes its entries out of both maps.
pub proof fn lemma_maps_remove<T: DoubleMappable>(s: Seq<T>, k: int)
    requires
        apart(s),
        0 <= k < s.len(),
    ensures
        apart(s.remove(k)),
        id_map(s.remove(k)) == id_map(s).remove(s[k].spec_id()),
        position_map(s.remove(k)) == position_map(s).remove(s[k].spec_position()),
{
    let r = s.remove(k);
    assert forall|i: int, j: int| 0 <= i < j < r.len() implies r[i].spec_id() != r[j].spec_id()
        && r[i].spec_position() != r[j].spec_position() by {
        let oi = if i < k { i } else { i + 1 };
        let oj = if j < k { j } else { j + 1 };
        assert(r[i] == s[oi] && r[j] == s[oj]);
    }
    lemma_maps(s);
    lemma_maps(r);
    assert forall|id: Id| #[trigger]
        id_map(r).contains_key(id) == id_map(s).remove(s[k].spec_id()).contains_key(id) by {
        if id_map(r).contains_key(id) {
            let j = choose|j: int| 0 <= j < r.len() && r[j].spec_id() == id;
            let oj = if j < k { j } else { j + 1 };
            assert(r[j] == s[oj]);
        }
        if id_map(s).remove(s[k].spec_id()).contains_key(id) {
            let j = choose|j: int| 0 <= j < s.len() && s[j].spec_id() == id;
            let rj = if j < k { j } else { j - 1 };
            assert(s[j] == r[rj]);
        }
    }
    assert forall|id: Id| #[trigger] id_map(r).contains_key(id) implies id_map(r)[id] == id_map(
        s,
    )[id] by {
        let j = choose|j: int| 0 <= j < r.len() && r[j].spec_id() == id;
        let oj = if j < k { j } else { j + 1 };
        assert(r[j] == s[oj]);
        assert(id_map(r)[r[j].spec_id()] == r[j]);
        assert(id_map(s)[s[oj].spec_id()] == s[oj]);
    }
    assert(id_map(r) =~= id_map(s).remove(s[k].spec_id()));
    assert forall|q: Point| #[trigger]
        position_map(r).contains_key(q) == position_map(s).remove(s[k].spec_position()).contains_key(q) by {
        if position_map(r).contains_key(q) {
            let j = choose|j: int| 0 <= j < r.len() && r[j].spec_position() == q;
            let oj = if j < k { j } else { j + 1 };
            assert(r[j] == s[oj]);
        }
        if position_map(s).remove(s[k].spec_position()).contains_key(q) {
            let j = choose|j: int| 0 <= j < s.len() && s[j].spec_position() == q;
            let rj = if j < k { j } else { j - 1 };
            assert(s[j] == r[rj]);
        }
    }
    assert forall|q: Point| #[trigger] position_map(r).contains_key(q) implies position_map(r)[q]
        == position_map(s)[q] by {
        let j = choose|j: int| 0 <= j < r.len() && r[j].spec_position() == q;
        let oj = if j < k { j } else { j + 1 };
        assert(r[j] == s[oj]);
        assert(position_map(r)[r[j].spec_position()] == r[j].spec_id());
        assert(position_map(s)[s[oj].spec_position()] == s[oj].spec_id());
    }
    assert(position_map(r) =~= position_map(s).remove(s[k].spec_position()));
}

/// Things on the map, found both by id and by position: no two share an id or a tile.
pub struct DoubleMap<T: DoubleMappable> {
    entries: Vec<T>,
}

impl<T: DoubleMappable> DoubleMap<T> {
    #[verifier::type_invariant]
    spec fn entries_apart(&self) -> bool {
        apart(self.entries@)
    }

    /// The members, by id.
    pub closed spec fn by_id(&self) -> Map<Id, T> {
        id_map(self.entries@)
    }

    /// The ids of the members, by position.
    pub closed spec fn by_position(&self) -> Map<Point, Id> {
        position_map(self.entries@)
    }

    pub fn new() -> (m: Self)
        ensures
            m.by_id() == Map::<Id, T>::empty(),
            m.by_position() == Map::<Point, Id>::empty(),
    {
        DoubleMap { entries: Vec::new() }
    }

    /// The members, each once, in no particular order.
    pub fn iter(&self) -> (r: &[T])
        ensures
            r@.len() == self.by_id().len(),
            forall|i: int| 0 <= i < r@.len() ==> #[trigger] self.by_id()[r@[i].spec_id()] == r@[i],
            forall|id: Id| #[trigger]
                self.by_id().contains_key(id) <==> exists|i: int| 0 <= i < r@.len() && r@[i].spec_id() == id,
    {
        proof {
            use_type_invariant(self);
            lemma_maps(self.entries@);
        }
        self.entries.as_slice()
    }

    /// The index of the member with id `id`, if there is one.
    fn find_id(&self, id: &Id) -> (r: Option<usize>)
        ensures
            match r {
                Some(k) => k < self.entries@.len() && self.entries@[k as int].spec_id() == *id,
                None => forall|k: int| 0 <= k < self.entries@.len() ==> self.entries@[k].spec_id() != *id,
            },
    {
        let mut k: usize = 0;
        while k < self.entries.len()
            invariant
                k <= self.entries@.len(),
                forall|j: int| 0 <= j < k ==> self.entries@[j].spec_id() != *id,
            decreases self.entries@.len() - k,
        {
            if self.entries[k].id() == *id {
                return Some(k);
            }
            k += 1;
        }
        None
    }

    /// The index of the member at `pos`, if there is one.
    fn find_position(&self, pos: &Point) -> (r: Option<usize>)
        ensures
            match r {
                Some(k) => k < self.entries@.len() && self.entries@[k as int].spec_position() == *pos,
                None => forall|k: int| 0 <= k < self.entries@.len() ==> self.entries@[k].spec_position() != *pos,
            },
    {
        let mut k: usize = 0;
        while k < self.entries.len()
            invariant
                k <= self.entries@.len(),
                forall|j: int| 0 <= j < k ==> self.entries@[j].spec_position() != *pos,
            decreases self.entries@.len() - k,
        {
            if self.entries[k].position() == *pos {
                return Some(k);
            }
            k += 1;
        }
        None
    }

    pub fn contains_id(&self, id: &Id) -> (r: bool)
        ensures
            r == self.by_id().contains_key(*id),
    {
        proof {
            use_type_invariant(self);
            lemma_maps(self.entries@);
        }
        self.find_id(id).is_some()
    }

    pub fn get_by_id(&self, id: &Id) -> (r: Option<&T>)
        ensures
            match r {
                Some(t) => self.by_id().contains_key(*id) && *t == self.by_id()[*id] && t.spec_id()
                    == *id,
                None => !self.by_id().contains_key(*id),
            },
    {
        proof {
            use_type_invariant(self);
            lemma_maps(self.entries@);
        }
        match self.find_id(id) {
            Some(k) => Some(&self.entries[k]),
            None => None,
        }
    }

    /// The member at `pos`, if there is one.
    pub fn get_by_position(&self, pos: &Point) -> (r: Option<&T>)
        ensures
            match r {
                Some(t) => {
                    &&& self.by_position().contains_key(*pos)
                    &&& *t == self.by_id()[self.by_position()[*pos]]
                    &&& t.spec_position() == *pos
                    &&& t.spec_id() == self.by_position()[*pos]
                },
                None => !self.by_position().contains_key(*pos),
            },
    {
        proof {
            use_type_invariant(self);
            lemma_maps(self.entries@);
        }
        match self.find_position(pos) {
            Some(k) => Some(&self.entries[k]),
            None => None,
        }
    }

    /// The id of the member at `pos`, if there is one.
    pub fn id_by_position(&self, pos: &Point) -> (r: Option<Id>)
        ensures
            match r {
                Some(id) => self.by_position().contains_key(*pos) && id == self.by_position()[*pos],
                None => !self.by_position().contains_key(*pos),
            },
    {
        proof {
            use_type_invariant(self);
            lemma_maps(self.entries@);
        }
        match self.find_position(pos) {
            Some(k) => Some(self.entries[k].id()),
            None => None,
        }
    }

    pub fn len(&self) -> (r: usize)
        ensures
            r == self.by_id().len(),
            self.by_id().dom().finite(),
    {
        proof {
            use_type_invariant(self);
            lemma_maps(self.entries@);
        }
        self.entries.len()
    }

    pub fn is_empty(&self) -> (r: bool)
        ensures
            r == (self.by_id().len() == 0),
    {
        proof {
            use_type_invariant(self);
            lemma_maps(self.entries@);
        }
        self.entries.len() == 0
    }

    /// Takes out member number `k`.
    fn take(&mut self, k: usize) -> (t: T)
        requires
            k < old(self).entries@.len(),
        ensures
            t == old(self).entries@[k as int],
            final(self).by_id() == old(self).by_id().remove(t.spec_id()),
            final(self).by_position() == old(self).by_position().remove(t.spec_position()),
    {
        proof {
            use_type_invariant(&*self);
            lemma_maps_remove(self.entries@, k as int);
        }
        let mut v: Vec<T> = Vec::new();
        std::mem::swap(&mut v, &mut self.entries);
        let t = v.remove(k);
        self.entries = v;
        t
    }

    /// Takes out the member at `pos`, if there is one.
    pub fn remove_by_position(&mut self, pos: &Point) -> (r: Option<T>)
        ensures
            match r {
                Some(t) => {
                    &&& old(self).by_position().contains_key(*pos)
                    &&& t == old(self).by_id()[old(self).by_position()[*pos]]
                    &&& t.spec_position() == *pos
                    &&& t.spec_id() == old(self).by_position()[*pos]
                    &&& final(self).by_id() == old(self).by_id().remove(old(self).by_position()[*pos])
                    &&& final(self).by_position() == old(self).by_position().remove(*pos)
                },
                None => {
                    &&& !old(self).by_position().contains_key(*pos)
                    &&& final(self).by_id() == old(self).by_id()
                    &&& final(self).by_position() == old(self).by_position()
                },
            },
    {
        proof {
            use_type_invariant(&*self);
            lemma_maps(self.entries@);
        }
        match self.find_position(pos) {
            Some(k) => {
                let t = self.take(k);
                Some(t)
            },
            None => None,
        }
    }

    /// Takes out the member with id `id`, if there is one.
    pub fn remove_by_id(&mut self, id: &Id) -> (r: Option<T>)
        ensures
            match r {
                Some(t) => {
                    &&& old(self).by_id().contains_key(*id)
                    &&& t == old(self).by_id()[*id]
                    &&& t.spec_id() == *id
                    &&& old(self).by_position().contains_key(t.spec_position())
                    &&& old(self).by_position()[t.spec_position()] == *id
                    &&& final(self).by_id() == old(self).by_id().remove(*id)
                    &&& final(self).by_position() == old(self).by_position().remove(t.spec_position())
                },
                None => {
                    &&& !old(self).by_id().contains_key(*id)
                    &&& final(self).by_id() == old(self).by_id()
                    &&& final(self).by_position() == old(self).by_position()
                },
            },
    {
        proof {
            use_type_invariant(&*self);
            lemma_maps(self.entries@);
        }
        match self.find_id(id) {
            Some(k) => {
                proof {
                    assert(self.by_position()[self.entries@[k as int].spec_position()]
                        == self.entries@[k as int].spec_id());
                }
                let t = self.take(k);
                Some(t)
            },
            None => None,
        }
    }

    /// Adds `t`, unless its position or its id is taken already.
    pub fn insert(&mut self, t: T) -> (r: Result<(), GameError>)
        ensures
            old(self).by_position().contains_key(t.spec_position()) ==> r == Err::<(), GameError>(
                GameError::Message("Position occupied"),
            ),
            !old(self).by_position().contains_key(t.spec_position()) && old(self).by_id().contains_key(
                t.spec_id(),
            ) ==> r == Err::<(), GameError>(GameError::Message("Id already exists")),
            r is Err ==> final(self).by_id() == old(self).by_id() && final(self).by_position()
                == old(self).by_position(),
            r is Ok ==> {
                &&& final(self).by_id() == old(self).by_id().insert(t.spec_id(), t)
                &&& final(self).by_position() == old(self).by_position().insert(
                    t.spec_position(),
                    t.spec_id(),
                )
            },
            r is Ok <==> !old(self).by_position().contains_key(t.spec_position())
                && !old(self).by_id().contains_key(t.spec_id()),
            r is Ok ==> final(self).by_id().len() == old(self).by_id().len() + 1,
            final(self).by_id().dom().finite(),
    {
        proof {
            use_type_invariant(&*self);
            lemma_maps(self.entries@);
        }
        let pos = t.position();
        if self.find_position(&pos).is_some() {
            return Err(GameError::Message("Position occupied"));
        }
        let id = t.id();
        if self.find_id(&id).is_some() {
            return Err(GameError::Message("Id already exists"));
        }
        let ghost s0 = self.entries@;
        let mut v: Vec<T> = Vec::new();
        std::mem::swap(&mut v, &mut self.entries);
        v.push(t);
        proof {
            let s = v@;
            assert(s.drop_last() =~= s0);
            assert forall|i: int, j: int| 0 <= i < j < s.len() implies s[i].spec_id()
                != s[j].spec_id() && s[i].spec_position() != s[j].spec_position() by {
                if j < s0.len() {
                    assert(s[i] == s0[i] && s[j] == s0[j]);
                } else {
                    assert(s[i] == s0[i]);
                }
            }
        }
        self.entries = v;
        proof {
            use_type_invariant(&*self);
            lemma_maps(self.entries@);
        }
        Ok(())
    }
}

/// Taking a member out by its id and putting it back unchanged leaves both maps as they were
/// (this is how a member is changed in place: taken out, changed, and put back).
pub proof fn law_insert_undoes_remove<T: DoubleMappable>(
    by_id0: Map<Id, T>,
    by_position0: Map<Point, Id>,
    id: Id,
    t: T,
    by_id1: Map<Id, T>,
    by_position1: Map<Point, Id>,
)
    requires
        by_id0.contains_key(id),
        t == by_id0[id],
        t.spec_id() == id,
        by_position0.contains_key(t.spec_position()),
        by_position0[t.spec_position()] == id,
        by_id1 == by_id0.remove(id),
        by_position1 == by_position0.remove(t.spec_position()),
    ensures
        !by_position1.contains_key(t.spec_position()),
        !by_id1.contains_key(t.spec_id()),
        by_id1.insert(t.spec_id(), t) == by_id0,
        by_position1.insert(t.spec_position(), t.spec_id()) == by_position0,
{
    assert(by_id1.insert(t.spec_id(), t) =~= by_id0);
    assert(by_position1.insert(t.spec_position(), t.spec_id()) =~= by_position0);
}

/// What `insert` adds, the lookups find: the member by its id, and its id by its position;
/// and taking it out again by id restores both maps.
pub proof fn law_lookup_after_insert<T: DoubleMappable>(
    by_id0: Map<Id, T>,
    by_position0: Map<Point, Id>,
    t: T,
)
    requires
        !by_id0.contains_key(t.spec_id()),
        !by_position0.contains_key(t.spec_position()),
    ensures
        by_id0.insert(t.spec_id(), t)[t.spec_id()] == t,
        by_position0.insert(t.spec_position(), t.spec_id())[t.spec_position()] == t.spec_id(),
        by_id0.insert(t.spec_id(), t).remove(t.spec_id()) == by_id0,
        by_position0.insert(t.spec_position(), t.spec_id()).remove(t.spec_position())
            == by_position0,
{
    assert(by_id0.insert(t.spec_id(), t).remove(t.spec_id()) =~= by_id0);
    assert(by_position0.insert(t.spec_position(), t.spec_id()).remove(t.spec_position())
        =~= by_position0);
}

} // verus!
