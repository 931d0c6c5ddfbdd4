use vstd::prelude::*;
use crate::cells::InventoryCell;
use crate::inventory::Inventory;
use crate::listeners::{Action, EventListener, EventTrigger, ImageId};
use crate::types::{Entity, EventTriggerModifier, Group, Movement, MovementType, Point, Priority};

verus! {

/// No entity occurs twice among the keys of `s`.
pub open spec fn keys_distinct<T>(s: Seq<(Entity, T)>) -> bool {
    forall|i: int, j: int| 0 <= i < j < s.len() ==> s[i].0 != s[j].0
}

/// The map from entities to components that a sequence of pairs denotes.
pub open spec fn pairs_map<T>(s: Seq<(Entity, T)>) -> Map<Entity, T>
    decreases s.len(),
{
    if s.len() == 0 {
        Map::empty()
    } else {
        pairs_map(s.drop_last()).insert(s.last().0, s.last().1)
    }
}

/// What the map of a sequence of pairs with distinct keys holds.
pub proof fn lemma_pairs_map<T>(s: Seq<(Entity, T)>)
    requires
        keys_distinct(s),
    ensures
        forall|e: Entity|
            #[trigger] pairs_map(s).contains_key(e) <==> exists|k: int| 0 <= k < s.len() && s[k].0 == e,
        forall|k: int| 0 <= k < s.len() ==> #[trigger] pairs_map(s)[s[k].0] == s[k].1,
    decreases s.len(),
{
    if s.len() > 0 {
        let p = s.drop_last();
        lemma_pairs_map(p);
        assert(pairs_map(s) == pairs_map(p).insert(s.last().0, s.last().1));
        assert forall|e: Entity| #[trigger]
            pairs_map(s).contains_key(e) <==> exists|k: int| 0 <= k < s.len() && s[k].0 == e by {
            if pairs_map(s).contains_key(e) && e != s.last().0 {
                assert(pairs_map(p).contains_key(e));
                let k = choose|k: int| 0 <= k < p.len() && p[k].0 == e;
                assert(p[k] == s[k]);
                assert(s[k].0 == e);
            }
            if exists|k: int| 0 <= k < s.len() && s[k].0 == e {
                let k = choose|k: int| 0 <= k < s.len() && s[k].0 == e;
                if k < p.len() {
                    assert(p[k].0 == e);
                }
            }
        }
        assert forall|k: int| 0 <= k < s.len() implies #[trigger] pairs_map(s)[s[k].0] == s[k].1 by {
            if k < p.len() {
                assert(p[k] == s[k]);
                assert(s[k].0 != s.last().0);
            }
        }
    }
}

/// Every key of `s` has a number below `next`.
pub open spec fn keys_below<T>(s: Seq<(Entity, T)>, next: u32) -> bool {
    forall|i: int| 0 <= i < s.len() ==> (#[trigger] s[i]).0.idx < next
}

/// Adds the component `x` of `e`, which has none yet.
fn push_fresh<T>(v: &mut Vec<(Entity, T)>, e: Entity, x: T, Ghost(next): Ghost<u32>)
    requires
        keys_distinct(old(v)@),
        keys_below(old(v)@, next),
        !pairs_map(old(v)@).contains_key(e),
        e.idx < next,
    ensures
        keys_distinct(final(v)@),
        keys_below(final(v)@, next),
        pairs_map(final(v)@) == pairs_map(old(v)@).insert(e, x),
{
    proof {
        lemma_pairs_map(old(v)@);
    }
    let ghost s0 = v@;
    v.push((e, x));
    proof {
        let s = v@;
        assert(s.drop_last() =~= s0);
        assert(keys_distinct(s)) by {
            assert forall|i: int, j: int| 0 <= i < j < s.len() implies s[i].0 != s[j].0 by {
                assert(s[i] == s0[i]);
                if j < s0.len() {
                    assert(s[j] == s0[j]);
                } else {
                    assert(s0[i].0 != e) by {
                        if s0[i].0 == e {
                            assert(pairs_map(s0).contains_key(s0[i].0));
                        }
                    }
                }
            }
        }
        assert forall|i: int| 0 <= i < s.len() implies (#[trigger] s[i]).0.idx < next by {
            if i < s0.len() {
                assert(s[i] == s0[i]);
            }
        }
    }
}

/// The entities of a game frame and their components: where each one stands, the inventory
/// of each player, how each one moves, the image it is drawn with, and what it reacts to. Entities are numbered in the order they are made,
/// and a number is never given twice.
pub struct Ecs {
    next_idx: u32,
    entities: Vec<Entity>,
    positions: Vec<(Entity, Point)>,
    players: Vec<(Entity, Inventory)>,
    movement: Vec<(Entity, Movement)>,
    images: Vec<(Entity, ImageId)>,
    listeners: Vec<(Entity, Vec<EventListener>)>,
}

impl Ecs {
    #[verifier::type_invariant]
    spec fn well_kept(&self) -> bool {
        &&& self.entities@.no_duplicates()
        &&& keys_distinct(self.positions@)
        &&& keys_distinct(self.players@)
        &&& keys_distinct(self.movement@)
        &&& keys_distinct(self.images@)
        &&& keys_distinct(self.listeners@)
        &&& forall|i: int| 0 <= i < self.entities@.len() ==> (#[trigger] self.entities@[i]).idx < self.next_idx
        &&& keys_below(self.positions@, self.next_idx)
        &&& keys_below(self.players@, self.next_idx)
        &&& keys_below(self.movement@, self.next_idx)
        &&& keys_below(self.images@, self.next_idx)
        &&& keys_below(self.listeners@, self.next_idx)
    }

    /// The entities that exist.
    pub closed spec fn live(&self) -> Set<Entity> {
        self.entities@.to_set()
    }

    /// Where each entity that has a position stands.
    pub closed spec fn positions(&self) -> Map<Entity, Point> {
        pairs_map(self.positions@)
    }

    /// The inventory of each player.
    pub closed spec fn players(&self) -> Map<Entity, Inventory> {
        pairs_map(self.players@)
    }

    /// How each entity that moves moves.
    pub closed spec fn movement(&self) -> Map<Entity, Movement> {
        pairs_map(self.movement@)
    }

    /// The image each entity that is drawn is drawn with.
    pub closed spec fn images(&self) -> Map<Entity, ImageId> {
        pairs_map(self.images@)
    }

    /// What each entity that reacts to events reacts to.
    pub closed spec fn listeners(&self) -> Map<Entity, Vec<EventListener>> {
        pairs_map(self.listeners@)
    }

    /// Whether another entity can be made: the numbers of entities are not used up.
    pub closed spec fn has_room(&self) -> bool {
        self.next_idx < u32::MAX
    }

    pub fn new() -> (r: Self)
        ensures
            r.live() == Set::<Entity>::empty(),
            r.positions() == Map::<Entity, Point>::empty(),
            r.players() == Map::<Entity, Inventory>::empty(),
            r.movement() == Map::<Entity, Movement>::empty(),
            r.images() == Map::<Entity, ImageId>::empty(),
            r.listeners() == Map::<Entity, Vec<EventListener>>::empty(),
            r.has_room(),
    {
        let r = Ecs {
            next_idx: 0,
            entities: Vec::new(),
            positions: Vec::new(),
            players: Vec::new(),
            movement: Vec::new(),
            images: Vec::new(),
            listeners: Vec::new(),
        };
        proof {
            assert(r.live() =~= Set::<Entity>::empty());
        }
        r
    }

    /// Makes a new entity, which no component holds yet.
    pub fn spawn(&mut self) -> (e: Entity)
        requires
            old(self).has_room(),
        ensures
            !old(self).live().contains(e),
            final(self).live() == old(self).live().insert(e),
            !old(self).positions().contains_key(e),
            !old(self).players().contains_key(e),
            !old(self).movement().contains_key(e),
            !old(self).images().contains_key(e),
            !old(self).listeners().contains_key(e),
            final(self).positions() == old(self).positions(),
            final(self).players() == old(self).players(),
            final(self).movement() == old(self).movement(),
            final(self).images() == old(self).images(),
            final(self).listeners() == old(self).listeners(),
    {
        proof {
            use_type_invariant(&*self);
            lemma_pairs_map(self.positions@);
            lemma_pairs_map(self.players@);
            lemma_pairs_map(self.movement@);
            lemma_pairs_map(self.images@);
            lemma_pairs_map(self.listeners@);
        }
        let e = Entity { idx: self.next_idx, version: 0 };
        let ghost old_entities = self.entities@;
        proof {
            assert(!old_entities.contains(e)) by {
                if old_entities.contains(e) {
                    let i = choose|i: int| 0 <= i < old_entities.len() && old_entities[i] == e;
                    assert(old_entities[i].idx < self.next_idx);
                }
            }
            assert(!self.positions().contains_key(e)) by {
                if self.positions().contains_key(e) {
                    let k = choose|k: int| 0 <= k < self.positions@.len() && self.positions@[k].0 == e;
                    assert(self.positions@[k].0.idx < self.next_idx);
                }
            }
            assert(!self.players().contains_key(e)) by {
                if self.players().contains_key(e) {
                    let k = choose|k: int| 0 <= k < self.players@.len() && self.players@[k].0 == e;
                    assert(self.players@[k].0.idx < self.next_idx);
                }
            }
            assert(!self.movement().contains_key(e)) by {
                if self.movement().contains_key(e) {
                    let k = choose|k: int| 0 <= k < self.movement@.len() && self.movement@[k].0 == e;
                    assert(self.movement@[k].0.idx < self.next_idx);
                }
            }
            assert(!self.images().contains_key(e)) by {
                if self.images().contains_key(e) {
                    let k = choose|k: int| 0 <= k < self.images@.len() && self.images@[k].0 == e;
                    assert(self.images@[k].0.idx < self.next_idx);
                }
            }
            assert(!self.listeners().contains_key(e)) by {
                if self.listeners().contains_key(e) {
                    let k = choose|k: int| 0 <= k < self.listeners@.len() && self.listeners@[k].0 == e;
                    assert(self.listeners@[k].0.idx < self.next_idx);
                }
            }
        }
        let mut entities: Vec<Entity> = Vec::new();
        std::mem::swap(&mut entities, &mut self.entities);
        entities.push(e);
        let next = self.next_idx + 1;
        proof {
            assert(entities@.no_duplicates()) by {
                assert forall|i: int, j: int| 0 <= i < entities@.len() && 0 <= j < entities@.len()
                    && i != j implies entities@[i] != entities@[j] by {
                    if i < old_entities.len() && j < old_entities.len() {
                        assert(entities@[i] == old_entities[i] && entities@[j] == old_entities[j]);
                    } else if i < old_entities.len() {
                        assert(old_entities.contains(entities@[i]));
                    } else {
                        assert(old_entities.contains(entities@[j]));
                    }
                }
            }
            assert forall|i: int| 0 <= i < entities@.len() implies (#[trigger] entities@[i]).idx < next by {
                if i < old_entities.len() {
                    assert(entities@[i] == old_entities[i]);
                }
            }
            assert forall|i: int| 0 <= i < self.positions@.len() implies (#[trigger] self.positions@[i]).0.idx < next by {}
            assert forall|i: int| 0 <= i < self.players@.len() implies (#[trigger] self.players@[i]).0.idx < next by {}
            assert forall|i: int| 0 <= i < self.movement@.len() implies (#[trigger] self.movement@[i]).0.idx < next by {}
            assert forall|i: int| 0 <= i < self.images@.len() implies (#[trigger] self.images@[i]).0.idx < next by {}
            assert forall|i: int| 0 <= i < self.listeners@.len() implies (#[trigger] self.listeners@[i]).0.idx < next by {}
        }
        self.next_idx = next;
        self.entities = entities;
        proof {
            assert(self.entities@ =~= old_entities.push(e));
            assert forall|x: Entity| self.live().contains(x) == old(self).live().insert(e).contains(x) by {
                if old_entities.contains(x) {
                    let i = choose|i: int| 0 <= i < old_entities.len() && old_entities[i] == x;
                    assert(self.entities@[i] == x);
                }
                if self.entities@.contains(x) && x != e {
                    let i = choose|i: int| 0 <= i < self.entities@.len() && self.entities@[i] == x;
                    assert(i < old_entities.len());
                    assert(old_entities[i] == x);
                }
                assert(self.entities@[old_entities.len() as int] == e);
            }
            assert(self.live() =~= old(self).live().insert(e));
        }
        e
    }

    fn lemma_live_below(&self, e: Entity)
        requires
            self.live().contains(e),
        ensures
            e.idx < self.next_idx,
    {
        proof {
            use_type_invariant(self);
            let i = choose|i: int| 0 <= i < self.entities@.len() && self.entities@[i] == e;
            assert(self.entities@[i].idx < self.next_idx);
        }
    }

    /// Puts the entity `e`, which has no position yet, at `pos`.
    pub fn set_position(&mut self, e: Entity, pos: Point)
        requires
            old(self).live().contains(e),
            !old(self).positions().contains_key(e),
        ensures
            final(self).positions() == old(self).positions().insert(e, pos),
            final(self).live() == old(self).live(),
            final(self).players() == old(self).players(),
            final(self).movement() == old(self).movement(),
            final(self).images() == old(self).images(),
            final(self).listeners() == old(self).listeners(),
            final(self).has_room() == old(self).has_room(),
    {
        proof {
            use_type_invariant(&*self);
        }
        self.lemma_live_below(e);
        let mut v: Vec<(Entity, Point)> = Vec::new();
        std::mem::swap(&mut v, &mut self.positions);
        push_fresh(&mut v, e, pos, Ghost(self.next_idx));
        self.positions = v;
    }

    /// Gives the entity `e`, which is no player yet, the inventory `inventory`.
    pub fn set_inventory(&mut self, e: Entity, inventory: Inventory)
        requires
            old(self).live().contains(e),
            !old(self).players().contains_key(e),
        ensures
            final(self).players() == old(self).players().insert(e, inventory),
            final(self).live() == old(self).live(),
            final(self).positions() == old(self).positions(),
            final(self).movement() == old(self).movement(),
            final(self).images() == old(self).images(),
            final(self).listeners() == old(self).listeners(),
            final(self).has_room() == old(self).has_room(),
    {
        proof {
            use_type_invariant(&*self);
        }
        self.lemma_live_below(e);
        let mut v: Vec<(Entity, Inventory)> = Vec::new();
        std::mem::swap(&mut v, &mut self.players);
        push_fresh(&mut v, e, inventory, Ghost(self.next_idx));
        self.players = v;
    }

    /// Makes the entity `e`, which does not move yet, move as `movement` says.
    pub fn set_movement(&mut self, e: Entity, movement: Movement)
        requires
            old(self).live().contains(e),
            !old(self).movement().contains_key(e),
        ensures
            final(self).movement() == old(self).movement().insert(e, movement),
            final(self).live() == old(self).live(),
            final(self).positions() == old(self).positions(),
            final(self).players() == old(self).players(),
            final(self).images() == old(self).images(),
            final(self).listeners() == old(self).listeners(),
            final(self).has_room() == old(self).has_room(),
    {
        proof {
            use_type_invariant(&*self);
        }
        self.lemma_live_below(e);
        let mut v: Vec<(Entity, Movement)> = Vec::new();
        std::mem::swap(&mut v, &mut self.movement);
        push_fresh(&mut v, e, movement, Ghost(self.next_idx));
        self.movement = v;
    }

    /// Draws the entity `e`, which is not drawn yet, with `image`.
    pub fn set_image(&mut self, e: Entity, image: ImageId)
        requires
            old(self).live().contains(e),
            !old(self).images().contains_key(e),
        ensures
            final(self).images() == old(self).images().insert(e, image),
            final(self).live() == old(self).live(),
            final(self).positions() == old(self).positions(),
            final(self).players() == old(self).players(),
            final(self).movement() == old(self).movement(),
            final(self).listeners() == old(self).listeners(),
            final(self).has_room() == old(self).has_room(),
    {
        proof {
            use_type_invariant(&*self);
        }
        self.lemma_live_below(e);
        let mut v: Vec<(Entity, ImageId)> = Vec::new();
        std::mem::swap(&mut v, &mut self.images);
        push_fresh(&mut v, e, image, Ghost(self.next_idx));
        self.images = v;
    }

    /// Makes the entity `e`, which reacts to nothing yet, react as `listeners` say.
    pub fn set_listeners(&mut self, e: Entity, listeners: Vec<EventListener>)
        requires
            old(self).live().contains(e),
            !old(self).listeners().contains_key(e),
        ensures
            final(self).listeners() == old(self).listeners().insert(e, listeners),
            final(self).live() == old(self).live(),
            final(self).positions() == old(self).positions(),
            final(self).players() == old(self).players(),
            final(self).movement() == old(self).movement(),
            final(self).images() == old(self).images(),
            final(self).has_room() == old(self).has_room(),
    {
        proof {
            use_type_invariant(&*self);
        }
        self.lemma_live_below(e);
        let mut v: Vec<(Entity, Vec<EventListener>)> = Vec::new();
        std::mem::swap(&mut v, &mut self.listeners);
        push_fresh(&mut v, e, listeners, Ghost(self.next_idx));
        self.listeners = v;
    }

    /// Makes a player standing at `pos` with `inventory`, controlled by the user, drawn as a
    /// player, and refusing to let another player onto its tile: a new entity, which no
    /// component held before.
    pub fn insert_player(&mut self, pos: Point, inventory: Inventory) -> (e: Entity)
        requires
            old(self).has_room(),
        ensures
            !old(self).live().contains(e),
            !old(self).positions().contains_key(e),
            !old(self).players().contains_key(e),
            !old(self).movement().contains_key(e),
            !old(self).images().contains_key(e),
            !old(self).listeners().contains_key(e),
            final(self).live() == old(self).live().insert(e),
            final(self).positions() == old(self).positions().insert(e, pos),
            final(self).players() == old(self).players().insert(e, inventory),
            final(self).movement() == old(self).movement().insert(
                e,
                Movement { direction: None, movement_type: MovementType::PlayerControlled },
            ),
            final(self).images() == old(self).images().insert(e, ImageId::Player),
            final(self).listeners().dom() == old(self).listeners().dom().insert(e),
            forall|x: Entity| #[trigger] old(self).listeners().contains_key(x)
                ==> final(self).listeners()[x] == old(self).listeners()[x],
            final(self).listeners()[e]@ == seq![
                EventListener {
                    trigger: EventTrigger::PlayerIntersect,
                    modifier: EventTriggerModifier::Unmodified,
                    action: Action::Reject("impassible"),
                    group: Group::Default,
                    priority: Priority::Main,
                },
            ],
    {
        let e = self.spawn();
        self.set_inventory(e, inventory);
        self.set_position(e, pos);
        self.set_image(e, ImageId::Player);
        self.set_movement(
            e,
            Movement { direction: None, movement_type: MovementType::PlayerControlled },
        );
        let mut listeners: Vec<EventListener> = Vec::new();
        listeners.push(EventListener::new(EventTrigger::PlayerIntersect, Action::Reject("impassible")));
        proof {
            assert(listeners@ =~= seq![
                EventListener {
                    trigger: EventTrigger::PlayerIntersect,
                    modifier: EventTriggerModifier::Unmodified,
                    action: Action::Reject("impassible"),
                    group: Group::Default,
                    priority: Priority::Main,
                },
            ]);
        }
        self.set_listeners(e, listeners);
        e
    }

    /// The entities that exist and stand at `pt`, each once.
    pub fn entities_at(&self, pt: Point) -> (r: Vec<Entity>)
        ensures
            r@.no_duplicates(),
            forall|e: Entity| #[trigger] r@.contains(e) == (self.live().contains(e)
                && self.positions().contains_key(e) && self.positions()[e] == pt),
    {
        proof {
            use_type_invariant(self);
            lemma_pairs_map(self.positions@);
        }
        let mut r: Vec<Entity> = Vec::new();
        let mut k: usize = 0;
        while k < self.positions.len()
            invariant
                k <= self.positions@.len(),
                keys_distinct(self.positions@),
                r@.no_duplicates(),
                forall|e: Entity| #[trigger] r@.contains(e) == (exists|j: int|
                    0 <= j < k && self.positions@[j].0 == e && self.entities@.contains(e)
                        && self.positions@[j].1 == pt),
            decreases self.positions@.len() - k,
        {
            let (e, p) = self.positions[k];
            if self.is_live(&e) && p == pt {
                let ghost before = r@;
                proof {
                    assert(!before.contains(e)) by {
                        if before.contains(e) {
                            let j = choose|j: int| 0 <= j < k && self.positions@[j].0 == e
                                && self.entities@.contains(e) && self.positions@[j].1 == pt;
                            assert(self.positions@[j].0 != self.positions@[k as int].0);
                        }
                    }
                }
                r.push(e);
                proof {
                    assert forall|x: Entity| #[trigger] r@.contains(x) == (exists|j: int|
                        0 <= j < k + 1 && self.positions@[j].0 == x && self.entities@.contains(x)
                            && self.positions@[j].1 == pt) by {
                        if r@.contains(x) && x != e {
                            let i = choose|i: int| 0 <= i < r@.len() && r@[i] == x;
                            assert(before[i] == x);
                            assert(before.contains(x));
                        }
                        if exists|j: int| 0 <= j < k + 1 && self.positions@[j].0 == x
                            && self.entities@.contains(x) && self.positions@[j].1 == pt {
                            let j = choose|j: int| 0 <= j < k + 1 && self.positions@[j].0 == x
                                && self.entities@.contains(x) && self.positions@[j].1 == pt;
                            if j < k {
                                assert(before.contains(x));
                                let i = choose|i: int| 0 <= i < before.len() && before[i] == x;
                                assert(r@[i] == x);
                            } else {
                                assert(r@[before.len() as int] == x);
                            }
                        }
                    }
                }
            } else {
                proof {
                    assert forall|x: Entity| #[trigger] r@.contains(x) == (exists|j: int|
                        0 <= j < k + 1 && self.positions@[j].0 == x && self.entities@.contains(x)
                            && self.positions@[j].1 == pt) by {
                        if exists|j: int| 0 <= j < k + 1 && self.positions@[j].0 == x
                            && self.entities@.contains(x) && self.positions@[j].1 == pt {
                            let j = choose|j: int| 0 <= j < k + 1 && self.positions@[j].0 == x
                                && self.entities@.contains(x) && self.positions@[j].1 == pt;
                            assert(j < k);
                        }
                    }
                }
            }
            k += 1;
        }
        proof {
            assert forall|e: Entity| #[trigger] r@.contains(e) == (self.live().contains(e)
                && self.positions().contains_key(e) && self.positions()[e] == pt) by {
                if self.live().contains(e) && self.positions().contains_key(e) && self.positions()[e] == pt {
                    let j = choose|j: int| 0 <= j < self.positions@.len() && self.positions@[j].0 == e;
                    assert(self.positions()[self.positions@[j].0] == self.positions@[j].1);
                }
                if r@.contains(e) {
                    let j = choose|j: int| 0 <= j < k && self.positions@[j].0 == e
                        && self.entities@.contains(e) && self.positions@[j].1 == pt;
                    assert(self.positions()[self.positions@[j].0] == self.positions@[j].1);
                }
            }
        }
        r
    }

    fn is_live(&self, e: &Entity) -> (r: bool)
        ensures
            r == self.entities@.contains(*e),
    {
        let mut k: usize = 0;
        while k < self.entities.len()
            invariant
                k <= self.entities@.len(),
                forall|j: int| 0 <= j < k ==> self.entities@[j] != *e,
            decreases self.entities@.len() - k,
        {
            if self.entities[k] == *e {
                return true;
            }
            k += 1;
        }
        false
    }

    fn is_player(&self, e: &Entity) -> (r: bool)
        ensures
            r == self.players().contains_key(*e),
    {
        proof {
            use_type_invariant(self);
            lemma_pairs_map(self.players@);
        }
        let mut k: usize = 0;
        while k < self.players.len()
            invariant
                k <= self.players@.len(),
                forall|j: int| 0 <= j < k ==> self.players@[j].0 != *e,
            decreases self.players@.len() - k,
        {
            if self.players[k].0 == *e {
                proof {
                    use_type_invariant(self);
                    lemma_pairs_map(self.players@);
                    assert(self.players@[k as int].0 == *e);
                }
                return true;
            }
            k += 1;
        }
        proof {
            if self.players().contains_key(*e) {
                let j = choose|j: int| 0 <= j < self.players@.len() && self.players@[j].0 == *e;
                assert(self.players@[j].0 != *e);
            }
        }
        false
    }

    /// Gives the player `e` the inventory `inventory`, handing back the one it had.
    pub fn replace_inventory(&mut self, e: Entity, inventory: Inventory) -> (prior: Inventory)
        requires
            old(self).players().contains_key(e),
        ensures
            prior == old(self).players()[e],
            final(self).players() == old(self).players().insert(e, inventory),
            final(self).live() == old(self).live(),
            final(self).positions() == old(self).positions(),
            final(self).movement() == old(self).movement(),
            final(self).has_room() == old(self).has_room(),
    {
        proof {
            use_type_invariant(&*self);
            lemma_pairs_map(self.players@);
        }
        let ghost q0 = self.players@;
        let mut k: usize = 0;
        while k < self.players.len()
            invariant
                k <= self.players@.len(),
                q0 == self.players@,
                pairs_map(q0).contains_key(e),
                forall|x: Entity|
                    #[trigger] pairs_map(q0).contains_key(x) <==> exists|j: int|
                        0 <= j < q0.len() && q0[j].0 == x,
                forall|j: int| 0 <= j < k ==> q0[j].0 != e,
            ensures
                k <= q0.len(),
                forall|j: int| 0 <= j < k ==> q0[j].0 != e,
                k == q0.len() || q0[k as int].0 == e,
            decreases self.players@.len() - k,
        {
            if self.players[k].0 == e {
                break;
            }
            k += 1;
        }
        proof {
            if k == q0.len() {
                let j = choose|j: int| 0 <= j < q0.len() && q0[j].0 == e;
                assert(q0[j].0 != e);
            }
        }
        let mut players: Vec<(Entity, Inventory)> = Vec::new();
        std::mem::swap(&mut players, &mut self.players);
        let (_, prior) = players.remove(k);
        players.insert(k, (e, inventory));
        proof {
            let s = players@;
            assert(s =~= q0.update(k as int, (e, inventory)));
            assert(keys_distinct(s)) by {
                assert forall|i: int, j: int| 0 <= i < j < s.len() implies s[i].0 != s[j].0 by {
                    assert(s[i].0 == q0[i].0 && s[j].0 == q0[j].0);
                }
            }
            assert forall|i: int| 0 <= i < s.len() implies (#[trigger] s[i]).0.idx < self.next_idx by {
                assert(s[i].0 == q0[i].0);
                assert(q0[i].0.idx < self.next_idx);
            }
            lemma_pairs_map(s);
            assert(prior == pairs_map(q0)[q0[k as int].0]);
            assert(pairs_map(s) =~= pairs_map(q0).insert(e, inventory)) by {
                assert forall|x: Entity| #[trigger] pairs_map(s).contains_key(x)
                    == pairs_map(q0).insert(e, inventory).contains_key(x) by {
                    if pairs_map(s).contains_key(x) {
                        let j = choose|j: int| 0 <= j < s.len() && s[j].0 == x;
                        assert(q0[j].0 == x);
                    }
                    if pairs_map(q0).contains_key(x) {
                        let j = choose|j: int| 0 <= j < q0.len() && q0[j].0 == x;
                        assert(s[j].0 == x);
                    }
                    assert(s[k as int].0 == e);
                }
                assert forall|x: Entity| #[trigger] pairs_map(s).contains_key(x) implies pairs_map(s)[x]
                    == pairs_map(q0).insert(e, inventory)[x] by {
                    let j = choose|j: int| 0 <= j < s.len() && s[j].0 == x;
                    assert(pairs_map(s)[s[j].0] == s[j].1);
                    if j != k {
                        assert(pairs_map(q0)[q0[j].0] == q0[j].1);
                    }
                }
            }
        }
        self.players = players;
        prior
    }

    /// What slot `ix` of the inventory of the player `e` holds.
    pub fn inventory_cell(&self, e: &Entity, ix: usize) -> (r: Option<InventoryCell>)
        requires
            self.players().contains_key(*e),
            ix < 32,
        ensures
            r == self.players()[*e].cells_view()[ix as int],
    {
        proof {
            use_type_invariant(self);
            lemma_pairs_map(self.players@);
        }
        let mut k: usize = 0;
        while k < self.players.len()
            invariant
                k <= self.players@.len(),
                ix < 32,
                self.players().contains_key(*e),
                forall|x: Entity|
                    #[trigger] pairs_map(self.players@).contains_key(x) <==> exists|j: int|
                        0 <= j < self.players@.len() && self.players@[j].0 == x,
                forall|j: int| 0 <= j < self.players@.len() ==> #[trigger] pairs_map(
                    self.players@,
                )[self.players@[j].0] == self.players@[j].1,
                forall|j: int| 0 <= j < k ==> self.players@[j].0 != *e,
            decreases self.players@.len() - k,
        {
            if self.players[k].0 == *e {
                let cells = self.players[k].1.cells();
                return cells[ix];
            }
            k += 1;
        }
        proof {
            let j = choose|j: int| 0 <= j < self.players@.len() && self.players@[j].0 == *e;
            assert(self.players@[j].0 != *e);
        }
        None
    }

    /// Whether `e` exists and is a player.
    pub fn contains_player(&self, e: &Entity) -> (r: bool)
        ensures
            r == (self.live().contains(*e) && self.players().contains_key(*e)),
    {
        self.is_live(e) && self.is_player(e)
    }

    /// A player that exists and stands at `pt`, if there is one; which one, where several do,
    /// is not stated.
    pub fn player_at(&self, pt: Point) -> (r: Option<Entity>)
        ensures
            r is None <==> !exists|e: Entity| #[trigger] self.players().contains_key(e)
                && self.live().contains(e) && self.positions().contains_key(e)
                && self.positions()[e] == pt,
            r matches Some(e) ==> self.players().contains_key(e) && self.live().contains(e)
                && self.positions().contains_key(e) && self.positions()[e] == pt,
    {
        let entities = self.entities_at(pt);
        let mut k: usize = 0;
        while k < entities.len()
            invariant
                k <= entities@.len(),
                forall|e: Entity| #[trigger] entities@.contains(e) == (self.live().contains(e)
                    && self.positions().contains_key(e) && self.positions()[e] == pt),
                forall|j: int| 0 <= j < k ==> !self.players().contains_key(#[trigger] entities@[j]),
            decreases entities@.len() - k,
        {
            let e = entities[k];
            if self.is_player(&e) {
                proof {
                    assert(entities@.contains(e));
                }
                return Some(e);
            }
            k += 1;
        }
        proof {
            if exists|e: Entity| #[trigger] self.players().contains_key(e) && self.live().contains(e)
                && self.positions().contains_key(e) && self.positions()[e] == pt {
                let e = choose|e: Entity| #[trigger] self.players().contains_key(e) && self.live().contains(e)
                    && self.positions().contains_key(e) && self.positions()[e] == pt;
                assert(entities@.contains(e));
                let j = choose|j: int| 0 <= j < entities@.len() && entities@[j] == e;
                assert(!self.players().contains_key(entities@[j]));
            }
        }
        None
    }
}

} // verus!
