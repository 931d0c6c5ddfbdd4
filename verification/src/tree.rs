use vstd::prelude::*;

verus! {

/// The mathematical value of a rose tree: a node value and its ordered, labelled subtrees.
pub struct TreeModel<T, E> {
    pub val: T,
    pub children: Seq<(E, TreeModel<T, E>)>,
}

/// A tree whose nodes hold a `T` and whose edges to children hold an `E`.
#[derive(PartialEq, Eq)]
pub struct RoseTree<T, E> {
    pub val: T,
    pub children: Vec<(E, RoseTree<T, E>)>,
}

impl<T, E> RoseTree<T, E> {
    /// The mathematical value of this tree.
    pub open spec fn model(&self) -> TreeModel<T, E>
        decreases self, 1nat,
    {
        TreeModel { val: self.val, children: Self::models(self.children@) }
    }

    /// The mathematical values of a sequence of labelled subtrees.
    pub open spec fn models(s: Seq<(E, RoseTree<T, E>)>) -> Seq<(E, TreeModel<T, E>)>
        decreases s, 0nat,
    {
        if s.len() == 0 {
            Seq::empty()
        } else {
            Self::models(s.drop_last()).push((s.last().0, s.last().1.model()))
        }
    }

    /// A tree with a single node holding `val`.
    pub fn singleton(val: T) -> (tree: Self)
        ensures
            tree.val == val,
            tree.children@ == Seq::<(E, RoseTree<T, E>)>::empty(),
    {
        RoseTree { val, children: Vec::new() }
    }
}

/// The model of a sequence of subtrees is taken subtree by subtree.
pub proof fn lemma_models_index<T, E>(s: Seq<(E, RoseTree<T, E>)>)
    ensures
        RoseTree::<T, E>::models(s).len() == s.len(),
        forall|i: int|
            0 <= i < s.len() ==> #[trigger] RoseTree::<T, E>::models(s)[i] == (
                s[i].0,
                s[i].1.model(),
            ),
    decreases s.len(),
{
    if s.len() > 0 {
        lemma_models_index(s.drop_last());
    }
}

/// Taking models commutes with concatenation.
pub proof fn lemma_models_concat<T, E>(a: Seq<(E, RoseTree<T, E>)>, b: Seq<(E, RoseTree<T, E>)>)
    ensures
        RoseTree::<T, E>::models(a + b) == RoseTree::<T, E>::models(a) + RoseTree::<T, E>::models(
            b,
        ),
{
    lemma_models_index(a);
    lemma_models_index(b);
    lemma_models_index(a + b);
    assert(RoseTree::<T, E>::models(a + b) =~= RoseTree::<T, E>::models(a)
        + RoseTree::<T, E>::models(b));
}

/// One level of the path from the root of a zipped tree down to its focus: the value of the
/// parent node, the label of the edge taken, the siblings to the left of that edge in order, and
/// the siblings to its right, nearest first.
pub struct ZipperStep<T, E> {
    pub val: T,
    pub edge: E,
    pub left: Seq<(E, RoseTree<T, E>)>,
    pub right: Seq<(E, RoseTree<T, E>)>,
}

/// The model of the node that a step describes, once its focused child is `t`.
pub open spec fn plug<T, E>(step: ZipperStep<T, E>, t: TreeModel<T, E>) -> TreeModel<T, E> {
    TreeModel {
        val: step.val,
        children: RoseTree::<T, E>::models(step.left) + seq![(step.edge, t)]
            + RoseTree::<T, E>::models(step.right.reverse()),
    }
}

/// The model of the whole tree, given the path to the focus and the model of the focus.
pub open spec fn plug_all<T, E>(steps: Seq<ZipperStep<T, E>>, t: TreeModel<T, E>) -> TreeModel<
    T,
    E,
>
    decreases steps.len(),
{
    if steps.len() == 0 {
        t
    } else {
        plug_all(steps.drop_last(), plug(steps.last(), t))
    }
}

/// The step that `Zipper::down(i)` records when it leaves a node with value `val` and children
/// `children`.
pub open spec fn down_step<T, E>(val: T, children: Seq<(E, RoseTree<T, E>)>, i: int) -> ZipperStep<
    T,
    E,
> {
    ZipperStep {
        val,
        edge: children[i].0,
        left: children.take(i),
        right: children.skip(i + 1).reverse(),
    }
}

/// The children that `Zipper::up` gives back to the parent described by `step`, when the focus
/// it leaves is `focus`.
pub open spec fn up_children<T, E>(step: ZipperStep<T, E>, focus: RoseTree<T, E>) -> Seq<
    (E, RoseTree<T, E>),
> {
    step.left + seq![(step.edge, focus)] + step.right.reverse()
}

/// The step that `Zipper::left` leaves in place of `step`, when the focus it leaves is `focus`.
pub open spec fn left_step<T, E>(step: ZipperStep<T, E>, focus: RoseTree<T, E>) -> ZipperStep<
    T,
    E,
> {
    ZipperStep {
        val: step.val,
        edge: step.left.last().0,
        left: step.left.drop_last(),
        right: step.right.push((step.edge, focus)),
    }
}

/// The step that `Zipper::right` leaves in place of `step`, when the focus it leaves is `focus`.
pub open spec fn right_step<T, E>(step: ZipperStep<T, E>, focus: RoseTree<T, E>) -> ZipperStep<
    T,
    E,
> {
    ZipperStep {
        val: step.val,
        edge: step.right.last().0,
        left: step.left.push((step.edge, focus)),
        right: step.right.drop_last(),
    }
}

struct ZipperFrame<T, E> {
    val: T,
    edge: E,
    left: Vec<(E, RoseTree<T, E>)>,
    right: Vec<(E, RoseTree<T, E>)>,  //is reversed
}

spec fn frame_step<T, E>(f: ZipperFrame<T, E>) -> ZipperStep<T, E> {
    ZipperStep { val: f.val, edge: f.edge, left: f.left@, right: f.right@ }
}

/// A rose tree with a focused node, which can be moved around the tree.
pub struct Zipper<T, E> {
    frames: Vec<ZipperFrame<T, E>>,
    pub focus: RoseTree<T, E>,
}

impl<T, E> Zipper<T, E> {
    /// The path from the root down to the focus, root first.
    pub closed spec fn steps(&self) -> Seq<ZipperStep<T, E>> {
        self.frames@.map_values(|f: ZipperFrame<T, E>| frame_step(f))
    }

    /// The node in focus.
    pub closed spec fn focused(&self) -> RoseTree<T, E> {
        self.focus
    }

    /// The model of the whole tree that this zipper holds.
    pub closed spec fn model(&self) -> TreeModel<T, E> {
        plug_all(self.steps(), self.focus.model())
    }

    pub fn new(tree: RoseTree<T, E>) -> (z: Self)
        ensures
            z.steps() == Seq::<ZipperStep<T, E>>::empty(),
            z.focused() == tree,
            z.model() == tree.model(),
    {
        let z = Zipper { frames: Vec::new(), focus: tree };
        assert(z.steps() =~= Seq::<ZipperStep<T, E>>::empty());
        z
    }

    /// The node in focus, with its children (what the public `focus` field holds).
    pub fn focus(&self) -> (r: &RoseTree<T, E>)
        ensures
            *r == self.focused(),
    {
        &self.focus
    }

    pub fn get_focus_val(&self) -> (v: &T)
        ensures
            *v == self.focused().val,
    {
        &self.focus.val
    }

    pub fn get_focus_val_mut(&mut self) -> (v: &mut T)
        ensures
            *v == old(self).focused().val,
            final(self).steps() == old(self).steps(),
            final(self).focused().children == old(self).focused().children,
            final(self).focused().val == *final(v),
    {
        &mut self.focus.val
    }

    /// Moves the focus to its child number `i`.
    pub fn down(&mut self, i: usize) -> (r: Result<(), &str>)
        ensures
            r is Err <==> i >= old(self).focused().children@.len(),
            r is Err ==> *final(self) == *old(self) && r == Err::<(), &str>("Index out of bounds"),
            r is Ok ==> {
                &&& final(self).focused() == old(self).focused().children@[i as int].1
                &&& final(self).steps() == old(self).steps().push(
                    down_step(old(self).focused().val, old(self).focused().children@, i as int),
                )
                &&& final(self).model() == old(self).model()
            },
            moved(*old(self), VerticalMove::Down(i), *final(self)),
    {
        if i >= self.focus.children.len() {
            return Err("Index out of bounds");
        }
        let ghost old_self = *self;
        let ghost children = self.focus.children@;
        let mut left: Vec<(E, RoseTree<T, E>)> = Vec::new();
        std::mem::swap(&mut left, &mut self.focus.children);
        let mut tail = left.split_off(i);
        let (edge, new_focus) = tail.remove(0);
        let ghost rest = tail@;
        assert(rest =~= children.skip(i + 1));
        let mut right: Vec<(E, RoseTree<T, E>)> = Vec::new();
        while tail.len() > 0
            invariant
                tail@ == rest.take(tail@.len() as int),
                right@ == rest.skip(tail@.len() as int).reverse(),
                tail@.len() <= rest.len(),
            decreases tail@.len(),
        {
            let ghost n = tail@.len() as int;
            let x = tail.pop().unwrap();
            right.push(x);
            assert(tail@ =~= rest.take(n - 1));
            assert(right@ =~= rest.skip(n - 1).reverse());
        }
        assert(right@ =~= rest.reverse());
        let mut old_focus = new_focus;
        std::mem::swap(&mut self.focus, &mut old_focus);
        let RoseTree { val, children: _ } = old_focus;
        self.frames.push(ZipperFrame { val, edge, left, right });
        proof {
            let step = down_step(old_self.focus.val, children, i as int);
            assert(self.steps() =~= old_self.steps().push(step));
            lemma_down_plug(old_self.focus, i as int);
            assert(self.steps().drop_last() =~= old_self.steps());
        }
        Ok(())
    }

    /// Moves the focus to its parent.
    pub fn up(&mut self) -> (r: Result<(), &str>)
        ensures
            r is Err <==> old(self).steps().len() == 0,
            r is Err ==> *final(self) == *old(self) && r == Err::<(), &str>("Already at top of zipper"),
            r is Ok ==> {
                &&& final(self).steps() == old(self).steps().drop_last()
                &&& final(self).focused().val == old(self).steps().last().val
                &&& final(self).focused().children@ == up_children(
                    old(self).steps().last(),
                    old(self).focused(),
                )
                &&& final(self).model() == old(self).model()
            },
            moved(*old(self), VerticalMove::Up, *final(self)),
    {
        if self.frames.len() == 0 {
            return Err("Already at top of zipper");
        }
        let ghost old_self = *self;
        let frame = self.frames.pop().unwrap();
        let ZipperFrame { val, edge, mut left, mut right } = frame;
        let ghost step = ZipperStep { val, edge, left: left@, right: right@ };
        assert(step == old_self.steps().last());
        let mut old_focus = RoseTree { val, children: Vec::new() };
        std::mem::swap(&mut self.focus, &mut old_focus);
        left.push((edge, old_focus));
        let ghost prefix = left@;
        let ghost orig_right = right@;
        while right.len() > 0
            invariant
                right@ == orig_right.take(right@.len() as int),
                left@ == prefix + orig_right.skip(right@.len() as int).reverse(),
                right@.len() <= orig_right.len(),
            decreases right@.len(),
        {
            let ghost n = right@.len() as int;
            let x = right.pop().unwrap();
            left.push(x);
            assert(right@ =~= orig_right.take(n - 1));
            assert(orig_right.skip(n - 1).reverse() =~= orig_right.skip(n).reverse().push(
                orig_right[n - 1],
            ));
            assert(left@ =~= prefix + orig_right.skip(n - 1).reverse());
        }
        self.focus.children = left;
        proof {
            assert(orig_right.skip(0) =~= orig_right);
            assert(self.focus.children@ =~= up_children(step, old_self.focus));
            assert(self.steps() =~= old_self.steps().drop_last());
            lemma_up_plug(step, old_self.focus, self.focus);
        }
        Ok(())
    }

    /// Moves the focus to the sibling on its left, within the frame nearest the root.
    pub fn left(&mut self) -> (r: Result<(), &str>)
        ensures
            r is Err <==> (old(self).steps().len() == 0 || old(self).steps()[0].left.len() == 0),
            r is Err ==> *final(self) == *old(self) && r == Err::<(), &str>("Nothing to the left"),
            r is Ok ==> {
                &&& final(self).focused() == old(self).steps()[0].left.last().1
                &&& final(self).steps() == old(self).steps().update(
                    0,
                    left_step(old(self).steps()[0], old(self).focused()),
                )
                &&& old(self).steps().len() == 1 ==> final(self).model() == old(self).model()
            },
    {
        if self.frames.len() == 0 {
            return Err("Nothing to the left");
        }
        if self.frames[0].left.len() == 0 {
            return Err("Nothing to the left");
        }
        let ghost old_self = *self;
        let mut frame = self.frames.remove(0);
        let ghost step = frame_step(frame);
        let (new_edge, new_focus) = frame.left.pop().unwrap();
        let mut old_focus = new_focus;
        std::mem::swap(&mut self.focus, &mut old_focus);
        let mut old_edge = new_edge;
        std::mem::swap(&mut frame.edge, &mut old_edge);
        frame.right.push((old_edge, old_focus));
        self.frames.insert(0, frame);
        proof {
            assert(step == old_self.steps()[0]);
            assert(self.steps() =~= old_self.steps().update(0, left_step(step, old_self.focus)));
            if old_self.steps().len() == 1 {
                lemma_left_plug(step, old_self.focus);
                assert(self.steps().drop_last() =~= Seq::<ZipperStep<T, E>>::empty());
                assert(old_self.steps().drop_last() =~= Seq::<ZipperStep<T, E>>::empty());
            }
        }
        Ok(())
    }

    /// Moves the focus to the sibling on its right, within the frame nearest the root.
    pub fn right(&mut self) -> (r: Result<(), &str>)
        ensures
            r is Err <==> (old(self).steps().len() == 0 || old(self).steps()[0].right.len() == 0),
            r is Err ==> *final(self) == *old(self) && r == Err::<(), &str>("Nothing to the right"),
            r is Ok ==> {
                &&& final(self).focused() == old(self).steps()[0].right.last().1
                &&& final(self).steps() == old(self).steps().update(
                    0,
                    right_step(old(self).steps()[0], old(self).focused()),
                )
                &&& old(self).steps().len() == 1 ==> final(self).model() == old(self).model()
            },
    {
        if self.frames.len() == 0 {
            return Err("Nothing to the right");
        }
        if self.frames[0].right.len() == 0 {
            return Err("Nothing to the right");
        }
        let ghost old_self = *self;
        let mut frame = self.frames.remove(0);
        let ghost step = frame_step(frame);
        let (new_edge, new_focus) = frame.right.pop().unwrap();
        let mut old_focus = new_focus;
        std::mem::swap(&mut self.focus, &mut old_focus);
        let mut old_edge = new_edge;
        std::mem::swap(&mut frame.edge, &mut old_edge);
        frame.left.push((old_edge, old_focus));
        self.frames.insert(0, frame);
        proof {
            assert(step == old_self.steps()[0]);
            assert(self.steps() =~= old_self.steps().update(0, right_step(step, old_self.focus)));
            if old_self.steps().len() == 1 {
                lemma_right_plug(step, old_self.focus);
                assert(self.steps().drop_last() =~= Seq::<ZipperStep<T, E>>::empty());
                assert(old_self.steps().drop_last() =~= Seq::<ZipperStep<T, E>>::empty());
            }
        }
        Ok(())
    }

    /// Moves the focus up to the root and gives back the whole tree.
    pub fn rezip(self) -> (t: RoseTree<T, E>)
        ensures
            t.model() == self.model(),
    {
        let mut z = self;
        loop
            invariant_except_break
                z.model() == self.model(),
            ensures
                z.model() == self.model(),
                z.steps().len() == 0,
            decreases z.steps().len(),
        {
            match z.up() {
                Ok(()) => {},
                Err(_) => break,
            }
        }
        z.focus
    }

    /// Adds a new child holding `x`, reached by an edge labelled `edge`, after the focus's other
    /// children, and moves the focus to it.
    pub fn push(&mut self, x: T, edge: E)
        ensures
            final(self).steps() == old(self).steps().push(push_step(old(self).focused(), edge)),
            final(self).focused().val == x,
            final(self).focused().children@ == Seq::<(E, RoseTree<T, E>)>::empty(),
    {
        let ghost old_self = *self;
        let mut left: Vec<(E, RoseTree<T, E>)> = Vec::new();
        std::mem::swap(&mut left, &mut self.focus.children);
        let mut new_focus = RoseTree::singleton(x);
        std::mem::swap(&mut self.focus, &mut new_focus);
        let RoseTree { val, children: _ } = new_focus;
        self.frames.push(ZipperFrame { val, edge, left, right: Vec::new() });
        assert(self.steps() =~= old_self.steps().push(push_step(old_self.focus, edge)));
    }
}

/// The step that `Zipper::push` records when it leaves the node `focus` by a new edge `edge`.
pub open spec fn push_step<T, E>(focus: RoseTree<T, E>, edge: E) -> ZipperStep<T, E> {
    ZipperStep {
        val: focus.val,
        edge,
        left: focus.children@,
        right: Seq::<(E, RoseTree<T, E>)>::empty(),
    }
}

/// Moving left within a frame does not change the node that the frame describes.
proof fn lemma_left_plug<T, E>(step: ZipperStep<T, E>, focus: RoseTree<T, E>)
    requires
        step.left.len() > 0,
    ensures
        plug(left_step(step, focus), step.left.last().1.model()) == plug(step, focus.model()),
{
    let l = step.left;
    let s1 = left_step(step, focus);
    assert(s1.right.reverse() =~= seq![(step.edge, focus)] + step.right.reverse());
    lemma_models_concat(seq![(step.edge, focus)], step.right.reverse());
    lemma_models_concat(l.drop_last(), seq![l.last()]);
    assert(l.drop_last() + seq![l.last()] =~= l);
    lemma_models_index(seq![l.last()]);
    lemma_models_index(seq![(step.edge, focus)]);
    assert(RoseTree::<T, E>::models(seq![l.last()]) =~= seq![(l.last().0, l.last().1.model())]);
    assert(RoseTree::<T, E>::models(seq![(step.edge, focus)]) =~= seq![
        (step.edge, focus.model()),
    ]);
    assert(plug(s1, l.last().1.model()).children =~= plug(step, focus.model()).children);
}

/// Moving right within a frame does not change the node that the frame describes.
proof fn lemma_right_plug<T, E>(step: ZipperStep<T, E>, focus: RoseTree<T, E>)
    requires
        step.right.len() > 0,
    ensures
        plug(right_step(step, focus), step.right.last().1.model()) == plug(step, focus.model()),
{
    let r = step.right;
    let s1 = right_step(step, focus);
    assert(r.reverse() =~= seq![r.last()] + r.drop_last().reverse());
    lemma_models_concat(seq![r.last()], r.drop_last().reverse());
    lemma_models_concat(step.left, seq![(step.edge, focus)]);
    assert(step.left.push((step.edge, focus)) =~= step.left + seq![(step.edge, focus)]);
    lemma_models_index(seq![r.last()]);
    lemma_models_index(seq![(step.edge, focus)]);
    assert(RoseTree::<T, E>::models(seq![r.last()]) =~= seq![(r.last().0, r.last().1.model())]);
    assert(RoseTree::<T, E>::models(seq![(step.edge, focus)]) =~= seq![
        (step.edge, focus.model()),
    ]);
    assert(plug(s1, r.last().1.model()).children =~= plug(step, focus.model()).children);
}

/// Law: `up` undoes `down(i)`. After moving down to child `i` and back up, the path to the focus,
/// the value of the focus and its children are those from before.
pub proof fn law_up_undoes_down<T, E>(
    steps: Seq<ZipperStep<T, E>>,
    focus: RoseTree<T, E>,
    i: int,
)
    requires
        0 <= i < focus.children@.len(),
    ensures
        ({
            let after_down = steps.push(down_step(focus.val, focus.children@, i));
            &&& after_down.drop_last() == steps
            &&& after_down.last().val == focus.val
            &&& up_children(after_down.last(), focus.children@[i].1) == focus.children@
        }),
{
    let c = focus.children@;
    let after_down = steps.push(down_step(focus.val, c, i));
    assert(after_down.drop_last() =~= steps);
    assert(c.skip(i + 1).reverse().reverse() =~= c.skip(i + 1));
    assert(up_children(after_down.last(), c[i].1) =~= c);
}

/// Law: `right` undoes `left` within a frame: the focus and the frame come back.
pub proof fn law_right_undoes_left<T, E>(step: ZipperStep<T, E>, focus: RoseTree<T, E>)
    requires
        step.left.len() > 0,
    ensures
        ({
            let after_left = left_step(step, focus);
            &&& after_left.right.len() > 0
            &&& after_left.right.last().1 == focus
            &&& right_step(after_left, step.left.last().1) == step
        }),
{
    let after_left = left_step(step, focus);
    let back = right_step(after_left, step.left.last().1);
    assert(back.left =~= step.left);
    assert(back.right =~= step.right);
}

/// Law: `left` undoes `right` within a frame: the focus and the frame come back.
pub proof fn law_left_undoes_right<T, E>(step: ZipperStep<T, E>, focus: RoseTree<T, E>)
    requires
        step.right.len() > 0,
    ensures
        ({
            let after_right = right_step(step, focus);
            &&& after_right.left.len() > 0
            &&& after_right.left.last().1 == focus
            &&& left_step(after_right, step.right.last().1) == step
        }),
{
    let after_right = right_step(step, focus);
    let back = left_step(after_right, step.right.last().1);
    assert(back.left =~= step.left);
    assert(back.right =~= step.right);
}

/// Law: `push` followed by `up` leaves the old focus in focus, with the new node appended as its
/// last child.
pub proof fn law_up_after_push<T, E>(focus: RoseTree<T, E>, edge: E, pushed: RoseTree<T, E>)
    ensures
        push_step(focus, edge).val == focus.val,
        up_children(push_step(focus, edge), pushed) == focus.children@.push((edge, pushed)),
{
    assert(up_children(push_step(focus, edge), pushed) =~= focus.children@.push((edge, pushed)));
}

/// Cutting the children of `t` at `i` and plugging the child back in gives `t` back.
proof fn lemma_down_plug<T, E>(t: RoseTree<T, E>, i: int)
    requires
        0 <= i < t.children@.len(),
    ensures
        plug(down_step(t.val, t.children@, i), t.children@[i].1.model()) == t.model(),
{
    let c = t.children@;
    let step = down_step(t.val, c, i);
    assert(c.skip(i + 1).reverse().reverse() =~= c.skip(i + 1));
    lemma_models_concat(c.take(i), seq![c[i]]);
    lemma_models_concat(c.take(i) + seq![c[i]], c.skip(i + 1));
    assert(c.take(i) + seq![c[i]] + c.skip(i + 1) =~= c);
    lemma_models_index(seq![c[i]]);
    assert(RoseTree::<T, E>::models(seq![c[i]]) =~= seq![(c[i].0, c[i].1.model())]);
    assert(plug(step, c[i].1.model()).children =~= t.model().children);
}

/// Rebuilding the parent from a step and the focus gives the same model as plugging the focus.
proof fn lemma_up_plug<T, E>(step: ZipperStep<T, E>, focus: RoseTree<T, E>, parent: RoseTree<T, E>)
    requires
        parent.val == step.val,
        parent.children@ == up_children(step, focus),
    ensures
        parent.model() == plug(step, focus.model()),
{
    lemma_models_concat(step.left, seq![(step.edge, focus)]);
    lemma_models_concat(step.left + seq![(step.edge, focus)], step.right.reverse());
    lemma_models_index(seq![(step.edge, focus)]);
    assert(RoseTree::<T, E>::models(seq![(step.edge, focus)]) =~= seq![
        (step.edge, focus.model()),
    ]);
    assert(parent.model().children =~= plug(step, focus.model()).children);
}

/// A move of the focus down to a child, or up to the parent.
#[derive(Clone, Copy, Debug, PartialEq, Eq)]
pub enum VerticalMove {
    Down(usize),
    Up,
}

/// `z1` is what the move `mv` leaves of `z0`, as `down` and `up` promise: a move that can be
/// made keeps the tree and takes the focus one step further from the top, or one step back;
/// one that cannot leaves the zipper as it was.
pub open spec fn moved<T, E>(z0: Zipper<T, E>, mv: VerticalMove, z1: Zipper<T, E>) -> bool {
    match mv {
        VerticalMove::Down(i) => if i < z0.focused().children@.len() {
            z1.model() == z0.model() && z1.steps().len() == z0.steps().len() + 1
        } else {
            z1 == z0
        },
        VerticalMove::Up => if z0.steps().len() > 0 {
            z1.model() == z0.model() && z1.steps().len() + 1 == z0.steps().len()
        } else {
            z1 == z0
        },
    }
}

/// How far the first `n` moves of `mvs`, made from the zippers `zs` in turn, take the focus
/// from where it started: one further for each move down that can be made, one back for each
/// move up that can be made.
pub open spec fn depth_change<T, E>(zs: Seq<Zipper<T, E>>, mvs: Seq<VerticalMove>, n: int) -> int
    decreases n,
{
    if n <= 0 {
        0
    } else {
        depth_change(zs, mvs, n - 1) + match mvs[n - 1] {
            VerticalMove::Down(i) => if i < zs[n - 1].focused().children@.len() {
                1int
            } else {
                0int
            },
            VerticalMove::Up => if zs[n - 1].steps().len() > 0 {
                -1int
            } else {
                0int
            },
        }
    }
}

/// Law: moving the focus down and up never changes the tree, so `rezip` after any such moves
/// gives back the tree that the zipper started with; and the focus ends as far from the top
/// as the moves add up to. In particular, from the top, after moves up that match the moves
/// down, the focus is at the top again and `up` is refused.
pub proof fn law_vertical_moves<T, E>(zs: Seq<Zipper<T, E>>, mvs: Seq<VerticalMove>)
    requires
        zs.len() == mvs.len() + 1,
        forall|i: int| 0 <= i < mvs.len() ==> #[trigger] moved(zs[i], mvs[i], zs[i + 1]),
    ensures
        zs.last().model() == zs[0].model(),
        zs.last().steps().len() == zs[0].steps().len() + depth_change(zs, mvs, mvs.len() as int),
        zs[0].steps().len() == 0 && depth_change(zs, mvs, mvs.len() as int) == 0 ==> zs.last().steps().len()
            == 0,
{
    lemma_vertical_prefix(zs, mvs, mvs.len() as int);
}

proof fn lemma_vertical_prefix<T, E>(zs: Seq<Zipper<T, E>>, mvs: Seq<VerticalMove>, n: int)
    requires
        zs.len() == mvs.len() + 1,
        forall|i: int| 0 <= i < mvs.len() ==> #[trigger] moved(zs[i], mvs[i], zs[i + 1]),
        0 <= n <= mvs.len(),
    ensures
        zs[n].model() == zs[0].model(),
        zs[n].steps().len() == zs[0].steps().len() + depth_change(zs, mvs, n),
    decreases n,
{
    if n > 0 {
        lemma_vertical_prefix(zs, mvs, n - 1);
        let i = n - 1;
        assert(moved(zs[i], mvs[i], zs[i + 1]));
        assert(zs[i + 1] == zs[n]);
    }
}

} // verus!
