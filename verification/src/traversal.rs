use vstd::prelude::*;

use crate::tree::links_point_forward;
use crate::tree::NodeModel;
use crate::tree::Tree;

verus! {

/// The depth-first visit order of the subtree rooted at `i`, as a sequence of
/// events.  An event `(i, false)` marks the first visit of node `i`, before
/// any of its children; `(i, true)` marks its completion, after the whole
/// subtree below it has been finished.
pub open spec fn subtree_events<T>(t: Seq<NodeModel<T>>, i: int) -> Seq<(usize, bool)>
    decreases t.len() - i, 1int, 0int
        when links_point_forward(t) && 0 <= i < t.len()
{
    seq![(i as usize, false)] + child_list_events(t, i, 0) + seq![(i as usize, true)]
}

/// The concatenated depth-first visit orders of the subtrees rooted at the
/// children of `i`, from the `k`-th child on.
pub open spec fn child_list_events<T>(t: Seq<NodeModel<T>>, i: int, k: int) -> Seq<(usize, bool)>
    decreases t.len() - i, 0int, t[i].children.len() - k
        when links_point_forward(t) && 0 <= i < t.len() && 0 <= k <= t[i].children.len()
{
    if k == t[i].children.len() {
        Seq::empty()
    } else {
        subtree_events(t, t[i].children[k] as int) + child_list_events(t, i, k + 1)
    }
}

/// The depth-first visit order of the whole tree: empty for an empty tree,
/// otherwise the visit order of the subtree rooted at index zero.
pub open spec fn tree_events<T>(t: Seq<NodeModel<T>>) -> Seq<(usize, bool)> {
    if t.len() == 0 {
        Seq::empty()
    } else {
        subtree_events(t, 0)
    }
}

/// The events still to be produced by one pending stack entry: a node whose
/// children were already expanded only awaits its completion event, while a
/// fresh node contributes its whole subtree.
spec fn entry_events<T>(t: Seq<NodeModel<T>>, e: (usize, bool)) -> Seq<(usize, bool)> {
    if e.1 {
        seq![e]
    } else {
        subtree_events(t, e.0 as int)
    }
}

/// The events still to be produced by a whole stack of pending entries,
/// topmost (last) entry first.
spec fn stack_events<T>(t: Seq<NodeModel<T>>, stack: Seq<(usize, bool)>) -> Seq<(usize, bool)>
    decreases stack.len(),
{
    if stack.len() == 0 {
        Seq::empty()
    } else {
        entry_events(t, stack.last()) + stack_events(t, stack.drop_last())
    }
}

/// Every event of a subtree's visit order carries an index at or beyond the
/// subtree's root, and within the arena.
proof fn lemma_subtree_events_indices<T>(t: Seq<NodeModel<T>>, i: int)
    requires
        links_point_forward(t),
        t.len() <= usize::MAX,
        0 <= i < t.len(),
    ensures
        forall|m: int|
            0 <= m < subtree_events(t, i).len() ==> i <= (#[trigger] subtree_events(t, i)[m]).0
                < t.len(),
    decreases t.len() - i, 1int, 0int,
{
    lemma_child_list_events_indices(t, i, 0);
    let inner = child_list_events(t, i, 0);
    let left = seq![(i as usize, false)] + inner;
    let evs = subtree_events(t, i);
    assert(evs == left + seq![(i as usize, true)]);
    assert(evs.len() == inner.len() + 2);
    assert forall|m: int| 0 <= m < evs.len() implies i <= (#[trigger] evs[m]).0 < t.len() by {
        if m == 0 {
            assert(evs[m] == left[0]);
            assert(left[0] == (i as usize, false));
            assert(i <= (evs[m]).0 < t.len());
        } else if m < left.len() {
            assert(evs[m] == left[m]);
            assert(left[m] == inner[m - 1]);
            assert(i < (inner[m - 1]).0 < t.len());
            assert(i <= (evs[m]).0 < t.len());
        } else {
            assert(evs[m] == (i as usize, true));
            assert(i <= (evs[m]).0 < t.len());
        }
    }
}

/// Every event contributed by the subtrees of the children of `i`, from the
/// `k`-th child on, carries an index strictly beyond `i` and within the
/// arena.
proof fn lemma_child_list_events_indices<T>(t: Seq<NodeModel<T>>, i: int, k: int)
    requires
        links_point_forward(t),
        t.len() <= usize::MAX,
        0 <= i < t.len(),
        0 <= k <= t[i].children.len(),
    ensures
        forall|m: int|
            0 <= m < child_list_events(t, i, k).len() ==> i < (#[trigger] child_list_events(
                t,
                i,
                k,
            )[m]).0 < t.len(),
    decreases t.len() - i, 0int, t[i].children.len() - k,
{
    if k < t[i].children.len() {
        let c = t[i].children[k] as int;
        lemma_subtree_events_indices(t, c);
        lemma_child_list_events_indices(t, i, k + 1);
        let evs = child_list_events(t, i, k);
        let head = subtree_events(t, c);
        let tail = child_list_events(t, i, k + 1);
        assert forall|m: int| 0 <= m < evs.len() implies i < (#[trigger] evs[m]).0 < t.len() by {
            if m < head.len() {
                assert(evs[m] == head[m]);
            } else {
                assert(evs[m] == tail[m - head.len()]);
            }
        }
    }
}

/// Bracketing: the visit order of a subtree opens with that node's first
/// visit, closes with its completion, and every event in between carries the
/// index of a node further down the arena — so a node is reached before
/// anything in its subtree and completed only after all of it.
pub proof fn lemma_subtree_events_bracket<T>(t: Seq<NodeModel<T>>, i: int)
    requires
        links_point_forward(t),
        t.len() <= usize::MAX,
        0 <= i < t.len(),
    ensures
        subtree_events(t, i).len() >= 2,
        subtree_events(t, i).first() == (i as usize, false),
        subtree_events(t, i).last() == (i as usize, true),
        forall|m: int|
            0 < m < subtree_events(t, i).len() - 1 ==> i < (#[trigger] subtree_events(t, i)[m]).0
                < t.len(),
{
    let evs = subtree_events(t, i);
    let inner = child_list_events(t, i, 0);
    assert(evs == seq![(i as usize, false)] + inner + seq![(i as usize, true)]);
    assert(evs.last() == (i as usize, true));
    lemma_child_list_events_indices(t, i, 0);
    assert forall|m: int| 0 < m < evs.len() - 1 implies i < (#[trigger] evs[m]).0 < t.len() by {
        assert(evs[m] == inner[m - 1]);
    }
}

/// One callback firing during a traversal: for a completion event the
/// "after" callback, otherwise the "before" callback, applied to the event's
/// node index, a reference to that node's payload, and the state `s0`, and
/// returning the state `s1`.
pub open spec fn visit_step<T, S, FB, FA>(
    t: Seq<NodeModel<T>>,
    before: FB,
    after: FA,
    e: (usize, bool),
    s0: S,
    s1: S,
) -> bool where FB: Fn(usize, &T, S) -> S, FA: Fn(usize, &T, S) -> S {
    if e.1 {
        exists|d: &T|
            *d == t[e.0 as int].data && #[trigger] call_ensures(after, (e.0, d, s0), s1)
    } else {
        exists|d: &T|
            *d == t[e.0 as int].data && #[trigger] call_ensures(before, (e.0, d, s0), s1)
    }
}

/// The state `s1` can be reached from the state `s0` by firing the callbacks
/// once for each event of `evs`, in order.
pub open spec fn folds_events<T, S, FB, FA>(
    t: Seq<NodeModel<T>>,
    before: FB,
    after: FA,
    evs: Seq<(usize, bool)>,
    s0: S,
    s1: S,
) -> bool where FB: Fn(usize, &T, S) -> S, FA: Fn(usize, &T, S) -> S
    decreases evs.len(),
{
    if evs.len() == 0 {
        s1 == s0
    } else {
        exists|mid: S|
            #[trigger] visit_step(t, before, after, evs[0], s0, mid) && folds_events(
                t,
                before,
                after,
                evs.subrange(1, evs.len() as int),
                mid,
                s1,
            )
    }
}

/// A fold over `evs` followed by one more step is a fold over `evs` with that
/// step appended.
proof fn lemma_folds_events_snoc<T, S, FB, FA>(
    t: Seq<NodeModel<T>>,
    before: FB,
    after: FA,
    evs: Seq<(usize, bool)>,
    e: (usize, bool),
    s0: S,
    s1: S,
    s2: S,
) where FB: Fn(usize, &T, S) -> S, FA: Fn(usize, &T, S) -> S
    requires
        folds_events(t, before, after, evs, s0, s1),
        visit_step(t, before, after, e, s1, s2),
    ensures
        folds_events(t, before, after, evs.push(e), s0, s2),
    decreases evs.len(),
{
    let evs2 = evs.push(e);
    if evs.len() == 0 {
        assert(evs2[0] == e);
        assert(evs2.subrange(1, evs2.len() as int) =~= Seq::<(usize, bool)>::empty());
        assert(visit_step(t, before, after, e, s0, s2));
        assert(folds_events(t, before, after, evs2.subrange(1, evs2.len() as int), s2, s2));
    } else {
        let tail = evs.subrange(1, evs.len() as int);
        let mid = choose|mid: S|
            #[trigger] visit_step(t, before, after, evs[0], s0, mid) && folds_events(
                t,
                before,
                after,
                tail,
                mid,
                s1,
            );
        lemma_folds_events_snoc(t, before, after, tail, e, mid, s1, s2);
        assert(evs2[0] == evs[0]);
        assert(evs2.subrange(1, evs2.len() as int) =~= tail.push(e));
        assert(visit_step(t, before, after, evs2[0], s0, mid) && folds_events(
            t,
            before,
            after,
            evs2.subrange(1, evs2.len() as int),
            mid,
            s2,
        ));
    }
}

impl<T> Tree<T> {
    /// The depth-first visit order of the tree, computed with an explicit
    /// stack instead of recursion so that arbitrarily deep trees cannot
    /// exhaust the call stack.  Returns exactly [`tree_events`] of the tree:
    /// `(index, false)` when a node is first reached, `(index, true)` once
    /// its whole subtree is finished.
    pub fn traversal_order(&self) -> (r: Vec<(usize, bool)>)
        requires
            self.well_formed(),
        ensures
            r@ == tree_events(self@),
            forall|k: int| 0 <= k < r@.len() ==> (#[trigger] r@[k]).0 < self@.len(),
    {
        let mut r: Vec<(usize, bool)> = Vec::new();
        if self.nodes.len() == 0 {
            proof {
                self.lemma_view();
                assert(r@ =~= tree_events(self@));
            }
            return r;
        }
        let mut stack: Vec<(usize, bool)> = Vec::new();
        stack.push((0, false));
        proof {
            self.lemma_view();
            assert(stack@.last() == (0usize, false));
            assert(stack@.drop_last() =~= Seq::<(usize, bool)>::empty());
            assert(stack_events(self@, stack@) == entry_events(self@, (0usize, false))
                + stack_events(self@, stack@.drop_last()));
            assert(r@ + stack_events(self@, stack@) =~= tree_events(self@));
        }
        while stack.len() > 0
            invariant
                self.well_formed(),
                self@.len() == self.nodes@.len(),
                r@ + stack_events(self@, stack@) == tree_events(self@),
                forall|j: int| 0 <= j < stack@.len() ==> (#[trigger] stack@[j]).0 < self@.len(),
                forall|k: int| 0 <= k < r@.len() ==> (#[trigger] r@[k]).0 < self@.len(),
            decreases stack_events(self@, stack@).len(),
        {
            let ghost pre_stack = stack@;
            let (index, children_visited) = stack.pop().unwrap();
            proof {
                assert(pre_stack.last() == (index, children_visited));
                assert(stack@ == pre_stack.drop_last());
            }
            if children_visited {
                r.push((index, true));
                proof {
                    assert(entry_events(self@, (index, true)) =~= seq![(index, true)]);
                    assert(r@ + stack_events(self@, stack@) =~= tree_events(self@));
                }
            } else {
                r.push((index, false));
                stack.push((index, true));
                let ghost rest = stack_events(self@, pre_stack.drop_last());
                proof {
                    assert(stack@.drop_last() == pre_stack.drop_last());
                    assert(stack_events(self@, stack@) == seq![(index, true)] + rest);
                }
                let node = &self.nodes[index];
                proof {
                    self.lemma_view();
                    node.lemma_view();
                    assert(node@ == self@[index as int]);
                }
                let mut k = node.children.len();
                proof {
                    assert(k == self@[index as int].children.len());
                    assert(child_list_events(self@, index as int, k as int) =~= Seq::<
                        (usize, bool),
                    >::empty());
                }
                while k > 0
                    invariant
                        self.well_formed(),
                        self@.len() == self.nodes@.len(),
                        index < self@.len(),
                        node@ == self@[index as int],
                        node@.children == node.children@,
                        k <= node.children@.len(),
                        stack_events(self@, stack@) == child_list_events(
                            self@,
                            index as int,
                            k as int,
                        ) + seq![(index, true)] + rest,
                        forall|j: int|
                            0 <= j < stack@.len() ==> (#[trigger] stack@[j]).0 < self@.len(),
                    decreases k,
                {
                    k = k - 1;
                    let child = node.children[k];
                    proof {
                        assert(self@[index as int].children[k as int] == child);
                        assert(index < child && child < self@.len());
                        self.lemma_view();
                    }
                    let ghost mid_stack = stack@;
                    stack.push((child, false));
                    proof {
                        assert(stack@.drop_last() == mid_stack);
                        assert(stack_events(self@, stack@) == subtree_events(self@, child as int)
                            + stack_events(self@, mid_stack));
                        assert(child_list_events(self@, index as int, k as int) == subtree_events(
                            self@,
                            child as int,
                        ) + child_list_events(self@, index as int, k + 1));
                        assert(stack_events(self@, stack@) =~= child_list_events(
                            self@,
                            index as int,
                            k as int,
                        ) + seq![(index, true)] + rest);
                    }
                }
                proof {
                    assert(stack_events(self@, stack@) =~= child_list_events(
                        self@,
                        index as int,
                        0,
                    ) + seq![(index, true)] + rest);
                    assert(entry_events(self@, (index, false)) == seq![(index, false)]
                        + child_list_events(self@, index as int, 0) + seq![(index, true)]);
                    assert(r@ + stack_events(self@, stack@) =~= tree_events(self@));
                }
            }
        }
        proof {
            assert(r@ =~= tree_events(self@));
        }
        r
    }

    /// Walks the tree depth-first from index zero, firing
    /// `before_processing_children` when a node is first reached and
    /// `after_processing_the_subtree` once its whole subtree is finished,
    /// threading the state value through every call.  On an empty tree
    /// neither callback fires and the state comes back unchanged.
    ///
    /// The result is exactly a fold of the two callbacks over
    /// [`tree_events`]: each callback fires once per event, in depth-first
    /// order, on that event's node index and payload.
    pub fn traverse<S, FB: Fn(usize, &T, S) -> S, FA: Fn(usize, &T, S) -> S>(
        &self,
        before_processing_children: FB,
        after_processing_the_subtree: FA,
        s: S,
    ) -> (r: S)
        requires
            self.well_formed(),
            forall|i: usize, d: &T, st: S|
                i < self@.len() && *d == self@[i as int].data ==> #[trigger] call_requires(
                    before_processing_children,
                    (i, d, st),
                ),
            forall|i: usize, d: &T, st: S|
                i < self@.len() && *d == self@[i as int].data ==> #[trigger] call_requires(
                    after_processing_the_subtree,
                    (i, d, st),
                ),
        ensures
            folds_events(
                self@,
                before_processing_children,
                after_processing_the_subtree,
                tree_events(self@),
                s,
                r,
            ),
            self@.len() == 0 ==> r == s,
    {
        let order = self.traversal_order();
        let mut state = s;
        let mut pos: usize = 0;
        proof {
            self.lemma_view();
            assert(order@.take(0) =~= Seq::<(usize, bool)>::empty());
        }
        while pos < order.len()
            invariant
                self.well_formed(),
                self@.len() == self.nodes@.len(),
                order@ == tree_events(self@),
                forall|k: int| 0 <= k < order@.len() ==> (#[trigger] order@[k]).0 < self@.len(),
                pos <= order@.len(),
                folds_events(
                    self@,
                    before_processing_children,
                    after_processing_the_subtree,
                    order@.take(pos as int),
                    s,
                    state,
                ),
                forall|i: usize, d: &T, st: S|
                    i < self@.len() && *d == self@[i as int].data ==> #[trigger] call_requires(
                        before_processing_children,
                        (i, d, st),
                    ),
                forall|i: usize, d: &T, st: S|
                    i < self@.len() && *d == self@[i as int].data ==> #[trigger] call_requires(
                        after_processing_the_subtree,
                        (i, d, st),
                    ),
            decreases order@.len() - pos,
        {
            let (index, children_visited) = order[pos];
            let ghost e = order@[pos as int];
            let node = &self.nodes[index];
            let d = &node.data;
            proof {
                self.lemma_view();
                node.lemma_view();
                assert(*d == self@[index as int].data);
            }
            let ghost prev = state;
            if children_visited {
                state = after_processing_the_subtree(index, d, state);
            } else {
                state = before_processing_children(index, d, state);
            }
            proof {
                assert(visit_step(
                    self@,
                    before_processing_children,
                    after_processing_the_subtree,
                    e,
                    prev,
                    state,
                ));
                lemma_folds_events_snoc(
                    self@,
                    before_processing_children,
                    after_processing_the_subtree,
                    order@.take(pos as int),
                    e,
                    s,
                    prev,
                    state,
                );
                assert(order@.take(pos as int + 1) =~= order@.take(pos as int).push(e));
            }
            pos = pos + 1;
        }
        proof {
            assert(order@.take(order@.len() as int) =~= order@);
        }
        state
    }
}

} // verus!
