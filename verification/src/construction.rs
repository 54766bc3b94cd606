use vstd::prelude::*;

use crate::tree::NodeModel;

verus! {

/// One tree-building call: `Root(data)` stands for `Tree::add_node(data)`,
/// `Child(p, data)` for `Tree::add_child(p, data)`.
pub enum BuildStep<T> {
    Root(T),
    Child(usize, T),
}

/// The payload a building call supplies.
pub open spec fn step_data<T>(step: BuildStep<T>) -> T {
    match step {
        BuildStep::Root(data) => data,
        BuildStep::Child(_, data) => data,
    }
}

/// What one building call does to the model tree: exactly what the `ensures`
/// of [`Tree::add_node`] and [`Tree::add_child`] promise of the view.
///
/// [`Tree::add_node`]: crate::tree::Tree::add_node
/// [`Tree::add_child`]: crate::tree::Tree::add_child
pub open spec fn apply_step<T>(t: Seq<NodeModel<T>>, step: BuildStep<T>) -> Seq<NodeModel<T>> {
    match step {
        BuildStep::Root(data) => t.push(
            NodeModel { data, children: Seq::empty(), parent: None },
        ),
        BuildStep::Child(p, data) => t.update(
            p as int,
            NodeModel { children: t[p as int].children.push(t.len() as usize), ..t[p as int] },
        ).push(NodeModel { data, children: Seq::empty(), parent: Some(p) }),
    }
}

/// Whether a building call names a parent that exists in `t`.
pub open spec fn step_ok<T>(t: Seq<NodeModel<T>>, step: BuildStep<T>) -> bool {
    match step {
        BuildStep::Root(_) => true,
        BuildStep::Child(p, _) => (p as int) < t.len(),
    }
}

/// The model tree that a sequence of building calls produces, starting from
/// the empty tree.
pub open spec fn built<T>(steps: Seq<BuildStep<T>>) -> Seq<NodeModel<T>>
    decreases steps.len(),
{
    if steps.len() == 0 {
        Seq::empty()
    } else {
        apply_step(built(steps.drop_last()), steps.last())
    }
}

/// Every call of the sequence names a parent that exists when it is made.
pub open spec fn steps_ok<T>(steps: Seq<BuildStep<T>>) -> bool {
    forall|k: int| 0 <= k < steps.len() ==> step_ok(built(#[trigger] steps.take(k)), steps[k])
}

/// The indices handed out by the calls of `steps` that name `p` as the
/// parent, in call order: what the children list of `p` must come to hold.
pub open spec fn child_calls<T>(steps: Seq<BuildStep<T>>, p: usize) -> Seq<usize>
    decreases steps.len(),
{
    if steps.len() == 0 {
        Seq::empty()
    } else {
        let rest = child_calls(steps.drop_last(), p);
        match steps.last() {
            BuildStep::Child(q, _) => if q == p {
                rest.push((steps.len() - 1) as usize)
            } else {
                rest
            },
            BuildStep::Root(_) => rest,
        }
    }
}

/// Each building call adds exactly one node.
pub proof fn lemma_built_len<T>(steps: Seq<BuildStep<T>>)
    requires
        steps_ok(steps),
    ensures
        built(steps).len() == steps.len(),
    decreases steps.len(),
{
    if steps.len() > 0 {
        lemma_steps_ok_prefix(steps);
        lemma_built_len(steps.drop_last());
        assert(steps.take(steps.len() - 1) =~= steps.drop_last());
    }
}

/// A prefix of a well-parented call sequence is well-parented.
proof fn lemma_steps_ok_prefix<T>(steps: Seq<BuildStep<T>>)
    requires
        steps_ok(steps),
        steps.len() > 0,
    ensures
        steps_ok(steps.drop_last()),
{
    let prefix = steps.drop_last();
    assert forall|j: int| 0 <= j < prefix.len() implies step_ok(
        built(#[trigger] prefix.take(j)),
        prefix[j],
    ) by {
        assert(prefix.take(j) =~= steps.take(j));
    }
}

/// No call can name a node that does not exist yet, so a node has no
/// children from calls made before it existed.
proof fn lemma_child_calls_out_of_range<T>(steps: Seq<BuildStep<T>>, p: usize)
    requires
        steps_ok(steps),
        p as int >= steps.len(),
    ensures
        child_calls(steps, p) == Seq::<usize>::empty(),
    decreases steps.len(),
{
    if steps.len() > 0 {
        let prefix = steps.drop_last();
        lemma_steps_ok_prefix(steps);
        lemma_child_calls_out_of_range(prefix, p);
        assert(steps.take(steps.len() - 1) =~= prefix);
        lemma_built_len(prefix);
    }
}

/// Index stability: the node created by the `k`-th call sits at index `k` —
/// so every call returns an index equal to the number of nodes created
/// before it — and the slot keeps the payload that call supplied, however
/// much is built after it.
pub proof fn lemma_index_stability<T>(steps: Seq<BuildStep<T>>, k: int)
    requires
        steps.len() <= usize::MAX,
        steps_ok(steps),
        0 <= k < steps.len(),
    ensures
        built(steps).len() == steps.len(),
        built(steps)[k].data == step_data(steps[k]),
    decreases steps.len(),
{
    lemma_built_len(steps);
    let prefix = steps.drop_last();
    lemma_steps_ok_prefix(steps);
    lemma_built_len(prefix);
    assert(steps.take(steps.len() - 1) =~= prefix);
    if k < steps.len() - 1 {
        lemma_index_stability(prefix, k);
    }
}

/// Parent/child symmetry: a node created by `add_child(p, data)` records `p`
/// as its parent, a node created by `add_node` records none, and the
/// children list of every node is exactly the list of indices handed out by
/// the calls that named it as the parent, in call order.
pub proof fn lemma_parent_child_symmetry<T>(steps: Seq<BuildStep<T>>, k: int)
    requires
        steps.len() <= usize::MAX,
        steps_ok(steps),
        0 <= k < steps.len(),
    ensures
        built(steps)[k].parent == (match steps[k] {
            BuildStep::Root(_) => None::<usize>,
            BuildStep::Child(p, _) => Some(p),
        }),
        built(steps)[k].children == child_calls(steps, k as usize),
    decreases steps.len(),
{
    lemma_built_len(steps);
    let prefix = steps.drop_last();
    lemma_steps_ok_prefix(steps);
    lemma_built_len(prefix);
    assert(steps.take(steps.len() - 1) =~= prefix);
    if k == steps.len() - 1 {
        lemma_child_calls_out_of_range(prefix, k as usize);
    } else {
        lemma_parent_child_symmetry(prefix, k);
    }
}

} // verus!
