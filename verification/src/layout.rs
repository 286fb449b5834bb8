//! Layout of the process tree: leaves are assigned left to right, and internal
//! nodes are centered over their children.
//!
//! The layout is a plan: a list of placements, children before their parent. A
//! leaf takes the next free column; an internal node goes halfway between its
//! first and its last child. Rows follow depth.

use vstd::prelude::*;

use crate::tree::{lemma_children, lemma_roots, linked, roots_of, ProcessTreeNode};

verus! {

/// One step of a layout.
#[derive(Clone, Copy, Debug, PartialEq, Eq, Structural)]
pub enum Placement {
    /// `node` goes to the next free column of row `depth`.
    Leaf { node: usize, depth: usize },
    /// `node` goes to row `depth`, halfway between `first` and `last`.
    Centered { node: usize, depth: usize, first: usize, last: usize },
}

impl Placement {
    pub open spec fn node(self) -> usize {
        match self {
            Placement::Leaf { node, .. } => node,
            Placement::Centered { node, .. } => node,
        }
    }

    pub open spec fn depth(self) -> usize {
        match self {
            Placement::Leaf { depth, .. } => depth,
            Placement::Centered { depth, .. } => depth,
        }
    }
}

/// From `idx` downwards every child is a node of the list, and no path is longer
/// than `height` nodes.
pub open spec fn bounded(nodes: Seq<ProcessTreeNode>, idx: usize, height: nat) -> bool
    decreases height,
{
    &&& height > 0
    &&& idx < nodes.len()
    &&& forall|k: int|
        0 <= k < nodes[idx as int].children@.len() ==> bounded(
            nodes,
            #[trigger] nodes[idx as int].children@[k],
            (height - 1) as nat,
        )
}

/// The plan of the subtree at `idx`: its children's subtrees in order, then
/// `idx` itself.
pub open spec fn subtree_plan(
    nodes: Seq<ProcessTreeNode>,
    idx: usize,
    depth: nat,
    height: nat,
) -> Seq<Placement>
    decreases height, 0nat,
{
    let children = nodes[idx as int].children@;
    if height == 0 {
        Seq::empty()
    } else if children.len() == 0 {
        seq![Placement::Leaf { node: idx, depth: depth as usize }]
    } else {
        forest_plan(nodes, children, depth + 1, (height - 1) as nat).push(
            Placement::Centered {
                node: idx,
                depth: depth as usize,
                first: children.first(),
                last: children.last(),
            },
        )
    }
}

/// The plans of the subtrees at `list`, one after the other.
pub open spec fn forest_plan(
    nodes: Seq<ProcessTreeNode>,
    list: Seq<usize>,
    depth: nat,
    height: nat,
) -> Seq<Placement>
    decreases height, list.len(),
{
    if list.len() == 0 {
        Seq::empty()
    } else {
        forest_plan(nodes, list.drop_last(), depth, height) + subtree_plan(
            nodes,
            list.last(),
            depth,
            height,
        )
    }
}

/// The plan of the whole tree.
pub open spec fn layout_plan(nodes: Seq<ProcessTreeNode>) -> Seq<Placement> {
    forest_plan(nodes, roots_of(nodes), 0, nodes.len())
}

fn layout_subtree(
    idx: usize,
    depth: usize,
    nodes: &Vec<ProcessTreeNode>,
    plan: &mut Vec<Placement>,
    Ghost(height): Ghost<nat>,
)
    requires
        bounded(nodes@, idx, height),
        depth + height <= usize::MAX,
    ensures
        final(plan)@ == old(plan)@ + subtree_plan(nodes@, idx, depth as nat, height),
    decreases height,
{
    let children = &nodes[idx].children;
    let n: usize = children.len();
    if n == 0 {
        plan.push(Placement::Leaf { node: idx, depth });
    } else {
        let ghost below = (height - 1) as nat;
        let mut k: usize = 0;
        while k < n
            invariant
                k <= n == children@.len(),
                children@ == nodes@[idx as int].children@,
                height > 0,
                below == height - 1,
                depth + height <= usize::MAX,
                n > 0,
                forall|j: int| 0 <= j < n ==> bounded(nodes@, #[trigger] children@[j], below),
                plan@ == old(plan)@ + forest_plan(
                    nodes@,
                    children@.take(k as int),
                    depth as nat + 1,
                    below,
                ),
            decreases n - k,
        {
            proof {
                assert(bounded(nodes@, children@[k as int], below));
                assert(children@.take(k + 1).drop_last() =~= children@.take(k as int));
            }
            layout_subtree(children[k], depth + 1, nodes, plan, Ghost(below));
            k += 1;
        }
        assert(children@.take(n as int) =~= children@);
        plan.push(
            Placement::Centered { node: idx, depth, first: children[0], last: children[n - 1] },
        );
    }
}

/// The plan that places the subtrees at `roots` side by side.
pub fn layout_tree(nodes: &Vec<ProcessTreeNode>, roots: &Vec<usize>) -> (plan: Vec<Placement>)
    requires
        forall|k: int|
            0 <= k < roots.len() ==> bounded(nodes@, #[trigger] roots@[k], nodes@.len()),
    ensures
        plan@ == forest_plan(nodes@, roots@, 0, nodes@.len()),
{
    let n: usize = nodes.len();
    let mut plan: Vec<Placement> = Vec::new();
    let mut k: usize = 0;
    while k < roots.len()
        invariant
            k <= roots.len(),
            n == nodes@.len(),
            forall|j: int|
                0 <= j < roots.len() ==> bounded(nodes@, #[trigger] roots@[j], nodes@.len()),
            plan@ == forest_plan(nodes@, roots@.take(k as int), 0, nodes@.len()),
        decreases roots.len() - k,
    {
        proof {
            assert(roots@.take(k + 1).drop_last() =~= roots@.take(k as int));
        }
        layout_subtree(roots[k], 0, nodes, &mut plan, Ghost(n as nat));
        k += 1;
    }
    assert(roots@.take(k as int) =~= roots@);
    plan
}

/// `i` is `k` steps below a node without a parent.
pub open spec fn at_level(nodes: Seq<ProcessTreeNode>, i: usize, k: nat) -> bool
    decreases k,
{
    &&& i < nodes.len()
    &&& if k == 0 {
        nodes[i as int].parent is None
    } else {
        nodes[i as int].parent matches Some(p) && at_level(nodes, p, (k - 1) as nat)
    }
}

/// The ancestor of `i`, `k` steps up.
pub open spec fn ancestor(nodes: Seq<ProcessTreeNode>, i: usize, k: nat) -> Option<usize>
    decreases k,
{
    if k == 0 {
        Some(i)
    } else {
        match nodes[i as int].parent {
            Some(p) => ancestor(nodes, p, (k - 1) as nat),
            None => None,
        }
    }
}

pub proof fn lemma_level_unique(nodes: Seq<ProcessTreeNode>, i: usize, k: nat, l: nat)
    requires
        at_level(nodes, i, k),
        at_level(nodes, i, l),
    ensures
        k == l,
    decreases k,
{
    if k > 0 && l > 0 {
        lemma_level_unique(nodes, nodes[i as int].parent->0, (k - 1) as nat, (l - 1) as nat);
    }
}

/// The path from the root down to `i`.
spec fn path_to(nodes: Seq<ProcessTreeNode>, i: usize, k: nat) -> Seq<usize>
    decreases k,
{
    if k == 0 {
        seq![i]
    } else {
        path_to(nodes, nodes[i as int].parent->0, (k - 1) as nat).push(i)
    }
}

proof fn lemma_path(nodes: Seq<ProcessTreeNode>, i: usize, k: nat)
    requires
        at_level(nodes, i, k),
    ensures
        path_to(nodes, i, k).len() == k + 1,
        forall|j: int| 0 <= j <= k ==> at_level(nodes, #[trigger] path_to(nodes, i, k)[j], j as nat),
    decreases k,
{
    if k > 0 {
        lemma_path(nodes, nodes[i as int].parent->0, (k - 1) as nat);
    }
}

/// A path down from a root visits no node twice, so it is no longer than the
/// list of nodes.
proof fn lemma_level_bound(nodes: Seq<ProcessTreeNode>, i: usize, k: nat)
    requires
        at_level(nodes, i, k),
    ensures
        k < nodes.len(),
{
    lemma_path(nodes, i, k);
    let path = path_to(nodes, i, k);
    let steps = path.map_values(|u: usize| u as int);
    assert forall|a: int, b: int| 0 <= a < steps.len() && 0 <= b < steps.len() && a != b implies
        steps[a] != steps[b] by {
        if steps[a] == steps[b] {
            assert(at_level(nodes, path[a], a as nat));
            assert(at_level(nodes, path[b], b as nat));
            lemma_level_unique(nodes, path[a], a as nat, b as nat);
        }
    }
    steps.unique_seq_to_set();
    let all = vstd::set_lib::set_int_range(0, nodes.len() as int);
    vstd::set_lib::lemma_int_range(0, nodes.len() as int);
    assert forall|x: int| steps.to_set().contains(x) implies all.contains(x) by {
        let a = choose|a: int| 0 <= a < steps.len() && steps[a] == x;
        assert(at_level(nodes, path[a], a as nat));
    }
    vstd::set_lib::lemma_len_subset(steps.to_set(), all);
}

proof fn lemma_bounded(nodes: Seq<ProcessTreeNode>, i: usize, k: nat, height: nat)
    requires
        linked(nodes),
        at_level(nodes, i, k),
        k + height >= nodes.len(),
    ensures
        bounded(nodes, i, height),
    decreases height,
{
    lemma_level_bound(nodes, i, k);
    let children = nodes[i as int].children@;
    assert forall|j: int| 0 <= j < children.len() implies bounded(
        nodes,
        #[trigger] children[j],
        (height - 1) as nat,
    ) by {
        lemma_children(nodes, i, j);
        lemma_bounded(nodes, children[j], k + 1, (height - 1) as nat);
    }
}

/// A tree whose links agree can be laid out from its roots: below a node without
/// a parent there is no cycle, whatever cycles the parent links of other nodes
/// make.
pub proof fn roots_can_be_laid_out(nodes: Seq<ProcessTreeNode>)
    requires
        linked(nodes),
    ensures
        forall|k: int|
            0 <= k < roots_of(nodes).len() ==> bounded(
                nodes,
                #[trigger] roots_of(nodes)[k],
                nodes.len(),
            ),
{
    assert forall|k: int| 0 <= k < roots_of(nodes).len() implies bounded(
        nodes,
        #[trigger] roots_of(nodes)[k],
        nodes.len(),
    ) by {
        lemma_roots(nodes);
        lemma_bounded(nodes, roots_of(nodes)[k], 0, nodes.len());
    }
}

/// Subtrees are laid out side by side: the plan of two lists of roots is the plan of
/// the one followed by that of the other.
pub proof fn plans_go_side_by_side(
    nodes: Seq<ProcessTreeNode>,
    a: Seq<usize>,
    b: Seq<usize>,
    depth: nat,
    height: nat,
)
    ensures
        forest_plan(nodes, a + b, depth, height) == forest_plan(nodes, a, depth, height)
            + forest_plan(nodes, b, depth, height),
    decreases b.len(),
{
    let all = a + b;
    if b.len() == 0 {
        assert(all =~= a);
        assert(forest_plan(nodes, a, depth, height) + forest_plan(nodes, b, depth, height)
            =~= forest_plan(nodes, a, depth, height));
    } else {
        plans_go_side_by_side(nodes, a, b.drop_last(), depth, height);
        assert(all.drop_last() =~= a + b.drop_last());
        assert(all.last() == b.last());
        assert(forest_plan(nodes, all, depth, height) =~= forest_plan(nodes, a, depth, height)
            + forest_plan(nodes, b, depth, height));
    }
}

/// The plan of a single node: one without children is placed as a leaf of its row;
/// any other is placed after its children, which go to the row below in their order,
/// and centered over the first and the last of them.
pub proof fn plans_go_children_first(
    nodes: Seq<ProcessTreeNode>,
    idx: usize,
    depth: usize,
    height: nat,
)
    requires
        height > 0,
    ensures
        nodes[idx as int].children@.len() == 0 ==> forest_plan(
            nodes,
            seq![idx],
            depth as nat,
            height,
        ) == seq![Placement::Leaf { node: idx, depth }],
        nodes[idx as int].children@.len() > 0 ==> forest_plan(
            nodes,
            seq![idx],
            depth as nat,
            height,
        ) == forest_plan(
            nodes,
            nodes[idx as int].children@,
            depth as nat + 1,
            (height - 1) as nat,
        ) + seq![
            Placement::Centered {
                node: idx,
                depth,
                first: nodes[idx as int].children@[0],
                last: nodes[idx as int].children@[nodes[idx as int].children@.len() - 1],
            },
        ],
{
    let one = seq![idx];
    assert(one.drop_last() =~= Seq::empty());
    assert(one.last() == idx);
    let own = subtree_plan(nodes, idx, depth as nat, height);
    assert(forest_plan(nodes, one.drop_last(), depth as nat, height) =~= Seq::empty());
    assert(forest_plan(nodes, one, depth as nat, height) =~= own);
    if nodes[idx as int].children@.len() > 0 {
        assert(own =~= forest_plan(
            nodes,
            nodes[idx as int].children@,
            depth as nat + 1,
            (height - 1) as nat,
        ) + seq![own.last()]);
    }
}

/// The whole tree is laid out from its roots, which stand in the top row.
pub proof fn trees_are_laid_out_from_their_roots(nodes: Seq<ProcessTreeNode>)
    ensures
        layout_plan(nodes) == forest_plan(nodes, roots_of(nodes), 0, nodes.len()),
{
}

/// A node of the list can be laid out in `height` rows exactly when each of its
/// children can be laid out in one row less.
pub proof fn bounded_by_children(nodes: Seq<ProcessTreeNode>, idx: usize, height: nat)
    ensures
        bounded(nodes, idx, height + 1) <==> idx < nodes.len() && forall|k: int|
            0 <= k < nodes[idx as int].children@.len() ==> bounded(
                nodes,
                #[trigger] nodes[idx as int].children@[k],
                height,
            ),
        !bounded(nodes, idx, 0),
{
}

} // verus!
