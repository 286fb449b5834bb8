//! Where a layout plan puts the nodes, and what holds of the picture.

use vstd::prelude::*;

use crate::layout::{
    ancestor, at_level, bounded, forest_plan, layout_plan, lemma_level_unique,
    roots_can_be_laid_out, subtree_plan, Placement,
};
use crate::tree::{lemma_children, lemma_is_child, lemma_roots, linked, roots_of, ProcessTreeNode};

verus! {

/// A point of the canvas.
pub ghost struct Point {
    pub x: real,
    pub y: real,
}

/// The canvas after some placements: where the nodes placed so far are, and how
/// many columns are taken.
pub ghost struct Canvas {
    pub at: Map<usize, Point>,
    pub columns: nat,
}

/// The horizontal position of a column.
pub open spec fn column_x(column: int) -> real {
    column as real * 140real
}

/// The vertical position of a row.
pub open spec fn row_y(row: usize) -> real {
    row as real * 100real
}

pub open spec fn place(canvas: Canvas, step: Placement) -> Canvas {
    match step {
        Placement::Leaf { node, depth } => Canvas {
            at: canvas.at.insert(
                node,
                Point { x: column_x(canvas.columns as int), y: row_y(depth) },
            ),
            columns: canvas.columns + 1,
        },
        Placement::Centered { node, depth, first, last } => Canvas {
            at: canvas.at.insert(
                node,
                Point {
                    x: (canvas.at[first].x + canvas.at[last].x) / 2real,
                    y: row_y(depth),
                },
            ),
            columns: canvas.columns,
        },
    }
}

/// The canvas after the placements of `plan`, in order, on `canvas`.
pub open spec fn run(canvas: Canvas, plan: Seq<Placement>) -> Canvas
    decreases plan.len(),
{
    if plan.len() == 0 {
        canvas
    } else {
        place(run(canvas, plan.drop_last()), plan.last())
    }
}

pub open spec fn blank() -> Canvas {
    Canvas { at: Map::empty(), columns: 0 }
}

/// The plan that places the subtrees at `roots` side by side.
pub open spec fn plan_of(nodes: Seq<ProcessTreeNode>, roots: Seq<usize>) -> Seq<Placement> {
    forest_plan(nodes, roots, 0, nodes.len())
}

/// Where the layout of the subtrees at `roots` puts their nodes.
pub open spec fn picture(nodes: Seq<ProcessTreeNode>, roots: Seq<usize>) -> Map<usize, Point> {
    run(blank(), plan_of(nodes, roots)).at
}

/// Where the layout of a tree puts its nodes.
pub open spec fn positions(nodes: Seq<ProcessTreeNode>) -> Map<usize, Point> {
    run(blank(), layout_plan(nodes)).at
}

proof fn lemma_run_append(canvas: Canvas, p: Seq<Placement>, q: Seq<Placement>)
    ensures
        run(canvas, p + q) == run(run(canvas, p), q),
    decreases q.len(),
{
    if q.len() == 0 {
        assert(p + q =~= p);
    } else {
        lemma_run_append(canvas, p, q.drop_last());
        assert((p + q).drop_last() =~= p + q.drop_last());
        assert((p + q).last() == q.last());
    }
}

/// `plan` places `node`.
pub open spec fn covers(plan: Seq<Placement>, node: usize) -> bool {
    exists|k: int| 0 <= k < plan.len() && (#[trigger] plan[k]).node() == node
}

/// `plan` places `node` in row `depth`.
pub open spec fn places(plan: Seq<Placement>, node: usize, depth: nat) -> bool {
    exists|k: int|
        0 <= k < plan.len() && (#[trigger] plan[k]).node() == node && plan[k].depth() == depth
}

/// The step places a node without children as a leaf, and any other between its
/// first and its last child.
pub open spec fn fits(nodes: Seq<ProcessTreeNode>, step: Placement) -> bool {
    let children = nodes[step.node() as int].children@;
    match step {
        Placement::Leaf { .. } => children.len() == 0,
        Placement::Centered { first, last, .. } => {
            &&& children.len() > 0
            &&& first == children.first()
            &&& last == children.last()
        },
    }
}

/// What a plan for part of the tree says: each step places a node that is as deep
/// as its row, below the node or nodes that the plan is for.
spec fn descends(
    nodes: Seq<ProcessTreeNode>,
    plan: Seq<Placement>,
    tops: Seq<usize>,
    depth: nat,
) -> bool {
    forall|k: int|
        0 <= k < plan.len() ==> {
            let s = #[trigger] plan[k];
            &&& fits(nodes, s)
            &&& at_level(nodes, s.node(), s.depth() as nat)
            &&& s.depth() >= depth
            &&& ancestor(nodes, s.node(), (s.depth() - depth) as nat) matches Some(a)
                && tops.contains(a)
        }
}

/// The subtrees at `roots` can be laid out, and no node is in two places.
pub open spec fn drawable(nodes: Seq<ProcessTreeNode>, roots: Seq<usize>) -> bool {
    &&& nodes.len() <= usize::MAX
    &&& forall|k: int| 0 <= k < roots.len() ==> bounded(nodes, #[trigger] roots[k], nodes.len())
    &&& distinct(plan_of(nodes, roots))
}

/// `i` is one of the children of `p`.
pub open spec fn is_child_of(nodes: Seq<ProcessTreeNode>, i: usize, p: usize) -> bool {
    p < nodes.len() && nodes[p as int].children@.contains(i)
}

/// `i` is reached from one of `roots` by `k` steps from a node to one of its
/// children.
pub open spec fn reached(nodes: Seq<ProcessTreeNode>, roots: Seq<usize>, i: usize, k: nat) -> bool
    decreases k,
{
    if k == 0 {
        roots.contains(i)
    } else {
        exists|p: usize| #[trigger]
            is_child_of(nodes, i, p) && reached(nodes, roots, p, (k - 1) as nat)
    }
}

/// No node is placed twice.
pub open spec fn distinct(plan: Seq<Placement>) -> bool {
    forall|k: int, l: int|
        0 <= k < l < plan.len() ==> (#[trigger] plan[k]).node() != (#[trigger] plan[l]).node()
}

proof fn lemma_ancestor_step(nodes: Seq<ProcessTreeNode>, i: usize, k: nat, c: usize, p: usize)
    requires
        ancestor(nodes, i, k) == Some(c),
        nodes[c as int].parent == Some(p),
    ensures
        ancestor(nodes, i, k + 1) == Some(p),
    decreases k,
{
    if k == 0 {
        assert(ancestor(nodes, p, 0) == Some(p));
    } else {
        lemma_ancestor_step(nodes, nodes[i as int].parent->0, (k - 1) as nat, c, p);
    }
}

/// Plans for disjoint parts of the same row place no node in common.
proof fn lemma_disjoint(
    nodes: Seq<ProcessTreeNode>,
    p: Seq<Placement>,
    q: Seq<Placement>,
    a: Seq<usize>,
    b: Seq<usize>,
    depth: nat,
)
    requires
        descends(nodes, p, a, depth),
        descends(nodes, q, b, depth),
        forall|u: usize| a.contains(u) ==> !b.contains(u),
    ensures
        forall|k: int, l: int|
            0 <= k < p.len() && 0 <= l < q.len() ==> (#[trigger] p[k]).node()
                != (#[trigger] q[l]).node(),
{
    assert forall|k: int, l: int| 0 <= k < p.len() && 0 <= l < q.len() implies (
    #[trigger] p[k]).node() != (#[trigger] q[l]).node() by {
        if p[k].node() == q[l].node() {
            lemma_level_unique(nodes, p[k].node(), p[k].depth() as nat, q[l].depth() as nat);
        }
    }
}

proof fn lemma_subtree_shape(nodes: Seq<ProcessTreeNode>, idx: usize, depth: nat, height: nat)
    requires
        linked(nodes),
        bounded(nodes, idx, height),
        at_level(nodes, idx, depth),
        depth + height <= usize::MAX,
    ensures
        descends(nodes, subtree_plan(nodes, idx, depth, height), seq![idx], depth),
        distinct(subtree_plan(nodes, idx, depth, height)),
        subtree_plan(nodes, idx, depth, height).len() > 0,
        subtree_plan(nodes, idx, depth, height).last().node() == idx,
        subtree_plan(nodes, idx, depth, height).last().depth() == depth,
    decreases height, 0nat,
{
    let plan = subtree_plan(nodes, idx, depth, height);
    let children = nodes[idx as int].children@;
    let own = seq![idx];
    assert(own[0] == idx);
    assert(own.contains(idx));
    assert(ancestor(nodes, idx, 0) == Some(idx));
    if children.len() > 0 {
        let inner = forest_plan(nodes, children, depth + 1, (height - 1) as nat);
        lemma_child_list(nodes, idx, depth, height);
        lemma_forest_shape(nodes, children, depth + 1, (height - 1) as nat);
        assert(plan.drop_last() =~= inner);
        assert forall|k: int| 0 <= k < inner.len() implies {
            let s = #[trigger] inner[k];
            &&& fits(nodes, s)
            &&& at_level(nodes, s.node(), s.depth() as nat)
            &&& s.depth() >= depth + 1
            &&& ancestor(nodes, s.node(), (s.depth() - depth) as nat) == Some(idx)
        } by {
            let s = inner[k];
            let up = (s.depth() - (depth + 1)) as nat;
            let c = ancestor(nodes, s.node(), up)->0;
            let j = choose|j: int| 0 <= j < children.len() && children[j] == c;
            lemma_children(nodes, idx, j);
            lemma_ancestor_step(nodes, s.node(), up, c, idx);
            assert(up + 1 == s.depth() - depth);
        }
        assert forall|k: int| 0 <= k < plan.len() implies {
            let s = #[trigger] plan[k];
            &&& fits(nodes, s)
            &&& at_level(nodes, s.node(), s.depth() as nat)
            &&& s.depth() >= depth
            &&& ancestor(nodes, s.node(), (s.depth() - depth) as nat) matches Some(a)
                && own.contains(a)
        } by {
            if k < inner.len() {
                assert(plan[k] == inner[k]);
            }
        }
        assert forall|k: int, l: int| 0 <= k < l < plan.len() implies (#[trigger] plan[k]).node()
            != (#[trigger] plan[l]).node() by {
            assert(plan[k] == inner[k]);
            if l < inner.len() {
                assert(plan[l] == inner[l]);
            } else if inner[k].node() == idx {
                lemma_level_unique(nodes, idx, depth, inner[k].depth() as nat);
            }
        }
    }
}

/// The children of a node qualify for a plan of their own, one row below.
proof fn lemma_child_list(nodes: Seq<ProcessTreeNode>, idx: usize, depth: nat, height: nat)
    requires
        linked(nodes),
        bounded(nodes, idx, height),
        at_level(nodes, idx, depth),
    ensures
        nodes[idx as int].children@.no_duplicates(),
        forall|j: int|
            0 <= j < nodes[idx as int].children@.len() ==> {
                let c = #[trigger] nodes[idx as int].children@[j];
                &&& bounded(nodes, c, (height - 1) as nat)
                &&& at_level(nodes, c, depth + 1)
                &&& nodes[c as int].parent == Some(idx)
            },
{
    lemma_is_child(nodes, idx);
    let children = nodes[idx as int].children@;
    assert forall|j: int| 0 <= j < children.len() implies {
        let c = #[trigger] children[j];
        &&& bounded(nodes, c, (height - 1) as nat)
        &&& at_level(nodes, c, depth + 1)
        &&& nodes[c as int].parent == Some(idx)
    } by {
        lemma_children(nodes, idx, j);
    }
}

proof fn lemma_forest_shape(
    nodes: Seq<ProcessTreeNode>,
    list: Seq<usize>,
    depth: nat,
    height: nat,
)
    requires
        linked(nodes),
        list.no_duplicates(),
        forall|j: int|
            0 <= j < list.len() ==> bounded(nodes, #[trigger] list[j], height) && at_level(
                nodes,
                list[j],
                depth,
            ),
        depth + height <= usize::MAX,
    ensures
        descends(nodes, forest_plan(nodes, list, depth, height), list, depth),
        distinct(forest_plan(nodes, list, depth, height)),
    decreases height, list.len() + 1,
{
    if list.len() > 0 {
        let front = list.drop_last();
        let last = list.last();
        let p = forest_plan(nodes, front, depth, height);
        let q = subtree_plan(nodes, last, depth, height);
        lemma_forest_shape(nodes, front, depth, height);
        lemma_subtree_shape(nodes, last, depth, height);
        let own = seq![last];
        assert forall|u: usize| front.contains(u) implies !own.contains(u) by {
            let j = choose|j: int| 0 <= j < front.len() && front[j] == u;
            assert(list[j] == u);
        }
        lemma_disjoint(nodes, p, q, front, own, depth);
        let plan = p + q;
        assert forall|k: int| 0 <= k < plan.len() implies {
            let s = #[trigger] plan[k];
            &&& fits(nodes, s)
            &&& at_level(nodes, s.node(), s.depth() as nat)
            &&& s.depth() >= depth
            &&& ancestor(nodes, s.node(), (s.depth() - depth) as nat) matches Some(a)
                && list.contains(a)
        } by {
            let s = plan[k];
            if k < p.len() {
                assert(s == p[k]);
                let a = ancestor(nodes, s.node(), (s.depth() - depth) as nat)->0;
                let j = choose|j: int| 0 <= j < front.len() && front[j] == a;
                assert(list[j] == a);
            } else {
                assert(s == q[k - p.len()]);
                assert(list[list.len() - 1] == last);
            }
        }
        assert forall|k: int, l: int| 0 <= k < l < plan.len() implies (#[trigger] plan[k]).node()
            != (#[trigger] plan[l]).node() by {
            if l < p.len() {
                assert(plan[k] == p[k] && plan[l] == p[l]);
            } else if k >= p.len() {
                assert(plan[k] == q[k - p.len()] && plan[l] == q[l - p.len()]);
            } else {
                assert(plan[k] == p[k] && plan[l] == q[l - p.len()]);
            }
        }
    }
}

/// The columns that a plan takes: one for each leaf.
pub open spec fn leaf_count(plan: Seq<Placement>) -> nat
    decreases plan.len(),
{
    if plan.len() == 0 {
        0
    } else {
        leaf_count(plan.drop_last()) + (if plan.last() is Leaf {
            1nat
        } else {
            0nat
        })
    }
}

proof fn lemma_leaf_count_append(p: Seq<Placement>, q: Seq<Placement>)
    ensures
        leaf_count(p + q) == leaf_count(p) + leaf_count(q),
    decreases q.len(),
{
    if q.len() == 0 {
        assert(p + q =~= p);
    } else {
        lemma_leaf_count_append(p, q.drop_last());
        assert((p + q).drop_last() =~= p + q.drop_last());
    }
}

/// Placements take their columns one after the other, and touch no node that the
/// plan does not place.
proof fn lemma_run(canvas: Canvas, plan: Seq<Placement>)
    ensures
        run(canvas, plan).columns == canvas.columns + leaf_count(plan),
        forall|i: usize| #[trigger]
            run(canvas, plan).at.contains_key(i) <==> canvas.at.contains_key(i) || covers(plan, i),
        forall|i: usize|
            !covers(plan, i) ==> #[trigger] run(canvas, plan).at[i] == canvas.at[i],
    decreases plan.len(),
{
    if plan.len() > 0 {
        let front = plan.drop_last();
        lemma_run(canvas, front);
        assert forall|i: usize| covers(plan, i) <==> covers(front, i) || plan.last().node() == i by {
            if covers(front, i) {
                let k = choose|k: int| 0 <= k < front.len() && (#[trigger] front[k]).node() == i;
                assert(plan[k].node() == i);
            }
            if covers(plan, i) {
                let k = choose|k: int| 0 <= k < plan.len() && (#[trigger] plan[k]).node() == i;
                if k < front.len() {
                    assert(front[k].node() == i);
                }
            }
            if plan.last().node() == i {
                assert(plan[plan.len() - 1].node() == i);
            }
        }
    }
}

/// The nodes of `plan` are where it puts them, in the columns `from..to`, and
/// those of a row stand a column apart, from left to right.
#[verifier::opaque]
spec fn arranged(at: Map<usize, Point>, plan: Seq<Placement>, from: nat, to: nat) -> bool {
    &&& forall|k: int|
        0 <= k < plan.len() ==> {
            let s = #[trigger] plan[k];
            &&& at.contains_key(s.node())
            &&& column_x(from as int) <= at[s.node()].x
            &&& at[s.node()].x <= column_x(to - 1)
            &&& at[s.node()].y == row_y(s.depth())
            &&& s is Leaf ==> at[s.node()].x == column_x((from + leaf_count(plan.take(k))) as int)
            &&& s matches Placement::Centered { first, last, .. } ==> {
                &&& covers(plan, first)
                &&& covers(plan, last)
                &&& at[first].x <= at[last].x
                &&& at[s.node()].x == (at[first].x + at[last].x) / 2real
            }
        }
    &&& forall|k: int, l: int|
        0 <= k < l < plan.len() && (#[trigger] plan[k]).depth() == (#[trigger] plan[l]).depth()
            ==> at[plan[l].node()].x >= at[plan[k].node()].x + 140real
}

proof fn lemma_arranged_frame(
    before: Map<usize, Point>,
    after: Map<usize, Point>,
    plan: Seq<Placement>,
    from: nat,
    to: nat,
)
    requires
        arranged(before, plan, from, to),
        forall|i: usize|
            covers(plan, i) ==> #[trigger] after.contains_key(i) && after[i] == before[i],
    ensures
        arranged(after, plan, from, to),
{
    reveal(arranged);
    assert forall|k: int| 0 <= k < plan.len() implies covers(plan, (#[trigger] plan[k]).node()) by {}
    assert forall|k: int| 0 <= k < plan.len() implies {
        let s = #[trigger] plan[k];
        after.contains_key(s.node()) && after[s.node()] == before[s.node()]
    } by {
        assert(covers(plan, plan[k].node()));
    }
}

/// The plan of a forest places the tops of its trees, in its first row.
proof fn lemma_forest_tops(
    nodes: Seq<ProcessTreeNode>,
    list: Seq<usize>,
    depth: nat,
    height: nat,
    j: int,
)
    requires
        height > 0,
        depth <= usize::MAX,
        0 <= j < list.len(),
    ensures
        places(forest_plan(nodes, list, depth, height), list[j], depth),
    decreases list.len(),
{
    let front = list.drop_last();
    let p = forest_plan(nodes, front, depth, height);
    let q = subtree_plan(nodes, list.last(), depth, height);
    if j == list.len() - 1 {
        assert(q.last().node() == list[j]);
        assert((p + q)[p.len() + q.len() - 1] == q.last());
    } else {
        lemma_forest_tops(nodes, front, depth, height, j);
        let k = choose|k: int|
            0 <= k < p.len() && (#[trigger] p[k]).node() == list[j] && p[k].depth() == depth;
        assert((p + q)[k] == p[k]);
    }
}

/// Each step of a plan fits its node, and goes to one of the rows that the plan is
/// for.
proof fn lemma_subtree_steps(nodes: Seq<ProcessTreeNode>, idx: usize, depth: nat, height: nat)
    requires
        depth + height <= usize::MAX,
    ensures
        forall|k: int|
            0 <= k < subtree_plan(nodes, idx, depth, height).len() ==> {
                let s = #[trigger] subtree_plan(nodes, idx, depth, height)[k];
                fits(nodes, s) && depth <= s.depth() < depth + height
            },
    decreases height, 0nat,
{
    let children = nodes[idx as int].children@;
    if height > 0 && children.len() > 0 {
        let plan = subtree_plan(nodes, idx, depth, height);
        let inner = forest_plan(nodes, children, depth + 1, (height - 1) as nat);
        lemma_forest_steps(nodes, children, depth + 1, (height - 1) as nat);
        assert forall|k: int| 0 <= k < plan.len() implies {
            let s = #[trigger] plan[k];
            fits(nodes, s) && depth <= s.depth() < depth + height
        } by {
            if k < inner.len() {
                assert(plan[k] == inner[k]);
            }
        }
    }
}

proof fn lemma_forest_steps(
    nodes: Seq<ProcessTreeNode>,
    list: Seq<usize>,
    depth: nat,
    height: nat,
)
    requires
        depth + height <= usize::MAX,
    ensures
        forall|k: int|
            0 <= k < forest_plan(nodes, list, depth, height).len() ==> {
                let s = #[trigger] forest_plan(nodes, list, depth, height)[k];
                fits(nodes, s) && depth <= s.depth() < depth + height
            },
    decreases height, list.len() + 1,
{
    if list.len() > 0 {
        let p = forest_plan(nodes, list.drop_last(), depth, height);
        let q = subtree_plan(nodes, list.last(), depth, height);
        lemma_forest_steps(nodes, list.drop_last(), depth, height);
        lemma_subtree_steps(nodes, list.last(), depth, height);
        assert forall|k: int| 0 <= k < (p + q).len() implies {
            let s = #[trigger] (p + q)[k];
            fits(nodes, s) && depth <= s.depth() < depth + height
        } by {
            if k < p.len() {
                assert((p + q)[k] == p[k]);
            } else {
                assert((p + q)[k] == q[k - p.len()]);
            }
        }
    }
}

/// Parts of a plan that places no node twice place no node twice, nor one in
/// common.
proof fn lemma_distinct_parts(p: Seq<Placement>, q: Seq<Placement>)
    requires
        distinct(p + q),
    ensures
        distinct(p),
        distinct(q),
        forall|i: usize| #[trigger] covers(p, i) ==> !covers(q, i),
{
    let plan = p + q;
    assert forall|k: int, l: int| 0 <= k < l < p.len() implies (#[trigger] p[k]).node() != (
    #[trigger] p[l]).node() by {
        assert(plan[k] == p[k] && plan[l] == p[l]);
    }
    assert forall|k: int, l: int| 0 <= k < l < q.len() implies (#[trigger] q[k]).node() != (
    #[trigger] q[l]).node() by {
        assert(plan[p.len() + k] == q[k] && plan[p.len() + l] == q[l]);
    }
    assert forall|i: usize| #[trigger] covers(p, i) implies !covers(q, i) by {
        let k = choose|k: int| 0 <= k < p.len() && (#[trigger] p[k]).node() == i;
        if covers(q, i) {
            let l = choose|l: int| 0 <= l < q.len() && (#[trigger] q[l]).node() == i;
            assert(plan[k] == p[k] && plan[p.len() + l] == q[l]);
        }
    }
}

/// Two plans arranged side by side are arranged together.
proof fn lemma_arranged_append(
    at: Map<usize, Point>,
    p: Seq<Placement>,
    q: Seq<Placement>,
    from: nat,
    mid: nat,
    to: nat,
)
    requires
        arranged(at, p, from, mid),
        arranged(at, q, mid, to),
        mid == from + leaf_count(p),
        mid <= to,
    ensures
        arranged(at, p + q, from, to),
{
    reveal(arranged);
    let plan = p + q;
    assert forall|i: usize| covers(p, i) || covers(q, i) implies covers(plan, i) by {
        if covers(p, i) {
            let k = choose|k: int| 0 <= k < p.len() && (#[trigger] p[k]).node() == i;
            assert(plan[k].node() == i);
        } else {
            let k = choose|k: int| 0 <= k < q.len() && (#[trigger] q[k]).node() == i;
            assert(plan[p.len() + k].node() == i);
        }
    }
    assert forall|k: int| 0 <= k < plan.len() implies {
        let s = #[trigger] plan[k];
        &&& at.contains_key(s.node())
        &&& column_x(from as int) <= at[s.node()].x
        &&& at[s.node()].x <= column_x(to - 1)
        &&& at[s.node()].y == row_y(s.depth())
        &&& s is Leaf ==> at[s.node()].x == column_x((from + leaf_count(plan.take(k))) as int)
        &&& s matches Placement::Centered { first, last, .. } ==> {
            &&& covers(plan, first)
            &&& covers(plan, last)
            &&& at[first].x <= at[last].x
            &&& at[s.node()].x == (at[first].x + at[last].x) / 2real
        }
    } by {
        if k < p.len() {
            assert(plan[k] == p[k]);
            assert(plan.take(k) =~= p.take(k));
        } else {
            let l = k - p.len();
            assert(plan[k] == q[l]);
            assert(plan.take(k) =~= p + q.take(l));
            lemma_leaf_count_append(p, q.take(l));
        }
    }
    assert forall|k: int, l: int|
        0 <= k < l < plan.len() && (#[trigger] plan[k]).depth() == (#[trigger] plan[l]).depth()
        implies at[plan[l].node()].x >= at[plan[k].node()].x + 140real by {
        if l < p.len() {
            assert(plan[k] == p[k] && plan[l] == p[l]);
        } else if k >= p.len() {
            assert(plan[k] == q[k - p.len()] && plan[l] == q[l - p.len()]);
        } else {
            assert(plan[k] == p[k] && plan[l] == q[l - p.len()]);
        }
    }
}

/// A plan stays arranged when a node above all of its rows is centered over two
/// of its nodes.
proof fn lemma_arranged_push(
    at: Map<usize, Point>,
    inner: Seq<Placement>,
    node: usize,
    depth: usize,
    first: usize,
    last: usize,
    from: nat,
    to: nat,
)
    requires
        arranged(at, inner, from, to),
        covers(inner, first),
        covers(inner, last),
        forall|k: int| 0 <= k < inner.len() ==> (#[trigger] inner[k]).depth() > depth,
        at.contains_key(node),
        at[first].x <= at[last].x,
        at[node].x == (at[first].x + at[last].x) / 2real,
        at[node].y == row_y(depth),
    ensures
        arranged(at, inner.push(Placement::Centered { node, depth, first, last }), from, to),
{
    reveal(arranged);
    let step = Placement::Centered { node, depth, first, last };
    let plan = inner.push(step);
    let a = choose|k: int| 0 <= k < inner.len() && (#[trigger] inner[k]).node() == first;
    let b = choose|k: int| 0 <= k < inner.len() && (#[trigger] inner[k]).node() == last;
    assert forall|i: usize| covers(inner, i) implies covers(plan, i) by {
        let k = choose|k: int| 0 <= k < inner.len() && (#[trigger] inner[k]).node() == i;
        assert(plan[k].node() == i);
    }
    assert forall|k: int| 0 <= k < plan.len() implies {
        let s = #[trigger] plan[k];
        &&& at.contains_key(s.node())
        &&& column_x(from as int) <= at[s.node()].x
        &&& at[s.node()].x <= column_x(to - 1)
        &&& at[s.node()].y == row_y(s.depth())
        &&& s is Leaf ==> at[s.node()].x == column_x((from + leaf_count(plan.take(k))) as int)
        &&& s matches Placement::Centered { first, last, .. } ==> {
            &&& covers(plan, first)
            &&& covers(plan, last)
            &&& at[first].x <= at[last].x
            &&& at[s.node()].x == (at[first].x + at[last].x) / 2real
        }
    } by {
        if k < inner.len() {
            assert(plan[k] == inner[k]);
            assert(plan.take(k) =~= inner.take(k));
        }
    }
    assert forall|k: int, l: int|
        0 <= k < l < plan.len() && (#[trigger] plan[k]).depth() == (#[trigger] plan[l]).depth()
        implies at[plan[l].node()].x >= at[plan[k].node()].x + 140real by {
        assert(plan[k] == inner[k]);
        if l < inner.len() {
            assert(plan[l] == inner[l]);
        }
    }
}

proof fn lemma_subtree_arranged(
    nodes: Seq<ProcessTreeNode>,
    idx: usize,
    depth: nat,
    height: nat,
    canvas: Canvas,
)
    requires
        bounded(nodes, idx, height),
        depth + height <= usize::MAX,
        distinct(subtree_plan(nodes, idx, depth, height)),
    ensures
        ({
            let plan = subtree_plan(nodes, idx, depth, height);
            let after = run(canvas, plan);
            &&& arranged(after.at, plan, canvas.columns, after.columns)
            &&& after.columns > canvas.columns
        }),
    decreases height, 0nat,
{
    let plan = subtree_plan(nodes, idx, depth, height);
    let children = nodes[idx as int].children@;
    let after = run(canvas, plan);
    if children.len() == 0 {
        assert(plan.drop_last() =~= Seq::empty());
        assert(run(canvas, plan.drop_last()) == canvas);
        assert(plan.take(0) =~= Seq::empty());
        assert(leaf_count(plan.take(0)) == 0);
        reveal(arranged);
    } else {
        let below = (height - 1) as nat;
        let inner = forest_plan(nodes, children, depth + 1, below);
        let mid = run(canvas, inner);
        assert(bounded(nodes, nodes[idx as int].children@[0], below));
        assert(plan =~= inner + seq![plan.last()]);
        lemma_distinct_parts(inner, seq![plan.last()]);
        assert(covers(seq![plan.last()], idx)) by {
            assert(seq![plan.last()][0].node() == idx);
        }
        lemma_forest_arranged(nodes, children, depth + 1, below, canvas);
        lemma_forest_steps(nodes, children, depth + 1, below);
        lemma_forest_tops(nodes, children, depth + 1, below, 0);
        lemma_forest_tops(nodes, children, depth + 1, below, children.len() - 1);
        lemma_run(canvas, inner);
        assert(plan.drop_last() =~= inner);
        lemma_tops_in_order(nodes, children, depth + 1, below, mid.at, canvas.columns, mid.columns);
        lemma_arranged_frame(mid.at, after.at, inner, canvas.columns, after.columns);
        lemma_arranged_push(
            after.at,
            inner,
            idx,
            depth as usize,
            children.first(),
            children.last(),
            canvas.columns,
            after.columns,
        );
    }
}

/// The first of the trees of a forest stands no further right than the last.
proof fn lemma_tops_in_order(
    nodes: Seq<ProcessTreeNode>,
    list: Seq<usize>,
    depth: nat,
    height: nat,
    at: Map<usize, Point>,
    from: nat,
    to: nat,
)
    requires
        height > 0,
        depth <= usize::MAX,
        list.len() > 0,
        arranged(at, forest_plan(nodes, list, depth, height), from, to),
    ensures
        at[list.first()].x <= at[list.last()].x,
{
    if list.len() > 1 {
        reveal(arranged);
        let front = list.drop_last();
        let p = forest_plan(nodes, front, depth, height);
        let q = subtree_plan(nodes, list.last(), depth, height);
        let plan = forest_plan(nodes, list, depth, height);
        lemma_forest_tops(nodes, front, depth, height, 0);
        let k = choose|k: int|
            0 <= k < p.len() && (#[trigger] p[k]).node() == front[0] && p[k].depth() == depth;
        let l = plan.len() - 1;
        assert(plan[k] == p[k]);
        assert(plan[l] == q[q.len() - 1]);
        assert(plan[l].node() == list.last() && plan[l].depth() == depth);
        assert(plan[k].depth() == plan[l].depth());
    }
}

proof fn lemma_forest_arranged(
    nodes: Seq<ProcessTreeNode>,
    list: Seq<usize>,
    depth: nat,
    height: nat,
    canvas: Canvas,
)
    requires
        forall|j: int| 0 <= j < list.len() ==> bounded(nodes, #[trigger] list[j], height),
        depth + height <= usize::MAX,
        distinct(forest_plan(nodes, list, depth, height)),
    ensures
        ({
            let plan = forest_plan(nodes, list, depth, height);
            let after = run(canvas, plan);
            &&& arranged(after.at, plan, canvas.columns, after.columns)
            &&& list.len() > 0 ==> after.columns > canvas.columns
        }),
    decreases height, list.len() + 1,
{
    if list.len() == 0 {
        reveal(arranged);
    } else {
        let front = list.drop_last();
        let p = forest_plan(nodes, front, depth, height);
        let q = subtree_plan(nodes, list.last(), depth, height);
        let mid = run(canvas, p);
        let after = run(mid, q);
        assert(bounded(nodes, list[list.len() - 1], height));
        lemma_distinct_parts(p, q);
        lemma_forest_arranged(nodes, front, depth, height, canvas);
        lemma_subtree_arranged(nodes, list.last(), depth, height, mid);
        lemma_run_append(canvas, p, q);
        lemma_run(canvas, p);
        lemma_run(mid, q);
        assert forall|i: usize| covers(p, i) implies #[trigger] after.at.contains_key(i)
            && after.at[i] == mid.at[i] by {}
        lemma_arranged_frame(mid.at, after.at, p, canvas.columns, mid.columns);
        lemma_arranged_append(after.at, p, q, canvas.columns, mid.columns, after.columns);
    }
}

/// A plan that places a node places its children, one row below.
proof fn lemma_subtree_closed(
    nodes: Seq<ProcessTreeNode>,
    idx: usize,
    depth: nat,
    height: nat,
    p: usize,
    d: nat,
    c: usize,
)
    requires
        bounded(nodes, idx, height),
        depth + height <= usize::MAX,
        nodes[p as int].children@.contains(c),
        places(subtree_plan(nodes, idx, depth, height), p, d),
    ensures
        places(subtree_plan(nodes, idx, depth, height), c, d + 1),
    decreases height, 0nat,
{
    let plan = subtree_plan(nodes, idx, depth, height);
    let children = nodes[idx as int].children@;
    let k = choose|k: int|
        0 <= k < plan.len() && (#[trigger] plan[k]).node() == p && plan[k].depth() == d;
    if children.len() > 0 {
        let below = (height - 1) as nat;
        let inner = forest_plan(nodes, children, depth + 1, below);
        assert(bounded(nodes, nodes[idx as int].children@[0], below));
        assert(plan.drop_last() =~= inner);
        if k == inner.len() {
            let j = choose|j: int| 0 <= j < children.len() && children[j] == c;
            lemma_forest_tops(nodes, children, depth + 1, below, j);
        } else {
            assert(inner[k] == plan[k]);
            lemma_forest_closed(nodes, children, depth + 1, below, p, d, c);
        }
        let l = choose|l: int|
            0 <= l < inner.len() && (#[trigger] inner[l]).node() == c && inner[l].depth() == d + 1;
        assert(plan[l] == inner[l]);
    }
}

proof fn lemma_forest_closed(
    nodes: Seq<ProcessTreeNode>,
    list: Seq<usize>,
    depth: nat,
    height: nat,
    p: usize,
    d: nat,
    c: usize,
)
    requires
        forall|j: int| 0 <= j < list.len() ==> bounded(nodes, #[trigger] list[j], height),
        depth + height <= usize::MAX,
        nodes[p as int].children@.contains(c),
        places(forest_plan(nodes, list, depth, height), p, d),
    ensures
        places(forest_plan(nodes, list, depth, height), c, d + 1),
    decreases height, list.len() + 1,
{
    let plan = forest_plan(nodes, list, depth, height);
    let k = choose|k: int|
        0 <= k < plan.len() && (#[trigger] plan[k]).node() == p && plan[k].depth() == d;
    let front = list.drop_last();
    let a = forest_plan(nodes, front, depth, height);
    let b = subtree_plan(nodes, list.last(), depth, height);
    if k < a.len() {
        assert(a[k] == plan[k]);
        lemma_forest_closed(nodes, front, depth, height, p, d, c);
        let l = choose|l: int|
            0 <= l < a.len() && (#[trigger] a[l]).node() == c && a[l].depth() == d + 1;
        assert(plan[l] == a[l]);
    } else {
        assert(b[k - a.len()] == plan[k]);
        assert(bounded(nodes, list[list.len() - 1], height));
        lemma_subtree_closed(nodes, list.last(), depth, height, p, d, c);
        let l = choose|l: int|
            0 <= l < b.len() && (#[trigger] b[l]).node() == c && b[l].depth() == d + 1;
        assert(plan[a.len() + l] == b[l]);
    }
}

/// What a plan places is reached from the roots, in as many steps as its row says.
proof fn lemma_subtree_reached(
    nodes: Seq<ProcessTreeNode>,
    roots: Seq<usize>,
    idx: usize,
    depth: nat,
    height: nat,
)
    requires
        bounded(nodes, idx, height),
        depth + height <= usize::MAX,
        reached(nodes, roots, idx, depth),
    ensures
        forall|k: int|
            0 <= k < subtree_plan(nodes, idx, depth, height).len() ==> {
                let s = #[trigger] subtree_plan(nodes, idx, depth, height)[k];
                reached(nodes, roots, s.node(), s.depth() as nat)
            },
    decreases height, 0nat,
{
    let children = nodes[idx as int].children@;
    if children.len() > 0 {
        let plan = subtree_plan(nodes, idx, depth, height);
        let below = (height - 1) as nat;
        let inner = forest_plan(nodes, children, depth + 1, below);
        assert forall|j: int| 0 <= j < children.len() implies bounded(
            nodes,
            #[trigger] children[j],
            below,
        ) && reached(nodes, roots, children[j], depth + 1) by {
            assert(bounded(nodes, nodes[idx as int].children@[j], below));
            assert(reached(nodes, roots, idx, (depth + 1 - 1) as nat));
            assert(is_child_of(nodes, children[j], idx));
        }
        lemma_forest_reached(nodes, roots, children, depth + 1, below);
        assert forall|k: int| 0 <= k < plan.len() implies {
            let s = #[trigger] plan[k];
            reached(nodes, roots, s.node(), s.depth() as nat)
        } by {
            if k < inner.len() {
                assert(plan[k] == inner[k]);
            }
        }
    }
}

proof fn lemma_forest_reached(
    nodes: Seq<ProcessTreeNode>,
    roots: Seq<usize>,
    list: Seq<usize>,
    depth: nat,
    height: nat,
)
    requires
        forall|j: int|
            0 <= j < list.len() ==> bounded(nodes, #[trigger] list[j], height) && reached(
                nodes,
                roots,
                list[j],
                depth,
            ),
        depth + height <= usize::MAX,
    ensures
        forall|k: int|
            0 <= k < forest_plan(nodes, list, depth, height).len() ==> {
                let s = #[trigger] forest_plan(nodes, list, depth, height)[k];
                reached(nodes, roots, s.node(), s.depth() as nat)
            },
    decreases height, list.len() + 1,
{
    if list.len() > 0 {
        let p = forest_plan(nodes, list.drop_last(), depth, height);
        let q = subtree_plan(nodes, list.last(), depth, height);
        assert(bounded(nodes, list[list.len() - 1], height));
        lemma_forest_reached(nodes, roots, list.drop_last(), depth, height);
        lemma_subtree_reached(nodes, roots, list.last(), depth, height);
        assert forall|k: int| 0 <= k < (p + q).len() implies {
            let s = #[trigger] (p + q)[k];
            reached(nodes, roots, s.node(), s.depth() as nat)
        } by {
            if k < p.len() {
                assert((p + q)[k] == p[k]);
            } else {
                assert((p + q)[k] == q[k - p.len()]);
            }
        }
    }
}

proof fn lemma_reached_placed(
    nodes: Seq<ProcessTreeNode>,
    roots: Seq<usize>,
    i: usize,
    k: nat,
)
    requires
        drawable(nodes, roots),
        reached(nodes, roots, i, k),
    ensures
        places(plan_of(nodes, roots), i, k),
    decreases k,
{
    if k == 0 {
        let j = choose|j: int| 0 <= j < roots.len() && roots[j] == i;
        assert(bounded(nodes, roots[j], nodes.len()));
        lemma_forest_tops(nodes, roots, 0, nodes.len(), j);
    } else {
        let p = choose|p: usize| #[trigger]
            is_child_of(nodes, i, p) && reached(nodes, roots, p, (k - 1) as nat);
        lemma_reached_placed(nodes, roots, p, (k - 1) as nat);
        lemma_forest_closed(nodes, roots, 0, nodes.len(), p, (k - 1) as nat, i);
    }
}

/// What the lemmas above say of a picture.
proof fn lemma_picture(nodes: Seq<ProcessTreeNode>, roots: Seq<usize>)
    requires
        drawable(nodes, roots),
    ensures
        arranged(
            picture(nodes, roots),
            plan_of(nodes, roots),
            0,
            leaf_count(plan_of(nodes, roots)),
        ),
        forall|i: usize| #[trigger]
            picture(nodes, roots).contains_key(i) <==> covers(plan_of(nodes, roots), i),
        forall|k: int|
            0 <= k < plan_of(nodes, roots).len() ==> fits(
                nodes,
                #[trigger] plan_of(nodes, roots)[k],
            ),
{
    lemma_forest_arranged(nodes, roots, 0, nodes.len(), blank());
    lemma_forest_steps(nodes, roots, 0, nodes.len());
    lemma_run(blank(), plan_of(nodes, roots));
}

proof fn lemma_arranged_pair(
    at: Map<usize, Point>,
    plan: Seq<Placement>,
    from: nat,
    to: nat,
    k: int,
    l: int,
)
    requires
        arranged(at, plan, from, to),
        0 <= k < l < plan.len(),
        at[plan[k].node()].y == at[plan[l].node()].y,
    ensures
        at[plan[l].node()].x >= at[plan[k].node()].x + 140real,
{
    reveal(arranged);
    let a = plan[k].depth();
    let b = plan[l].depth();
    assert(row_y(a) == row_y(b));
    assert(a == b);
}

/// A node that is placed in a row stands in that row.
proof fn lemma_placed_row(nodes: Seq<ProcessTreeNode>, roots: Seq<usize>, i: usize, depth: nat)
    requires
        drawable(nodes, roots),
        places(plan_of(nodes, roots), i, depth),
    ensures
        depth <= usize::MAX,
        picture(nodes, roots).contains_key(i),
        picture(nodes, roots)[i].y == row_y(depth as usize),
{
    lemma_picture(nodes, roots);
    reveal(arranged);
    let plan = plan_of(nodes, roots);
    let k = choose|k: int|
        0 <= k < plan.len() && (#[trigger] plan[k]).node() == i && plan[k].depth() == depth;
    assert(plan[k].depth() as nat == depth);
}

/// A picture shows the nodes that are reached from the roots and no others, each
/// in the row of its depth.
pub proof fn picture_shows_what_is_below(
    nodes: Seq<ProcessTreeNode>,
    roots: Seq<usize>,
    i: usize,
)
    requires
        drawable(nodes, roots),
    ensures
        picture(nodes, roots).contains_key(i) <==> exists|k: nat| reached(nodes, roots, i, k),
        forall|k: nat| #[trigger]
            reached(nodes, roots, i, k) ==> k <= usize::MAX && picture(nodes, roots)[i].y == row_y(
                k as usize,
            ),
{
    lemma_picture(nodes, roots);
    let plan = plan_of(nodes, roots);
    if covers(plan, i) {
        assert forall|j: int| 0 <= j < roots.len() implies bounded(
            nodes,
            #[trigger] roots[j],
            nodes.len(),
        ) && reached(nodes, roots, roots[j], 0) by {
            assert(roots.contains(roots[j]));
        }
        lemma_forest_reached(nodes, roots, roots, 0, nodes.len());
        let k = choose|k: int| 0 <= k < plan.len() && (#[trigger] plan[k]).node() == i;
        assert(reached(nodes, roots, i, plan[k].depth() as nat));
    }
    assert forall|k: nat| #[trigger] reached(nodes, roots, i, k) implies k <= usize::MAX && picture(
        nodes,
        roots,
    )[i].y == row_y(k as usize) && covers(plan, i) by {
        lemma_reached_placed(nodes, roots, i, k);
        lemma_placed_row(nodes, roots, i, k);
    }
}

/// An internal node of a picture stands halfway between its first and its last
/// child, of which the first is not right of the last. The roots stand in the top
/// row, and the children of a node one row below it.
pub proof fn picture_centers_parents(nodes: Seq<ProcessTreeNode>, roots: Seq<usize>, i: usize)
    requires
        drawable(nodes, roots),
        picture(nodes, roots).contains_key(i),
    ensures
        ({
            let at = picture(nodes, roots);
            let children = nodes[i as int].children@;
            &&& children.len() > 0 ==> {
                &&& at.contains_key(children.first())
                &&& at.contains_key(children.last())
                &&& at[i].x == (at[children.first()].x + at[children.last()].x) / 2real
                &&& at[children.first()].x <= at[i].x <= at[children.last()].x
            }
            &&& roots.contains(i) ==> at[i].y == 0real
            &&& forall|c: usize| #[trigger]
                children.contains(c) ==> at.contains_key(c) && at[c].y == at[i].y + 100real
        }),
{
    lemma_picture(nodes, roots);
    let at = picture(nodes, roots);
    let plan = plan_of(nodes, roots);
    let children = nodes[i as int].children@;
    let k = choose|k: int| 0 <= k < plan.len() && (#[trigger] plan[k]).node() == i;
    assert(fits(nodes, plan[k]));
    let d = plan[k].depth() as nat;
    assert(places(plan, i, d));
    lemma_placed_row(nodes, roots, i, d);
    if roots.contains(i) {
        assert(reached(nodes, roots, i, 0));
        lemma_reached_placed(nodes, roots, i, 0);
        lemma_placed_row(nodes, roots, i, 0);
    }
    assert forall|c: usize| #[trigger] children.contains(c) implies at.contains_key(c) && at[c].y
        == at[i].y + 100real by {
        lemma_forest_closed(nodes, roots, 0, nodes.len(), i, d, c);
        lemma_placed_row(nodes, roots, c, d + 1);
    }
    reveal(arranged);
}

/// Leaves of a picture are assigned left to right: a node without children takes
/// the column after those of the leaves placed before it.
pub proof fn picture_assigns_leaves(nodes: Seq<ProcessTreeNode>, roots: Seq<usize>, k: int)
    requires
        drawable(nodes, roots),
        0 <= k < plan_of(nodes, roots).len(),
        nodes[plan_of(nodes, roots)[k].node() as int].children@.len() == 0,
    ensures
        picture(nodes, roots)[plan_of(nodes, roots)[k].node()].x == column_x(
            leaf_count(plan_of(nodes, roots).take(k)) as int,
        ),
{
    lemma_picture(nodes, roots);
    reveal(arranged);
    assert(fits(nodes, plan_of(nodes, roots)[k]));
}

/// A picture is as wide as its leaves: every node stands between the first column
/// and that of the last leaf.
pub proof fn picture_stays_in_range(nodes: Seq<ProcessTreeNode>, roots: Seq<usize>, i: usize)
    requires
        drawable(nodes, roots),
        picture(nodes, roots).contains_key(i),
    ensures
        0real <= picture(nodes, roots)[i].x <= column_x(leaf_count(plan_of(nodes, roots)) - 1),
{
    lemma_picture(nodes, roots);
    reveal(arranged);
    let plan = plan_of(nodes, roots);
    let k = choose|k: int| 0 <= k < plan.len() && (#[trigger] plan[k]).node() == i;
    assert(picture(nodes, roots)[plan[k].node()].x >= column_x(0));
}

/// Two nodes of the same row of a picture are at least a column apart.
pub proof fn picture_keeps_rows_apart(
    nodes: Seq<ProcessTreeNode>,
    roots: Seq<usize>,
    i: usize,
    j: usize,
)
    requires
        drawable(nodes, roots),
        picture(nodes, roots).contains_key(i),
        picture(nodes, roots).contains_key(j),
        i != j,
        picture(nodes, roots)[i].y == picture(nodes, roots)[j].y,
    ensures
        ({
            let at = picture(nodes, roots);
            at[i].x >= at[j].x + 140real || at[j].x >= at[i].x + 140real
        }),
{
    lemma_picture(nodes, roots);
    let plan = plan_of(nodes, roots);
    let k = choose|k: int| 0 <= k < plan.len() && (#[trigger] plan[k]).node() == i;
    let l = choose|l: int| 0 <= l < plan.len() && (#[trigger] plan[l]).node() == j;
    let to = leaf_count(plan);
    if k < l {
        lemma_arranged_pair(picture(nodes, roots), plan, 0, to, k, l);
    } else {
        lemma_arranged_pair(picture(nodes, roots), plan, 0, to, l, k);
    }
}

/// Following parents from `i` ends at a node without a parent.
pub open spec fn rooted(nodes: Seq<ProcessTreeNode>, i: usize) -> bool {
    exists|k: nat| at_level(nodes, i, k)
}

/// The plan of a tree whose links agree goes down from its roots, and places no
/// node twice.
proof fn lemma_tree_shape(nodes: Seq<ProcessTreeNode>)
    requires
        linked(nodes),
    ensures
        descends(nodes, layout_plan(nodes), roots_of(nodes), 0),
        distinct(layout_plan(nodes)),
{
    let roots = roots_of(nodes);
    lemma_roots(nodes);
    roots_can_be_laid_out(nodes);
    assert forall|j: int| 0 <= j < roots.len() implies bounded(
        nodes,
        #[trigger] roots[j],
        nodes.len(),
    ) && at_level(nodes, roots[j], 0) by {}
    lemma_forest_shape(nodes, roots, 0, nodes.len());
}

/// A tree whose links agree can be drawn from its roots.
pub proof fn trees_are_drawable(nodes: Seq<ProcessTreeNode>)
    requires
        linked(nodes),
    ensures
        drawable(nodes, roots_of(nodes)),
        plan_of(nodes, roots_of(nodes)) == layout_plan(nodes),
        picture(nodes, roots_of(nodes)) == positions(nodes),
{
    roots_can_be_laid_out(nodes);
    lemma_tree_shape(nodes);
}

/// In a tree whose links agree, what is reached from the roots is what has its
/// ancestors up to a root.
proof fn lemma_level_reached(nodes: Seq<ProcessTreeNode>, i: usize, k: nat)
    requires
        linked(nodes),
        at_level(nodes, i, k),
    ensures
        reached(nodes, roots_of(nodes), i, k),
    decreases k,
{
    lemma_roots(nodes);
    if k > 0 {
        let p = nodes[i as int].parent->0;
        lemma_is_child(nodes, i);
        lemma_level_reached(nodes, p, (k - 1) as nat);
        assert(is_child_of(nodes, i, p));
    }
}

/// Each node that hangs below a root is placed, and placed once. A node whose
/// ancestors form a cycle is not placed.
pub proof fn rooted_nodes_are_placed_once(nodes: Seq<ProcessTreeNode>)
    requires
        linked(nodes),
    ensures
        distinct(layout_plan(nodes)),
        forall|i: usize| #[trigger] positions(nodes).contains_key(i) <==> rooted(nodes, i),
{
    lemma_tree_shape(nodes);
    trees_are_drawable(nodes);
    lemma_picture(nodes, roots_of(nodes));
    let plan = layout_plan(nodes);
    assert forall|i: usize| #[trigger] positions(nodes).contains_key(i) <==> rooted(nodes, i) by {
        if covers(plan, i) {
            let k = choose|k: int| 0 <= k < plan.len() && (#[trigger] plan[k]).node() == i;
            assert(at_level(nodes, i, plan[k].depth() as nat));
        }
        if rooted(nodes, i) {
            let k = choose|k: nat| at_level(nodes, i, k);
            lemma_level_reached(nodes, i, k);
            picture_shows_what_is_below(nodes, roots_of(nodes), i);
        }
    }
}

/// An internal node stands halfway between its first and its last child. A root
/// stands in the top row, and any other node one row below its parent.
pub proof fn nodes_are_centered_over_children(nodes: Seq<ProcessTreeNode>, i: usize)
    requires
        linked(nodes),
        positions(nodes).contains_key(i),
    ensures
        ({
            let at = positions(nodes);
            let children = nodes[i as int].children@;
            &&& children.len() > 0 ==> {
                &&& at.contains_key(children.first())
                &&& at.contains_key(children.last())
                &&& at[i].x == (at[children.first()].x + at[children.last()].x) / 2real
                &&& at[children.first()].x <= at[i].x <= at[children.last()].x
            }
            &&& match nodes[i as int].parent {
                None => at[i].y == 0real,
                Some(p) => at.contains_key(p) && at[i].y == at[p].y + 100real,
            }
        }),
{
    let roots = roots_of(nodes);
    trees_are_drawable(nodes);
    rooted_nodes_are_placed_once(nodes);
    picture_centers_parents(nodes, roots, i);
    assert(rooted(nodes, i));
    let k = choose|k: nat| at_level(nodes, i, k);
    match nodes[i as int].parent {
        None => {
            lemma_roots(nodes);
            assert(roots.contains(i));
        },
        Some(p) => {
            assert(at_level(nodes, p, (k - 1) as nat));
            assert(rooted(nodes, p));
            lemma_is_child(nodes, i);
            picture_centers_parents(nodes, roots, p);
            assert(nodes[p as int].children@.contains(i));
        },
    }
}

/// Leaves are assigned left to right: a node without children takes the column
/// after those of the leaves placed before it.
pub proof fn leaves_go_left_to_right(nodes: Seq<ProcessTreeNode>, k: int)
    requires
        linked(nodes),
        0 <= k < layout_plan(nodes).len(),
        nodes[layout_plan(nodes)[k].node() as int].children@.len() == 0,
    ensures
        positions(nodes)[layout_plan(nodes)[k].node()].x == column_x(
            leaf_count(layout_plan(nodes).take(k)) as int,
        ),
{
    trees_are_drawable(nodes);
    picture_assigns_leaves(nodes, roots_of(nodes), k);
}

/// Two nodes of the same row are at least a column apart.
pub proof fn rows_keep_their_distance(nodes: Seq<ProcessTreeNode>, i: usize, j: usize)
    requires
        linked(nodes),
        positions(nodes).contains_key(i),
        positions(nodes).contains_key(j),
        i != j,
        positions(nodes)[i].y == positions(nodes)[j].y,
    ensures
        ({
            let at = positions(nodes);
            at[i].x >= at[j].x + 140real || at[j].x >= at[i].x + 140real
        }),
{
    trees_are_drawable(nodes);
    picture_keeps_rows_apart(nodes, roots_of(nodes), i, j);
}

/// `plan` places `a` before `b`, both in row `depth`.
spec fn places_before(plan: Seq<Placement>, a: usize, b: usize, depth: nat) -> bool {
    exists|k: int, l: int|
        0 <= k < l < plan.len() && (#[trigger] plan[k]).node() == a && plan[k].depth() == depth && (
        #[trigger] plan[l]).node() == b && plan[l].depth() == depth
}

proof fn lemma_before_append(
    p: Seq<Placement>,
    q: Seq<Placement>,
    a: usize,
    b: usize,
    depth: nat,
)
    ensures
        places_before(p, a, b, depth) ==> places_before(p + q, a, b, depth),
        places_before(q, a, b, depth) ==> places_before(p + q, a, b, depth),
        places(p, a, depth) && places(q, b, depth) ==> places_before(p + q, a, b, depth),
{
    let plan = p + q;
    if places_before(p, a, b, depth) {
        let (k, l) = choose|k: int, l: int|
            0 <= k < l < p.len() && (#[trigger] p[k]).node() == a && p[k].depth() == depth && (
            #[trigger] p[l]).node() == b && p[l].depth() == depth;
        assert(plan[k] == p[k] && plan[l] == p[l]);
    }
    if places_before(q, a, b, depth) {
        let (k, l) = choose|k: int, l: int|
            0 <= k < l < q.len() && (#[trigger] q[k]).node() == a && q[k].depth() == depth && (
            #[trigger] q[l]).node() == b && q[l].depth() == depth;
        assert(plan[p.len() + k] == q[k] && plan[p.len() + l] == q[l]);
    }
    if places(p, a, depth) && places(q, b, depth) {
        let k = choose|k: int|
            0 <= k < p.len() && (#[trigger] p[k]).node() == a && p[k].depth() == depth;
        let l = choose|l: int|
            0 <= l < q.len() && (#[trigger] q[l]).node() == b && q[l].depth() == depth;
        assert(plan[k] == p[k] && plan[p.len() + l] == q[l]);
    }
}

proof fn lemma_tops_before(
    nodes: Seq<ProcessTreeNode>,
    list: Seq<usize>,
    depth: nat,
    height: nat,
    j: int,
    l: int,
)
    requires
        height > 0,
        depth <= usize::MAX,
        0 <= j < l < list.len(),
    ensures
        places_before(forest_plan(nodes, list, depth, height), list[j], list[l], depth),
    decreases list.len(),
{
    let front = list.drop_last();
    let p = forest_plan(nodes, front, depth, height);
    let q = subtree_plan(nodes, list.last(), depth, height);
    lemma_before_append(p, q, list[j], list[l], depth);
    if l < front.len() {
        lemma_tops_before(nodes, front, depth, height, j, l);
    } else {
        lemma_forest_tops(nodes, front, depth, height, j);
        assert(q[q.len() - 1].node() == list[l] && q[q.len() - 1].depth() == depth);
    }
}

proof fn lemma_subtree_siblings(
    nodes: Seq<ProcessTreeNode>,
    idx: usize,
    depth: nat,
    height: nat,
    i: usize,
    d: nat,
    j: int,
    l: int,
)
    requires
        bounded(nodes, idx, height),
        depth + height <= usize::MAX,
        0 <= j < l < nodes[i as int].children@.len(),
        places(subtree_plan(nodes, idx, depth, height), i, d),
    ensures
        places_before(
            subtree_plan(nodes, idx, depth, height),
            nodes[i as int].children@[j],
            nodes[i as int].children@[l],
            d + 1,
        ),
    decreases height, 0nat,
{
    let plan = subtree_plan(nodes, idx, depth, height);
    let children = nodes[idx as int].children@;
    let k = choose|k: int|
        0 <= k < plan.len() && (#[trigger] plan[k]).node() == i && plan[k].depth() == d;
    if children.len() > 0 {
        let below = (height - 1) as nat;
        let inner = forest_plan(nodes, children, depth + 1, below);
        assert(bounded(nodes, nodes[idx as int].children@[0], below));
        assert(plan =~= inner + seq![plan.last()]);
        lemma_before_append(
            inner,
            seq![plan.last()],
            nodes[i as int].children@[j],
            nodes[i as int].children@[l],
            d + 1,
        );
        if k == inner.len() {
            lemma_tops_before(nodes, children, depth + 1, below, j, l);
        } else {
            assert(inner[k] == plan[k]);
            lemma_forest_siblings(nodes, children, depth + 1, below, i, d, j, l);
        }
    }
}

proof fn lemma_forest_siblings(
    nodes: Seq<ProcessTreeNode>,
    list: Seq<usize>,
    depth: nat,
    height: nat,
    i: usize,
    d: nat,
    j: int,
    l: int,
)
    requires
        forall|m: int| 0 <= m < list.len() ==> bounded(nodes, #[trigger] list[m], height),
        depth + height <= usize::MAX,
        0 <= j < l < nodes[i as int].children@.len(),
        places(forest_plan(nodes, list, depth, height), i, d),
    ensures
        places_before(
            forest_plan(nodes, list, depth, height),
            nodes[i as int].children@[j],
            nodes[i as int].children@[l],
            d + 1,
        ),
    decreases height, list.len() + 1,
{
    let plan = forest_plan(nodes, list, depth, height);
    let k = choose|k: int|
        0 <= k < plan.len() && (#[trigger] plan[k]).node() == i && plan[k].depth() == d;
    let front = list.drop_last();
    let p = forest_plan(nodes, front, depth, height);
    let q = subtree_plan(nodes, list.last(), depth, height);
    lemma_before_append(
        p,
        q,
        nodes[i as int].children@[j],
        nodes[i as int].children@[l],
        d + 1,
    );
    if k < p.len() {
        assert(p[k] == plan[k]);
        lemma_forest_siblings(nodes, front, depth, height, i, d, j, l);
    } else {
        assert(q[k - p.len()] == plan[k]);
        assert(bounded(nodes, list[list.len() - 1], height));
        lemma_subtree_siblings(nodes, list.last(), depth, height, i, d, j, l);
    }
}

proof fn lemma_before_is_left(
    nodes: Seq<ProcessTreeNode>,
    roots: Seq<usize>,
    a: usize,
    b: usize,
    depth: nat,
)
    requires
        drawable(nodes, roots),
        places_before(plan_of(nodes, roots), a, b, depth),
    ensures
        picture(nodes, roots)[a].x + 140real <= picture(nodes, roots)[b].x,
{
    lemma_picture(nodes, roots);
    reveal(arranged);
    let plan = plan_of(nodes, roots);
    let (k, l) = choose|k: int, l: int|
        0 <= k < l < plan.len() && (#[trigger] plan[k]).node() == a && plan[k].depth() == depth && (
        #[trigger] plan[l]).node() == b && plan[l].depth() == depth;
    assert(plan[k].depth() == plan[l].depth());
}

/// The children of a node go from left to right in their order, at least a column
/// apart; and so do the roots.
pub proof fn picture_orders_children(
    nodes: Seq<ProcessTreeNode>,
    roots: Seq<usize>,
    i: usize,
    j: int,
    l: int,
)
    requires
        drawable(nodes, roots),
    ensures
        picture(nodes, roots).contains_key(i) && 0 <= j < l < nodes[i as int].children@.len()
            ==> picture(nodes, roots)[nodes[i as int].children@[j]].x + 140real <= picture(
            nodes,
            roots,
        )[nodes[i as int].children@[l]].x,
        0 <= j < l < roots.len() ==> picture(nodes, roots)[roots[j]].x + 140real <= picture(
            nodes,
            roots,
        )[roots[l]].x,
{
    lemma_picture(nodes, roots);
    let plan = plan_of(nodes, roots);
    if picture(nodes, roots).contains_key(i) && 0 <= j < l < nodes[i as int].children@.len() {
        let k = choose|k: int| 0 <= k < plan.len() && (#[trigger] plan[k]).node() == i;
        let d = plan[k].depth() as nat;
        assert(places(plan, i, d));
        lemma_forest_siblings(nodes, roots, 0, nodes.len(), i, d, j, l);
        lemma_before_is_left(
            nodes,
            roots,
            nodes[i as int].children@[j],
            nodes[i as int].children@[l],
            d + 1,
        );
    }
    if 0 <= j < l < roots.len() {
        assert(bounded(nodes, roots[j], nodes.len()));
        lemma_tops_before(nodes, roots, 0, nodes.len(), j, l);
        lemma_before_is_left(nodes, roots, roots[j], roots[l], 0);
    }
}

/// The leaves of a picture stand at 0, 140, 280 and so on: the first leaf of the
/// plan, the second, and the third.
pub proof fn picture_spaces_leaves(nodes: Seq<ProcessTreeNode>, roots: Seq<usize>, k: int)
    requires
        drawable(nodes, roots),
        0 <= k < plan_of(nodes, roots).len(),
        nodes[plan_of(nodes, roots)[k].node() as int].children@.len() == 0,
    ensures
        picture(nodes, roots)[plan_of(nodes, roots)[k].node()].x == (plan_of(nodes, roots).take(
            k,
        ).filter(|s: Placement| s is Leaf).len() as int) as real * 140real,
{
    picture_assigns_leaves(nodes, roots, k);
    lemma_leaf_count(plan_of(nodes, roots).take(k));
}

proof fn lemma_leaf_count(plan: Seq<Placement>)
    ensures
        leaf_count(plan) == plan.filter(|s: Placement| s is Leaf).len(),
    decreases plan.len(),
{
    reveal(Seq::filter);
    if plan.len() > 0 {
        lemma_leaf_count(plan.drop_last());
    }
}

} // verus!
