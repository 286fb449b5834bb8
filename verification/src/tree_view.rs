//! What the process tree tab draws.

use sysinfo::System;
use vstd::arithmetic::power2::pow2;
use vstd::prelude::*;
use vstd::string::StringExecFns;

use crate::cpu::{gray, green, red, yellow, Color, CpuUsage};
use crate::layout::{layout_plan, layout_tree, roots_can_be_laid_out, Placement};
use crate::process::{is_mitos_name, process_table, ProcessRecord};
use crate::text::{contains_part, decimal, lowered, push_decimal};
use crate::tree::{
    build_process_tree, lemma_children, lemma_is_child, linked, tree_of_table,
    tree_roots, ProcessTreeNode,
};

verus! {

/// A line from a node to one of its children.
#[derive(Clone, Copy, Debug, PartialEq, Eq, Structural)]
pub struct Edge {
    pub parent: usize,
    pub child: usize,
    /// One of the two ends belongs to the MITOS system.
    pub highlighted: bool,
}

pub open spec fn edge(nodes: Seq<ProcessTreeNode>, parent: int, child: usize) -> Edge {
    Edge {
        parent: parent as usize,
        child,
        highlighted: nodes[child as int].is_mitos || nodes[parent].is_mitos,
    }
}

/// The edges from the first `n` nodes to their children.
pub open spec fn edges_below(nodes: Seq<ProcessTreeNode>, n: nat) -> Seq<Edge>
    decreases n,
{
    if n == 0 {
        Seq::empty()
    } else {
        edges_below(nodes, (n - 1) as nat) + nodes[n - 1].children@.map_values(
            |c: usize| edge(nodes, n - 1, c),
        )
    }
}

/// The edges of the tree, node by node.
pub fn tree_edges(nodes: &Vec<ProcessTreeNode>) -> (r: Vec<Edge>)
    requires
        forall|i: int, k: int|
            0 <= i < nodes@.len() && 0 <= k < nodes@[i].children@.len()
                ==> #[trigger] nodes@[i].children@[k] < nodes@.len(),
    ensures
        r@ == edges_below(nodes@, nodes@.len()),
{
    let mut out: Vec<Edge> = Vec::new();
    let mut i: usize = 0;
    while i < nodes.len()
        invariant
            i <= nodes.len(),
            forall|j: int, k: int|
                0 <= j < nodes@.len() && 0 <= k < nodes@[j].children@.len()
                    ==> #[trigger] nodes@[j].children@[k] < nodes@.len(),
            out@ == edges_below(nodes@, i as nat),
        decreases nodes.len() - i,
    {
        let children = &nodes[i].children;
        let ghost before = out@;
        let ghost own = children@.map_values(|c: usize| edge(nodes@, i as int, c));
        let mut k: usize = 0;
        while k < children.len()
            invariant
                i < nodes.len(),
                *children == nodes@[i as int].children,
                k <= children.len(),
                forall|j: int, l: int|
                    0 <= j < nodes@.len() && 0 <= l < nodes@[j].children@.len()
                        ==> #[trigger] nodes@[j].children@[l] < nodes@.len(),
                own == children@.map_values(|c: usize| edge(nodes@, i as int, c)),
                out@ == before + own.take(k as int),
            decreases children.len() - k,
        {
            let child: usize = children[k];
            assert(nodes@[i as int].children@[k as int] < nodes@.len());
            out.push(
                Edge {
                    parent: i,
                    child,
                    highlighted: nodes[child].is_mitos || nodes[i].is_mitos,
                },
            );
            k += 1;
            assert(out@ =~= before + own.take(k as int));
        }
        assert(own.take(k as int) =~= own);
        i += 1;
    }
    out
}

/// Every node but the roots is joined to its parent, and nothing else is joined.
pub proof fn edges_join_parents_and_children(nodes: Seq<ProcessTreeNode>, p: usize, c: usize)
    requires
        linked(nodes),
        c < nodes.len(),
    ensures
        edges_below(nodes, nodes.len()).contains(edge(nodes, p as int, c))
            <==> nodes[c as int].parent == Some(p),
{
    if nodes[c as int].parent == Some(p) {
        lemma_is_child(nodes, c);
        lemma_edges_complete(nodes, nodes.len(), p, c);
    }
    lemma_edges_sound(nodes, nodes.len());
    if edges_below(nodes, nodes.len()).contains(edge(nodes, p as int, c)) {
        let all = edges_below(nodes, nodes.len());
        let k = choose|k: int| 0 <= k < all.len() && all[k] == edge(nodes, p as int, c);
        assert(all[k].parent == p && all[k].child == c);
    }
}

proof fn lemma_edges_complete(nodes: Seq<ProcessTreeNode>, n: nat, p: usize, c: usize)
    requires
        p < n <= nodes.len() <= usize::MAX,
        nodes[p as int].children@.contains(c),
    ensures
        edges_below(nodes, n).contains(edge(nodes, p as int, c)),
    decreases n,
{
    let front = edges_below(nodes, (n - 1) as nat);
    let own = nodes[n - 1].children@.map_values(|d: usize| edge(nodes, n - 1, d));
    let all = edges_below(nodes, n);
    if p == n - 1 {
        let k = choose|k: int| 0 <= k < own.len() && nodes[p as int].children@[k] == c;
        assert(all[front.len() + k] == own[k]);
    } else {
        lemma_edges_complete(nodes, (n - 1) as nat, p, c);
        let k = choose|k: int| 0 <= k < front.len() && front[k] == edge(nodes, p as int, c);
        assert(all[k] == front[k]);
    }
}

proof fn lemma_edges_sound(nodes: Seq<ProcessTreeNode>, n: nat)
    requires
        linked(nodes),
        n <= nodes.len(),
    ensures
        forall|k: int|
            0 <= k < edges_below(nodes, n).len() ==> {
                let e = #[trigger] edges_below(nodes, n)[k];
                e.child < nodes.len() && nodes[e.child as int].parent == Some(e.parent)
            },
    decreases n,
{
    if n > 0 {
        let front = edges_below(nodes, (n - 1) as nat);
        let own = nodes[n - 1].children@.map_values(|d: usize| edge(nodes, n - 1, d));
        let all = edges_below(nodes, n);
        lemma_edges_sound(nodes, (n - 1) as nat);
        assert forall|k: int| 0 <= k < all.len() implies {
            let e = #[trigger] all[k];
            e.child < nodes.len() && nodes[e.child as int].parent == Some(e.parent)
        } by {
            if k < front.len() {
                assert(all[k] == front[k]);
            } else {
                assert(all[k] == own[k - front.len()]);
                lemma_children(nodes, (n - 1) as usize, k - front.len());
            }
        }
    }
}

/// The colour of an edge.
pub fn edge_color(highlighted: bool) -> (r: Color)
    ensures
        highlighted ==> (r.r, r.g, r.b) == (85u8, 255u8, 85u8),
        !highlighted ==> (r.r, r.g, r.b) == (70u8, 70u8, 70u8),
        r == if highlighted {
            green()
        } else {
            gray(70)
        },
{
    if highlighted {
        Color { r: 85, g: 255, b: 85 }
    } else {
        Color { r: 70, g: 70, b: 70 }
    }
}

/// Green for the MITOS system, else red for high and yellow for medium CPU usage.
pub open spec fn node_fill(is_mitos: bool, cpu: CpuUsage) -> Color {
    if is_mitos {
        green()
    } else if cpu.more_than(50) {
        red()
    } else if cpu.more_than(10) {
        yellow()
    } else {
        gray(110)
    }
}

/// The colour of a node: green for the MITOS system, else red for high and yellow
/// for medium CPU usage.
pub fn node_color(is_mitos: bool, cpu: CpuUsage) -> (r: Color)
    ensures
        (r.r, r.g, r.b) == if is_mitos {
            (85u8, 255u8, 85u8)
        } else if !cpu.is_nan() && cpu.scaled() > 50 * pow2(149) {
            (255u8, 85u8, 85u8)
        } else if !cpu.is_nan() && cpu.scaled() > 10 * pow2(149) {
            (255u8, 255u8, 85u8)
        } else {
            (110u8, 110u8, 110u8)
        },
        r == node_fill(is_mitos, cpu),
{
    if is_mitos {
        Color { r: 85, g: 255, b: 85 }
    } else if cpu.above_fifty() {
        Color { r: 255, g: 85, b: 85 }
    } else if cpu.above_ten() {
        Color { r: 255, g: 255, b: 85 }
    } else {
        Color { r: 110, g: 110, b: 110 }
    }
}

/// The ring round a node: white where the node is selected, else light where the
/// pointer is over it, else none.
pub fn node_ring(pid: u32, selected: Option<u32>, hovered: bool) -> (r: Option<Color>)
    ensures
        selected == Some(pid) ==> r == Some(Color { r: 255, g: 255, b: 255 }),
        selected != Some(pid) && hovered ==> r == Some(Color { r: 230, g: 230, b: 230 }),
        selected != Some(pid) && !hovered ==> r is None,
        r == if selected == Some(pid) {
            Some(gray(255))
        } else if hovered {
            Some(gray(230))
        } else {
            None
        },
{
    let is_selected = match selected {
        Some(p) => p == pid,
        None => false,
    };
    if is_selected {
        Some(Color { r: 255, g: 255, b: 255 })
    } else if hovered {
        Some(Color { r: 230, g: 230, b: 230 })
    } else {
        None
    }
}

/// The small label of a node: its process id and its CPU usage, which is given as
/// text.
pub fn node_label(pid: u32, cpu_text: &str) -> (r: String)
    ensures
        r@ == "PID "@ + decimal(pid as nat) + " • "@ + cpu_text@ + "%"@,
{
    let mut text = "PID ".to_owned();
    push_decimal(&mut text, pid as u64);
    text.append(" • ");
    text.append(cpu_text);
    text.append("%");
    text
}

/// The process tree as it is drawn.
pub struct TreeView {
    pub nodes: Vec<ProcessTreeNode>,
    pub plan: Vec<Placement>,
    pub edges: Vec<Edge>,
}

/// The picture of a tree whose links agree.
pub fn view_of_tree(nodes: Vec<ProcessTreeNode>) -> (r: TreeView)
    requires
        linked(nodes@),
    ensures
        r.nodes == nodes,
        r.plan@ == layout_plan(nodes@),
        r.edges@ == edges_below(nodes@, nodes@.len()),
{
    let roots = tree_roots(&nodes);
    proof {
        roots_can_be_laid_out(nodes@);
        assert forall|i: int, k: int|
            0 <= i < nodes@.len() && 0 <= k < nodes@[i].children@.len() implies #[trigger] nodes@[
            i].children@[k] < nodes@.len() by {
            lemma_children(nodes@, i as usize, k);
        }
    }
    let plan = layout_tree(&nodes, &roots);
    let edges = tree_edges(&nodes);
    TreeView { nodes, plan, edges }
}

/// The picture of the running processes whose names pass the filter.
pub fn process_tree_view(sys: &System, filter: &str) -> (r: TreeView)
    ensures
        tree_of_table(r.nodes@, process_table(*sys), filter@),
        r.plan@ == layout_plan(r.nodes@),
        r.edges@ == edges_below(r.nodes@, r.nodes@.len()),
{
    view_of_tree(build_process_tree(sys, filter))
}

/// Of the running processes exactly those with `mitos` in their names, letter
/// case aside, are green.
pub proof fn mitos_processes_are_green(
    nodes: Seq<ProcessTreeNode>,
    table: Map<u32, ProcessRecord>,
    filter: Seq<char>,
    i: int,
)
    requires
        tree_of_table(nodes, table, filter),
        0 <= i < nodes.len(),
    ensures
        node_fill(nodes[i].is_mitos, nodes[i].cpu) == green() <==> is_mitos_name(
            table[nodes[i].pid].name,
        ),
        nodes[i].is_mitos <==> contains_part(lowered(table[nodes[i].pid].name), "mitos"@),
        node_fill(nodes[i].is_mitos, nodes[i].cpu) == (Color { r: 85, g: 255, b: 85 })
            <==> contains_part(lowered(table[nodes[i].pid].name), "mitos"@),
{
}

/// The edges go node by node and, for each node, child by child; an edge is
/// highlighted where one of its ends belongs to the MITOS system.
pub proof fn edges_go_node_by_node(nodes: Seq<ProcessTreeNode>, n: usize)
    requires
        n < nodes.len(),
    ensures
        edges_below(nodes, 0).len() == 0,
        edges_below(nodes, (n + 1) as nat) == edges_below(nodes, n as nat) + Seq::new(
            nodes[n as int].children@.len(),
            |k: int|
                Edge {
                    parent: n,
                    child: nodes[n as int].children@[k],
                    highlighted: nodes[n as int].is_mitos
                        || nodes[nodes[n as int].children@[k] as int].is_mitos,
                },
        ),
{
    let own = nodes[n as int].children@.map_values(|c: usize| edge(nodes, n as int, c));
    assert(own =~= Seq::new(
        nodes[n as int].children@.len(),
        |k: int|
            Edge {
                parent: n,
                child: nodes[n as int].children@[k],
                highlighted: nodes[n as int].is_mitos
                    || nodes[nodes[n as int].children@[k] as int].is_mitos,
            },
    ));
}

/// The colour of a node by system and usage.
pub proof fn nodes_by_colour(is_mitos: bool, cpu: CpuUsage)
    ensures
        is_mitos ==> node_fill(is_mitos, cpu) == (Color { r: 85, g: 255, b: 85 }),
        !is_mitos && !cpu.is_nan() && cpu.scaled() > 50 * pow2(149) ==> node_fill(is_mitos, cpu)
            == (Color { r: 255, g: 85, b: 85 }),
        !is_mitos && !cpu.is_nan() && 10 * pow2(149) < cpu.scaled() <= 50 * pow2(149) ==> node_fill(
            is_mitos,
            cpu,
        ) == (Color { r: 255, g: 255, b: 85 }),
        !is_mitos && (cpu.is_nan() || cpu.scaled() <= 10 * pow2(149)) ==> node_fill(is_mitos, cpu)
            == (Color { r: 110, g: 110, b: 110 }),
{
    vstd::arithmetic::power2::lemma_pow2_pos(149);
}

} // verus!
