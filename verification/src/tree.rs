//! The process tree: nodes linked to their parents and children by index.

use std::collections::HashMap;

use sysinfo::System;
use vstd::prelude::*;

use crate::cpu::CpuUsage;
use crate::process::{
    describes, filter_ignores_case, infos_of, is_mitos_name, list_processes, lists, name_passes,
    passing, process_table, select_processes, wider_filter_passes, Candidate, ProcessInfo,
    ProcessRecord,
};
use crate::text::{ascii_only, ascii_upper, contains_part, lowered, upper_case_lowers_alike};

verus! {

/// One process of the tree. `parent` and `children` are indices into the list
/// of nodes that the node belongs to.
pub struct ProcessTreeNode {
    pub pid: u32,
    pub name: String,
    pub cpu: CpuUsage,
    pub mem: u64,
    pub children: Vec<usize>,
    pub parent: Option<usize>,
    pub is_mitos: bool,
}

/// The index of the last occurrence of `pid`.
pub open spec fn last_index(pids: Seq<u32>, pid: u32) -> Option<usize>
    decreases pids.len(),
{
    if pids.len() == 0 {
        None
    } else if pids.last() == pid {
        Some((pids.len() - 1) as usize)
    } else {
        last_index(pids.drop_last(), pid)
    }
}

pub open spec fn pids_of(infos: Seq<ProcessInfo>) -> Seq<u32> {
    infos.map_values(|p: ProcessInfo| p.pid)
}

/// For each process the index of its parent, where the parent is listed too.
pub open spec fn parent_links(infos: Seq<ProcessInfo>) -> Seq<Option<usize>> {
    infos.map_values(
        |p: ProcessInfo|
            match p.parent {
                Some(pid) => last_index(pids_of(infos), pid),
                None => None,
            },
    )
}

/// The indices below `n` whose parent is `of`, in ascending order.
pub open spec fn children_below(parents: Seq<Option<usize>>, of: int, n: nat) -> Seq<usize>
    decreases n,
{
    if n == 0 {
        Seq::empty()
    } else {
        let rest = children_below(parents, of, (n - 1) as nat);
        if parents[n - 1] == Some(of as usize) {
            rest.push((n - 1) as usize)
        } else {
            rest
        }
    }
}

pub open spec fn parents_of(nodes: Seq<ProcessTreeNode>) -> Seq<Option<usize>> {
    nodes.map_values(|n: ProcessTreeNode| n.parent)
}

/// Parent and child links agree: parents are nodes of the list, and the children
/// of a node are exactly the nodes that have it as their parent, in ascending
/// order.
pub open spec fn linked(nodes: Seq<ProcessTreeNode>) -> bool {
    &&& nodes.len() <= usize::MAX
    &&& forall|i: int|
        0 <= i < nodes.len() ==> ((#[trigger] nodes[i]).parent matches Some(p) ==> p < nodes.len())
    &&& forall|i: int|
        0 <= i < nodes.len() ==> (#[trigger] nodes[i]).children@ == children_below(
            parents_of(nodes),
            i,
            nodes.len(),
        )
}

/// `node` shows the process `info`.
pub open spec fn shows(node: ProcessTreeNode, info: ProcessInfo) -> bool {
    &&& node.pid == info.pid
    &&& node.name@ == info.name@
    &&& node.cpu == info.cpu
    &&& node.mem == info.mem
}

/// `nodes` are the nodes of `infos`, in that order, each linked to its parent
/// where that is listed too.
pub open spec fn grown_from(nodes: Seq<ProcessTreeNode>, infos: Seq<ProcessInfo>) -> bool {
    &&& nodes.len() == infos.len()
    &&& forall|i: int| 0 <= i < nodes.len() ==> shows(#[trigger] nodes[i], infos[i])
    &&& parents_of(nodes) == parent_links(infos)
    &&& linked(nodes)
}

proof fn last_index_in_range(pids: Seq<u32>, pid: u32)
    requires
        pids.len() <= usize::MAX,
    ensures
        last_index(pids, pid) matches Some(i) ==> i < pids.len() && pids[i as int] == pid,
        last_index(pids, pid) is Some <==> pids.contains(pid),
    decreases pids.len(),
{
    if pids.len() > 0 {
        let rest = pids.drop_last();
        last_index_in_range(rest, pid);
        if pids.last() != pid {
            if pids.contains(pid) {
                let k = choose|k: int| 0 <= k < pids.len() && pids[k] == pid;
                assert(rest[k] == pid);
            }
            if rest.contains(pid) {
                let k = choose|k: int| 0 <= k < rest.len() && rest[k] == pid;
                assert(pids[k] == pid);
            }
        }
    }
}

/// The nodes of the selected processes, in the order given, each linked to its
/// parent where that is selected too.
pub fn assemble_tree(selected: &Vec<Candidate>) -> (nodes: Vec<ProcessTreeNode>)
    ensures
        grown_from(nodes@, infos_of(selected@)),
        forall|i: int|
            0 <= i < nodes.len() ==> (#[trigger] nodes@[i]).is_mitos == selected@[i].is_mitos,
{
    let ghost infos = infos_of(selected@);
    let ghost pids = pids_of(infos);
    let ghost links = parent_links(infos);
    let n: usize = selected.len();

    let mut index: HashMap<u32, usize> = HashMap::new();
    let mut i: usize = 0;
    while i < n
        invariant
            i <= n == selected.len(),
            infos == infos_of(selected@),
            pids == pids_of(infos),
            forall|pid: u32| #[trigger]
                last_index(pids.take(i as int), pid) == (if index@.contains_key(pid) {
                    Some(index@[pid])
                } else {
                    None
                }),
        decreases n - i,
    {
        let ghost before = index@;
        index.insert(selected[i].info.pid, i);
        proof {
            let seen = pids.take(i as int);
            assert(pids.take(i + 1).drop_last() =~= seen);
            assert forall|pid: u32| #[trigger]
                last_index(pids.take(i + 1), pid) == (if index@.contains_key(pid) {
                    Some(index@[pid])
                } else {
                    None
                }) by {
                assert(last_index(seen, pid) == (if before.contains_key(pid) {
                    Some(before[pid])
                } else {
                    None
                }));
            }
        }
        i += 1;
    }
    assert(pids.take(n as int) =~= pids);

    let mut nodes: Vec<ProcessTreeNode> = Vec::new();
    i = 0;
    while i < n
        invariant
            i <= n == selected.len(),
            nodes.len() == i,
            links == parent_links(infos),
            infos == infos_of(selected@),
            pids == pids_of(infos),
            forall|pid: u32| #[trigger]
                last_index(pids, pid) == (if index@.contains_key(pid) {
                    Some(index@[pid])
                } else {
                    None
                }),
            forall|j: int|
                0 <= j < i ==> {
                    &&& shows(#[trigger] nodes@[j], selected@[j].info)
                    &&& nodes@[j].is_mitos == selected@[j].is_mitos
                    &&& nodes@[j].parent == links[j]
                    &&& nodes@[j].children@ == Seq::<usize>::empty()
                },
        decreases n - i,
    {
        let c = &selected[i];
        let parent = match c.info.parent {
            Some(pid) => match index.get(&pid) {
                Some(at) => Some(*at),
                None => None,
            },
            None => None,
        };
        nodes.push(
            ProcessTreeNode {
                pid: c.info.pid,
                name: c.info.name.clone(),
                cpu: c.info.cpu,
                mem: c.info.mem,
                children: Vec::new(),
                parent,
                is_mitos: c.is_mitos,
            },
        );
        i += 1;
    }
    proof {
        assert forall|j: int| 0 <= j < n implies (#[trigger] links[j] matches Some(p) ==> p < n) by {
            if let Some(pid) = selected@[j].info.parent {
                last_index_in_range(pids, pid);
            }
        }
    }

    let mut child: usize = 0;
    while child < n
        invariant
            child <= n == selected.len(),
            nodes.len() == n,
            links.len() == n,
            forall|j: int| 0 <= j < n ==> (#[trigger] links[j] matches Some(p) ==> p < n),
            forall|j: int|
                0 <= j < n ==> {
                    &&& shows(#[trigger] nodes@[j], selected@[j].info)
                    &&& nodes@[j].is_mitos == selected@[j].is_mitos
                    &&& nodes@[j].parent == links[j]
                    &&& nodes@[j].children@ == children_below(links, j, child as nat)
                },
        decreases n - child,
    {
        if let Some(parent) = nodes[child].parent {
            nodes[parent].children.push(child);
        }
        child += 1;
    }
    assert(parents_of(nodes@) =~= links);
    nodes
}

/// The tree of the processes of `infos` whose names pass the filter.
pub fn process_tree(infos: &Vec<ProcessInfo>, filter: &str) -> (nodes: Vec<ProcessTreeNode>)
    ensures
        grown_from(nodes@, passing(infos@, filter@)),
        forall|i: int|
            0 <= i < nodes.len() ==> (#[trigger] nodes@[i]).is_mitos == is_mitos_name(
                nodes@[i].name@,
            ),
        forall|i: int|
            0 <= i < nodes.len() ==> (#[trigger] nodes@[i]).is_mitos == contains_part(
                lowered(nodes@[i].name@),
                "mitos"@,
            ),
{
    let selected = select_processes(infos, filter);
    let nodes = assemble_tree(&selected);
    proof {
        lemma_marks(selected@, nodes@);
    }
    nodes
}

/// The marks of selected processes are those of their names.
proof fn lemma_marks(selected: Seq<Candidate>, nodes: Seq<ProcessTreeNode>)
    requires
        grown_from(nodes, infos_of(selected)),
        forall|i: int|
            0 <= i < nodes.len() ==> (#[trigger] nodes[i]).is_mitos == selected[i].is_mitos,
        forall|i: int|
            0 <= i < selected.len() ==> (#[trigger] selected[i]).is_mitos == is_mitos_name(
                selected[i].info.name@,
            ),
    ensures
        forall|i: int|
            0 <= i < nodes.len() ==> (#[trigger] nodes[i]).is_mitos == is_mitos_name(nodes[i].name@),
{
    assert forall|i: int| 0 <= i < nodes.len() implies (#[trigger] nodes[i]).is_mitos
        == is_mitos_name(nodes[i].name@) by {
        assert(shows(nodes[i], infos_of(selected)[i]));
        assert(selected[i].is_mitos == is_mitos_name(selected[i].info.name@));
    }
}

/// `nodes` are the processes of `table` whose names pass the filter, each once,
/// marked where they belong to the MITOS system, and linked to their parents
/// where those pass the filter too.
pub open spec fn tree_of_table(
    nodes: Seq<ProcessTreeNode>,
    table: Map<u32, ProcessRecord>,
    filter: Seq<char>,
) -> bool {
    &&& linked(nodes)
    &&& forall|i: int, j: int|
        0 <= i < j < nodes.len() ==> (#[trigger] nodes[i]).pid != (#[trigger] nodes[j]).pid
    &&& forall|i: int|
        0 <= i < nodes.len() ==> {
            let n = #[trigger] nodes[i];
            let record = table[n.pid];
            &&& table.contains_key(n.pid)
            &&& name_passes(record.name, filter)
            &&& n.name@ == record.name
            &&& n.cpu == record.cpu
            &&& n.mem == record.mem
            &&& n.is_mitos == is_mitos_name(record.name)
            &&& match n.parent {
                Some(p) => record.parent == Some(nodes[p as int].pid),
                None => forall|j: int|
                    0 <= j < nodes.len() ==> record.parent != Some((#[trigger] nodes[j]).pid),
            }
        }
    &&& forall|pid: u32| #[trigger]
        table.contains_key(pid) && name_passes(table[pid].name, filter) ==> exists|i: int|
            0 <= i < nodes.len() && (#[trigger] nodes[i]).pid == pid
}

/// The processes that pass a filter are listed once if all of them are, and none
/// of them is lost.
proof fn lemma_passing(infos: Seq<ProcessInfo>, filter: Seq<char>)
    requires
        forall|i: int, j: int|
            0 <= i < j < infos.len() ==> (#[trigger] infos[i]).pid != (#[trigger] infos[j]).pid,
    ensures
        forall|k: int|
            0 <= k < passing(infos, filter).len() ==> infos.contains(
                #[trigger] passing(infos, filter)[k],
            ) && name_passes(passing(infos, filter)[k].name@, filter),
        forall|k: int, l: int|
            0 <= k < l < passing(infos, filter).len() ==> (#[trigger] passing(
                infos,
                filter,
            )[k]).pid != (#[trigger] passing(infos, filter)[l]).pid,
        forall|i: int|
            0 <= i < infos.len() && name_passes((#[trigger] infos[i]).name@, filter)
                ==> passing(infos, filter).contains(infos[i]),
    decreases infos.len(),
{
    reveal(Seq::filter);
    if infos.len() > 0 {
        let rest = infos.drop_last();
        let last = infos.last();
        let before = passing(rest, filter);
        let all = passing(infos, filter);
        lemma_passing(rest, filter);
        assert forall|k: int| 0 <= k < before.len() implies infos.contains(#[trigger] before[k])
            && before[k].pid != last.pid by {
            let i = choose|i: int| 0 <= i < rest.len() && rest[i] == before[k];
            assert(infos[i] == before[k]);
            assert(infos[i].pid != infos[infos.len() - 1].pid);
        }
        assert(infos[infos.len() - 1] == last);
        assert forall|i: int|
            0 <= i < infos.len() && name_passes((#[trigger] infos[i]).name@, filter) implies all
            .contains(infos[i]) by {
            if i < rest.len() {
                assert(rest[i] == infos[i]);
                let k = choose|k: int| 0 <= k < before.len() && before[k] == infos[i];
                assert(all[k] == infos[i]);
            } else {
                assert(all.last() == last);
            }
        }
    }
}

proof fn lemma_tree_of_table(
    nodes: Seq<ProcessTreeNode>,
    infos: Seq<ProcessInfo>,
    table: Map<u32, ProcessRecord>,
    filter: Seq<char>,
)
    requires
        lists(infos, table),
        grown_from(nodes, passing(infos, filter)),
        forall|i: int|
            0 <= i < nodes.len() ==> (#[trigger] nodes[i]).is_mitos == is_mitos_name(nodes[i].name@),
    ensures
        tree_of_table(nodes, table, filter),
{
    let kept = passing(infos, filter);
    let pids = pids_of(kept);
    lemma_passing(infos, filter);
    assert forall|i: int, j: int| 0 <= i < j < nodes.len() implies (#[trigger] nodes[i]).pid != (
    #[trigger] nodes[j]).pid by {
        assert(shows(nodes[i], kept[i]) && shows(nodes[j], kept[j]));
    }
    assert forall|i: int| 0 <= i < nodes.len() implies {
        let n = #[trigger] nodes[i];
        let record = table[n.pid];
        &&& table.contains_key(n.pid)
        &&& name_passes(record.name, filter)
        &&& n.name@ == record.name
        &&& n.cpu == record.cpu
        &&& n.mem == record.mem
        &&& n.is_mitos == is_mitos_name(record.name)
        &&& match n.parent {
            Some(p) => record.parent == Some(nodes[p as int].pid),
            None => forall|j: int|
                0 <= j < nodes.len() ==> record.parent != Some((#[trigger] nodes[j]).pid),
        }
    } by {
        assert(shows(nodes[i], kept[i]));
        assert(infos.contains(kept[i]));
        let a = choose|a: int| 0 <= a < infos.len() && infos[a] == kept[i];
        assert(describes(infos[a], table[infos[a].pid]));
        assert(parents_of(nodes)[i] == parent_links(kept)[i]);
        if let Some(q) = kept[i].parent {
            last_index_in_range(pids, q);
            if let Some(p) = nodes[i].parent {
                assert(shows(nodes[p as int], kept[p as int]));
            } else {
                assert forall|j: int| 0 <= j < nodes.len() implies Some(q) != Some(
                    (#[trigger] nodes[j]).pid,
                ) by {
                    assert(shows(nodes[j], kept[j]));
                    assert(pids[j] == kept[j].pid);
                }
            }
        }
    }
    assert forall|pid: u32| #[trigger]
        table.contains_key(pid) && name_passes(table[pid].name, filter) implies exists|i: int|
        0 <= i < nodes.len() && (#[trigger] nodes[i]).pid == pid by {
        let a = choose|a: int| 0 <= a < infos.len() && (#[trigger] infos[a]).pid == pid;
        assert(describes(infos[a], table[pid]));
        assert(kept.contains(infos[a]));
        let k = choose|k: int| 0 <= k < kept.len() && kept[k] == infos[a];
        assert(shows(nodes[k], kept[k]));
        assert(nodes[k].pid == pid);
    }
}

/// The tree of the running processes whose names pass the filter. The order of
/// the nodes is open.
pub fn build_process_tree(sys: &System, filter: &str) -> (nodes: Vec<ProcessTreeNode>)
    ensures
        tree_of_table(nodes@, process_table(*sys), filter@),
{
    let infos = list_processes(sys);
    let nodes = process_tree(&infos, filter);
    proof {
        lemma_tree_of_table(nodes@, infos@, process_table(*sys), filter@);
    }
    nodes
}

/// The process `pid` is a node of the tree.
pub open spec fn has_pid(nodes: Seq<ProcessTreeNode>, pid: u32) -> bool {
    exists|i: int| 0 <= i < nodes.len() && (#[trigger] nodes[i]).pid == pid
}

/// The tree links the process `child` to the process `parent`.
pub open spec fn has_link(nodes: Seq<ProcessTreeNode>, parent: u32, child: u32) -> bool {
    exists|i: int|
        0 <= i < nodes.len() && (#[trigger] nodes[i]).pid == child && (nodes[i].parent matches Some(
            p,
        ) && nodes[p as int].pid == parent)
}

/// A node of the tree is a process that passes the filter, and the other way
/// round.
proof fn lemma_has_pid(
    nodes: Seq<ProcessTreeNode>,
    table: Map<u32, ProcessRecord>,
    filter: Seq<char>,
    pid: u32,
)
    requires
        tree_of_table(nodes, table, filter),
    ensures
        has_pid(nodes, pid) <==> table.contains_key(pid) && name_passes(table[pid].name, filter),
{
    if has_pid(nodes, pid) {
        let i = choose|i: int| 0 <= i < nodes.len() && (#[trigger] nodes[i]).pid == pid;
        assert(table.contains_key(nodes[i].pid));
    }
}

/// Two processes are linked where both pass the filter and one is the parent of
/// the other.
proof fn lemma_has_link(
    nodes: Seq<ProcessTreeNode>,
    table: Map<u32, ProcessRecord>,
    filter: Seq<char>,
    parent: u32,
    child: u32,
)
    requires
        tree_of_table(nodes, table, filter),
    ensures
        has_link(nodes, parent, child) <==> has_pid(nodes, parent) && has_pid(nodes, child)
            && table[child].parent == Some(parent),
{
    if has_link(nodes, parent, child) {
        let i = choose|i: int|
            0 <= i < nodes.len() && (#[trigger] nodes[i]).pid == child && (
            nodes[i].parent matches Some(p) && nodes[p as int].pid == parent);
        assert(table.contains_key(nodes[i].pid));
        assert(nodes[nodes[i].parent->0 as int].pid == parent);
    }
    if has_pid(nodes, parent) && has_pid(nodes, child) && table[child].parent == Some(parent) {
        let i = choose|i: int| 0 <= i < nodes.len() && (#[trigger] nodes[i]).pid == child;
        let j = choose|j: int| 0 <= j < nodes.len() && (#[trigger] nodes[j]).pid == parent;
        assert(table.contains_key(nodes[i].pid));
        assert(nodes[j].pid == parent);
        assert(nodes[i].parent is Some);
    }
}

/// A narrower filter keeps a part of the tree: every process in the tree of
/// `filter` is in that of `wider`, where `filter` contains `wider`, letter case
/// aside; and so is every link.
pub proof fn narrower_filter_keeps_a_part(
    nodes: Seq<ProcessTreeNode>,
    wider_nodes: Seq<ProcessTreeNode>,
    table: Map<u32, ProcessRecord>,
    filter: Seq<char>,
    wider: Seq<char>,
)
    requires
        tree_of_table(nodes, table, filter),
        tree_of_table(wider_nodes, table, wider),
        contains_part(lowered(filter), lowered(wider)),
    ensures
        forall|pid: u32| #[trigger] has_pid(nodes, pid) ==> has_pid(wider_nodes, pid),
        forall|parent: u32, child: u32| #[trigger]
            has_link(nodes, parent, child) ==> has_link(wider_nodes, parent, child),
{
    assert forall|pid: u32| #[trigger] has_pid(nodes, pid) implies has_pid(wider_nodes, pid) by {
        lemma_has_pid(nodes, table, filter, pid);
        lemma_has_pid(wider_nodes, table, wider, pid);
        wider_filter_passes(table[pid].name, filter, wider);
    }
    assert forall|parent: u32, child: u32| #[trigger] has_link(nodes, parent, child) implies
        has_link(wider_nodes, parent, child) by {
        lemma_has_link(nodes, table, filter, parent, child);
        lemma_has_link(wider_nodes, table, wider, parent, child);
    }
}

/// The tree of the empty filter holds all processes, each once.
pub proof fn empty_filter_keeps_all(nodes: Seq<ProcessTreeNode>, table: Map<u32, ProcessRecord>)
    requires
        tree_of_table(nodes, table, Seq::empty()),
    ensures
        forall|pid: u32| #[trigger] has_pid(nodes, pid) <==> table.contains_key(pid),
        table.dom().finite(),
        nodes.len() == table.len(),
{
    assert forall|pid: u32| #[trigger] has_pid(nodes, pid) <==> table.contains_key(pid) by {
        lemma_has_pid(nodes, table, Seq::empty(), pid);
    }
    let pids = nodes.map_values(|n: ProcessTreeNode| n.pid);
    assert(pids.no_duplicates()) by {
        assert forall|a: int, b: int|
            0 <= a < pids.len() && 0 <= b < pids.len() && a != b implies pids[a] != pids[b] by {
            assert(pids[a] == nodes[a].pid && pids[b] == nodes[b].pid);
        }
    }
    pids.unique_seq_to_set();
    assert forall|pid: u32| pids.to_set().contains(pid) <==> table.dom().contains(pid) by {
        if table.contains_key(pid) {
            assert(has_pid(nodes, pid));
            let i = choose|i: int| 0 <= i < nodes.len() && (#[trigger] nodes[i]).pid == pid;
            assert(pids[i] == pid);
        }
        if pids.contains(pid) {
            let i = choose|i: int| 0 <= i < pids.len() && pids[i] == pid;
            assert(nodes[i].pid == pid);
            assert(has_pid(nodes, pid));
        }
    }
    assert(pids.to_set() =~= table.dom());
    vstd::seq_lib::seq_to_set_is_finite(pids);
}

/// Filters that differ in letter case alone give the same processes and the same
/// links.
pub proof fn tree_ignores_filter_case(
    nodes: Seq<ProcessTreeNode>,
    other_nodes: Seq<ProcessTreeNode>,
    table: Map<u32, ProcessRecord>,
    filter: Seq<char>,
    other: Seq<char>,
)
    requires
        tree_of_table(nodes, table, filter),
        tree_of_table(other_nodes, table, other),
        lowered(filter) == lowered(other),
    ensures
        forall|pid: u32| #[trigger] has_pid(nodes, pid) <==> has_pid(other_nodes, pid),
        forall|parent: u32, child: u32| #[trigger]
            has_link(nodes, parent, child) <==> has_link(other_nodes, parent, child),
{
    assert forall|pid: u32| #[trigger] has_pid(nodes, pid) <==> has_pid(other_nodes, pid) by {
        lemma_has_pid(nodes, table, filter, pid);
        lemma_has_pid(other_nodes, table, other, pid);
        filter_ignores_case(table[pid].name, table[pid].name, filter, other);
    }
    assert forall|parent: u32, child: u32| #[trigger] has_link(nodes, parent, child) <==> has_link(
        other_nodes,
        parent,
        child,
    ) by {
        lemma_has_link(nodes, table, filter, parent, child);
        lemma_has_link(other_nodes, table, other, parent, child);
    }
}

/// An ASCII filter and its upper case give the same processes and the same links.
pub proof fn tree_ignores_upper_case(
    nodes: Seq<ProcessTreeNode>,
    upper_nodes: Seq<ProcessTreeNode>,
    table: Map<u32, ProcessRecord>,
    filter: Seq<char>,
)
    requires
        ascii_only(filter),
        tree_of_table(nodes, table, filter),
        tree_of_table(upper_nodes, table, ascii_upper(filter)),
    ensures
        forall|pid: u32| #[trigger] has_pid(nodes, pid) <==> has_pid(upper_nodes, pid),
        forall|parent: u32, child: u32| #[trigger]
            has_link(nodes, parent, child) <==> has_link(upper_nodes, parent, child),
{
    upper_case_lowers_alike(filter);
    tree_ignores_filter_case(nodes, upper_nodes, table, filter, ascii_upper(filter));
}

/// The indices of the nodes that have no parent among the nodes.
pub open spec fn parentless_below(nodes: Seq<ProcessTreeNode>, n: nat) -> Seq<usize>
    decreases n,
{
    if n == 0 {
        Seq::empty()
    } else {
        let rest = parentless_below(nodes, (n - 1) as nat);
        if nodes[n - 1].parent is None {
            rest.push((n - 1) as usize)
        } else {
            rest
        }
    }
}

/// The roots of the tree, in ascending order.
pub open spec fn roots_of(nodes: Seq<ProcessTreeNode>) -> Seq<usize> {
    parentless_below(nodes, nodes.len())
}

proof fn lemma_children_below(parents: Seq<Option<usize>>, of: int, n: nat)
    requires
        0 <= of <= usize::MAX,
        n <= parents.len() <= usize::MAX,
    ensures
        forall|j: int|
            0 <= j < children_below(parents, of, n).len() ==> {
                let c = #[trigger] children_below(parents, of, n)[j];
                c < n && parents[c as int] == Some(of as usize)
            },
        forall|c: usize|
            c < n && parents[c as int] == Some(of as usize) ==> #[trigger] children_below(
                parents,
                of,
                n,
            ).contains(c),
        children_below(parents, of, n).no_duplicates(),
    decreases n,
{
    if n > 0 {
        let rest = children_below(parents, of, (n - 1) as nat);
        let all = children_below(parents, of, n);
        lemma_children_below(parents, of, (n - 1) as nat);
        assert forall|c: usize| c < n && parents[c as int] == Some(of as usize) implies
            #[trigger] all.contains(c) by {
            if c < n - 1 {
                assert(rest.contains(c));
                let k = choose|k: int| 0 <= k < rest.len() && rest[k] == c;
                assert(all[k] == c);
            } else {
                assert(all.last() == c);
            }
        }
    }
}

/// The `k`-th child of a node is a node of the list and has it as its parent.
pub proof fn lemma_children(nodes: Seq<ProcessTreeNode>, i: usize, k: int)
    requires
        linked(nodes),
        i < nodes.len(),
        0 <= k < nodes[i as int].children@.len(),
    ensures
        nodes[i as int].children@[k] < nodes.len(),
        nodes[nodes[i as int].children@[k] as int].parent == Some(i),
{
    lemma_children_below(parents_of(nodes), i as int, nodes.len());
}

/// A node is listed once, among the children of its parent.
pub proof fn lemma_is_child(nodes: Seq<ProcessTreeNode>, i: usize)
    requires
        linked(nodes),
        i < nodes.len(),
    ensures
        nodes[i as int].parent matches Some(p) ==> nodes[p as int].children@.contains(i),
        nodes[i as int].children@.no_duplicates(),
{
    if let Some(p) = nodes[i as int].parent {
        lemma_children_below(parents_of(nodes), p as int, nodes.len());
        assert(parents_of(nodes)[i as int] == Some(p));
    }
    lemma_children_below(parents_of(nodes), i as int, nodes.len());
}

proof fn lemma_parentless_below(nodes: Seq<ProcessTreeNode>, n: nat)
    requires
        n <= nodes.len() <= usize::MAX,
    ensures
        forall|j: int|
            0 <= j < parentless_below(nodes, n).len() ==> {
                let c = #[trigger] parentless_below(nodes, n)[j];
                c < n && nodes[c as int].parent is None
            },
        forall|c: usize|
            c < n && nodes[c as int].parent is None ==> #[trigger] parentless_below(
                nodes,
                n,
            ).contains(c),
        parentless_below(nodes, n).no_duplicates(),
    decreases n,
{
    if n > 0 {
        let rest = parentless_below(nodes, (n - 1) as nat);
        let all = parentless_below(nodes, n);
        lemma_parentless_below(nodes, (n - 1) as nat);
        assert forall|c: usize| c < n && nodes[c as int].parent is None implies
            #[trigger] all.contains(c) by {
            if c < n - 1 {
                assert(rest.contains(c));
                let k = choose|k: int| 0 <= k < rest.len() && rest[k] == c;
                assert(all[k] == c);
            } else {
                assert(all.last() == c);
            }
        }
    }
}

/// The roots are the nodes without a parent, each listed once.
pub proof fn lemma_roots(nodes: Seq<ProcessTreeNode>)
    requires
        nodes.len() <= usize::MAX,
    ensures
        forall|k: int|
            0 <= k < roots_of(nodes).len() ==> {
                let r = #[trigger] roots_of(nodes)[k];
                r < nodes.len() && nodes[r as int].parent is None
            },
        forall|r: usize|
            r < nodes.len() && nodes[r as int].parent is None ==> #[trigger] roots_of(
                nodes,
            ).contains(r),
        roots_of(nodes).no_duplicates(),
{
    lemma_parentless_below(nodes, nodes.len());
}

/// The roots of the tree: the nodes without a parent, in ascending order.
pub fn tree_roots(nodes: &Vec<ProcessTreeNode>) -> (roots: Vec<usize>)
    ensures
        roots@ == roots_of(nodes@),
{
    let mut roots: Vec<usize> = Vec::new();
    let mut i: usize = 0;
    while i < nodes.len()
        invariant
            i <= nodes.len(),
            roots@ == parentless_below(nodes@, i as nat),
        decreases nodes.len() - i,
    {
        if nodes[i].parent.is_none() {
            roots.push(i);
        }
        i += 1;
    }
    roots
}

proof fn lemma_last_index(pids: Seq<u32>, pid: u32)
    requires
        pids.len() <= usize::MAX,
    ensures
        last_index(pids, pid) matches Some(i) ==> i < pids.len() && pids[i as int] == pid
            && forall|j: int| i < j < pids.len() ==> #[trigger] pids[j] != pid,
        last_index(pids, pid) is None ==> forall|j: int|
            0 <= j < pids.len() ==> #[trigger] pids[j] != pid,
    decreases pids.len(),
{
    if pids.len() > 0 && pids.last() != pid {
        let front = pids.drop_last();
        lemma_last_index(front, pid);
        assert forall|j: int|
            0 <= j < pids.len() && (last_index(pids, pid) matches Some(i) ==> i < j) implies
            #[trigger] pids[j] != pid by {
            if j < front.len() {
                assert(front[j] == pids[j]);
            }
        }
    }
}

/// The tree of a list has a node for each process of the list, in order, with its
/// process id, name, usage and memory. The parent of a node is the last process of
/// the list that has the id of its parent, and it has none where no process has.
pub proof fn trees_by_list(nodes: Seq<ProcessTreeNode>, infos: Seq<ProcessInfo>)
    requires
        grown_from(nodes, infos),
    ensures
        nodes.len() == infos.len(),
        forall|i: int|
            0 <= i < nodes.len() ==> {
                let n = #[trigger] nodes[i];
                &&& n.pid == infos[i].pid
                &&& n.name@ == infos[i].name@
                &&& n.cpu == infos[i].cpu
                &&& n.mem == infos[i].mem
                &&& n.parent matches Some(p) ==> {
                    &&& p < infos.len()
                    &&& infos[i].parent == Some(infos[p as int].pid)
                    &&& forall|j: int|
                        p < j < infos.len() ==> infos[i].parent != Some((#[trigger] infos[j]).pid)
                }
                &&& n.parent is None ==> forall|j: int|
                    0 <= j < infos.len() ==> infos[i].parent != Some((#[trigger] infos[j]).pid)
            },
{
    let pids = pids_of(infos);
    assert forall|i: int| 0 <= i < nodes.len() implies {
        let n = #[trigger] nodes[i];
        &&& n.pid == infos[i].pid
        &&& n.name@ == infos[i].name@
        &&& n.cpu == infos[i].cpu
        &&& n.mem == infos[i].mem
        &&& n.parent matches Some(p) ==> {
            &&& p < infos.len()
            &&& infos[i].parent == Some(infos[p as int].pid)
            &&& forall|j: int|
                p < j < infos.len() ==> infos[i].parent != Some((#[trigger] infos[j]).pid)
        }
        &&& n.parent is None ==> forall|j: int|
            0 <= j < infos.len() ==> infos[i].parent != Some((#[trigger] infos[j]).pid)
    } by {
        assert(shows(nodes[i], infos[i]));
        assert(parents_of(nodes)[i] == parent_links(infos)[i]);
        if let Some(q) = infos[i].parent {
            lemma_last_index(pids, q);
            assert forall|j: int| 0 <= j < infos.len() implies pids[j] == (
            #[trigger] infos[j]).pid by {}
        }
    }
}

proof fn lemma_children_ascend(parents: Seq<Option<usize>>, of: int, n: nat)
    requires
        0 <= of <= usize::MAX,
        n <= parents.len() <= usize::MAX,
    ensures
        forall|j: int, k: int|
            0 <= j < k < children_below(parents, of, n).len() ==> (#[trigger] children_below(
                parents,
                of,
                n,
            )[j]) < (#[trigger] children_below(parents, of, n)[k]),
    decreases n,
{
    if n > 0 {
        lemma_children_ascend(parents, of, (n - 1) as nat);
        lemma_children_below(parents, of, (n - 1) as nat);
        let rest = children_below(parents, of, (n - 1) as nat);
        let all = children_below(parents, of, n);
        assert forall|j: int, k: int| 0 <= j < k < all.len() implies (#[trigger] all[j]) < (
        #[trigger] all[k]) by {
            assert(all[j] == rest[j]);
            assert(rest[j] < n - 1);
            if k < rest.len() {
                assert(all[k] == rest[k]);
            }
        }
    }
}

/// The children of a node are the nodes that have it as their parent, and no
/// others, in ascending order.
pub proof fn children_by_parent(nodes: Seq<ProcessTreeNode>, p: usize, c: usize)
    requires
        linked(nodes),
        p < nodes.len(),
    ensures
        nodes[p as int].children@.contains(c) <==> c < nodes.len() && nodes[c as int].parent
            == Some(p),
        forall|j: int, k: int|
            0 <= j < k < nodes[p as int].children@.len() ==> (
            #[trigger] nodes[p as int].children@[j]) < (#[trigger] nodes[p as int].children@[k]),
{
    lemma_children_ascend(parents_of(nodes), p as int, nodes.len());
    if c < nodes.len() {
        lemma_is_child(nodes, c);
    }
    if nodes[p as int].children@.contains(c) {
        let k = choose|k: int|
            0 <= k < nodes[p as int].children@.len() && nodes[p as int].children@[k] == c;
        lemma_children(nodes, p, k);
    }
}

proof fn lemma_parentless_ascend(nodes: Seq<ProcessTreeNode>, n: nat)
    requires
        n <= nodes.len() <= usize::MAX,
    ensures
        forall|j: int, k: int|
            0 <= j < k < parentless_below(nodes, n).len() ==> (#[trigger] parentless_below(
                nodes,
                n,
            )[j]) < (#[trigger] parentless_below(nodes, n)[k]),
    decreases n,
{
    if n > 0 {
        lemma_parentless_ascend(nodes, (n - 1) as nat);
        lemma_parentless_below(nodes, (n - 1) as nat);
        let rest = parentless_below(nodes, (n - 1) as nat);
        let all = parentless_below(nodes, n);
        assert forall|j: int, k: int| 0 <= j < k < all.len() implies (#[trigger] all[j]) < (
        #[trigger] all[k]) by {
            assert(all[j] == rest[j]);
            assert(rest[j] < n - 1);
            if k < rest.len() {
                assert(all[k] == rest[k]);
            }
        }
    }
}

/// The roots are the nodes without a parent and no others, in ascending order.
pub proof fn roots_by_parent(nodes: Seq<ProcessTreeNode>, r: usize)
    requires
        nodes.len() <= usize::MAX,
    ensures
        roots_of(nodes).contains(r) <==> r < nodes.len() && nodes[r as int].parent is None,
        forall|j: int, k: int|
            0 <= j < k < roots_of(nodes).len() ==> (#[trigger] roots_of(nodes)[j]) < (
            #[trigger] roots_of(nodes)[k]),
{
    lemma_roots(nodes);
    lemma_parentless_ascend(nodes, nodes.len());
}

/// The tree of the running processes has a node for each process that passes the
/// filter, each once, and for no other. A node has the name, usage and memory of
/// its process, is marked where `mitos` stands in the lower case of its name, and
/// hangs below the parent of its process where that has a node.
pub proof fn trees_by_table(
    nodes: Seq<ProcessTreeNode>,
    table: Map<u32, ProcessRecord>,
    filter: Seq<char>,
)
    requires
        tree_of_table(nodes, table, filter),
    ensures
        forall|i: int, j: int|
            0 <= i < nodes.len() && 0 <= j < nodes.len() && (#[trigger] nodes[i]).pid == (
            #[trigger] nodes[j]).pid ==> i == j,
        forall|pid: u32|
            (exists|i: int| 0 <= i < nodes.len() && (#[trigger] nodes[i]).pid == pid) <==> (
            #[trigger] table.contains_key(pid) && (filter.len() == 0 || contains_part(
                lowered(table[pid].name),
                lowered(filter),
            ))),
        forall|i: int|
            0 <= i < nodes.len() ==> {
                let n = #[trigger] nodes[i];
                let record = table[n.pid];
                &&& n.name@ == record.name
                &&& n.cpu == record.cpu
                &&& n.mem == record.mem
                &&& n.is_mitos == contains_part(lowered(record.name), "mitos"@)
                &&& n.parent matches Some(p) ==> p < nodes.len() && record.parent == Some(
                    nodes[p as int].pid,
                )
                &&& n.parent is None ==> forall|j: int|
                    0 <= j < nodes.len() ==> record.parent != Some((#[trigger] nodes[j]).pid)
            },
{
    assert forall|pid: u32|
        (exists|i: int| 0 <= i < nodes.len() && (#[trigger] nodes[i]).pid == pid) <==> (
        #[trigger] table.contains_key(pid) && (filter.len() == 0 || contains_part(
            lowered(table[pid].name),
            lowered(filter),
        ))) by {
        lemma_has_pid(nodes, table, filter, pid);
        assert(has_pid(nodes, pid) <==> exists|i: int|
            0 <= i < nodes.len() && (#[trigger] nodes[i]).pid == pid);
    }
}

} // verus!
