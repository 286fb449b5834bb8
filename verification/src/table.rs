//! The process table: the busiest processes first.

use sysinfo::System;
use vstd::prelude::*;

use crate::process::{
    infos_of, list_processes, lists, passing, process_table, select_processes, ProcessInfo,
};

verus! {

/// The most rows that the table shows.
pub const ROW_LIMIT: usize = 200;

/// Process `i` stands above process `j`: it uses more CPU, or as much and is
/// listed first.
pub open spec fn above(infos: Seq<ProcessInfo>, i: usize, j: usize) -> bool {
    let a = infos[i as int].cpu.rank();
    let b = infos[j as int].cpu.rank();
    a > b || (a == b && i < j)
}

/// Each of `order` stands above those that follow.
pub open spec fn descending(infos: Seq<ProcessInfo>, order: Seq<usize>) -> bool {
    forall|k: int, l: int|
        0 <= k < l < order.len() ==> above(infos, #[trigger] order[k], #[trigger] order[l])
}

/// `order` lists the positions of all processes, in descending order.
pub open spec fn is_ranking(infos: Seq<ProcessInfo>, order: Seq<usize>) -> bool {
    &&& order.len() == infos.len()
    &&& forall|k: int| 0 <= k < order.len() ==> #[trigger] order[k] < infos.len()
    &&& descending(infos, order)
}

/// The positions of all processes in descending order.
pub open spec fn ranking(infos: Seq<ProcessInfo>) -> Seq<usize> {
    choose|order: Seq<usize>| is_ranking(infos, order)
}

/// The first rows of the table: the processes in descending order, as far as the
/// limit goes.
pub open spec fn top_rows(infos: Seq<ProcessInfo>) -> Seq<ProcessInfo> {
    Seq::new(
        if infos.len() <= ROW_LIMIT {
            infos.len()
        } else {
            ROW_LIMIT as nat
        },
        |k: int| infos[ranking(infos)[k] as int],
    )
}

/// The order of two runs together.
fn merge(infos: &Vec<ProcessInfo>, a: &Vec<usize>, b: &Vec<usize>) -> (r: Vec<usize>)
    requires
        descending(infos@, a@),
        descending(infos@, b@),
        forall|k: int| 0 <= k < a.len() ==> #[trigger] a@[k] < infos.len(),
        forall|k: int| 0 <= k < b.len() ==> #[trigger] b@[k] < infos.len(),
        forall|k: int, l: int|
            0 <= k < a.len() && 0 <= l < b.len() ==> #[trigger] a@[k] < #[trigger] b@[l],
    ensures
        descending(infos@, r@),
        r.len() == a.len() + b.len(),
        forall|k: int|
            0 <= k < r.len() ==> a@.contains(#[trigger] r@[k]) || b@.contains(r@[k]),
{
    let mut out: Vec<usize> = Vec::new();
    let mut i: usize = 0;
    let mut j: usize = 0;
    while i < a.len() || j < b.len()
        invariant
            descending(infos@, a@),
            descending(infos@, b@),
            forall|k: int| 0 <= k < a.len() ==> #[trigger] a@[k] < infos.len(),
            forall|k: int| 0 <= k < b.len() ==> #[trigger] b@[k] < infos.len(),
            forall|k: int, l: int|
                0 <= k < a.len() && 0 <= l < b.len() ==> #[trigger] a@[k] < #[trigger] b@[l],
            i <= a.len(),
            j <= b.len(),
            out.len() == i + j,
            descending(infos@, out@),
            forall|k: int|
                0 <= k < out.len() ==> a@.contains(#[trigger] out@[k]) || b@.contains(out@[k]),
            forall|k: int, l: int|
                0 <= k < out.len() && i <= l < a.len() ==> above(
                    infos@,
                    #[trigger] out@[k],
                    #[trigger] a@[l],
                ),
            forall|k: int, l: int|
                0 <= k < out.len() && j <= l < b.len() ==> above(
                    infos@,
                    #[trigger] out@[k],
                    #[trigger] b@[l],
                ),
        decreases a.len() + b.len() - i - j,
    {
        let take_first = if i >= a.len() {
            false
        } else if j >= b.len() {
            true
        } else {
            infos[a[i]].cpu.order_key() >= infos[b[j]].cpu.order_key()
        };
        if take_first {
            assert(a@.contains(a@[i as int]));
            out.push(a[i]);
            i += 1;
        } else {
            assert(b@.contains(b@[j as int]));
            out.push(b[j]);
            j += 1;
        }
    }
    out
}

/// The positions `from..to` in descending order.
fn sort_range(infos: &Vec<ProcessInfo>, from: usize, to: usize) -> (r: Vec<usize>)
    requires
        from <= to <= infos.len(),
    ensures
        descending(infos@, r@),
        r.len() == to - from,
        forall|k: int| 0 <= k < r.len() ==> from <= #[trigger] r@[k] < to,
    decreases to - from,
{
    let mut out: Vec<usize> = Vec::new();
    if to - from == 1 {
        out.push(from);
        out
    } else if to - from == 0 {
        out
    } else {
        let mid: usize = from + (to - from) / 2;
        let a = sort_range(infos, from, mid);
        let b = sort_range(infos, mid, to);
        let r = merge(infos, &a, &b);
        assert forall|k: int| 0 <= k < r.len() implies from <= #[trigger] r@[k] < to by {
            if a@.contains(r@[k]) {
                let l = choose|l: int| 0 <= l < a.len() && a@[l] == r@[k];
                assert(from <= a@[l] < mid);
            } else {
                let l = choose|l: int| 0 <= l < b.len() && b@[l] == r@[k];
                assert(mid <= b@[l] < to);
            }
        }
        r
    }
}

/// A ranking leaves no process out and lists none twice.
pub proof fn ranking_is_complete(infos: Seq<ProcessInfo>, order: Seq<usize>, i: usize)
    requires
        is_ranking(infos, order),
        i < infos.len(),
    ensures
        order.contains(i),
        order.no_duplicates(),
{
    let steps = order.map_values(|u: usize| u as int);
    assert forall|a: int, b: int| 0 <= a < order.len() && 0 <= b < order.len() && a != b implies
        order[a] != order[b] by {
        if a < b {
            assert(above(infos, order[a], order[b]));
        } else {
            assert(above(infos, order[b], order[a]));
        }
    }
    assert(steps.no_duplicates());
    steps.unique_seq_to_set();
    let all = vstd::set_lib::set_int_range(0, infos.len() as int);
    vstd::set_lib::lemma_int_range(0, infos.len() as int);
    assert forall|x: int| steps.to_set().contains(x) implies all.contains(x) by {
        let a = choose|a: int| 0 <= a < steps.len() && steps[a] == x;
        assert(order[a] < infos.len());
    }
    vstd::set_lib::lemma_subset_equality(steps.to_set(), all);
    assert(steps.to_set().contains(i as int));
    let a = choose|a: int| 0 <= a < steps.len() && steps[a] == i as int;
    assert(order[a] == i);
}

/// There is only one ranking.
pub proof fn ranking_is_unique(infos: Seq<ProcessInfo>, x: Seq<usize>, y: Seq<usize>)
    requires
        is_ranking(infos, x),
        is_ranking(infos, y),
    ensures
        x == y,
{
    assert forall|k: int| 0 <= k < x.len() implies x[k] == y[k] by {
        lemma_rankings_agree(infos, x, y, k);
    }
    assert(x =~= y);
}

proof fn lemma_rankings_agree(infos: Seq<ProcessInfo>, x: Seq<usize>, y: Seq<usize>, k: int)
    requires
        is_ranking(infos, x),
        is_ranking(infos, y),
        0 <= k < x.len(),
    ensures
        forall|j: int| 0 <= j <= k ==> x[j] == y[j],
    decreases k,
{
    if k > 0 {
        lemma_rankings_agree(infos, x, y, k - 1);
    }
    ranking_is_complete(infos, x, y[k]);
    ranking_is_complete(infos, y, x[k]);
    let m = choose|m: int| 0 <= m < x.len() && x[m] == y[k];
    let n = choose|n: int| 0 <= n < y.len() && y[n] == x[k];
    if x[k] != y[k] {
        assert(m > k && n > k);
        assert(above(infos, x[k], x[m]));
        assert(above(infos, y[k], y[n]));
    }
}

/// The first `n` processes can be put in descending order.
proof fn lemma_order_exists(infos: Seq<ProcessInfo>, n: nat) -> (order: Seq<usize>)
    requires
        n <= infos.len() <= usize::MAX,
    ensures
        order.len() == n,
        forall|k: int| 0 <= k < n ==> #[trigger] order[k] < n,
        descending(infos, order),
    decreases n,
{
    if n == 0 {
        Seq::empty()
    } else {
        let front = lemma_order_exists(infos, (n - 1) as nat);
        let x = (n - 1) as usize;
        let p = lemma_place(infos, front, x);
        let order = front.insert(p, x);
        assert forall|k: int, l: int| 0 <= k < l < order.len() implies above(
            infos,
            #[trigger] order[k],
            #[trigger] order[l],
        ) by {
            let a = if k < p { k } else { k - 1 };
            let b = if l < p { l } else { l - 1 };
            assert(k != p ==> order[k] == front[a]);
            assert(l != p ==> order[l] == front[b]);
        }
        assert forall|k: int| 0 <= k < n implies #[trigger] order[k] < n by {
            if k < p {
                assert(order[k] == front[k]);
            } else if k > p {
                assert(order[k] == front[k - 1]);
            }
        }
        order
    }
}

/// The place in a descending order of a process that is listed later.
proof fn lemma_place(infos: Seq<ProcessInfo>, order: Seq<usize>, x: usize) -> (p: int)
    requires
        descending(infos, order),
        forall|k: int| 0 <= k < order.len() ==> #[trigger] order[k] < x,
    ensures
        0 <= p <= order.len(),
        forall|k: int| 0 <= k < p ==> above(infos, #[trigger] order[k], x),
        forall|k: int| p <= k < order.len() ==> above(infos, x, #[trigger] order[k]),
    decreases order.len(),
{
    if order.len() == 0 {
        0
    } else if above(infos, order.last(), x) {
        assert forall|k: int| 0 <= k < order.len() implies above(infos, #[trigger] order[k], x) by {
            if k < order.len() - 1 {
                assert(above(infos, order[k], order[order.len() - 1]));
            }
        }
        order.len() as int
    } else {
        let front = order.drop_last();
        assert forall|k: int| 0 <= k < front.len() implies #[trigger] front[k] < x by {
            assert(front[k] == order[k]);
        }
        assert(descending(infos, front)) by {
            assert forall|k: int, l: int| 0 <= k < l < front.len() implies above(
                infos,
                #[trigger] front[k],
                #[trigger] front[l],
            ) by {
                assert(above(infos, order[k], order[l]));
            }
        }
        let p = lemma_place(infos, front, x);
        assert forall|k: int| 0 <= k < p implies above(infos, #[trigger] order[k], x) by {
            assert(front[k] == order[k]);
        }
        assert forall|k: int| p <= k < order.len() implies above(infos, x, #[trigger] order[k]) by {
            if k < order.len() - 1 {
                assert(front[k] == order[k]);
            }
        }
        p
    }
}

/// Every list of processes has a ranking.
pub proof fn ranking_exists(infos: Seq<ProcessInfo>)
    requires
        infos.len() <= usize::MAX,
    ensures
        is_ranking(infos, ranking(infos)),
{
    let order = lemma_order_exists(infos, infos.len());
    assert(is_ranking(infos, order));
}

/// The rows descend by CPU usage, and no process that is left out uses more CPU
/// than one that is shown.
pub proof fn rows_are_the_busiest(infos: Seq<ProcessInfo>)
    requires
        infos.len() <= usize::MAX,
    ensures
        forall|k: int, l: int|
            0 <= k < l < top_rows(infos).len() ==> (#[trigger] top_rows(infos)[k]).cpu.rank() >= (
            #[trigger] top_rows(infos)[l]).cpu.rank(),
        forall|i: int, k: int|
            0 <= i < infos.len() && 0 <= k < top_rows(infos).len() && !top_rows(infos).contains(
                #[trigger] infos[i],
            ) ==> infos[i].cpu.rank() <= (#[trigger] top_rows(infos)[k]).cpu.rank(),
{
    ranking_exists(infos);
    let order = ranking(infos);
    let rows = top_rows(infos);
    assert forall|k: int, l: int| 0 <= k < l < rows.len() implies (#[trigger] rows[k]).cpu.rank()
        >= (#[trigger] rows[l]).cpu.rank() by {
        assert(above(infos, order[k], order[l]));
    }
    assert forall|i: int, k: int|
        0 <= i < infos.len() && 0 <= k < rows.len() && !rows.contains(#[trigger] infos[i]) implies
        infos[i].cpu.rank() <= (#[trigger] rows[k]).cpu.rank() by {
        ranking_is_complete(infos, order, i as usize);
        let m = choose|m: int| 0 <= m < order.len() && order[m] == i as usize;
        if m < rows.len() {
            assert(rows[m] == infos[i]);
        } else {
            assert(above(infos, order[k], order[m]));
        }
    }
}

/// The first rows of the table of the processes `infos`.
pub fn rank_rows(infos: &Vec<ProcessInfo>) -> (r: Vec<ProcessInfo>)
    ensures
        is_ranking(infos@, ranking(infos@)),
        r@ == top_rows(infos@),
        r@.len() == if infos@.len() < 200 {
            infos@.len()
        } else {
            200
        },
        forall|k: int, l: int|
            0 <= k < l < r@.len() ==> (#[trigger] r@[k]).cpu.rank() >= (#[trigger] r@[l]).cpu.rank(),
{
    let order = sort_range(infos, 0, infos.len());
    proof {
        assert(is_ranking(infos@, order@));
        ranking_is_unique(infos@, order@, ranking(infos@));
    }
    let count: usize = if infos.len() <= ROW_LIMIT { infos.len() } else { ROW_LIMIT };
    let mut out: Vec<ProcessInfo> = Vec::new();
    let mut k: usize = 0;
    while k < count
        invariant
            k <= count <= order.len() == infos.len(),
            order@ == ranking(infos@),
            is_ranking(infos@, order@),
            out@ == Seq::new(k as nat, |j: int| infos@[order@[j] as int]),
        decreases count - k,
    {
        assert(order@[k as int] < infos.len());
        out.push(infos[order[k]].clone());
        k += 1;
        assert(out@ =~= Seq::new(k as nat, |j: int| infos@[order@[j] as int]));
    }
    assert(out@ =~= top_rows(infos@));
    proof {
        rows_are_the_busiest(infos@);
    }
    out
}

/// The rows of the process table: of the running processes whose names pass the
/// filter, those that use the most CPU. Which comes first of two that use as much
/// is open.
pub fn process_rows(sys: &System, filter: &str) -> (r: Vec<ProcessInfo>)
    ensures
        exists|infos: Seq<ProcessInfo>|
            {
                let kept = #[trigger] passing(infos, filter@);
                &&& lists(infos, process_table(*sys))
                &&& is_ranking(kept, ranking(kept))
                &&& r@ == top_rows(kept)
                &&& r@.len() == if kept.len() < 200 {
                    kept.len()
                } else {
                    200
                }
            },
{
    let infos = list_processes(sys);
    let selected = select_processes(&infos, filter);
    let mut kept: Vec<ProcessInfo> = Vec::new();
    let mut i: usize = 0;
    while i < selected.len()
        invariant
            i <= selected.len(),
            kept@ == infos_of(selected@).take(i as int),
        decreases selected.len() - i,
    {
        kept.push(selected[i].info.clone());
        i += 1;
        assert(kept@ =~= infos_of(selected@).take(i as int));
    }
    assert(kept@ =~= passing(infos@, filter@));
    rank_rows(&kept)
}

/// The table has a row for each process, up to 200. Each row is a process of the
/// list, none twice; a row stands above another because its process uses more CPU,
/// or as much and is listed first; and a process has no row only where every row
/// stands above it in that way.
pub proof fn rows_by_position(infos: Seq<ProcessInfo>) -> (order: Seq<int>)
    requires
        infos.len() <= usize::MAX,
    ensures
        top_rows(infos).len() == if infos.len() < 200 {
            infos.len()
        } else {
            200
        },
        order.len() == top_rows(infos).len(),
        forall|k: int|
            0 <= k < order.len() ==> 0 <= #[trigger] order[k] < infos.len() && top_rows(infos)[k]
                == infos[order[k]],
        forall|k: int, l: int|
            0 <= k < l < order.len() ==> {
                let a = infos[#[trigger] order[k]].cpu.rank();
                let b = infos[#[trigger] order[l]].cpu.rank();
                a > b || (a == b && order[k] < order[l])
            },
        forall|i: int, k: int|
            0 <= i < infos.len() && !order.contains(i) && 0 <= k < order.len() ==> {
                let a = infos[#[trigger] order[k]].cpu.rank();
                let b = (#[trigger] infos[i]).cpu.rank();
                a > b || (a == b && order[k] < i)
            },
{
    ranking_exists(infos);
    let all = ranking(infos);
    let rows = top_rows(infos);
    let order = Seq::new(rows.len(), |k: int| all[k] as int);
    assert forall|k: int| 0 <= k < order.len() implies 0 <= #[trigger] order[k] < infos.len()
        && rows[k] == infos[order[k]] by {
        assert(all[k] < infos.len());
    }
    assert forall|k: int, l: int| 0 <= k < l < order.len() implies {
        let a = infos[#[trigger] order[k]].cpu.rank();
        let b = infos[#[trigger] order[l]].cpu.rank();
        a > b || (a == b && order[k] < order[l])
    } by {
        assert(above(infos, all[k], all[l]));
    }
    assert forall|i: int, k: int|
        0 <= i < infos.len() && !order.contains(i) && 0 <= k < order.len() implies {
        let a = infos[#[trigger] order[k]].cpu.rank();
        let b = (#[trigger] infos[i]).cpu.rank();
        a > b || (a == b && order[k] < i)
    } by {
        ranking_is_complete(infos, all, i as usize);
        let m = choose|m: int| 0 <= m < all.len() && all[m] == i as usize;
        if m < order.len() {
            assert(order[m] == i);
        } else {
            assert(above(infos, all[k], all[m]));
        }
    }
    order
}

} // verus!
