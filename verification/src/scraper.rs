//! Terminal buffers read from the sockets of running terminals.
//!
//! A terminal with process id `pid` listens on `/tmp/mitos-term-{pid}.sock`.

use std::path::PathBuf;

use vstd::prelude::*;

use crate::text::{
    between, between_prefix_and_suffix, decimal, decimal_reads_back, parse_u32, parsed, strip_both,
};

verus! {

/// The path type of the standard library; it is carried and never looked into.
#[verifier::external_type_specification]
#[verifier::external_body]
pub struct ExPathBuf(PathBuf);

/// Represents a scraped terminal buffer.
pub struct TerminalBuffer {
    pub pid: u32,
    pub socket_path: PathBuf,
    pub content: String,
}

/// What came of reading a terminal's socket; `content` is `None` where the
/// socket could not be read.
pub struct Scraped {
    pub pid: u32,
    pub socket_path: PathBuf,
    pub content: Option<String>,
}

/// The process id in the name of a terminal's socket.
pub open spec fn pid_in_name(file_name: Seq<char>) -> Option<nat> {
    match between(file_name, "mitos-term-"@, ".sock"@) {
        Some(pid) => parsed(pid, u32::MAX as nat),
        None => None,
    }
}

/// The process id in the name of a terminal's socket, `mitos-term-{pid}.sock`;
/// `None` where the name is none of a terminal's socket.
pub fn socket_pid(file_name: &str) -> (r: Option<u32>)
    ensures
        pid_in_name(file_name@) == (match r {
            Some(pid) => Some(pid as nat),
            None => None,
        }),
{
    match strip_both(file_name, "mitos-term-", ".sock") {
        Some(pid) => parse_u32(pid.as_str()),
        None => None,
    }
}

/// The name of the socket of the terminal `pid`.
pub open spec fn socket_name(pid: u32) -> Seq<char> {
    "mitos-term-"@ + decimal(pid as nat) + ".sock"@
}

/// Every terminal is found by the name of its socket.
pub proof fn socket_names_read_back(pid: u32)
    ensures
        pid_in_name(socket_name(pid)) == Some(pid as nat),
{
    let name = socket_name(pid);
    let head = "mitos-term-"@;
    let tail = ".sock"@;
    let digits = decimal(pid as nat);
    let rest = name.skip(head.len() as int);
    assert(name.subrange(0, head.len() as int) =~= head);
    assert(rest =~= digits + tail);
    assert(rest.subrange(rest.len() - tail.len(), rest.len() as int) =~= tail);
    assert(rest.take(rest.len() - tail.len()) =~= digits);
    decimal_reads_back(pid as nat, u32::MAX as nat);
}

/// The positions below `n` of the names of terminal sockets, each with its
/// process id, in order.
pub open spec fn sockets_below(names: Seq<Option<String>>, n: nat) -> Seq<(usize, u32)>
    decreases n,
{
    if n == 0 {
        Seq::empty()
    } else {
        let rest = sockets_below(names, (n - 1) as nat);
        match names[n - 1] {
            Some(name) => match pid_in_name(name@) {
                Some(pid) => rest.push(((n - 1) as usize, pid as u32)),
                None => rest,
            },
            None => rest,
        }
    }
}

/// The terminal sockets among the files `names`, by position and process id.
/// A file whose name is no text (`None`) is passed over.
pub fn terminal_sockets(names: &Vec<Option<String>>) -> (r: Vec<(usize, u32)>)
    ensures
        r@ == sockets_below(names@, names@.len()),
{
    let mut out: Vec<(usize, u32)> = Vec::new();
    let mut i: usize = 0;
    while i < names.len()
        invariant
            i <= names.len(),
            out@ == sockets_below(names@, i as nat),
        decreases names.len() - i,
    {
        if let Some(name) = &names[i] {
            if let Some(pid) = socket_pid(name.as_str()) {
                out.push((i, pid));
            }
        }
        i += 1;
    }
    out
}

/// `buffer` holds what was read from a socket.
pub open spec fn holds(buffer: TerminalBuffer, scraped: Scraped) -> bool {
    &&& buffer.pid == scraped.pid
    &&& buffer.socket_path == scraped.socket_path
    &&& Some(buffer.content) == scraped.content
}

/// The sockets that could be read, in order.
pub open spec fn readable(list: Seq<Scraped>) -> Seq<Scraped> {
    list.filter(|s: Scraped| s.content is Some)
}

/// The buffers of the terminals whose sockets could be read, in the order of the
/// sockets.
pub fn scrape_all_terminals(list: Vec<Scraped>) -> (r: Vec<TerminalBuffer>)
    ensures
        r@.len() == readable(list@).len(),
        forall|i: int| 0 <= i < r@.len() ==> holds(#[trigger] r@[i], readable(list@)[i]),
        forall|i: int|
            0 <= i < r@.len() ==> {
                let s = readable(list@)[i];
                &&& (#[trigger] r@[i]).pid == s.pid
                &&& r@[i].socket_path == s.socket_path
                &&& s.content == Some(r@[i].content)
            },
{
    let mut out: Vec<TerminalBuffer> = Vec::new();
    let ghost all = list@;
    for scraped in it: list
        invariant
            it.seq() == all,
            out@.len() == readable(all.take(it.index() as int)).len(),
            forall|i: int|
                0 <= i < out@.len() ==> holds(
                    #[trigger] out@[i],
                    readable(all.take(it.index() as int))[i],
                ),
    {
        proof {
            reveal(Seq::filter);
            assert(all.take(it.index() + 1).drop_last() =~= all.take(it.index() as int));
            assert(all.take(it.index() + 1).last() == scraped);
        }
        match scraped.content {
            Some(content) => {
                out.push(
                    TerminalBuffer {
                        pid: scraped.pid,
                        socket_path: scraped.socket_path,
                        content,
                    },
                );
            },
            None => {},
        }
    }
    assert(all.take(all.len() as int) =~= all);
    out
}

/// A file is a terminal's socket exactly when its name is `mitos-term-`, a number of
/// at most 32 bits, and `.sock`; the number is the process id.
pub proof fn sockets_by_name(name: Seq<char>, digits: Seq<char>)
    ensures
        pid_in_name("mitos-term-"@ + digits + ".sock"@) == parsed(digits, u32::MAX as nat),
        pid_in_name(name) is Some ==> exists|d: Seq<char>|
            name == #[trigger] ("mitos-term-"@ + d + ".sock"@),
{
    let head = "mitos-term-"@;
    let tail = ".sock"@;
    between_prefix_and_suffix(head + digits + tail, head, tail, digits);
    if let Some(d) = between(name, head, tail) {
        between_prefix_and_suffix(name, head, tail, d);
    }
}

proof fn lemma_sockets_below(names: Seq<Option<String>>, n: nat)
    requires
        n <= names.len() <= usize::MAX,
    ensures
        forall|k: int|
            0 <= k < sockets_below(names, n).len() ==> {
                let (i, pid) = #[trigger] sockets_below(names, n)[k];
                &&& i < n
                &&& names[i as int] matches Some(name) && pid_in_name(name@) == Some(pid as nat)
            },
        forall|k: int, l: int|
            0 <= k < l < sockets_below(names, n).len() ==> (#[trigger] sockets_below(names, n)[k]).0
                < (#[trigger] sockets_below(names, n)[l]).0,
        forall|i: int|
            0 <= i < n && (#[trigger] names[i] matches Some(name) && pid_in_name(name@) is Some)
                ==> exists|k: int|
                0 <= k < sockets_below(names, n).len() && (#[trigger] sockets_below(names, n)[k]).0
                    == i,
    decreases n,
{
    if n > 0 {
        lemma_sockets_below(names, (n - 1) as nat);
        let rest = sockets_below(names, (n - 1) as nat);
        let all = sockets_below(names, n);
        if let Some(name) = names[n - 1] {
            if let Some(pid) = pid_in_name(name@) {
                assert(pid <= u32::MAX);
                assert(all == rest.push(((n - 1) as usize, pid as u32)));
            }
        }
        assert forall|k: int| 0 <= k < all.len() implies {
            let (i, pid) = #[trigger] all[k];
            &&& i < n
            &&& names[i as int] matches Some(name) && pid_in_name(name@) == Some(pid as nat)
        } by {
            if k < rest.len() {
                assert(all[k] == rest[k]);
            }
        }
        assert forall|k: int, l: int| 0 <= k < l < all.len() implies (#[trigger] all[k]).0 < (
        #[trigger] all[l]).0 by {
            assert(all[k] == rest[k]);
            assert(rest[k].0 < n - 1);
            if l < rest.len() {
                assert(all[l] == rest[l]);
            }
        }
        assert forall|i: int|
            0 <= i < n && (#[trigger] names[i] matches Some(name) && pid_in_name(name@) is Some)
            implies exists|k: int| 0 <= k < all.len() && (#[trigger] all[k]).0 == i by {
            if i < n - 1 {
                let k = choose|k: int| 0 <= k < rest.len() && (#[trigger] rest[k]).0 == i;
                assert(all[k] == rest[k]);
            } else {
                assert(all[all.len() - 1].0 == i);
            }
        }
    }
}

/// The sockets among the files are those whose names give a process id, each with
/// that id, in the order of the files, and none is left out.
pub proof fn sockets_are_found(names: Seq<Option<String>>)
    requires
        names.len() <= usize::MAX,
    ensures
        ({
            let found = sockets_below(names, names.len());
            &&& forall|k: int|
                0 <= k < found.len() ==> {
                    let (i, pid) = #[trigger] found[k];
                    &&& i < names.len()
                    &&& names[i as int] matches Some(name) && pid_in_name(name@) == Some(pid as nat)
                }
            &&& forall|k: int, l: int|
                0 <= k < l < found.len() ==> (#[trigger] found[k]).0 < (#[trigger] found[l]).0
            &&& forall|i: int|
                0 <= i < names.len() && (#[trigger] names[i] matches Some(name) && pid_in_name(
                    name@,
                ) is Some) ==> exists|k: int|
                    0 <= k < found.len() && (#[trigger] found[k]).0 == i
        }),
{
    lemma_sockets_below(names, names.len());
}

/// Sockets are kept one by one: one more socket is kept, at the end, exactly when
/// it could be read.
pub proof fn readable_sockets_are_kept(list: Seq<Scraped>, next: Scraped)
    ensures
        readable(Seq::empty()).len() == 0,
        next.content is Some ==> readable(list.push(next)) == readable(list).push(next),
        next.content is None ==> readable(list.push(next)) == readable(list),
{
    reveal(Seq::filter);
    assert(list.push(next).drop_last() =~= list);
}

} // verus!
