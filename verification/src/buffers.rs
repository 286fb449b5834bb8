//! The terminal buffers page: what it shows of each terminal, and the search
//! through all of them.

use vstd::prelude::*;
use vstd::string::StringExecFns;

use crate::terminals::TerminalSnapshot;
use crate::text::{
    contains, contains_part, decimal, lines_of, padded, push_decimal, push_padded, split_lines,
    trim, trim_end, trimmed, trimmed_end, views,
};

verus! {

/// The most matches that are shown of a terminal.
pub const MATCH_LIMIT: usize = 50;

/// A line that the search found.
pub struct LineMatch {
    /// The number of the line, from one.
    pub number: usize,
    /// The line, without whitespace at its end.
    pub text: String,
}

/// What the search found in a terminal.
pub struct SearchResult {
    /// The number of lines found.
    pub total: usize,
    /// The first of them.
    pub shown: Vec<LineMatch>,
}

/// The positions below `n` of the lines that contain `query`, in order.
pub open spec fn matching_below(lines: Seq<Seq<char>>, query: Seq<char>, n: nat) -> Seq<int>
    decreases n,
{
    if n == 0 {
        Seq::empty()
    } else {
        let rest = matching_below(lines, query, (n - 1) as nat);
        if contains_part(lines[n - 1], query) {
            rest.push(n - 1)
        } else {
            rest
        }
    }
}

/// The positions of the lines of `text` that contain `query`, in order.
pub open spec fn matching(text: Seq<char>, query: Seq<char>) -> Seq<int> {
    matching_below(lines_of(text), query, lines_of(text).len())
}

/// The lines at `found`, as far as the limit goes, are shown by number and text.
pub open spec fn shows_matches(
    shown: Seq<LineMatch>,
    lines: Seq<Seq<char>>,
    found: Seq<int>,
) -> bool {
    &&& shown.len() == if found.len() <= MATCH_LIMIT {
        found.len()
    } else {
        MATCH_LIMIT as nat
    }
    &&& forall|k: int|
        0 <= k < shown.len() ==> {
            &&& (#[trigger] shown[k]).number == found[k] + 1
            &&& shown[k].text@ == trimmed_end(lines[found[k]])
        }
}

/// The lines of `text` that contain `query`; `None` where the query is blank.
pub fn search_buffer(text: &str, query: &str) -> (r: Option<SearchResult>)
    ensures
        match r {
            Some(found) => {
                &&& trimmed(query@).len() > 0
                &&& found.total == matching(text@, query@).len()
                &&& shows_matches(found.shown@, lines_of(text@), matching(text@, query@))
                &&& found.total <= 50 ==> found.shown@.len() == found.total
                &&& found.total > 50 ==> found.shown@.len() == 50
                &&& forall|k: int|
                    0 <= k < found.shown@.len() ==> {
                        let m = #[trigger] found.shown@[k];
                        &&& 1 <= m.number <= lines_of(text@).len()
                        &&& contains_part(lines_of(text@)[m.number - 1], query@)
                        &&& m.text@ == trimmed_end(lines_of(text@)[m.number - 1])
                    }
                &&& forall|k: int, l: int|
                    0 <= k < l < found.shown@.len() ==> (#[trigger] found.shown@[k]).number < (
                    #[trigger] found.shown@[l]).number
                &&& forall|i: int|
                    0 <= i < lines_of(text@).len() && contains_part(
                        #[trigger] lines_of(text@)[i],
                        query@,
                    ) ==> (exists|k: int|
                        0 <= k < found.shown@.len() && (#[trigger] found.shown@[k]).number == i + 1)
                        || (found.total > 50 && forall|k: int|
                        0 <= k < found.shown@.len() ==> (#[trigger] found.shown@[k]).number < i + 1)
            },
            None => trimmed(query@).len() == 0,
        },
{
    if trim(query).as_str().is_empty() {
        return None;
    }
    let lines = split_lines(text);
    let ghost all = lines_of(text@);
    assert(views(lines@).len() == lines@.len());
    let mut total: usize = 0;
    let mut shown: Vec<LineMatch> = Vec::new();
    let mut i: usize = 0;
    while i < lines.len()
        invariant
            i <= lines.len(),
            views(lines@) == all,
            total == matching_below(all, query@, i as nat).len(),
            total <= i,
            shows_matches(shown@, all, matching_below(all, query@, i as nat)),
        decreases lines.len() - i,
    {
        let ghost before = matching_below(all, query@, i as nat);
        let ghost shown_before = shown@;
        let line = lines[i].as_str();
        assert(line@ == all[i as int]);
        if contains(line, query) {
            if total < MATCH_LIMIT {
                shown.push(LineMatch { number: i + 1, text: trim_end(line) });
            }
            total += 1;
            proof {
                let after = matching_below(all, query@, (i + 1) as nat);
                assert(after == before.push(i as int));
                assert forall|k: int| 0 <= k < shown@.len() implies {
                    &&& (#[trigger] shown@[k]).number == after[k] + 1
                    &&& shown@[k].text@ == trimmed_end(all[after[k]])
                } by {
                    if k < shown_before.len() {
                        assert(shown@[k] == shown_before[k]);
                    }
                }
            }
        }
        i += 1;
    }
    proof {
        found_lines_are_shown(SearchResult { total, shown }, text@, query@);
    }
    Some(SearchResult { total, shown })
}

/// The search finds every line that contains the query, each once, from the top
/// down.
pub proof fn search_finds_every_line(text: Seq<char>, query: Seq<char>)
    ensures
        forall|i: int|
            0 <= i < lines_of(text).len() ==> (matching(text, query).contains(i)
                <==> contains_part(#[trigger] lines_of(text)[i], query)),
        forall|k: int, l: int|
            0 <= k < l < matching(text, query).len() ==> (#[trigger] matching(text, query)[k])
                < (#[trigger] matching(text, query)[l]),
        forall|k: int|
            0 <= k < matching(text, query).len() ==> 0 <= (#[trigger] matching(text, query)[k])
                < lines_of(text).len(),
{
    lemma_matching(lines_of(text), query, lines_of(text).len());
}

proof fn lemma_matching(lines: Seq<Seq<char>>, query: Seq<char>, n: nat)
    requires
        n <= lines.len(),
    ensures
        forall|i: int|
            0 <= i < n ==> (matching_below(lines, query, n).contains(i) <==> contains_part(
                #[trigger] lines[i],
                query,
            )),
        forall|k: int, l: int|
            0 <= k < l < matching_below(lines, query, n).len() ==> (#[trigger] matching_below(
                lines,
                query,
                n,
            )[k]) < (#[trigger] matching_below(lines, query, n)[l]),
        forall|k: int|
            0 <= k < matching_below(lines, query, n).len() ==> 0 <= (#[trigger] matching_below(
                lines,
                query,
                n,
            )[k]) < n,
    decreases n,
{
    if n > 0 {
        let rest = matching_below(lines, query, (n - 1) as nat);
        let all = matching_below(lines, query, n);
        lemma_matching(lines, query, (n - 1) as nat);
        assert forall|i: int| 0 <= i < n implies (all.contains(i) <==> contains_part(
            #[trigger] lines[i],
            query,
        )) by {
            if i < n - 1 {
                if rest.contains(i) {
                    let k = choose|k: int| 0 <= k < rest.len() && rest[k] == i;
                    assert(all[k] == i);
                }
                if all.contains(i) {
                    let k = choose|k: int| 0 <= k < all.len() && all[k] == i;
                    assert(rest[k] == i);
                }
            } else {
                if contains_part(lines[i], query) {
                    assert(all.last() == i);
                }
                if all.contains(i) && !contains_part(lines[i], query) {
                    let k = choose|k: int| 0 <= k < rest.len() && rest[k] == i;
                    assert(rest[k] < n - 1);
                }
            }
        }
    }
}

/// The label of the number of matches.
pub fn match_count_label(total: usize) -> (r: String)
    ensures
        r@ == "🔎 "@ + decimal(total as nat) + " match(es)"@,
{
    let mut text = "🔎 ".to_owned();
    push_decimal(&mut text, total as u64);
    text.append(" match(es)");
    text
}

/// The label of a line: its number with at least four digits.
pub fn line_label(number: usize) -> (r: String)
    ensures
        r@ == "L"@ + padded(number as nat, 4),
{
    let mut text = "L".to_owned();
    push_padded(&mut text, number as u64, 4);
    text
}

/// The title of a terminal: its process id and its prompt.
pub fn terminal_title(pid: u32, prompt: &str) -> (r: String)
    ensures
        r@ == "PID "@ + decimal(pid as nat) + " — "@ + trimmed(prompt@),
{
    let mut text = "PID ".to_owned();
    push_decimal(&mut text, pid as u64);
    text.append(" — ");
    text.append(trim(prompt).as_str());
    text
}

/// The label of the folded buffer: its number of lines.
pub fn buffer_label(text: &str) -> (r: String)
    ensures
        r@ == "📄 View full buffer ("@ + decimal(lines_of(text@).len()) + " lines)"@,
{
    let lines = split_lines(text);
    assert(views(lines@).len() == lines@.len());
    let mut out = "📄 View full buffer (".to_owned();
    push_decimal(&mut out, lines.len() as u64);
    out.append(" lines)");
    out
}

/// The name under which the interface remembers whether a buffer is folded.
pub fn buffer_key(pid: u32) -> (r: String)
    ensures
        r@ == "buf_"@ + decimal(pid as nat),
{
    let mut text = "buf_".to_owned();
    push_decimal(&mut text, pid as u64);
    text
}

/// Whether a terminal counts as live, `elapsed_secs` whole seconds after it last
/// answered.
pub fn is_live(elapsed_secs: u64) -> (r: bool)
    ensures
        r == (elapsed_secs < 3),
{
    elapsed_secs < 3
}

/// The mark of a terminal that is live, or is not.
pub fn liveness_label(live: bool) -> (r: String)
    ensures
        r@ == if live {
            "🟢 live"@
        } else {
            "🔴 stale"@
        },
{
    if live {
        "🟢 live".to_owned()
    } else {
        "🔴 stale".to_owned()
    }
}

/// What the page shows of a terminal.
pub struct BufferView {
    pub title: String,
    pub liveness: String,
    pub search: Option<SearchResult>,
    pub label: String,
    pub key: String,
}

/// `view` is what the page shows of a terminal, `elapsed_secs` whole seconds after
/// it last answered.
pub open spec fn shows_terminal(
    view: BufferView,
    snapshot: TerminalSnapshot,
    elapsed_secs: u64,
    query: Seq<char>,
) -> bool {
    let lines = lines_of(snapshot.text@);
    let found_lines = matching(snapshot.text@, query);
    &&& view.title@ == "PID "@ + decimal(snapshot.pid as nat) + " — "@ + trimmed(snapshot.prompt@)
    &&& view.liveness@ == if elapsed_secs < 3 {
        "🟢 live"@
    } else {
        "🔴 stale"@
    }
    &&& match view.search {
        Some(found) => {
            &&& trimmed(query).len() > 0
            &&& found.total == found_lines.len()
            &&& shows_matches(found.shown@, lines, found_lines)
        },
        None => trimmed(query).len() == 0,
    }
    &&& view.label@ == "📄 View full buffer ("@ + decimal(lines.len()) + " lines)"@
    &&& view.key@ == "buf_"@ + decimal(snapshot.pid as nat)
}

/// What the page shows of a terminal, `elapsed_secs` whole seconds after it last
/// answered.
pub fn view_buffer(snapshot: &TerminalSnapshot, elapsed_secs: u64, query: &str) -> (r: BufferView)
    ensures
        shows_terminal(r, *snapshot, elapsed_secs, query@),
{
    BufferView {
        title: terminal_title(snapshot.pid, snapshot.prompt.as_str()),
        liveness: liveness_label(is_live(elapsed_secs)),
        search: search_buffer(snapshot.text.as_str(), query),
        label: buffer_label(snapshot.text.as_str()),
        key: buffer_key(snapshot.pid),
    }
}

/// What the page shows of all terminals, in order, with the search through each of
/// them; `elapsed_secs` gives for each terminal the whole seconds since it last
/// answered. A terminal for which it gives none is not shown.
pub fn view_buffers(
    terminals: &Vec<TerminalSnapshot>,
    elapsed_secs: &Vec<u64>,
    query: &str,
) -> (r: Vec<BufferView>)
    ensures
        r@.len() == if elapsed_secs@.len() < terminals@.len() {
            elapsed_secs@.len()
        } else {
            terminals@.len()
        },
        forall|i: int|
            0 <= i < r@.len() ==> shows_terminal(
                #[trigger] r@[i],
                terminals@[i],
                elapsed_secs@[i],
                query@,
            ),
{
    let mut out: Vec<BufferView> = Vec::new();
    let mut i: usize = 0;
    while i < terminals.len() && i < elapsed_secs.len()
        invariant
            i <= terminals.len(),
            i <= elapsed_secs.len(),
            out.len() == i,
            forall|j: int|
                0 <= j < i ==> shows_terminal(
                    #[trigger] out@[j],
                    terminals@[j],
                    elapsed_secs@[j],
                    query@,
                ),
        decreases terminals.len() - i,
    {
        out.push(view_buffer(&terminals[i], elapsed_secs[i], query));
        i += 1;
    }
    out
}

/// What a search shows: all lines found where they are no more than 50, else 50 of
/// them. Each line shown is one of the text that contains the query, by its number
/// and without whitespace at its end; the lines go from the top down; and a line
/// that contains the query is left out only where more than 50 do and all lines
/// shown stand above it.
pub proof fn found_lines_are_shown(found: SearchResult, text: Seq<char>, query: Seq<char>)
    requires
        found.total == matching(text, query).len(),
        shows_matches(found.shown@, lines_of(text), matching(text, query)),
    ensures
        found.total <= 50 ==> found.shown@.len() == found.total,
        found.total > 50 ==> found.shown@.len() == 50,
        forall|k: int|
            0 <= k < found.shown@.len() ==> {
                let m = #[trigger] found.shown@[k];
                &&& 1 <= m.number <= lines_of(text).len()
                &&& contains_part(lines_of(text)[m.number - 1], query)
                &&& m.text@ == trimmed_end(lines_of(text)[m.number - 1])
            },
        forall|k: int, l: int|
            0 <= k < l < found.shown@.len() ==> (#[trigger] found.shown@[k]).number < (
            #[trigger] found.shown@[l]).number,
        forall|i: int|
            0 <= i < lines_of(text).len() && contains_part(#[trigger] lines_of(text)[i], query)
                ==> (exists|k: int|
                0 <= k < found.shown@.len() && (#[trigger] found.shown@[k]).number == i + 1) || (
            found.total > 50 && forall|k: int|
                0 <= k < found.shown@.len() ==> (#[trigger] found.shown@[k]).number < i + 1),
{
    search_finds_every_line(text, query);
    let all = matching(text, query);
    let shown = found.shown@;
    assert forall|k: int| 0 <= k < shown.len() implies {
        let m = #[trigger] shown[k];
        &&& 1 <= m.number <= lines_of(text).len()
        &&& contains_part(lines_of(text)[m.number - 1], query)
        &&& m.text@ == trimmed_end(lines_of(text)[m.number - 1])
    } by {
        assert(0 <= all[k] < lines_of(text).len());
        assert(all.contains(all[k]));
        assert(contains_part(lines_of(text)[all[k]], query));
    }
    assert forall|k: int, l: int| 0 <= k < l < shown.len() implies (#[trigger] shown[k]).number < (
    #[trigger] shown[l]).number by {
        assert(all[k] < all[l]);
    }
    assert forall|i: int|
        0 <= i < lines_of(text).len() && contains_part(#[trigger] lines_of(text)[i], query) implies
        (exists|k: int| 0 <= k < shown.len() && (#[trigger] shown[k]).number == i + 1) || (
    found.total > 50 && forall|k: int|
        0 <= k < shown.len() ==> (#[trigger] shown[k]).number < i + 1) by {
        let j = choose|j: int| 0 <= j < all.len() && all[j] == i;
        if j < shown.len() {
            assert(shown[j].number == i + 1);
        } else {
            assert forall|k: int| 0 <= k < shown.len() implies (#[trigger] shown[k]).number < i
                + 1 by {
                assert(all[k] < all[j]);
            }
        }
    }
}

/// The entry of a terminal names it by process id and trimmed prompt, says whether
/// it answered within three seconds, counts its lines and the lines found, shows the
/// first of these, and does not search for a blank query.
pub proof fn entries_by_content(
    view: BufferView,
    snapshot: TerminalSnapshot,
    elapsed_secs: u64,
    query: Seq<char>,
)
    requires
        shows_terminal(view, snapshot, elapsed_secs, query),
    ensures
        view.title@ == "PID "@ + decimal(snapshot.pid as nat) + " — "@ + trimmed(snapshot.prompt@),
        elapsed_secs <= 2 ==> view.liveness@ == "🟢 live"@,
        elapsed_secs > 2 ==> view.liveness@ == "🔴 stale"@,
        view.label@ == "📄 View full buffer ("@ + decimal(lines_of(snapshot.text@).len())
            + " lines)"@,
        view.key@ == "buf_"@ + decimal(snapshot.pid as nat),
        view.search is None <==> trimmed(query).len() == 0,
        view.search matches Some(found) ==> {
            let lines = lines_of(snapshot.text@);
            &&& found.total == matching(snapshot.text@, query).len()
            &&& found.shown@.len() == if found.total <= 50 {
                found.total as nat
            } else {
                50
            }
            &&& forall|k: int|
                0 <= k < found.shown@.len() ==> {
                    let m = #[trigger] found.shown@[k];
                    &&& 1 <= m.number <= lines.len()
                    &&& contains_part(lines[m.number - 1], query)
                    &&& m.text@ == trimmed_end(lines[m.number - 1])
                }
            &&& forall|i: int|
                0 <= i < lines.len() && contains_part(#[trigger] lines[i], query) && found.total
                    <= 50 ==> exists|k: int|
                    0 <= k < found.shown@.len() && (#[trigger] found.shown@[k]).number == i + 1
        },
{
    if let Some(found) = view.search {
        found_lines_are_shown(found, snapshot.text@, query);
    }
}

/// The number of lines found grows by one with each line that contains the query.
pub proof fn matches_are_counted(lines: Seq<Seq<char>>, query: Seq<char>, n: nat)
    requires
        n < lines.len(),
    ensures
        matching_below(lines, query, 0).len() == 0,
        contains_part(lines[n as int], query) ==> matching_below(lines, query, n + 1).len()
            == matching_below(lines, query, n).len() + 1,
        !contains_part(lines[n as int], query) ==> matching_below(lines, query, n + 1).len()
            == matching_below(lines, query, n).len(),
{
}

} // verus!
