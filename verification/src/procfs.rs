//! Memory and CPU figures from the text of `/proc/meminfo` and `/proc/stat`.

use vstd::prelude::*;

use crate::text::{
    all_white, begins_with, decimal, decimal_reads_back, first_word, is_white, leading_whitespace,
    lemma_decimal, no_white, parse_u64, parsed, split_whitespace, starts_with, views, words,
};

verus! {

/// Memory figures in kilobytes.
#[derive(Clone, Copy, Debug, PartialEq, Eq, Structural)]
pub struct MemInfo {
    pub total_kb: u64,
    pub free_kb: u64,
    pub available_kb: u64,
}

/// Time that the CPUs spent in each mode.
#[derive(Clone, Copy, Debug, PartialEq, Eq, Structural)]
pub struct CpuTimes {
    pub user: u64,
    pub nice: u64,
    pub system: u64,
    pub idle: u64,
}

/// Why the figures could not be read from the text.
#[derive(Clone, Copy, Debug, PartialEq, Eq, Structural)]
pub enum ProcfsError {
    /// The first line of `/proc/stat` has fewer than five words.
    InvalidStat,
}

impl ProcfsError {
    /// The text of the error.
    pub fn message(&self) -> (r: String)
        ensures
            r@ == "Invalid /proc/stat"@,
    {
        "Invalid /proc/stat".to_owned()
    }
}

/// The number that the word at `index` stands for; zero where there is no such
/// word or it is no unsigned 64-bit number.
pub open spec fn number_at(list: Seq<Seq<char>>, index: int) -> nat {
    if index < list.len() {
        match parsed(list[index], u64::MAX as nat) {
            Some(v) => v,
            None => 0,
        }
    } else {
        0
    }
}

fn number_or_zero(list: &Vec<String>, index: usize) -> (r: u64)
    ensures
        r == number_at(views(list@), index as int),
{
    if index < list.len() {
        assert(views(list@)[index as int] == list@[index as int]@);
        match parse_u64(list[index].as_str()) {
            Some(v) => v,
            None => 0,
        }
    } else {
        0
    }
}

/// The figure of a line such as `MemTotal:  16384 kB`: its second word, or zero
/// where that is missing or no number.
pub fn parse_kb(line: &str) -> (r: u64)
    ensures
        r == number_at(words(line@), 1),
{
    number_or_zero(&split_whitespace(line), 1)
}

/// A line that gives a label and, apart from it, a figure is read as that figure,
/// whatever follows.
pub proof fn figures_read_back(
    label: Seq<char>,
    gap: Seq<char>,
    kb: u64,
    rest: Seq<char>,
)
    requires
        label.len() > 0,
        no_white(label),
        gap.len() > 0,
        all_white(gap),
        rest.len() > 0 ==> is_white(rest[0]),
    ensures
        number_at(words(label + gap + decimal(kb as nat) + rest), 1) == kb,
{
    let digits = decimal(kb as nat);
    lemma_decimal(kb as nat);
    decimal_reads_back(kb as nat, u64::MAX as nat);
    assert(label + gap + digits + rest =~= label + (gap + (digits + rest)));
    assert((gap + (digits + rest))[0] == gap[0]);
    first_word(label, gap + (digits + rest));
    leading_whitespace(gap, digits + rest);
    first_word(digits, rest);
    assert(words(label + gap + digits + rest)[1] == digits);
}

/// The figure of the last line that begins with `label`; zero where there is
/// none.
pub open spec fn last_figure(lines: Seq<Seq<char>>, label: Seq<char>) -> nat
    decreases lines.len(),
{
    if lines.len() == 0 {
        0
    } else if begins_with(lines.last(), label) {
        number_at(words(lines.last()), 1)
    } else {
        last_figure(lines.drop_last(), label)
    }
}

/// No text begins with two of the labels.
proof fn lemma_labels(line: Seq<char>)
    ensures
        begins_with(line, "MemTotal:"@) ==> !begins_with(line, "MemFree:"@) && !begins_with(
            line,
            "MemAvailable:"@,
        ),
        begins_with(line, "MemFree:"@) ==> !begins_with(line, "MemAvailable:"@),
{
    reveal_strlit("MemTotal:");
    reveal_strlit("MemFree:");
    reveal_strlit("MemAvailable:");
    if begins_with(line, "MemTotal:"@) {
        assert(line.subrange(0, 9)[3] == 'T');
    }
    if begins_with(line, "MemFree:"@) {
        assert(line.subrange(0, 8)[3] == 'F');
    }
    if begins_with(line, "MemAvailable:"@) {
        assert(line.subrange(0, 13)[3] == 'A');
    }
}

/// The memory figures in the lines of `/proc/meminfo`. Lines with other labels
/// are passed over; of several lines with the same label the last counts.
pub fn read_meminfo(lines: &Vec<String>) -> (r: MemInfo)
    ensures
        r.total_kb == last_figure(views(lines@), "MemTotal:"@),
        r.free_kb == last_figure(views(lines@), "MemFree:"@),
        r.available_kb == last_figure(views(lines@), "MemAvailable:"@),
{
    let mut info = MemInfo { total_kb: 0, free_kb: 0, available_kb: 0 };
    let ghost all = views(lines@);
    let mut i: usize = 0;
    while i < lines.len()
        invariant
            i <= lines.len(),
            all == views(lines@),
            info.total_kb == last_figure(all.take(i as int), "MemTotal:"@),
            info.free_kb == last_figure(all.take(i as int), "MemFree:"@),
            info.available_kb == last_figure(all.take(i as int), "MemAvailable:"@),
        decreases lines.len() - i,
    {
        let line = lines[i].as_str();
        if starts_with(line, "MemTotal:") {
            info.total_kb = parse_kb(line);
        } else if starts_with(line, "MemFree:") {
            info.free_kb = parse_kb(line);
        } else if starts_with(line, "MemAvailable:") {
            info.available_kb = parse_kb(line);
        }
        proof {
            lemma_labels(line@);
            assert(all.take(i + 1).drop_last() =~= all.take(i as int));
            assert(all.take(i + 1).last() == line@);
        }
        i += 1;
    }
    assert(all.take(i as int) =~= all);
    info
}

/// The CPU times in the first line of `/proc/stat`, such as
/// `cpu  12345 678 901 23456 78 9 0 0 0 0`. A figure that is no number counts as
/// zero; a line of fewer than five words is invalid.
pub fn read_cpu_times(first_line: &str) -> (r: Result<CpuTimes, ProcfsError>)
    ensures
        match r {
            Ok(t) => {
                let list = words(first_line@);
                &&& list.len() >= 5
                &&& t.user == number_at(list, 1)
                &&& t.nice == number_at(list, 2)
                &&& t.system == number_at(list, 3)
                &&& t.idle == number_at(list, 4)
            },
            Err(e) => e == ProcfsError::InvalidStat && words(first_line@).len() < 5,
        },
{
    let parts = split_whitespace(first_line);
    assert(views(parts@).len() == parts@.len());
    if parts.len() < 5 {
        return Err(ProcfsError::InvalidStat);
    }
    Ok(
        CpuTimes {
            user: number_or_zero(&parts, 1),
            nice: number_or_zero(&parts, 2),
            system: number_or_zero(&parts, 3),
            idle: number_or_zero(&parts, 4),
        },
    )
}

/// A line of `/proc/stat` with a label and four figures, set apart by whitespace.
pub open spec fn stat_line(label: Seq<char>, gap: Seq<char>, t: CpuTimes, rest: Seq<char>) -> Seq<
    char,
> {
    label + (gap + (decimal(t.user as nat) + (gap + (decimal(t.nice as nat) + (gap + (decimal(
        t.system as nat,
    ) + (gap + (decimal(t.idle as nat) + rest))))))))
}

/// One figure more in front of a line.
proof fn lemma_figure(gap: Seq<char>, n: u64, rest: Seq<char>)
    requires
        gap.len() > 0,
        all_white(gap),
        rest.len() > 0 ==> is_white(rest[0]),
    ensures
        words(gap + (decimal(n as nat) + rest)) == seq![decimal(n as nat)] + words(rest),
        (gap + (decimal(n as nat) + rest)).len() > 0,
        is_white((gap + (decimal(n as nat) + rest))[0]),
        parsed(decimal(n as nat), u64::MAX as nat) == Some(n as nat),
{
    lemma_decimal(n as nat);
    decimal_reads_back(n as nat, u64::MAX as nat);
    first_word(decimal(n as nat), rest);
    leading_whitespace(gap, decimal(n as nat) + rest);
    assert((gap + (decimal(n as nat) + rest))[0] == gap[0]);
}

/// The times written in the first line of `/proc/stat` are the times read from
/// it.
pub proof fn cpu_times_read_back(
    label: Seq<char>,
    gap: Seq<char>,
    t: CpuTimes,
    rest: Seq<char>,
)
    requires
        label.len() > 0,
        no_white(label),
        gap.len() > 0,
        all_white(gap),
        rest.len() > 0 ==> is_white(rest[0]),
    ensures
        ({
            let list = words(stat_line(label, gap, t, rest));
            &&& list.len() >= 5
            &&& number_at(list, 1) == t.user
            &&& number_at(list, 2) == t.nice
            &&& number_at(list, 3) == t.system
            &&& number_at(list, 4) == t.idle
        }),
{
    let a = gap + (decimal(t.idle as nat) + rest);
    let b = gap + (decimal(t.system as nat) + a);
    let c = gap + (decimal(t.nice as nat) + b);
    let d = gap + (decimal(t.user as nat) + c);
    lemma_figure(gap, t.idle, rest);
    lemma_figure(gap, t.system, a);
    lemma_figure(gap, t.nice, b);
    lemma_figure(gap, t.user, c);
    first_word(label, d);
    let list = words(stat_line(label, gap, t, rest));
    assert(list[1] == decimal(t.user as nat));
    assert(list[2] == decimal(t.nice as nat));
    assert(list[3] == decimal(t.system as nat));
    assert(list[4] == decimal(t.idle as nat));
}

/// The number at a place is what the word there reads as, and zero where there is no
/// word or it reads as no number of 64 bits.
pub proof fn numbers_by_word(list: Seq<Seq<char>>, index: int, n: nat)
    requires
        0 <= index,
    ensures
        index < list.len() && parsed(list[index], 0xffff_ffff_ffff_ffff) == Some(n) ==> number_at(
            list,
            index,
        ) == n,
        index < list.len() && parsed(list[index], 0xffff_ffff_ffff_ffff) is None ==> number_at(
            list,
            index,
        ) == 0,
        index >= list.len() ==> number_at(list, index) == 0,
{
}

/// The figure under a label is the second word of the last line that begins with the
/// label.
pub proof fn figures_by_last_line(lines: Seq<Seq<char>>, label: Seq<char>, i: int)
    requires
        0 <= i < lines.len(),
        begins_with(lines[i], label),
        forall|j: int| i < j < lines.len() ==> !begins_with(#[trigger] lines[j], label),
    ensures
        last_figure(lines, label) == number_at(words(lines[i]), 1),
    decreases lines.len(),
{
    if i < lines.len() - 1 {
        let front = lines.drop_last();
        assert(!begins_with(lines[lines.len() - 1], label));
        assert forall|j: int| i < j < front.len() implies !begins_with(
            #[trigger] front[j],
            label,
        ) by {
            assert(front[j] == lines[j]);
        }
        figures_by_last_line(front, label, i);
    }
}

/// Where no line begins with a label, the figure under it is zero.
pub proof fn missing_figures_are_zero(lines: Seq<Seq<char>>, label: Seq<char>)
    requires
        forall|j: int| 0 <= j < lines.len() ==> !begins_with(#[trigger] lines[j], label),
    ensures
        last_figure(lines, label) == 0,
    decreases lines.len(),
{
    if lines.len() > 0 {
        let front = lines.drop_last();
        assert(!begins_with(lines[lines.len() - 1], label));
        assert forall|j: int| 0 <= j < front.len() implies !begins_with(
            #[trigger] front[j],
            label,
        ) by {
            assert(front[j] == lines[j]);
        }
        missing_figures_are_zero(front, label);
    }
}

} // verus!
