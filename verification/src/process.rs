//! Running processes, and the filter on their names.

use sysinfo::{Pid, System};
use vstd::prelude::*;

use crate::cpu::CpuUsage;
use crate::text::{contains, contains_part, lowered, occurs_at, parts_of_parts, views};

verus! {

/// The handle of `sysinfo` on the state of the system as last refreshed.
#[verifier::external_type_specification]
#[verifier::external_body]
pub struct ExSystem(System);

/// What the system knows of a process.
pub ghost struct ProcessRecord {
    pub name: Seq<char>,
    pub cpu: CpuUsage,
    pub mem: u64,
    pub parent: Option<u32>,
    pub cmd: Seq<Seq<char>>,
    pub exe: Option<Seq<char>>,
}

/// The processes that a `System` holds, by process id. Names, arguments and
/// paths are taken as text, with invalid parts replaced.
pub uninterp spec fn process_table(sys: System) -> Map<u32, ProcessRecord>;

/// What the monitor lists of a running process.
pub struct ProcessInfo {
    pub pid: u32,
    pub name: String,
    pub cpu: CpuUsage,
    pub mem: u64,
    pub parent: Option<u32>,
}

impl Clone for ProcessInfo {
    fn clone(&self) -> (r: Self)
        ensures
            r == *self,
    {
        ProcessInfo {
            pid: self.pid,
            name: self.name.clone(),
            cpu: self.cpu,
            mem: self.mem,
            parent: self.parent,
        }
    }
}

/// What the monitor shows of a single process.
pub struct ProcessDetails {
    pub name: String,
    pub cpu: CpuUsage,
    pub mem: u64,
    pub parent: Option<u32>,
    pub cmd: Vec<String>,
    pub exe: Option<String>,
}

pub open spec fn describes(info: ProcessInfo, record: ProcessRecord) -> bool {
    &&& info.name@ == record.name
    &&& info.cpu == record.cpu
    &&& info.mem == record.mem
    &&& info.parent == record.parent
}

pub open spec fn details(d: ProcessDetails, record: ProcessRecord) -> bool {
    &&& d.name@ == record.name
    &&& d.cpu == record.cpu
    &&& d.mem == record.mem
    &&& d.parent == record.parent
    &&& views(d.cmd@) == record.cmd
    &&& match d.exe {
        Some(path) => record.exe == Some(path@),
        None => record.exe is None,
    }
}

/// `infos` lists each process of `table` once, in some order.
pub open spec fn lists(infos: Seq<ProcessInfo>, table: Map<u32, ProcessRecord>) -> bool {
    &&& forall|i: int, j: int|
        0 <= i < j < infos.len() ==> (#[trigger] infos[i]).pid != (#[trigger] infos[j]).pid
    &&& forall|i: int|
        0 <= i < infos.len() ==> {
            let p = #[trigger] infos[i];
            table.contains_key(p.pid) && describes(p, table[p.pid])
        }
    &&& forall|pid: u32| #[trigger]
        table.contains_key(pid) ==> exists|i: int|
            0 <= i < infos.len() && (#[trigger] infos[i]).pid == pid
}

/// `System::processes` gives the processes of the system by their ids, each id
/// once; the order in which they are walked is open.
#[verifier::external_body]
pub(crate) fn list_processes(sys: &System) -> (r: Vec<ProcessInfo>)
    ensures
        lists(r@, process_table(*sys)),
{
    sys.processes().iter().map(
        |(pid, p)| ProcessInfo {
            pid: pid.as_u32(),
            name: p.name().to_string_lossy().to_string(),
            cpu: CpuUsage { bits: p.cpu_usage().to_bits() },
            mem: p.memory(),
            parent: p.parent().map(|q| q.as_u32()),
        },
    ).collect()
}

/// `System::process` gives the process with the id, and `None` where the system
/// holds none.
#[verifier::external_body]
pub(crate) fn find_process(sys: &System, pid: u32) -> (r: Option<ProcessDetails>)
    ensures
        match r {
            Some(d) => process_table(*sys).contains_key(pid) && details(
                d,
                process_table(*sys)[pid],
            ),
            None => !process_table(*sys).contains_key(pid),
        },
{
    sys.process(Pid::from_u32(pid)).map(
        |p| ProcessDetails {
            name: p.name().to_string_lossy().to_string(),
            cpu: CpuUsage { bits: p.cpu_usage().to_bits() },
            mem: p.memory(),
            parent: p.parent().map(|q| q.as_u32()),
            cmd: p.cmd().iter().map(|a| a.to_string_lossy().to_string()).collect(),
            exe: p.exe().map(|e| e.to_string_lossy().to_string()),
        },
    )
}

/// A process that passed the name filter.
pub struct Candidate {
    pub info: ProcessInfo,
    pub is_mitos: bool,
}

pub open spec fn infos_of(selected: Seq<Candidate>) -> Seq<ProcessInfo> {
    selected.map_values(|c: Candidate| c.info)
}

/// A name passes an empty filter, and any other filter that it contains, letter
/// case aside.
pub open spec fn name_passes(name: Seq<char>, filter: Seq<char>) -> bool {
    filter.len() == 0 || contains_part(lowered(name), lowered(filter))
}

/// Names of the MITOS system contain `mitos`, letter case aside.
pub open spec fn is_mitos_name(name: Seq<char>) -> bool {
    contains_part(lowered(name), "mitos"@)
}

/// Whether the name whose lowercase is `lower_name` passes `filter`, whose
/// lowercase is `lower_filter`.
pub fn lowered_name_passes(filter: &str, lower_filter: &str, lower_name: &str) -> (r: bool)
    ensures
        r == (filter@.len() == 0 || contains_part(lower_name@, lower_filter@)),
{
    filter.is_empty() || contains(lower_name, lower_filter)
}

/// Whether the name whose lowercase is `lower_name` is one of the MITOS system.
pub fn lowered_name_is_mitos(lower_name: &str) -> (r: bool)
    ensures
        r == contains_part(lower_name@, "mitos"@),
{
    contains(lower_name, "mitos")
}

/// The processes whose names pass the filter, in order.
pub open spec fn passing(infos: Seq<ProcessInfo>, filter: Seq<char>) -> Seq<ProcessInfo> {
    infos.filter(|p: ProcessInfo| name_passes(p.name@, filter))
}

/// The processes whose names pass the filter, in order, each with whether it
/// belongs to the MITOS system.
pub fn select_processes(infos: &Vec<ProcessInfo>, filter: &str) -> (r: Vec<Candidate>)
    ensures
        infos_of(r@) == passing(infos@, filter@),
        forall|i: int|
            0 <= i < r@.len() ==> (#[trigger] r@[i]).is_mitos == is_mitos_name(r@[i].info.name@),
        forall|i: int|
            0 <= i < r@.len() ==> (#[trigger] r@[i]).is_mitos == contains_part(
                lowered(r@[i].info.name@),
                "mitos"@,
            ),
        r@.len() == passing(infos@, filter@).len(),
        forall|i: int| 0 <= i < r@.len() ==> (#[trigger] r@[i]).info == passing(infos@, filter@)[i],
{
    let lower_filter = filter.to_lowercase();
    let mut out: Vec<Candidate> = Vec::new();
    let mut i: usize = 0;
    while i < infos.len()
        invariant
            i <= infos.len(),
            lower_filter@ == lowered(filter@),
            infos_of(out@) == passing(infos@.take(i as int), filter@),
            forall|j: int|
                0 <= j < out@.len() ==> (#[trigger] out@[j]).is_mitos == is_mitos_name(
                    out@[j].info.name@,
                ),
        decreases infos.len() - i,
    {
        let ghost before = infos_of(out@);
        let info = &infos[i];
        let lower_name = info.name.to_lowercase();
        proof {
            reveal(Seq::filter);
            assert(infos@.take(i + 1).drop_last() =~= infos@.take(i as int));
            assert(infos@.take(i + 1).last() == *info);
        }
        if lowered_name_passes(filter, lower_filter.as_str(), lower_name.as_str()) {
            out.push(
                Candidate {
                    info: info.clone(),
                    is_mitos: lowered_name_is_mitos(lower_name.as_str()),
                },
            );
            assert(infos_of(out@) =~= before.push(*info));
        }
        i += 1;
    }
    assert(infos@.take(i as int) =~= infos@);
    assert forall|j: int| 0 <= j < out@.len() implies (#[trigger] out@[j]).info == passing(
        infos@,
        filter@,
    )[j] by {
        assert(infos_of(out@)[j] == out@[j].info);
    }
    out
}

/// An empty text is part of every text.
proof fn lemma_empty_part(s: Seq<char>, part: Seq<char>)
    requires
        part.len() == 0,
    ensures
        contains_part(s, part),
{
    assert(s.subrange(0, 0) =~= part);
    assert(occurs_at(s, part, 0));
}

/// The filter does not tell upper from lower case, neither in names nor in what
/// is filtered for.
pub proof fn filter_ignores_case(
    name: Seq<char>,
    other_name: Seq<char>,
    filter: Seq<char>,
    other_filter: Seq<char>,
)
    requires
        lowered(name) == lowered(other_name),
        lowered(filter) == lowered(other_filter),
    ensures
        name_passes(name, filter) == name_passes(other_name, other_filter),
        is_mitos_name(name) == is_mitos_name(other_name),
{
    if filter.len() == 0 || other_filter.len() == 0 {
        lemma_empty_part(lowered(name), lowered(filter));
    }
}

/// A name that passes a filter passes every wider one, that is, one that the
/// filter contains, letter case aside.
pub proof fn wider_filter_passes(name: Seq<char>, filter: Seq<char>, wider: Seq<char>)
    requires
        contains_part(lowered(filter), lowered(wider)),
        name_passes(name, filter),
    ensures
        name_passes(name, wider),
{
    if filter.len() == 0 {
        let i = choose|i: int| occurs_at(lowered(filter), lowered(wider), i);
        assert(lowered(wider).len() == 0);
        lemma_empty_part(lowered(name), lowered(wider));
    } else {
        parts_of_parts(lowered(name), lowered(filter), lowered(wider));
    }
}

/// A name is one of the MITOS system exactly when `mitos` stands in its lower case.
pub proof fn mitos_names_contain_mitos(name: Seq<char>)
    ensures
        is_mitos_name(name) <==> contains_part(lowered(name), "mitos"@),
{
}

/// The empty filter passes every name, and any other filter those names whose lower
/// case contains that of the filter.
pub proof fn filters_by_content(name: Seq<char>, filter: Seq<char>)
    ensures
        filter.len() == 0 ==> name_passes(name, filter),
        filter.len() > 0 ==> (name_passes(name, filter) <==> contains_part(
            lowered(name),
            lowered(filter),
        )),
{
}

/// Filtering goes process by process: one more process at the end of the list is
/// kept there if its name passes, and changes nothing if not.
pub proof fn filtering_goes_one_by_one(
    infos: Seq<ProcessInfo>,
    next: ProcessInfo,
    filter: Seq<char>,
)
    ensures
        passing(Seq::empty(), filter).len() == 0,
        passing(infos.push(next), filter) == if filter.len() == 0 || contains_part(
            lowered(next.name@),
            lowered(filter),
        ) {
            passing(infos, filter).push(next)
        } else {
            passing(infos, filter)
        },
{
    reveal(Seq::filter);
    assert(infos.push(next).drop_last() =~= infos);
}

/// The empty filter keeps the list as it is.
pub proof fn empty_filter_passes_all(infos: Seq<ProcessInfo>)
    ensures
        passing(infos, Seq::empty()) == infos,
    decreases infos.len(),
{
    reveal(Seq::filter);
    if infos.len() > 0 {
        empty_filter_passes_all(infos.drop_last());
        assert(infos.drop_last().push(infos.last()) =~= infos);
    }
}

/// A listing holds every process of the system, each once, with its name, usage,
/// memory and parent.
pub proof fn listings_are_complete(infos: Seq<ProcessInfo>, table: Map<u32, ProcessRecord>)
    requires
        lists(infos, table),
    ensures
        forall|i: int, j: int|
            0 <= i < infos.len() && 0 <= j < infos.len() && (#[trigger] infos[i]).pid == (
            #[trigger] infos[j]).pid ==> i == j,
        forall|pid: u32| #[trigger]
            table.contains_key(pid) <==> exists|i: int|
                0 <= i < infos.len() && (#[trigger] infos[i]).pid == pid,
        forall|i: int|
            0 <= i < infos.len() ==> {
                let record = table[(#[trigger] infos[i]).pid];
                &&& infos[i].name@ == record.name
                &&& infos[i].cpu == record.cpu
                &&& infos[i].mem == record.mem
                &&& infos[i].parent == record.parent
            },
{
}

} // verus!
