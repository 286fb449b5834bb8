//! The details of the selected process.

use sysinfo::System;
use vstd::arithmetic::power2::pow2;
use vstd::prelude::*;

use crate::cpu::{cpu_color, green, red, yellow, Color, CpuUsage};
use crate::process::{find_process, process_table, ProcessDetails, ProcessRecord};
use crate::text::{decimal, decimal_string, join, joined, views};

verus! {

/// The details of a process as they are shown.
pub struct Sidebar {
    pub name: String,
    pub pid: String,
    pub parent: String,
    pub cpu: CpuUsage,
    pub cpu_color: Color,
    pub mem: u64,
    pub exe: String,
    pub command: String,
}

/// `s` shows the process `pid` with the given record: a dash stands for what is
/// not known, and the words of the command line are set apart by spaces.
pub open spec fn shows_record(s: Sidebar, pid: u32, record: ProcessRecord) -> bool {
    &&& s.name@ == record.name
    &&& s.pid@ == decimal(pid as nat)
    &&& s.parent@ == match record.parent {
        Some(p) => decimal(p as nat),
        None => "—"@,
    }
    &&& s.cpu == record.cpu
    &&& s.cpu_color == if record.cpu.more_than(85) {
        red()
    } else if record.cpu.more_than(50) {
        yellow()
    } else {
        green()
    }
    &&& s.mem == record.mem
    &&& s.exe@ == match record.exe {
        Some(path) => path,
        None => "—"@,
    }
    &&& s.command@ == joined(record.cmd, " "@)
}

/// What is known of a process.
pub open spec fn record_of(d: ProcessDetails) -> ProcessRecord {
    ProcessRecord {
        name: d.name@,
        cpu: d.cpu,
        mem: d.mem,
        parent: d.parent,
        cmd: views(d.cmd@),
        exe: match d.exe {
            Some(path) => Some(path@),
            None => None,
        },
    }
}

/// The details of the process `pid` as they are shown.
pub fn show_details(pid: u32, d: ProcessDetails) -> (r: Sidebar)
    ensures
        shows_record(r, pid, record_of(d)),
{
    let parent = match d.parent {
        Some(p) => decimal_string(p as u64),
        None => "—".to_owned(),
    };
    let command = join(&d.cmd, " ");
    let exe = match d.exe {
        Some(path) => path,
        None => "—".to_owned(),
    };
    Sidebar {
        name: d.name,
        pid: decimal_string(pid as u64),
        parent,
        cpu: d.cpu,
        cpu_color: cpu_color(d.cpu),
        mem: d.mem,
        exe,
        command,
    }
}

/// The details of the process `pid`; `None` where it no longer exists.
pub fn selected_process_sidebar(sys: &System, pid: u32) -> (r: Option<Sidebar>)
    ensures
        match r {
            Some(s) => process_table(*sys).contains_key(pid) && shows_record(
                s,
                pid,
                process_table(*sys)[pid],
            ),
            None => !process_table(*sys).contains_key(pid),
        },
{
    match find_process(sys, pid) {
        Some(d) => {
            assert(record_of(d) == process_table(*sys)[pid]);
            Some(show_details(pid, d))
        },
        None => None,
    }
}

/// The details show what is known of the process: its name, ids, usage in the colour
/// of the usage, memory, path and command line, with a dash for a parent or a path
/// that is not known.
pub proof fn details_by_record(s: Sidebar, pid: u32, record: ProcessRecord)
    requires
        shows_record(s, pid, record),
    ensures
        s.name@ == record.name,
        s.pid@ == decimal(pid as nat),
        record.parent matches Some(p) ==> s.parent@ == decimal(p as nat),
        record.parent is None ==> s.parent@ == "—"@,
        s.cpu == record.cpu,
        s.mem == record.mem,
        record.exe matches Some(path) ==> s.exe@ == path,
        record.exe is None ==> s.exe@ == "—"@,
        s.command@ == joined(record.cmd, " "@),
        !record.cpu.is_nan() && record.cpu.scaled() > 85 * pow2(149) ==> s.cpu_color == (Color {
            r: 255,
            g: 85,
            b: 85,
        }),
        !record.cpu.is_nan() && 50 * pow2(149) < record.cpu.scaled() <= 85 * pow2(149)
            ==> s.cpu_color == (Color { r: 255, g: 255, b: 85 }),
        record.cpu.is_nan() || record.cpu.scaled() <= 50 * pow2(149) ==> s.cpu_color == (Color {
            r: 85,
            g: 255,
            b: 85,
        }),
{
    vstd::arithmetic::power2::lemma_pow2_pos(149);
}

/// What is known of a process is what was found of it.
pub proof fn records_by_details(d: ProcessDetails)
    ensures
        record_of(d).name == d.name@,
        record_of(d).cpu == d.cpu,
        record_of(d).mem == d.mem,
        record_of(d).parent == d.parent,
        record_of(d).cmd.len() == d.cmd@.len(),
        forall|i: int| 0 <= i < d.cmd@.len() ==> #[trigger] record_of(d).cmd[i] == d.cmd@[i]@,
        d.exe matches Some(path) ==> record_of(d).exe == Some(path@),
        d.exe is None ==> record_of(d).exe is None,
{
}

} // verus!
