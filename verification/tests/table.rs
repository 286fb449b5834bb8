use mitos_system_monitor::cpu::CpuUsage;
use mitos_system_monitor::process::ProcessInfo;
use mitos_system_monitor::table::{process_rows, rank_rows};
use sysinfo::System;

fn process_with(pid: u32, cpu: f32) -> ProcessInfo {
    ProcessInfo {
        pid,
        name: format!("p{}", pid),
        cpu: CpuUsage { bits: cpu.to_bits() },
        mem: 0,
        parent: None,
    }
}

fn pids(rows: &Vec<ProcessInfo>) -> Vec<u32> {
    rows.iter().map(|r| r.pid).collect()
}

#[test]
fn busiest_come_first_and_ties_keep_their_order() {
    let infos = vec![
        process_with(1, 0.0),
        process_with(2, 12.5),
        process_with(3, 99.0),
        process_with(4, 12.5),
        process_with(5, -0.0),
        process_with(6, f32::INFINITY),
    ];
    assert_eq!(pids(&rank_rows(&infos)), vec![6, 3, 2, 4, 1, 5]);
    assert_eq!(pids(&rank_rows(&Vec::new())), Vec::<u32>::new());
}

#[test]
fn table_agrees_with_a_stable_sort() {
    let mut seed = 99u64;
    for n in [1u32, 2, 7, 64, 199, 200, 201, 500] {
        let infos: Vec<ProcessInfo> = (0..n)
            .map(|pid| {
                seed = seed.wrapping_mul(6364136223846793005).wrapping_add(1442695040888963407);
                process_with(pid, ((seed >> 40) % 23) as f32 / 4.0)
            })
            .collect();
        let mut expected: Vec<(u32, f32)> =
            infos.iter().map(|p| (p.pid, f32::from_bits(p.cpu.bits))).collect();
        expected.sort_by(|a, b| b.1.partial_cmp(&a.1).unwrap());
        expected.truncate(200);
        let expected: Vec<u32> = expected.iter().map(|p| p.0).collect();
        assert_eq!(pids(&rank_rows(&infos)), expected);
    }
}

#[test]
fn rows_of_running_processes() {
    let mut sys = System::new_all();
    sys.refresh_all();
    let rows = process_rows(&sys, "");
    assert_eq!(rows.len(), sys.processes().len().min(200));
    for k in 1..rows.len() {
        assert!(f32::from_bits(rows[k - 1].cpu.bits) >= f32::from_bits(rows[k].cpu.bits));
    }
    let name = rows[0].name.to_uppercase();
    assert!(process_rows(&sys, &name).iter().any(|r| r.pid == rows[0].pid));
    assert_eq!(process_rows(&sys, "\u{0} no such process").len(), 0);
}
