use mitos_system_monitor::cpu::CpuUsage;
use mitos_system_monitor::stats::{memory_share, stats_due, MemoryShare, Reading, Stats};

fn reading(now: u128, cpu: f32, used_memory: u64, total_memory: u64) -> Reading {
    Reading { now, cpu: CpuUsage { bits: cpu.to_bits() }, used_memory, total_memory }
}

#[test]
fn measurements_are_due_after_a_second() {
    assert!(!stats_due(999));
    assert!(stats_due(1000));
    let mut stats = Stats::new();
    assert!(stats.due(0));
    stats.maybe_refresh_stats(reading(5, 1.0, 1, 2));
    assert!(!stats.due(0));
    assert!(!stats.due(1_000_000_004));
    assert!(stats.due(1_000_000_005));
}

#[test]
fn shares_of_memory() {
    assert_eq!(memory_share(5, 10), MemoryShare { used: 5, total: 10 });
    assert_eq!(memory_share(5, 0), MemoryShare { used: 0, total: 1 });
}

#[test]
fn early_readings_are_passed_over() {
    let mut stats = Stats::new();
    assert_eq!(stats.cpu_history.samples().len(), 120);
    assert_eq!(stats.ram_history.samples(), vec![MemoryShare { used: 0, total: 1 }; 120]);
    stats.maybe_refresh_stats(reading(10, 7.5, 3, 4));
    let cpu = stats.cpu_history.samples();
    let ram = stats.ram_history.samples();
    assert_eq!(cpu[119].bits, 7.5f32.to_bits());
    assert_eq!(cpu[118].bits, 0);
    assert_eq!(ram[119], MemoryShare { used: 3, total: 4 });
    stats.maybe_refresh_stats(reading(1_000_000_009, 9.0, 4, 4));
    assert_eq!(stats.cpu_history.samples(), cpu);
    assert_eq!(stats.ram_history.samples(), ram);
    assert_eq!(stats.last_stats, Some(10));
    stats.maybe_refresh_stats(reading(1_000_000_010, 9.0, 4, 0));
    assert_eq!(stats.cpu_history.samples()[119].bits, 9.0f32.to_bits());
    assert_eq!(stats.cpu_history.samples()[118].bits, 7.5f32.to_bits());
    assert_eq!(stats.ram_history.samples()[119], MemoryShare { used: 0, total: 1 });
    assert_eq!(stats.last_stats, Some(1_000_000_010));
}

#[test]
fn samples_keep_their_distance_and_range() {
    let mut stats = Stats::new();
    let mut times = Vec::new();
    for k in 0..2000u128 {
        let now = k * 130_000_000;
        if stats.due(now) {
            times.push(now);
        }
        stats.maybe_refresh_stats(reading(now, 1.0, (k % 8) as u64, 7));
    }
    for k in 1..times.len() {
        assert!(times[k] - times[k - 1] >= 1_000_000_000);
    }
    assert_eq!(stats.cpu_history.samples().len(), 120);
    for share in stats.ram_history.samples() {
        let percent = share.used as f64 / share.total as f64 * 100.0;
        assert!(0.0 <= percent && percent <= 100.0);
    }
}
