use mitos_system_monitor::cpu::{Color, CpuUsage};
use mitos_system_monitor::process::ProcessDetails;
use mitos_system_monitor::sidebar::{selected_process_sidebar, show_details};
use sysinfo::{get_current_pid, System};

#[test]
fn details_are_shown() {
    let sidebar = show_details(
        42,
        ProcessDetails {
            name: "bash".to_string(),
            cpu: CpuUsage { bits: 90.0f32.to_bits() },
            mem: 1 << 20,
            parent: Some(7),
            cmd: vec!["bash".to_string(), "-l".to_string()],
            exe: Some("/bin/bash".to_string()),
        },
    );
    assert_eq!(sidebar.name, "bash");
    assert_eq!(sidebar.pid, "42");
    assert_eq!(sidebar.parent, "7");
    assert_eq!(sidebar.cpu.bits, 90.0f32.to_bits());
    assert_eq!(sidebar.cpu_color, Color { r: 255, g: 85, b: 85 });
    assert_eq!(sidebar.mem, 1 << 20);
    assert_eq!(sidebar.exe, "/bin/bash");
    assert_eq!(sidebar.command, "bash -l");
}

#[test]
fn unknown_details_are_dashes() {
    let sidebar = show_details(
        1,
        ProcessDetails {
            name: "kthread".to_string(),
            cpu: CpuUsage { bits: 0 },
            mem: 0,
            parent: None,
            cmd: Vec::new(),
            exe: None,
        },
    );
    assert_eq!(sidebar.parent, "\u{2014}");
    assert_eq!(sidebar.exe, "\u{2014}");
    assert_eq!(sidebar.command, "");
}

#[test]
fn details_of_a_running_process() {
    let mut sys = System::new_all();
    sys.refresh_all();
    let pid = get_current_pid().unwrap();
    let known = sys.process(pid).unwrap();
    let sidebar = selected_process_sidebar(&sys, pid.as_u32()).unwrap();
    assert_eq!(sidebar.name, known.name().to_string_lossy());
    assert_eq!(sidebar.pid, pid.to_string());
    assert_eq!(sidebar.parent, known.parent().map_or("\u{2014}".to_string(), |p| p.to_string()));
    assert_eq!(sidebar.mem, known.memory());
    assert_eq!(sidebar.exe, known.exe().unwrap().to_string_lossy());
    let words: Vec<String> =
        known.cmd().iter().map(|w| w.to_string_lossy().to_string()).collect();
    assert_eq!(sidebar.command, words.join(" "));
}

#[test]
fn process_that_is_gone_has_no_details() {
    let mut sys = System::new_all();
    sys.refresh_all();
    assert!(selected_process_sidebar(&sys, 0x7fff_fff0).is_none());
}
