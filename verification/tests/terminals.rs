use std::time::Instant;

use mitos_system_monitor::cpu::Color;
use mitos_system_monitor::monitor::{
    alert_button_label, overview_heading, send_alert_to_terminal, table_target_label, Alert,
    Monitor, Tab,
};
use mitos_system_monitor::terminals::{
    next_step, read_answer, settle_query, status_color, FailureKind, IpcResponse, MonitorAction,
    QueryError, RichWidget, SharedState, SocketFate, StatusKind, TerminalSnapshot, WorkerEvent,
    WorkerStep,
};

fn snapshot(pid: u32) -> TerminalSnapshot {
    TerminalSnapshot {
        pid,
        prompt: "$ ".to_string(),
        text: "hello\n".to_string(),
        last_seen: Instant::now(),
    }
}

fn alert() -> Alert {
    Alert {
        proc_pid: 77,
        name: "spin".to_string(),
        fraction_bits: 0.9f32.to_bits(),
        cpu_text: "90".to_string(),
    }
}

#[test]
fn worker_follows_events() {
    assert!(matches!(next_step(WorkerEvent::Tick), WorkerStep::Refresh));
    assert!(matches!(
        next_step(WorkerEvent::Action(MonitorAction::Refresh)),
        WorkerStep::Refresh
    ));
    let widget = RichWidget::Button { label: "go".to_string(), cmd: "ls".to_string() };
    match next_step(WorkerEvent::Action(MonitorAction::Inject { terminal_pid: 3, widget })) {
        WorkerStep::Inject { terminal_pid, widget: RichWidget::Button { label, cmd } } => {
            assert_eq!((terminal_pid, label.as_str(), cmd.as_str()), (3, "go", "ls"));
        }
        _ => panic!("not an injection"),
    }
    assert!(matches!(next_step(WorkerEvent::Closed), WorkerStep::Stop));
}

#[test]
fn buffer_answers_become_snapshots() {
    let now = Instant::now();
    let answer = IpcResponse::BufferData {
        pid: 9,
        prompt: "> ".to_string(),
        text: "a\nb".to_string(),
    };
    match read_answer(Some(answer), now) {
        Ok(s) => {
            assert_eq!(s.pid, 9);
            assert_eq!(s.prompt, "> ");
            assert_eq!(s.text, "a\nb");
            assert_eq!(s.last_seen, now);
            let copy = s.clone();
            assert_eq!((copy.pid, copy.prompt, copy.last_seen), (9, "> ".to_string(), now));
        }
        Err(_) => panic!("no snapshot"),
    }
}

#[test]
fn other_answers_are_errors() {
    let now = Instant::now();
    let error = match read_answer(Some(IpcResponse::Other("Ack".to_string())), now) {
        Err(e) => e,
        Ok(_) => panic!("no error"),
    };
    assert_eq!(error.kind(), FailureKind::InvalidData);
    assert_eq!(error.message(), "unexpected response: Ack");
    let error = match read_answer(None, now) {
        Err(e) => e,
        Ok(_) => panic!("no error"),
    };
    assert_eq!(error.kind(), FailureKind::UnexpectedEof);
    assert_eq!(error.message(), "stream closed");
    assert_eq!(QueryError::ConnectTimeout.kind(), FailureKind::TimedOut);
    assert_eq!(QueryError::ConnectTimeout.message(), "connect timeout");
}

#[test]
fn a_round_keeps_the_answers_and_drops_dead_sockets() {
    let mut state = SharedState::new();
    state.finish_refresh(vec![snapshot(1)]);
    let mut round = Vec::new();
    assert_eq!(settle_query(&mut round, Some(snapshot(5))), SocketFate::Keep);
    assert_eq!(settle_query(&mut round, None), SocketFate::Remove);
    assert_eq!(settle_query(&mut round, Some(snapshot(6))), SocketFate::Keep);
    state.finish_refresh(round);
    let pids: Vec<u32> = state.terminals.iter().map(|t| t.pid).collect();
    assert_eq!(pids, vec![5, 6]);
    assert_eq!(state.terminal_count_label(), "\u{1f5a5}\u{fe0f} 2 mitos-terminal instance(s) live");
}

#[test]
fn status_shows_the_last_injection() {
    let mut state = SharedState::new();
    let line = state.status_line();
    assert_eq!((line.kind, line.text.as_str()), (StatusKind::Nominal, "All systems nominal"));

    state.note_injection(12, Err("broken pipe".to_string()));
    let line = state.status_line();
    assert_eq!(line.kind, StatusKind::Error);
    assert_eq!(line.text, "Inject into PID 12 failed: broken pipe");
    assert_eq!(state.last_info, None);

    state.note_injection(12, Ok(()));
    let line = state.status_line();
    assert_eq!(line.kind, StatusKind::Info);
    assert_eq!(line.text, "Widget injected into terminal PID 12");
    assert_eq!(state.last_error, None);

    state.note_no_terminal();
    let line = state.status_line();
    assert_eq!(line.kind, StatusKind::Error);
    assert_eq!(line.text, "No mitos-terminal detected \u{2014} launch one first");
    assert!(state.last_info.is_some());
}

#[test]
fn status_colours() {
    assert_eq!(status_color(StatusKind::Error), Some(Color { r: 255, g: 85, b: 85 }));
    assert_eq!(status_color(StatusKind::Info), Some(Color { r: 85, g: 255, b: 85 }));
    assert_eq!(status_color(StatusKind::Nominal), None);
}

#[test]
fn interface_starts_on_the_overview() {
    let monitor = Monitor::new();
    assert_eq!(monitor.selected_tab, Tab::Overview);
    assert_eq!(monitor.process_filter, "");
    assert_eq!(monitor.search_query, "");
    assert_eq!(monitor.tree_filter, "");
    assert_eq!(monitor.target_terminal, None);
    assert_eq!(monitor.selected_process, None);
}

#[test]
fn chosen_target_comes_before_the_first_terminal() {
    let mut monitor = Monitor::new();
    let mut state = SharedState::new();
    assert_eq!(monitor.current_target(&state), None);
    state.finish_refresh(vec![snapshot(31), snapshot(32)]);
    assert_eq!(monitor.current_target(&state), Some(31));
    monitor.target_terminal = Some(99);
    assert_eq!(monitor.current_target(&state), Some(99));
    assert!(monitor.is_chosen_target(99));
    assert!(!monitor.is_chosen_target(31));
}

#[test]
fn alert_sends_a_gauge_and_a_kill_button() {
    let actions = send_alert_to_terminal(31, &alert());
    assert_eq!(actions.len(), 2);
    match &actions[0] {
        MonitorAction::Inject {
            terminal_pid,
            widget: RichWidget::Progress { percent_bits, color },
        } => {
            assert_eq!(*terminal_pid, 31);
            assert_eq!(f32::from_bits(*percent_bits), 0.9);
            assert_eq!(color.as_deref(), Some("red"));
        }
        _ => panic!("no gauge"),
    }
    match &actions[1] {
        MonitorAction::Inject { terminal_pid, widget: RichWidget::Button { label, cmd } } => {
            assert_eq!(*terminal_pid, 31);
            assert_eq!(
                label,
                "\u{26a0}\u{fe0f} Kill runaway: spin (PID 77) \u{2014} 90% CPU"
            );
            assert_eq!(cmd, "kill -9 77");
        }
        _ => panic!("no button"),
    }
}

#[test]
fn gauge_is_full_above_full_usage() {
    let mut alert = alert();
    alert.fraction_bits = 3.2f32.to_bits();
    match &send_alert_to_terminal(31, &alert)[0] {
        MonitorAction::Inject { widget: RichWidget::Progress { percent_bits, .. }, .. } => {
            assert_eq!(f32::from_bits(*percent_bits), 1.0);
        }
        _ => panic!("no gauge"),
    }
}

#[test]
fn alert_without_a_terminal_is_an_error() {
    let monitor = Monitor::new();
    let mut state = SharedState::new();
    assert_eq!(monitor.send_alert(&mut state, &alert()).len(), 0);
    assert_eq!(
        state.last_error.as_deref(),
        Some("No mitos-terminal detected \u{2014} launch one first")
    );
    let mut state = SharedState::new();
    state.finish_refresh(vec![snapshot(31)]);
    assert_eq!(monitor.send_alert(&mut state, &alert()).len(), 2);
    assert_eq!(state.last_error, None);
}

#[test]
fn sidebar_belongs_to_the_tree() {
    let mut monitor = Monitor::new();
    monitor.selected_process = Some(4);
    assert_eq!(monitor.sidebar_process(), None);
    monitor.selected_tab = Tab::ProcessTree;
    assert_eq!(monitor.sidebar_process(), Some(4));
}

#[test]
fn selection_follows_clicks() {
    let mut monitor = Monitor::new();
    monitor.select_process(4);
    assert_eq!(monitor.selected_process, Some(4));
    monitor.leave_process(false, false);
    assert_eq!(monitor.selected_process, Some(4));
    monitor.leave_process(true, false);
    assert_eq!(monitor.selected_process, None);
    monitor.select_process(5);
    monitor.leave_process(false, true);
    assert_eq!(monitor.selected_process, None);
    assert_eq!(monitor.selected_tab, Tab::Overview);
    monitor.choose_target(8);
    assert_eq!(monitor.current_target(&SharedState::new()), Some(8));
    assert_eq!(monitor.selected_process, None);
}

#[test]
fn labels_name_the_target() {
    assert_eq!(table_target_label(Some(5)), "\u{1f3af} Alerts \u{279c} terminal PID 5");
    assert_eq!(table_target_label(None), "\u{1f3af} Alerts \u{279c} (no terminal)");
    assert_eq!(alert_button_label(Some(5)), "\u{1f6a8} Alert \u{279c} terminal PID 5");
    assert_eq!(alert_button_label(None), "\u{1f6a8} Alert \u{279c} (no terminal)");
}

#[test]
fn overview_figures() {
    assert_eq!(
        overview_heading(Some("box".to_string()), 8, "15.5"),
        "\u{1f5a5}\u{fe0f} box \u{2014} 8 cores \u{2014} 15.5 GB RAM"
    );
    assert_eq!(
        overview_heading(None, 1, "0.0"),
        "\u{1f5a5}\u{fe0f} mitos \u{2014} 1 cores \u{2014} 0.0 GB RAM"
    );
}
