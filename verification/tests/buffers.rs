use std::time::Instant;

use mitos_system_monitor::buffers::{
    buffer_key, buffer_label, is_live, line_label, liveness_label, match_count_label,
    search_buffer, terminal_title, view_buffer, view_buffers,
};
use mitos_system_monitor::terminals::TerminalSnapshot;

#[test]
fn search_finds_lines_by_number() {
    let found = search_buffer("cargo build  \nls\ncargo test\r\nCargo", "cargo").unwrap();
    assert_eq!(found.total, 2);
    let shown: Vec<(usize, &str)> =
        found.shown.iter().map(|m| (m.number, m.text.as_str())).collect();
    assert_eq!(shown, vec![(1, "cargo build"), (3, "cargo test")]);
}

#[test]
fn blank_query_does_not_search() {
    assert!(search_buffer("a b", "").is_none());
    assert!(search_buffer("a b", " \t").is_none());
}

#[test]
fn query_keeps_its_spaces() {
    assert_eq!(search_buffer("ab\na b", " b").unwrap().total, 1);
    assert_eq!(search_buffer("ab", "zz").unwrap().total, 0);
}

#[test]
fn fifty_matches_are_shown() {
    let text: String = (0..73).map(|i| format!("x{}\n", i)).collect();
    let found = search_buffer(&text, "x").unwrap();
    assert_eq!(found.total, 73);
    assert_eq!(found.shown.len(), 50);
    assert_eq!(found.shown[49].number, 50);
    assert_eq!(found.shown[49].text, "x49");
}

#[test]
fn buffer_labels() {
    assert_eq!(match_count_label(3), "\u{1f50e} 3 match(es)");
    assert_eq!(line_label(7), "L0007");
    assert_eq!(line_label(12345), "L12345");
    assert_eq!(terminal_title(9, "  ~/src $ \n"), "PID 9 \u{2014} ~/src $");
    assert_eq!(buffer_label("a\nb\n"), "\u{1f4c4} View full buffer (2 lines)");
    assert_eq!(buffer_label(""), "\u{1f4c4} View full buffer (0 lines)");
    assert_eq!(buffer_key(9), "buf_9");
}

#[test]
fn terminals_are_live_for_three_seconds() {
    assert!(is_live(0));
    assert!(is_live(2));
    assert!(!is_live(3));
    assert_eq!(liveness_label(true), "\u{1f7e2} live");
    assert_eq!(liveness_label(false), "\u{1f534} stale");
}

#[test]
fn buffer_page_entry() {
    let snapshot = TerminalSnapshot {
        pid: 9,
        prompt: " $ ".to_string(),
        text: "one\ntwo\n".to_string(),
        last_seen: Instant::now(),
    };
    let view = view_buffer(&snapshot, 1, "tw");
    assert_eq!(view.title, "PID 9 \u{2014} $");
    assert_eq!(view.liveness, "\u{1f7e2} live");
    assert_eq!(view.search.unwrap().total, 1);
    assert_eq!(view.label, "\u{1f4c4} View full buffer (2 lines)");
    assert_eq!(view.key, "buf_9");
    let view = view_buffer(&snapshot, 5, "");
    assert_eq!(view.liveness, "\u{1f534} stale");
    assert!(view.search.is_none());
}

#[test]
fn search_goes_through_all_terminals() {
    let terminal = |pid: u32, text: &str| TerminalSnapshot {
        pid,
        prompt: "$".to_string(),
        text: text.to_string(),
        last_seen: Instant::now(),
    };
    let terminals = vec![
        terminal(1, "ls\ncargo test\n"),
        terminal(2, "vi\n"),
        terminal(3, "cargo build\ncargo run"),
    ];
    let views = view_buffers(&terminals, &vec![0, 3, 2], "cargo");
    let totals: Vec<usize> = views.iter().map(|v| v.search.as_ref().unwrap().total).collect();
    assert_eq!(totals, vec![1, 0, 2]);
    let keys: Vec<&str> = views.iter().map(|v| v.key.as_str()).collect();
    assert_eq!(keys, vec!["buf_1", "buf_2", "buf_3"]);
    assert_eq!(views[1].liveness, "\u{1f534} stale");
    assert_eq!(views[2].search.as_ref().unwrap().shown[1].number, 2);
    assert_eq!(view_buffers(&terminals, &vec![0], "").len(), 1);
    assert_eq!(view_buffers(&Vec::new(), &vec![0], "").len(), 0);
}
