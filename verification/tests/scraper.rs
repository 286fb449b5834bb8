use std::path::PathBuf;

use mitos_system_monitor::scraper::{
    scrape_all_terminals, socket_pid, terminal_sockets, Scraped,
};

#[test]
fn socket_names_give_the_pid() {
    assert_eq!(socket_pid("mitos-term-4711.sock"), Some(4711));
    assert_eq!(socket_pid("mitos-term-0.sock"), Some(0));
    assert_eq!(socket_pid("mitos-term-+5.sock"), Some(5));
    for pid in [0u32, 1, 99, 65536, u32::MAX] {
        assert_eq!(socket_pid(&format!("mitos-term-{}.sock", pid)), Some(pid));
    }
}

#[test]
fn other_names_give_none() {
    for name in [
        "", "mitos-term-.sock", "mitos-term-x.sock", "mitos-term-1", "term-1.sock",
        "mitos-term-1.sock.bak", "mitos-term-4294967296.sock", "mitos-term-1 .sock",
        "mitos-term.sock",
    ] {
        assert_eq!(socket_pid(name), None, "{:?}", name);
    }
}

#[test]
fn terminal_sockets_are_picked_by_position() {
    let names = vec![
        Some("mitos-term-7.sock".to_string()),
        None,
        Some("other.sock".to_string()),
        Some("mitos-term-9.sock".to_string()),
    ];
    assert_eq!(terminal_sockets(&names), vec![(0, 7), (3, 9)]);
}

#[test]
fn readable_terminals_are_kept_in_order() {
    let list = vec![
        Scraped { pid: 1, socket_path: PathBuf::from("/tmp/a"), content: Some("one".to_string()) },
        Scraped { pid: 2, socket_path: PathBuf::from("/tmp/b"), content: None },
        Scraped { pid: 3, socket_path: PathBuf::from("/tmp/c"), content: Some(String::new()) },
    ];
    let buffers = scrape_all_terminals(list);
    assert_eq!(buffers.len(), 2);
    assert_eq!(buffers[0].pid, 1);
    assert_eq!(buffers[0].socket_path, PathBuf::from("/tmp/a"));
    assert_eq!(buffers[0].content, "one");
    assert_eq!(buffers[1].pid, 3);
    assert_eq!(buffers[1].content, "");
}
