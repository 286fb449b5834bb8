use mitos_system_monitor::cpu::{Color, CpuUsage};
use mitos_system_monitor::layout::{layout_tree, Placement};
use mitos_system_monitor::process::{
    lowered_name_is_mitos, lowered_name_passes, select_processes, ProcessInfo,
};
use mitos_system_monitor::tree::{build_process_tree, process_tree, tree_roots, ProcessTreeNode};
use mitos_system_monitor::tree_view::{
    edge_color, node_color, node_label, node_ring, process_tree_view, tree_edges, view_of_tree, Edge,
};
use sysinfo::{get_current_pid, Pid, System};

fn process(pid: u32, name: &str, parent: Option<u32>) -> ProcessInfo {
    ProcessInfo {
        pid,
        name: name.to_string(),
        cpu: CpuUsage { bits: (pid as f32).to_bits() },
        mem: pid as u64 * 1024,
        parent,
    }
}

/// init(1) -> [mitos-session(10) -> [Mitos-GUI(11), shell(12)], cron(20)]; alone(30)
fn sample() -> Vec<ProcessInfo> {
    vec![
        process(12, "shell", Some(10)),
        process(1, "init", None),
        process(11, "Mitos-GUI", Some(10)),
        process(10, "mitos-session", Some(1)),
        process(30, "alone", Some(999)),
        process(20, "cron", Some(1)),
    ]
}

fn links(nodes: &Vec<ProcessTreeNode>) -> Vec<(u32, Option<usize>, Vec<usize>, bool)> {
    nodes
        .iter()
        .map(|n| (n.pid, n.parent, n.children.clone(), n.is_mitos))
        .collect()
}

/// Where a plan puts the nodes, `None` for a node that is not placed.
fn run(plan: &Vec<Placement>, n: usize) -> Vec<Option<(f32, f32)>> {
    let mut at: Vec<Option<(f32, f32)>> = vec![None; n];
    let mut cursor = 0.0f32;
    for step in plan {
        match *step {
            Placement::Leaf { node, depth } => {
                assert_eq!(at[node], None);
                at[node] = Some((cursor, depth as f32 * 100.0));
                cursor += 140.0;
            }
            Placement::Centered { node, depth, first, last } => {
                assert_eq!(at[node], None);
                let x = (at[first].unwrap().0 + at[last].unwrap().0) / 2.0;
                at[node] = Some((x, depth as f32 * 100.0));
            }
        }
    }
    at
}

#[test]
fn tree_links_parents_and_children() {
    let nodes = process_tree(&sample(), "");
    assert_eq!(
        links(&nodes),
        vec![
            (12, Some(3), vec![], false),
            (1, None, vec![3, 5], false),
            (11, Some(3), vec![], true),
            (10, Some(1), vec![0, 2], true),
            (30, None, vec![], false),
            (20, Some(1), vec![], false),
        ]
    );
    assert_eq!(nodes[2].name, "Mitos-GUI");
    assert_eq!(nodes[2].cpu, CpuUsage { bits: 11.0f32.to_bits() });
    assert_eq!(nodes[2].mem, 11 * 1024);
    assert_eq!(tree_roots(&nodes), vec![1, 4]);
}

#[test]
fn filter_ignores_letter_case_and_cuts_links() {
    let nodes = process_tree(&sample(), "mItOs");
    assert_eq!(
        links(&nodes),
        vec![(11, Some(1), vec![], true), (10, None, vec![0], true)]
    );
    let nodes = process_tree(&sample(), "S");
    let pids: Vec<u32> = nodes.iter().map(|n| n.pid).collect();
    assert_eq!(pids, vec![12, 11, 10]);
    assert_eq!(process_tree(&sample(), "no such name").len(), 0);
}

#[test]
fn lowered_names_are_matched() {
    assert!(lowered_name_passes("", "anything", "x"));
    assert!(lowered_name_passes("Gui", "gui", "mitos-gui"));
    assert!(!lowered_name_passes("Gui", "gui", "init"));
    assert!(lowered_name_is_mitos("mitos-session"));
    assert!(!lowered_name_is_mitos("mito"));
}

#[test]
fn selection_uses_unicode_lowercase() {
    let infos = vec![process(1, "\u{c4}RGER", None), process(2, "other", None)];
    let selected = select_processes(&infos, "\u{e4}rg");
    assert_eq!(selected.len(), 1);
    assert_eq!(selected[0].info.pid, 1);
    assert_eq!(selected[0].info.name, "\u{c4}RGER");
    assert!(!selected[0].is_mitos);
}

#[test]
fn ascii_letters_are_lowered_one_for_one() {
    for c in 0u8..128 {
        let infos = vec![process(1, &format!("x{}y", c as char), None)];
        let upper = format!("X{}Y", (c as char).to_ascii_uppercase());
        let lower = format!("x{}y", (c as char).to_ascii_lowercase());
        assert_eq!(process_tree(&infos, &upper).len(), 1);
        assert_eq!(process_tree(&infos, &lower).len(), 1);
        let other = format!("x{}y", ((c ^ 1) as char).to_ascii_lowercase());
        assert_eq!(process_tree(&infos, &other).len(), 0);
    }
}

#[test]
fn narrower_filters_keep_fewer_processes() {
    let pids = |filter: &str| -> Vec<u32> {
        process_tree(&sample(), filter).iter().map(|n| n.pid).collect()
    };
    assert_eq!(pids("").len(), sample().len());
    assert_eq!(pids("MI"), pids("mi"));
    for (wide, narrow) in [("", "m"), ("I", "mi"), ("mi", "mitos"), ("it", "MITOS-G")] {
        assert!(pids(narrow).iter().all(|p| pids(wide).contains(p)));
    }
    assert_eq!(pids("MITOS-G"), vec![11]);
}

#[test]
fn last_of_equal_pids_is_the_parent() {
    let nodes = process_tree(
        &vec![process(1, "a", None), process(1, "b", None), process(2, "c", Some(1))],
        "",
    );
    assert_eq!(nodes[2].parent, Some(1));
    assert_eq!(nodes[0].children.len(), 0);
    assert_eq!(nodes[1].children, vec![2]);
}

#[test]
fn leaves_go_left_to_right_under_centered_parents() {
    let nodes = process_tree(&sample(), "");
    let plan = layout_tree(&nodes, &tree_roots(&nodes));
    assert_eq!(
        plan,
        vec![
            Placement::Leaf { node: 0, depth: 2 },
            Placement::Leaf { node: 2, depth: 2 },
            Placement::Centered { node: 3, depth: 1, first: 0, last: 2 },
            Placement::Leaf { node: 5, depth: 1 },
            Placement::Centered { node: 1, depth: 0, first: 3, last: 5 },
            Placement::Leaf { node: 4, depth: 0 },
        ]
    );
    assert_eq!(
        run(&plan, nodes.len()),
        vec![
            Some((0.0, 200.0)),
            Some((175.0, 0.0)),
            Some((140.0, 200.0)),
            Some((70.0, 100.0)),
            Some((420.0, 0.0)),
            Some((280.0, 100.0)),
        ]
    );
}

#[test]
fn parts_of_a_tree_are_drawn_alike() {
    let nodes = process_tree(&sample(), "");
    let at = run(&layout_tree(&nodes, &vec![5, 3]), nodes.len());
    assert_eq!(
        at,
        vec![
            Some((140.0, 100.0)),
            None,
            Some((280.0, 100.0)),
            Some((210.0, 0.0)),
            None,
            Some((0.0, 0.0)),
        ]
    );
}

#[test]
fn layout_of_part_of_a_tree() {
    let nodes = process_tree(&sample(), "");
    assert_eq!(
        layout_tree(&nodes, &vec![5, 3]),
        vec![
            Placement::Leaf { node: 5, depth: 0 },
            Placement::Leaf { node: 0, depth: 1 },
            Placement::Leaf { node: 2, depth: 1 },
            Placement::Centered { node: 3, depth: 0, first: 0, last: 2 },
        ]
    );
    assert_eq!(layout_tree(&nodes, &Vec::new()), vec![]);
}

#[test]
fn cycles_are_left_out() {
    let view = view_of_tree(process_tree(
        &vec![
            process(1, "self", Some(1)),
            process(2, "a", Some(3)),
            process(3, "b", Some(2)),
            process(4, "below", Some(3)),
            process(5, "root", None),
            process(6, "child", Some(5)),
        ],
        "",
    ));
    let at = run(&view.plan, view.nodes.len());
    assert_eq!(
        at,
        vec![None, None, None, None, Some((0.0, 0.0)), Some((0.0, 100.0))]
    );
}

#[test]
fn rows_keep_their_distance_in_random_trees() {
    let mut seed = 12345u64;
    for round in 0..40u32 {
        let n = 3 + round;
        let infos: Vec<ProcessInfo> = (0..n)
            .map(|pid| {
                seed = seed.wrapping_mul(6364136223846793005).wrapping_add(1442695040888963407);
                let parent = (seed >> 33) as u32 % (n + 3);
                process(pid, "p", if parent < pid { Some(parent) } else { None })
            })
            .collect();
        let view = view_of_tree(process_tree(&infos, ""));
        let at = run(&view.plan, view.nodes.len());
        for i in 0..at.len() {
            let (x, y) = at[i].unwrap();
            match view.nodes[i].parent {
                None => assert_eq!(y, 0.0),
                Some(p) => assert_eq!(y, at[p].unwrap().1 + 100.0),
            }
            for j in 0..i {
                let (x2, y2) = at[j].unwrap();
                assert!(y != y2 || (x - x2).abs() >= 140.0);
            }
        }
        let children: usize = view.nodes.iter().filter(|n| n.parent.is_some()).count();
        assert_eq!(view.edges.len(), children);
    }
}

#[test]
fn edges_are_highlighted_at_mitos_processes() {
    let nodes = process_tree(&sample(), "");
    let edge = |parent, child, highlighted| Edge { parent, child, highlighted };
    assert_eq!(
        tree_edges(&nodes),
        vec![edge(1, 3, true), edge(1, 5, false), edge(3, 0, true), edge(3, 2, true)]
    );
    assert_eq!(edge_color(true), Color { r: 85, g: 255, b: 85 });
    assert_eq!(edge_color(false), Color { r: 70, g: 70, b: 70 });
}

#[test]
fn nodes_are_coloured_by_system_and_usage() {
    let usage = |v: f32| CpuUsage { bits: v.to_bits() };
    assert_eq!(node_color(true, usage(99.0)), Color { r: 85, g: 255, b: 85 });
    assert_eq!(node_color(false, usage(50.5)), Color { r: 255, g: 85, b: 85 });
    assert_eq!(node_color(false, usage(50.0)), Color { r: 255, g: 255, b: 85 });
    assert_eq!(node_color(false, usage(10.0)), Color { r: 110, g: 110, b: 110 });
}

#[test]
fn rings_mark_selection_before_hover() {
    let white = Color { r: 255, g: 255, b: 255 };
    let light = Color { r: 230, g: 230, b: 230 };
    assert_eq!(node_ring(5, Some(5), true), Some(white));
    assert_eq!(node_ring(5, Some(6), true), Some(light));
    assert_eq!(node_ring(5, None, false), None);
}

#[test]
fn node_labels() {
    assert_eq!(node_label(42, "7"), "PID 42 \u{2022} 7%");
}

#[test]
fn running_processes_make_a_tree() {
    let mut sys = System::new_all();
    sys.refresh_all();
    let nodes = build_process_tree(&sys, "");
    assert_eq!(nodes.len(), sys.processes().len());
    let own = get_current_pid().unwrap().as_u32();
    let node = nodes.iter().find(|n| n.pid == own).unwrap();
    let known = sys.process(Pid::from_u32(own)).unwrap();
    assert_eq!(node.name, known.name().to_string_lossy());
    assert_eq!(node.mem, known.memory());
    assert_eq!(node.cpu.bits, known.cpu_usage().to_bits());
    for n in &nodes {
        let expected = sys.process(Pid::from_u32(n.pid)).unwrap().parent().map(|p| p.as_u32());
        match n.parent {
            Some(p) => assert_eq!(Some(nodes[p].pid), expected),
            None => assert!(nodes.iter().all(|m| Some(m.pid) != expected)),
        }
    }
}

#[test]
fn view_of_running_processes_is_complete() {
    let mut sys = System::new_all();
    sys.refresh_all();
    let view = process_tree_view(&sys, "");
    assert_eq!(view.plan.len(), view.nodes.len());
    assert!(view.nodes.len() > 0);
    assert_eq!(process_tree_view(&sys, "\u{0} no such process").nodes.len(), 0);
}
