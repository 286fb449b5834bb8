//! The state of the interface, and the alerts that it sends.

use vstd::prelude::*;
use vstd::string::StringExecFns;

use crate::cpu::{clamp_fraction, clamped_bits};
use crate::terminals::{MonitorAction, RichWidget, SharedState};
use crate::text::{
    decimal, decimal_reads_back, decimals_differ, lemma_decimal, parsed, push_decimal,
};

verus! {

/// The pages of the interface.
#[derive(Clone, Copy, Debug, PartialEq, Eq, Structural)]
pub enum Tab {
    Overview,
    Processes,
    ProcessTree,
    TerminalBuffers,
}

/// What the user has chosen and typed.
pub struct Monitor {
    pub selected_tab: Tab,
    pub process_filter: String,
    pub search_query: String,
    pub target_terminal: Option<u32>,
    pub tree_filter: String,
    pub selected_process: Option<u32>,
}

/// A process to raise the alarm about. The CPU usage is given as a fraction of
/// full usage, by the bits of a single, and as text.
pub struct Alert {
    pub proc_pid: u32,
    pub name: String,
    pub fraction_bits: u32,
    pub cpu_text: String,
}

/// The label of the button that ends the process.
pub open spec fn kill_label(name: Seq<char>, pid: u32, cpu_text: Seq<char>) -> Seq<char> {
    "⚠️ Kill runaway: "@ + name + " (PID "@ + decimal(pid as nat) + ") — "@ + cpu_text + "% CPU"@
}

/// The command that ends the process.
pub open spec fn kill_command(pid: u32) -> Seq<char> {
    "kill -9 "@ + decimal(pid as nat)
}

/// `actions` put a red gauge, full at full usage and above, and a button that ends
/// the process into the terminal `target`.
pub open spec fn alerts(actions: Seq<MonitorAction>, target: u32, alert: Alert) -> bool {
    &&& actions.len() == 2
    &&& actions[0] matches MonitorAction::Inject { terminal_pid, widget }
    &&& terminal_pid == target
    &&& widget matches RichWidget::Progress { percent_bits, color }
    &&& percent_bits == clamped_bits(alert.fraction_bits)
    &&& color matches Some(text)
    &&& text@ == "red"@
    &&& actions[1] matches MonitorAction::Inject { terminal_pid, widget }
    &&& terminal_pid == target
    &&& widget matches RichWidget::Button { label, cmd }
    &&& label@ == kill_label(alert.name@, alert.proc_pid, alert.cpu_text@)
    &&& cmd@ == kill_command(alert.proc_pid)
}

/// What is sent to the terminal `target` to raise the alarm.
pub fn send_alert_to_terminal(target: u32, alert: &Alert) -> (r: Vec<MonitorAction>)
    ensures
        alerts(r@, target, *alert),
        r@.len() == 2,
        match r@[0] {
            MonitorAction::Inject { terminal_pid, widget } => {
                &&& terminal_pid == target
                &&& widget matches RichWidget::Progress { percent_bits, color }
                &&& percent_bits == clamped_bits(alert.fraction_bits)
                &&& color matches Some(text) && text@ == "red"@
            },
            _ => false,
        },
        match r@[1] {
            MonitorAction::Inject { terminal_pid, widget } => {
                &&& terminal_pid == target
                &&& widget matches RichWidget::Button { label, cmd }
                &&& label@ == "⚠️ Kill runaway: "@ + alert.name@ + " (PID "@ + decimal(
                    alert.proc_pid as nat,
                ) + ") — "@ + alert.cpu_text@ + "% CPU"@
                &&& cmd@ == "kill -9 "@ + decimal(alert.proc_pid as nat)
            },
            _ => false,
        },
{
    let mut label = "⚠️ Kill runaway: ".to_owned();
    label.append(alert.name.as_str());
    label.append(" (PID ");
    push_decimal(&mut label, alert.proc_pid as u64);
    label.append(") — ");
    label.append(alert.cpu_text.as_str());
    label.append("% CPU");
    let mut cmd = "kill -9 ".to_owned();
    push_decimal(&mut cmd, alert.proc_pid as u64);
    let gauge = RichWidget::Progress {
        percent_bits: clamp_fraction(alert.fraction_bits),
        color: Some("red".to_owned()),
    };
    let button = RichWidget::Button { label, cmd };
    let mut out: Vec<MonitorAction> = Vec::new();
    out.push(MonitorAction::Inject { terminal_pid: target, widget: gauge });
    out.push(MonitorAction::Inject { terminal_pid: target, widget: button });
    out
}

impl Monitor {
    /// The state at the start.
    pub fn new() -> (r: Self)
        ensures
            r.selected_tab == Tab::Overview,
            r.process_filter@.len() == 0,
            r.search_query@.len() == 0,
            r.target_terminal is None,
            r.tree_filter@.len() == 0,
            r.selected_process is None,
    {
        Monitor {
            selected_tab: Tab::Overview,
            process_filter: String::new(),
            search_query: String::new(),
            target_terminal: None,
            tree_filter: String::new(),
            selected_process: None,
        }
    }

    /// The terminal that alerts go to: the one chosen, else the first one known.
    pub open spec fn target(self, state: SharedState) -> Option<u32> {
        match self.target_terminal {
            Some(pid) => Some(pid),
            None => if state.terminals@.len() > 0 {
                Some(state.terminals@[0].pid)
            } else {
                None
            },
        }
    }

    /// The terminal that alerts go to.
    pub fn current_target(&self, state: &SharedState) -> (r: Option<u32>)
        ensures
            r == self.target(*state),
            self.target_terminal is Some ==> r == self.target_terminal,
            self.target_terminal is None && state.terminals@.len() > 0 ==> r == Some(
                state.terminals@[0].pid,
            ),
            self.target_terminal is None && state.terminals@.len() == 0 ==> r is None,
    {
        match self.target_terminal {
            Some(pid) => Some(pid),
            None => if state.terminals.len() > 0 {
                Some(state.terminals[0].pid)
            } else {
                None
            },
        }
    }

    /// Raises the alarm: gives what is to be sent to the terminal that alerts go
    /// to, or notes that there is none.
    pub fn send_alert(&self, state: &mut SharedState, alert: &Alert) -> (r: Vec<MonitorAction>)
        ensures
            match self.target(*old(state)) {
                Some(target) => {
                    &&& alerts(r@, target, *alert)
                    &&& *final(state) == *old(state)
                },
                None => {
                    &&& r@.len() == 0
                    &&& final(state).terminals == old(state).terminals
                    &&& final(state).last_info == old(state).last_info
                    &&& final(state).last_error matches Some(text) && text@
                        == "No mitos-terminal detected — launch one first"@
                },
            },
    {
        match self.current_target(state) {
            Some(target) => send_alert_to_terminal(target, alert),
            None => {
                state.note_no_terminal();
                Vec::new()
            },
        }
    }

    /// The process whose details are shown beside the page: the selected one, on
    /// the process tree only.
    pub fn sidebar_process(&self) -> (r: Option<u32>)
        ensures
            r == if self.selected_tab == Tab::ProcessTree {
                self.selected_process
            } else {
                None
            },
    {
        if self.selected_tab == Tab::ProcessTree {
            self.selected_process
        } else {
            None
        }
    }

    /// Selects the process `pid`.
    pub fn select_process(&mut self, pid: u32)
        ensures
            *final(self) == (Monitor { selected_process: Some(pid), ..*old(self) }),
    {
        self.selected_process = Some(pid);
    }

    /// Ends the selection where the user has killed the process or deselected it.
    pub fn leave_process(&mut self, killed: bool, deselected: bool)
        ensures
            *final(self) == if killed || deselected {
                Monitor { selected_process: None, ..*old(self) }
            } else {
                *old(self)
            },
    {
        if killed || deselected {
            self.selected_process = None;
        }
    }

    /// Chooses the terminal `pid` for alerts, which then go to it whichever
    /// terminals are known.
    pub fn choose_target(&mut self, pid: u32)
        ensures
            *final(self) == (Monitor { target_terminal: Some(pid), ..*old(self) }),
            forall|state: SharedState| #[trigger] final(self).target(state) == Some(pid),
    {
        self.target_terminal = Some(pid);
    }

    /// Whether alerts go to the terminal `pid` by the user's choice.
    pub fn is_chosen_target(&self, pid: u32) -> (r: bool)
        ensures
            r == (self.target_terminal == Some(pid)),
    {
        match self.target_terminal {
            Some(p) => p == pid,
            None => false,
        }
    }
}

/// A label that names the terminal that alerts go to.
pub open spec fn target_text(lead: Seq<char>, target: Option<u32>) -> Seq<char> {
    match target {
        Some(pid) => lead + "terminal PID "@ + decimal(pid as nat),
        None => lead + "(no terminal)"@,
    }
}

fn target_label(lead: &str, target: Option<u32>) -> (r: String)
    ensures
        r@ == target_text(lead@, target),
{
    let mut text = lead.to_owned();
    match target {
        Some(pid) => {
            text.append("terminal PID ");
            push_decimal(&mut text, pid as u64);
        },
        None => {
            text.append("(no terminal)");
        },
    }
    text
}

/// Where alerts go, as the head of the process table says.
pub fn table_target_label(target: Option<u32>) -> (r: String)
    ensures
        r@ == target_text("🎯 Alerts ➜ "@, target),
        target matches Some(pid) ==> r@ == "🎯 Alerts ➜ "@ + "terminal PID "@ + decimal(pid as nat),
        target is None ==> r@ == "🎯 Alerts ➜ "@ + "(no terminal)"@,
{
    target_label("🎯 Alerts ➜ ", target)
}

/// Where alerts go, as the alert button beside the process tree says.
pub fn alert_button_label(target: Option<u32>) -> (r: String)
    ensures
        r@ == target_text("🚨 Alert ➜ "@, target),
        target matches Some(pid) ==> r@ == "🚨 Alert ➜ "@ + "terminal PID "@ + decimal(pid as nat),
        target is None ==> r@ == "🚨 Alert ➜ "@ + "(no terminal)"@,
{
    target_label("🚨 Alert ➜ ", target)
}

/// The head of the overview. The size of the memory in gigabytes is given as
/// text.
pub fn overview_heading(host: Option<String>, cores: usize, memory_text: &str) -> (r: String)
    ensures
        r@ == "🖥️ "@ + (match host {
            Some(name) => name@,
            None => "mitos"@,
        }) + " — "@ + decimal(cores as nat) + " cores — "@ + memory_text@ + " GB RAM"@,
{
    let mut text = "🖥️ ".to_owned();
    match host {
        Some(name) => text.append(name.as_str()),
        None => text.append("mitos"),
    }
    text.append(" — ");
    push_decimal(&mut text, cores as u64);
    text.append(" cores — ");
    text.append(memory_text);
    text.append(" GB RAM");
    text
}

/// An alert goes to its target and nowhere else: first a red gauge, then a button
/// whose label names the process and whose command ends it.
pub proof fn alerts_by_content(actions: Seq<MonitorAction>, target: u32, alert: Alert)
    requires
        alerts(actions, target, alert),
    ensures
        actions.len() == 2,
        match actions[0] {
            MonitorAction::Inject { terminal_pid, widget } => {
                &&& terminal_pid == target
                &&& widget matches RichWidget::Progress { percent_bits, color }
                &&& percent_bits == clamped_bits(alert.fraction_bits)
                &&& color matches Some(text) && text@ == "red"@
            },
            _ => false,
        },
        match actions[1] {
            MonitorAction::Inject { terminal_pid, widget } => {
                &&& terminal_pid == target
                &&& widget matches RichWidget::Button { label, cmd }
                &&& label@ == "⚠️ Kill runaway: "@ + alert.name@ + " (PID "@ + decimal(
                    alert.proc_pid as nat,
                ) + ") — "@ + alert.cpu_text@ + "% CPU"@
                &&& cmd@ == "kill -9 "@ + decimal(alert.proc_pid as nat)
            },
            _ => false,
        },
{
}

/// The command of an alert's button names the process of the alert: what follows
/// `kill -9 ` reads back as its process id.
pub proof fn commands_name_their_process(
    actions: Seq<MonitorAction>,
    target: u32,
    alert: Alert,
)
    requires
        alerts(actions, target, alert),
    ensures
        actions[1] matches MonitorAction::Inject { terminal_pid, widget } && (
        widget matches RichWidget::Button { label, cmd } && {
            &&& cmd@.len() > 8
            &&& cmd@.take(8) == "kill -9 "@
            &&& parsed(cmd@.skip(8), u32::MAX as nat) == Some(alert.proc_pid as nat)
        }),
{
    reveal_strlit("kill -9 ");
    let digits = decimal(alert.proc_pid as nat);
    let cmd = "kill -9 "@ + digits;
    lemma_decimal(alert.proc_pid as nat);
    decimal_reads_back(alert.proc_pid as nat, u32::MAX as nat);
    assert(cmd.take(8) =~= "kill -9 "@);
    assert(cmd.skip(8) =~= digits);
}

/// Commands for different processes differ.
pub proof fn commands_differ(a: u32, b: u32)
    requires
        a != b,
    ensures
        kill_command(a) != kill_command(b),
{
    let head = "kill -9 "@;
    assert(kill_command(a).skip(head.len() as int) =~= decimal(a as nat));
    assert(kill_command(b).skip(head.len() as int) =~= decimal(b as nat));
    decimals_differ(a as nat, b as nat);
}

/// Alerts go to the terminal that the user chose, whichever are known; where none
/// is chosen, to the first that is known; and nowhere where none is.
pub proof fn targets_by_choice(monitor: Monitor, state: SharedState)
    ensures
        monitor.target_terminal is Some ==> monitor.target(state) == monitor.target_terminal,
        monitor.target_terminal is None && state.terminals@.len() > 0 ==> monitor.target(state)
            == Some(state.terminals@.first().pid),
        monitor.target_terminal is None && state.terminals@.len() == 0 ==> monitor.target(
            state,
        ) is None,
{
}

} // verus!
