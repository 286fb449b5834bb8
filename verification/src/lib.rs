//! Verified core of the MITOS system monitor.

pub mod buffers;
pub mod cpu;
pub mod history;
pub mod layout;
pub mod monitor;
pub mod positions;
pub mod process;
pub mod procfs;
pub mod scraper;
pub mod sidebar;
pub mod stats;
pub mod table;
pub mod terminals;
pub mod text;
pub mod tree;
pub mod tree_view;
