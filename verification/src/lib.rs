//! Decision logic of a desktop process and host monitor.

pub mod commands;
pub mod console;
pub mod local_host_monitor;
pub mod local_process_monitor;
pub mod logging;
pub mod monitor;
pub mod monitor_manager;
pub mod nodes;
pub mod number;
pub mod paths;
pub mod process_sampler;
pub mod remote_host_monitor;
pub mod rounding;
pub mod text;
