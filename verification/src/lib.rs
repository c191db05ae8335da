pub mod text;
pub mod keyed;
pub mod cmdline;
pub mod config;
pub mod cgroups;
pub mod units;
pub mod hotplug;
pub mod notify;
pub mod backoff;
pub mod supervisor;
pub mod boot;
pub mod mount;
pub mod switch_root;
