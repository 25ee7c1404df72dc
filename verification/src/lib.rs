//! Verified core of a distributed-systems simulation toolkit: compact id-indexed
//! maps and counters, virtual machine placement policies and trace selection rules.

pub mod util;
pub mod text;
pub mod numbers;
pub mod placement;
pub mod placement_config;
pub mod trace;
pub mod dag_links;
pub mod wfcommons;
pub mod invocation;
pub mod migration;
pub mod workflow_laws;
