use vstd::prelude::*;

pub mod model;
pub mod task_util;
pub mod plan;
pub mod measure;
pub mod task_control;
pub mod set_direct_inv;
pub mod set_direct;
pub mod start_down;
pub mod stop_down;
pub mod control;
pub mod events;
pub mod graph_edit;
pub mod delete;
pub mod requests;
pub mod queries;
pub mod sanity;
pub mod spec_order;
pub mod json_merge;
pub mod time;
pub mod restart;
pub mod interface;
pub mod schedule;
pub mod task_dir;
pub mod spec_files;
pub mod paths;
pub mod supervise;
pub mod systemd;

verus! {

} // verus!
