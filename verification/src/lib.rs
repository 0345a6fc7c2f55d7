//! Policy core of a CCD-affine scheduler: which groups of related tasks
//! ("cohorts") live on which last-level cache, which of them move, spill,
//! merge or split, and how the outcome is reported. Everything here is pure
//! logic over snapshot values; reading and writing kernel maps, sockets,
//! files and terminals is left to the programs around it.
mod arith;
pub mod balancer;
pub mod balancer_laws;
pub mod bench;
pub mod bench_laws;
pub mod components;
pub mod config;
pub mod config_laws;
pub mod domain;
pub mod glob;
pub mod glob_laws;
pub mod intake;
pub mod intake_laws;
pub mod knob_laws;
pub mod merge_laws;
pub mod options;
pub mod ordered;
pub mod plan_laws;
pub mod procs;
pub mod procs_laws;
pub mod promise_laws;
pub mod room_laws;
pub mod scheduler;
pub mod server;
pub mod shed_laws;
pub mod spill;
pub mod spill_laws;
pub mod spill_map;
pub mod split_laws;
pub mod stats;
pub mod stats_laws;
pub mod tick_laws;
pub mod top;
pub mod topology;
pub mod traffic_laws;
pub mod tunables;
pub mod view_laws;
pub mod wake_graph;
pub mod wake_laws;
