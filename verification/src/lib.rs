//! Leader schedules that are in memory before the epoch that they belong to starts.
//!
//! The leaders of an epoch follow from the stakes that were frozen before it, so its schedule can
//! be computed ahead of time. A node that waits until the epoch is confirmed cannot say who leads
//! the first slots of the new epoch, and refuses requests for them. This library computes the
//! schedule in the last slots of the epoch before, and answers from memory.
//!
//! * [`leader_schedule_cache`] holds the schedules by epoch and finds leaders and leader slots.
//! * [`pre_cacher`] decides when the next epoch is to be warmed, and warms it.
//! * [`rpc_service`] answers requests for slot leaders.
//! * [`epoch_schedule`] and [`leader_schedule`] tie the library to the crates that lay out
//!   epochs and draw schedules; [`decimal`] writes numbers into messages.
//! * [`cache_laws`], [`lookup_laws`], [`search_laws`], [`rpc_laws`], [`pre_cacher_laws`] and
//!   [`step_laws`] state what each step does and what holds across calls.

pub mod cache_laws;
pub mod decimal;
pub mod epoch_schedule;
pub mod leader_schedule;
pub mod leader_schedule_cache;
pub mod lookup_laws;
pub mod pre_cacher;
pub mod pre_cacher_laws;
pub mod rpc_laws;
pub mod rpc_service;
pub mod search_laws;
pub mod step_laws;

pub use epoch_schedule::EpochSchedule;
pub use leader_schedule::{FixedSchedule, SlotLeader};
pub use leader_schedule_cache::LeaderScheduleCache;
pub use pre_cacher::{
    LeaderSchedulePreCacher, PreCacherConfig, PreCacherError, PreCacherStats, StakeDataProvider,
};
pub use rpc_service::{RpcError, RpcResult, SlotLeaderRpcService};
