//! Verified building blocks for deterministic simulation testing of a
//! replicated key-value store: one seed gives one run.
//!
//! - Time: [`logical_clock`], [`instant`], [`timespec`], [`duration`],
//!   [`timer`], [`spin`], [`time_monitor`], [`det_clock_bridge`].
//! - Schedules: [`dst_executor`], [`dst_sched`].
//! - The network: [`dst_net`], [`raft_message`], [`delivery_log`].
//! - Random numbers and hashing: [`dst_rng`], [`dst_collections`].
//! - Storage: [`det_env`], [`key_handle`], [`json`], [`raftstore`].
//! - The setup of a run: [`dst_init`].
//! - Numbers and text: [`number`], [`text`]; chains of calls: [`chain`].

pub mod number;
pub mod text;
pub mod chain;

pub mod json;

pub mod raft_message;
pub mod delivery_log;
pub mod dst_net;

pub mod dst_executor;
pub mod dst_sched;

pub mod duration;
pub mod timespec;
pub mod det_clock_bridge;
pub mod logical_clock;
pub mod instant;
pub mod spin;
pub mod time_monitor;
pub mod timer;

pub mod dst_rng;
pub mod dst_collections;

pub mod det_env;
pub mod key_handle;
pub mod raftstore;

pub mod dst_init;
