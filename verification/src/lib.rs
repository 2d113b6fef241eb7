//! # zerokv: a key-value storage engine with machine-checked contracts
//!
//! The engine is an ordered index with a write-ahead log, and what both are made of. Each
//! module states what its functions do in contracts over mathematical models, which Verus
//! checks.
//!
//! | Concern                      | Modules                               |
//! |------------------------------|---------------------------------------|
//! | The store                    | [`store`]                             |
//! | The index                    | [`shard`], [`skiplist`], [`towers`]   |
//! | Reclamation of memory        | [`ebr`], [`slab`]                     |
//! | Retries and random levels    | [`backoff`]                           |
//! | The log                      | [`mmap_log`], [`group_commit`]        |
//! | Memory and buffers           | [`region`], [`arena`], [`regbuf`]     |
//! | Records as bytes             | [`zerocopy`], [`record_impl`], [`derived`] |
//! | Tasks                        | [`executor`]                          |
//! | Shards that share nothing    | [`mesh`], [`service`], [`promises`], [`desk`], [`lanes`], [`spsc`], [`ordmap`] |
//! | Workloads                    | [`workload`]                          |
//! | Arithmetic and orders        | [`le`], [`order`], [`pow2`], [`sums`] |
//!
//! Functions that change a structure take it by `&mut`. A program that uses one from several
//! threads puts a lock around it, or gives each thread its own, as a mesh of workers does.

pub mod arena;
pub mod backoff;
pub mod derived;
pub mod desk;
pub mod ebr;
pub mod executor;
pub mod group_commit;
pub mod lanes;
pub mod le;
pub mod mesh;
pub mod mmap_log;
pub mod order;
pub mod ordmap;
pub mod pow2;
pub mod promises;
pub mod record_impl;
pub mod regbuf;
pub mod region;
pub mod service;
pub mod shard;
pub mod skiplist;
pub mod slab;
pub mod spsc;
pub mod store;
pub mod sums;
pub mod towers;
pub mod workload;
pub mod zerocopy;

pub use shard::ShardedIndex;
pub use store::KvStore;
pub use zerocopy::{Pod, ZeroCopy, ZeroCopyStorage};
