//! A user-space allocator that manages one growable byte arena on behalf of
//! several processes, with reference-counted sharing of byte ranges.
//!
//! Every byte range in this crate is a closed interval: a `Range<u32>` whose
//! `start` and `end` are both inclusive.
//!
//! - [`allocator`] holds the engine and its operations.
//! - [`model`] holds the allocator as a mathematical value, its invariant
//!   and the state change of each operation.
//! - [`laws`] holds what follows for every reachable state.
//! - [`freelist`], [`ledger`], [`span`] and [`search`] hold the parts.
//! - [`types`] and [`builder`] hold errors, outcomes and process
//!   identifiers.
//! - [`vm`] holds a small register machine that is kept beside the
//!   allocator.

pub mod allocator;
pub mod builder;
pub mod freelist;
pub mod laws;
pub mod ledger;
pub mod model;
pub mod search;
pub mod span;
pub mod types;
pub mod vm;

pub use allocator::Allocator;
pub use builder::ProcBuilder;
pub use model::AllocatorView;
pub use types::{AllocError, FreeBlock, MemRange, Process};
