//! Reciprocal rank fusion.
//!
//! Several retrieval systems each rank the items they found; this crate merges
//! those rankings. An item at rank `r` in one source adds `1 / (k + r)` to its
//! fused score, where `k` is a positive smoothing constant shared by all
//! sources of one call.
//!
//! Scores are kept exact: a score is an [`RrfSum`], the list of its reciprocal
//! terms in slot order, and its mathematical value is a real number. Callers
//! that need a machine number round the terms in that order.
//!
//! - [`score`] holds the scorer over a small, fixed number of rank slots.
//! - [`rank`] finds the best rank of every identifier of one list.
//! - [`fuse`] merges two ranked lists into one row per identifier.
//! - [`error`] holds the one refusal: a constant that is not positive.

pub mod error;
pub mod fuse;
pub mod rank;
pub mod score;

pub use error::RrfError;
pub use fuse::{can_rank, rrf_fuse, rrf_fuse_checked, FusionRow, DEFAULT_K};
pub use rank::MAX_LIST_LEN;
pub use score::{rrf, rrf3, rrf_sum, RrfSum};
