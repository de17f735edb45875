//! Binary delta encoding between two byte buffers.
//!
//! The encoder partitions the target buffer into regions that are close to a
//! region of the base buffer (stored as wraparound byte differences) and
//! regions with no useful counterpart (stored verbatim), guided by a suffix
//! array over the base buffer.  The applier rebuilds the target buffer from
//! the base buffer and the encoded delta.

pub mod api;
pub mod container;
pub mod delta;
pub mod diff;
pub mod error;
pub mod matching;
pub mod patch;
pub mod suffix;
pub mod wire;

pub use api::{diff_then_patch, hardcoded_data_t};
pub use container::{bsdiff43_vec, bspatch43_vec, jbsdiff40_vec, jbspatch40_vec};
pub use delta::ControlTriple;
pub use diff::{bsdiff_internal, bsdiff_raw, diff_triples, BsDiffRequest};
pub use error::DeltaError;
pub use matching::{matchlen, search};
pub use patch::{bspatch_internal, bspatch_raw, lemma_truncated_fails, BsPatchRequest};
pub use suffix::{check_suffix_order, qsufsort, split, suffix_array};
pub use wire::lemma_wrap_round_trip;
