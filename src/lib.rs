//! A bounded-memory streaming histogram.
//!
//! Values are fixed-point integers (`i64`, in whatever unit the caller picks) and
//! weights are unsigned integers (`u64`). A [`histogram::Histogram`] keeps at most
//! `n_bins` disjoint, ordered bins; when an insertion or a merge exceeds that
//! budget, the two bins whose gap is smallest are coalesced.
use vstd::prelude::*;

pub mod bin;
pub mod bin_seq;
pub mod candidates;
pub mod histogram;
pub mod serial;
pub mod quantile;

pub use bin::{BinAddress, BinData};
