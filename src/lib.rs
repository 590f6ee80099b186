//! A vector of fixed-width records kept inside a caller-provided byte buffer,
//! and a rational fee ratio with bounded precision.

use vstd::prelude::*;

pub mod big_vec;
pub mod record;
pub mod fee;
pub mod iter;
