//! A reversible byte-to-text codec: every 7 input bytes become 8 output bytes
//! whose high bit is clear, so the result is always ASCII text.
use vstd::prelude::*;

pub mod codec;
pub mod group;

pub use codec::{decode, encode, DecodeError};

verus! {

} // verus!
