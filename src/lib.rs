//! A lazy splitter over string slices, driven by a pluggable delimiter.
use vstd::prelude::*;

pub mod delimiter;
pub mod laws;
pub mod split;

pub use delimiter::Delimiter;
pub use split::{until_char, StrSplit};

verus! {

} // verus!
