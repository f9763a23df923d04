//! Why a search could not be carried out.

use vstd::prelude::*;
use crate::segment::error::SegmentError;

verus! {

/// Why a search could not be carried out.
#[derive(Debug, Clone, Copy, PartialEq, Eq, Structural)]
pub enum SearchError {
    /// The pattern holds no run of three literal characters.
    PatternTooWeak,
    /// The pattern does not compile into a matcher.
    BadPattern,
    /// A segment is broken.
    BadSegment(SegmentError),
}

} // verus!
