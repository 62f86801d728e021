//! The types shared between the router and the embedding program.

use vstd::prelude::*;

verus! {

/// The raw bytes of one request: a single fixed-size read from the
/// connection. A request longer than the buffer is silently truncated;
/// only these bytes are visible to the matching logic.
pub type RequestBuffer = [u8; 1024];

} // verus!
