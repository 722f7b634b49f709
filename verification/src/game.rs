//! The closed set of supported games. Each game resolves draw-history URLs
//! through its own required query key and backend endpoint.

use vstd::prelude::*;

verus! {

/// A supported game variant.
#[derive(Clone, Copy, Debug, PartialEq, Eq, Structural)]
pub enum Game {
    Genshin,
    HSR,
}

} // verus!
