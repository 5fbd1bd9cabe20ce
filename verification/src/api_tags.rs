//! Tag groups under which the operations of an HTTP surface are presented.

#![verifier::loop_isolation(false)]

use vstd::prelude::*;

verus! {

/// A tag grouping the operations of the node's HTTP surface.
#[derive(Clone, Copy, PartialEq, Eq, Structural, Debug)]
pub enum ApiTags {
    /// General information.
    General,
}

} // verus!
