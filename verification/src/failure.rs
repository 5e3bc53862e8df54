//! Who a failure or a diagnostic is attributed to.

use vstd::prelude::*;

verus! {

/// The class that an emit source declares for a failure.
#[derive(Debug, Clone, Copy, PartialEq, Eq, Structural)]
pub enum AttributionClass {
    /// The engine or a cartridge broke its own promise.
    Internal,
    /// The deployment is at fault: a cartridge is missing, tampered or gone.
    Environment,
    /// A resource ran short.
    Resource,
}

} // verus!
