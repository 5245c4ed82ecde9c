//! Frame identifiers. The rotations between frames are floating-point
//! arithmetic and live with the callers.

use vstd::prelude::*;

use crate::chars::str_eq;

verus! {

/// NAIF frame identifiers supported natively.
#[derive(Debug, Clone, Copy, PartialEq, Eq)]
pub enum NaifFrame {
    J2000,
    EclipJ2000,
}

/// Whether `name` is one of the inertial frames rotated between
/// (`J2000`, `ECLIPJ2000`).
pub fn is_inertial(name: &str) -> (r: bool)
    ensures
        r == (name@ == "J2000"@ || name@ == "ECLIPJ2000"@),
{
    str_eq(name, "J2000") || str_eq(name, "ECLIPJ2000")
}

} // verus!
