use vstd::prelude::*;

verus! {

/// Whether a plate is one of the main plates or a microplate on a seam.
#[derive(Clone, Copy, Debug, PartialEq, Eq, Structural)]
pub enum PlateSizeClass {
    Regular,
    Micro,
}

/// The crust a plate carries.
#[derive(Clone, Copy, Debug, PartialEq, Eq, Structural)]
pub enum PlateType {
    Continental,
    Oceanic,
}

} // verus!
