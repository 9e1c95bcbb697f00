use vstd::prelude::*;

verus! {

/// A toolpath instruction: its letter and its number (`G1` is `b'G'`, `1`).
#[derive(PartialEq, Eq, Structural)]
pub struct GCodeInstruction {
    alpha: u8,
    int: u16,
}

/// Kinds of feature that slicer annotations name.
pub enum FeatureType {
    /// Section of custom instructions.
    Custom,
    /// Printing of a skirt or brim.
    SkirtOrBrim,
    /// Regular perimeter.
    Perimeter,
    /// External perimeter.
    ExternalPerimeter,
    /// Ironing (top layer smoothing).
    Ironing,
    /// Top layer infill.
    TopSolidInfill,
    /// Solid interior infill.
    SolidInfill,
    /// Some unrecognised feature.
    Unknown(String),
}

} // verus!
