//! Rewrites slicer-annotated toolpath programs so that the metadata one slicer
//! writes in comments is also present, in another printer's naming and units,
//! as a header at the top of the file.

/// Character-level definitions and helpers shared by the extractors.
pub mod text;
/// The two value extractors and their error type.
pub mod extract;
/// Rendering of extracted values as header lines.
pub mod format;
/// The catalog of metadata properties and its validation.
pub mod catalog;
/// The scan of a whole program and the assembly of its new text.
pub mod pipeline;
/// Properties that relate the extractors, the catalog and the pipeline.
pub mod laws;
/// Building blocks of a structural toolpath grammar, not used by the pipeline.
pub mod gcode;
