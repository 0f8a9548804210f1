// Palette-indexed rasters and their pixel buffers.
pub mod raster;
// Edit events and how each one changes a set of frames.
pub mod event;
// The undo/redo engine: event log, replay and compaction.
pub mod history;
// Sets of pixel offsets, kept with fnv's hash set.
pub mod offset_set;
// The 4-connected region that a flood fill covers.
pub mod fill;
// Lines, rectangles, circles and ellipses as pixel offsets.
pub mod shapes;
// Flips, quarter turns and wrapping shifts of a whole raster.
pub mod transform;
// Resizing around an anchor and trimming transparent borders.
pub mod resize;
// Properties of the engine that hold for every session.
pub mod laws;
