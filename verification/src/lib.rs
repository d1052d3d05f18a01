//! Region extraction and text reconstruction for annotated page scans.
//!
//! A page is annotated by drawing polygons around its text regions. For each
//! polygon the library cuts the region out of the page raster, blanking what
//! lies outside the outline, and turns the lines that a recognition service
//! reports for that cut-out back into paragraph text in reading order.
//!
//! All geometry is exact integer arithmetic: vertices lie on the pixel grid of
//! the page, and the boxes that the recognition service reports are held in
//! fixed-point fractions of the cut-out's extent.

pub mod geometry;
pub mod lines;
pub mod mask;
pub mod raster;
