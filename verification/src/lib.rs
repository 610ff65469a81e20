//! Greedy string art: approximate a grayscale picture by straight chords
//! between pins on a circle.
//!
//! The picture becomes an [`field::IntensityField`], a square grid of
//! darkness values masked to the inscribed circle. Starting at pin 0, the
//! solver repeatedly takes the chord whose pixels hold the most remaining
//! darkness, clears those pixels and moves on to the chord's other end.
//!
//! * [`preprocess`] turns a decoded picture into the field.
//! * [`layout`] holds the pins, [`geometry`] the circle and distances.
//! * [`raster`] walks the pixels of a segment, sums them and erases them.
//! * [`solver`] chooses the chords; [`line`] and [`ranking`] describe one.
//! * [`output`] draws the chosen chords and lists them as records.
//!
//! All positions are whole pixels. Sines and cosines, the decoding of
//! pictures and the writing of files are the caller's business.

pub mod error;
pub mod field;
pub mod geometry;
pub mod layout;
pub mod line;
pub mod output;
pub mod preprocess;
pub mod ranking;
pub mod raster;
pub mod solver;
