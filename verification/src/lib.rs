//! Stay-point detection: finds where a tracked entity stayed within a small
//! area for long enough, in a time-ordered run of its position samples.
//!
//! `finder` does the whole: records are divided into groups by entity
//! (`grouping`), and the stays of each group are detected. The records of a
//! group are scanned once (`detector`): a window of consecutive records grows
//! while its bounding box stays compact, and a window that spans enough time
//! is merged into one visit (`merge`), placed at the median of its positions
//! (`median`). What the scan finds is stated in `window`.
//!
//! Coordinates are integers on an ordered scale (`scale`). The scale has a
//! negative and a positive zero, which have one place in the order; all other
//! coordinates are ordered as the integers are. The library compares
//! coordinates and never does arithmetic on them: the test that says whether
//! a bounding box is compact, the reading of a coordinate from text and its
//! writing are supplied by the caller.
//!
//! `rows` reads records from the lines of a delimited text and `csv` writes
//! visits to such lines; dates and times are read and written by `chrono`
//! (`timestamps`).

pub mod csv;
pub mod detector;
pub mod fields;
pub mod finder;
pub mod geometry;
pub mod grouping;
pub mod median;
pub mod merge;
pub mod record;
pub mod rows;
pub mod scale;
pub mod timestamps;
pub mod window;
