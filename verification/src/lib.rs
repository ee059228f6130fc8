//! Step charts of a rhythm game, from the text of a song file to the
//! timeline of a chart and the measurements behind its groove radar.
//!
//! - [`text`] and [`props`] read the statements of a song file.
//! - [`arrow`] decodes the grid of a measure into divisions of arrows.
//! - [`timeline`] puts the measures of a chart together and pairs every hold
//!   with its release.
//! - [`chart`] reads the charts of a file: kind, difficulty, level, timeline.
//! - [`timing`] walks the tempo list to a position and tells which tempo is
//!   in force over how many units, and which pauses come before it.
//! - [`gimmick`] orders tempo changes and pauses and reads their lists.
//! - [`groove_radar`] measures a timeline, and [`scale`] turns rates into
//!   scores.
//!
//! Positions are whole numbers, [`arrow::NOTE_UNIT`] to the measure. Tempi
//! and seconds are not: the library gives every result that is a whole
//! number or a text, and leaves the arithmetic on fractions to its caller.

pub mod arrow;
pub mod chart;
pub mod error;
pub mod gimmick;
pub mod groove_radar;
pub mod math;
pub mod props;
pub mod scale;
pub mod text;
pub mod timeline;
pub mod timing;
