//! The failures a chart can be rejected with.

use vstd::prelude::*;

verus! {

/// What is wrong with the text of a chart.
#[derive(Debug, PartialEq, Eq, Clone, Copy, Structural)]
pub enum FormatError {
    /// A grid row is not exactly four characters wide.
    RowWidth,
    /// A grid character is none of the arrow codes.
    ArrowCode,
    /// The number of rows of a measure does not divide the measure evenly.
    RowCount,
    /// The chart has more measures than positions can number.
    MeasureCount,
    /// A note block has fewer than six fields.
    NoteFields,
    /// The kind of chart is not a known one.
    ChartType,
    /// The difficulty is not a known one.
    Difficulty,
    /// The level is not a whole number.
    Level,
    /// A chart lacks a property that it needs.
    MissingProperty,
    /// An entry of a tempo or pause list has no value after its position.
    Gimmick,
}

/// Why a chart was rejected. Every failure is final for the chart at hand.
#[derive(Debug, PartialEq, Eq, Clone, Copy, Structural)]
pub enum ChartError {
    /// The text of the chart is malformed.
    Format(FormatError),
    /// A hold has no later end in its own lane.
    UnresolvedHold,
    /// A time conversion was asked for with an empty tempo list.
    TimingPrecondition,
}

} // verus!
