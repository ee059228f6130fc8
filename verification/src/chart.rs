//! Charts as song files hold them: kind, difficulty and level, read from
//! note blocks or from the properties of a chart, with the timeline of
//! their notes.

use crate::arrow::{views, Division, DivisionView};
use crate::error::{ChartError, FormatError};
use crate::groove_radar::GrooveRadar;
use crate::props::{string_texts, ChartProps};
use crate::text::{
    chars_of, i32_of, lemma_split_join, parse_i32, same_text, split, split_on, texts,
    trim_start, trim_start_of,
};
use crate::timeline::{assemble, measures_to_notes};
use vstd::prelude::*;
use vstd::string::StringExecFns;

verus! {

/// The kind of a chart.
#[derive(Copy, Clone, Debug, PartialEq, Eq, Structural)]
pub enum ChartType {
    DanceSingle,
    DanceDouble,
}

/// The kind of chart that a text names.
pub open spec fn chart_type_of(s: Seq<char>) -> Option<ChartType> {
    if s == "dance-single"@ {
        Some(ChartType::DanceSingle)
    } else if s == "dance-double"@ {
        Some(ChartType::DanceDouble)
    } else {
        None
    }
}

impl ChartType {
    /// Reads the kind of a chart from its characters.
    pub fn from_chars(s: &[char]) -> (r: Option<ChartType>)
        ensures
            r == chart_type_of(s@),
    {
        if same_text(s, chars_of("dance-single").as_slice()) {
            Some(ChartType::DanceSingle)
        } else if same_text(s, chars_of("dance-double").as_slice()) {
            Some(ChartType::DanceDouble)
        } else {
            None
        }
    }

    /// Reads the kind of a chart; any other text is refused with a message
    /// that names it.
    pub fn from_str(s: &str) -> (r: Result<ChartType, String>)
        ensures
            match r {
                Ok(t) => chart_type_of(s@) == Some(t),
                Err(msg) => chart_type_of(s@) is None && msg@ == s@ + " is not supported"@,
            },
    {
        match ChartType::from_chars(chars_of(s).as_slice()) {
            Some(t) => Ok(t),
            None => Err(String::from_str(s).concat(" is not supported")),
        }
    }
}

/// The difficulty tier of a chart.
#[derive(Copy, Clone, Debug, PartialEq, Eq, Structural)]
pub enum Difficulty {
    Beginner,
    Easy,
    Medium,
    Hard,
    Challenge,
    Edit,
}

/// The difficulty that a text names.
pub open spec fn difficulty_of(s: Seq<char>) -> Option<Difficulty> {
    if s == "Beginner"@ {
        Some(Difficulty::Beginner)
    } else if s == "Easy"@ {
        Some(Difficulty::Easy)
    } else if s == "Medium"@ {
        Some(Difficulty::Medium)
    } else if s == "Hard"@ {
        Some(Difficulty::Hard)
    } else if s == "Challenge"@ {
        Some(Difficulty::Challenge)
    } else if s == "Edit"@ {
        Some(Difficulty::Edit)
    } else {
        None
    }
}

impl Difficulty {
    /// Reads a difficulty from its characters.
    pub fn from_chars(s: &[char]) -> (r: Option<Difficulty>)
        ensures
            r == difficulty_of(s@),
    {
        if same_text(s, chars_of("Beginner").as_slice()) {
            Some(Difficulty::Beginner)
        } else if same_text(s, chars_of("Easy").as_slice()) {
            Some(Difficulty::Easy)
        } else if same_text(s, chars_of("Medium").as_slice()) {
            Some(Difficulty::Medium)
        } else if same_text(s, chars_of("Hard").as_slice()) {
            Some(Difficulty::Hard)
        } else if same_text(s, chars_of("Challenge").as_slice()) {
            Some(Difficulty::Challenge)
        } else if same_text(s, chars_of("Edit").as_slice()) {
            Some(Difficulty::Edit)
        } else {
            None
        }
    }

    /// Reads a difficulty; any other text is refused with a message that
    /// names it.
    pub fn from_str(s: &str) -> (r: Result<Difficulty, String>)
        ensures
            match r {
                Ok(d) => difficulty_of(s@) == Some(d),
                Err(msg) => difficulty_of(s@) is None && msg@ == s@ + " is not supported"@,
            },
    {
        match Difficulty::from_chars(chars_of(s).as_slice()) {
            Some(d) => Ok(d),
            None => Err(String::from_str(s).concat(" is not supported")),
        }
    }
}

/// What a song list tells of a chart: its kind, tier and level, the number
/// of its divisions, and its five scores.
#[derive(Copy, Clone, Debug, PartialEq, Eq, Structural)]
pub struct ChartInfo {
    pub chart_type: ChartType,
    pub difficulty: Difficulty,
    pub level: i32,
    pub max_combo: i32,
    pub stream: i32,
    pub voltage: i32,
    pub air: i32,
    pub freeze: i32,
    pub chaos: i32,
}

/// A chart as its note block gives it: kind, tier, level and timeline.
#[derive(Debug, PartialEq, Eq)]
pub struct StepChart {
    pub chart_type: ChartType,
    pub difficulty: Difficulty,
    pub level: i32,
    pub notes: Vec<Division>,
}

impl StepChart {
    /// What a song list tells of this chart, given its scores: its kind,
    /// tier and level, and the number of its divisions as the highest
    /// combo.
    pub fn info(&self, radar: GrooveRadar) -> (info: ChartInfo)
        requires
            self.notes@.len() <= i32::MAX,
        ensures
            info.chart_type == self.chart_type,
            info.difficulty == self.difficulty,
            info.level == self.level,
            info.max_combo == self.notes@.len(),
            info.stream == radar.stream,
            info.voltage == radar.voltage,
            info.air == radar.air,
            info.freeze == radar.freeze,
            info.chaos == radar.chaos,
    {
        ChartInfo {
            chart_type: self.chart_type,
            difficulty: self.difficulty,
            level: self.level,
            max_combo: self.notes.len() as i32,
            stream: radar.stream,
            voltage: radar.voltage,
            air: radar.air,
            freeze: radar.freeze,
            chaos: radar.chaos,
        }
    }
}

/// A chart as a mathematical value.
pub struct StepChartView {
    pub chart_type: ChartType,
    pub difficulty: Difficulty,
    pub level: int,
    pub notes: Seq<DivisionView>,
}

impl View for StepChart {
    type V = StepChartView;

    open spec fn view(&self) -> StepChartView {
        StepChartView {
            chart_type: self.chart_type,
            difficulty: self.difficulty,
            level: self.level as int,
            notes: views(self.notes@),
        }
    }
}

/// The measures of a chart: the pieces of its notes between commas, each
/// without the white space in front of it.
pub open spec fn measures_of(notes: Seq<char>) -> Seq<Seq<char>> {
    split_on(notes, ',').map_values(|bar: Seq<char>| trim_start_of(bar))
}

/// Cuts the notes of a chart into its measures.
pub fn split_measures(notes: &[char]) -> (bars: Vec<Vec<char>>)
    ensures
        texts(bars@) == measures_of(notes@),
{
    let pieces = split(notes, ',');
    let mut bars: Vec<Vec<char>> = Vec::new();
    let mut i: usize = 0;
    while i < pieces.len()
        invariant
            i <= pieces.len(),
            bars@.len() == i,
            forall|j: int| 0 <= j < i ==> (#[trigger] bars@[j])@ == trim_start_of(pieces@[j]@),
        decreases pieces.len() - i,
    {
        bars.push(trim_start(pieces[i].as_slice()));
        i += 1;
    }
    bars
}

/// The chart of a note block. Its fields stand between colons: the kind of
/// chart first, the difficulty third, the level fourth, the notes sixth,
/// each but the notes after white space. A block of another kind than
/// dance-single gives no chart.
pub open spec fn decode_block(block: Seq<char>) -> Result<Option<StepChartView>, ChartError> {
    let fields = split_on(block, ':');
    match chart_type_of(trim_start_of(fields[0])) {
        None => Err(ChartError::Format(FormatError::ChartType)),
        Some(chart_type) => if chart_type != ChartType::DanceSingle {
            Ok(None)
        } else if fields.len() < 6 {
            Err(ChartError::Format(FormatError::NoteFields))
        } else {
            match difficulty_of(trim_start_of(fields[2])) {
                None => Err(ChartError::Format(FormatError::Difficulty)),
                Some(difficulty) => match i32_of(trim_start_of(fields[3])) {
                    None => Err(ChartError::Format(FormatError::Level)),
                    Some(level) => match assemble(measures_of(fields[5])) {
                        Err(e) => Err(e),
                        Ok(notes) => Ok(
                            Some(
                                StepChartView { chart_type, difficulty, level: level as int, notes },
                            ),
                        ),
                    },
                },
            }
        },
    }
}

/// Reads the chart of one note block.
pub fn block_to_chart(block: &[char]) -> (r: Result<Option<StepChart>, ChartError>)
    ensures
        match r {
            Ok(Some(chart)) => decode_block(block@) == Ok::<Option<StepChartView>, ChartError>(
                Some(chart@),
            ),
            Ok(None) => decode_block(block@) == Ok::<Option<StepChartView>, ChartError>(None),
            Err(e) => decode_block(block@) == Err::<Option<StepChartView>, ChartError>(e),
        },
{
    let fields = split(block, ':');
    proof {
        lemma_split_join(block@, ':');
    }
    let chart_type = match ChartType::from_chars(trim_start(fields[0].as_slice()).as_slice()) {
        Some(chart_type) => chart_type,
        None => {
            return Err(ChartError::Format(FormatError::ChartType));
        },
    };
    if chart_type != ChartType::DanceSingle {
        return Ok(None);
    }
    if fields.len() < 6 {
        return Err(ChartError::Format(FormatError::NoteFields));
    }
    let difficulty = match Difficulty::from_chars(trim_start(fields[2].as_slice()).as_slice()) {
        Some(difficulty) => difficulty,
        None => {
            return Err(ChartError::Format(FormatError::Difficulty));
        },
    };
    let level = match parse_i32(trim_start(fields[3].as_slice()).as_slice()) {
        Some(level) => level,
        None => {
            return Err(ChartError::Format(FormatError::Level));
        },
    };
    let bars = split_measures(fields[5].as_slice());
    let notes = match measures_to_notes(&bars) {
        Ok(notes) => notes,
        Err(e) => {
            return Err(e);
        },
    };
    Ok(Some(StepChart { chart_type, difficulty, level, notes }))
}

/// The charts of the first `k` note blocks of a song, in order, or the
/// error of the first block that is refused.
pub open spec fn decode_blocks(blocks: Seq<Seq<char>>, k: int) -> Result<
    Seq<StepChartView>,
    ChartError,
>
    decreases k,
{
    if k <= 0 {
        Ok(Seq::empty())
    } else {
        match decode_blocks(blocks, k - 1) {
            Err(e) => Err(e),
            Ok(head) => match decode_block(blocks[k - 1]) {
                Err(e) => Err(e),
                Ok(Some(chart)) => Ok(head.push(chart)),
                Ok(None) => Ok(head),
            },
        }
    }
}

/// The charts of a list, each as a mathematical value.
pub open spec fn chart_views(charts: Seq<StepChart>) -> Seq<StepChartView> {
    charts.map_values(|chart: StepChart| chart@)
}

/// Once a block among the first `k` is refused, its error is that of every
/// longer prefix.
proof fn lemma_decode_blocks_error_stays(blocks: Seq<Seq<char>>, k: int, n: int)
    requires
        0 <= k <= n,
        decode_blocks(blocks, k) is Err,
    ensures
        decode_blocks(blocks, n) == decode_blocks(blocks, k),
    decreases n - k,
{
    if k < n {
        lemma_decode_blocks_error_stays(blocks, k, n - 1);
    }
}

/// Reads the dance-single charts of a song from the text of its note
/// blocks.
pub fn sm_to_chart(notes_strings: &Vec<String>) -> (r: Result<Vec<StepChart>, ChartError>)
    ensures
        match r {
            Ok(charts) => decode_blocks(
                string_texts(notes_strings@),
                notes_strings@.len() as int,
            ) == Ok::<Seq<StepChartView>, ChartError>(chart_views(charts@)),
            Err(e) => decode_blocks(
                string_texts(notes_strings@),
                notes_strings@.len() as int,
            ) == Err::<Seq<StepChartView>, ChartError>(e),
        },
{
    let ghost blocks = string_texts(notes_strings@);
    let mut charts: Vec<StepChart> = Vec::new();
    let mut k: usize = 0;
    assert(chart_views(charts@) =~= Seq::empty());
    while k < notes_strings.len()
        invariant
            k <= notes_strings.len(),
            blocks == string_texts(notes_strings@),
            decode_blocks(blocks, k as int) == Ok::<Seq<StepChartView>, ChartError>(
                chart_views(charts@),
            ),
        decreases notes_strings.len() - k,
    {
        let block = chars_of(notes_strings[k].as_str());
        match block_to_chart(block.as_slice()) {
            Ok(Some(chart)) => {
                let ghost head = chart_views(charts@);
                let ghost view = chart@;
                charts.push(chart);
                assert(chart_views(charts@) =~= head.push(view));
            },
            Ok(None) => {},
            Err(e) => {
                proof {
                    lemma_decode_blocks_error_stays(blocks, k + 1, notes_strings.len() as int);
                }
                return Err(e);
            },
        }
        k += 1;
    }
    Ok(charts)
}

/// The chart that the properties and notes of one chart of a file of
/// several give: `STEPSTYPE` is its kind, `DIFFICULTY` its tier and `METER`
/// its level. A chart of another kind than dance-single gives no chart.
pub open spec fn decode_chart_props(props: Map<Seq<char>, Seq<char>>, notes: Seq<char>) -> Result<
    Option<StepChartView>,
    ChartError,
> {
    if !props.contains_key("STEPSTYPE"@) {
        Err(ChartError::Format(FormatError::MissingProperty))
    } else {
        match chart_type_of(props["STEPSTYPE"@]) {
            None => Err(ChartError::Format(FormatError::ChartType)),
            Some(chart_type) => if chart_type != ChartType::DanceSingle {
                Ok(None)
            } else if !props.contains_key("DIFFICULTY"@) || !props.contains_key("METER"@) {
                Err(ChartError::Format(FormatError::MissingProperty))
            } else {
                match difficulty_of(props["DIFFICULTY"@]) {
                    None => Err(ChartError::Format(FormatError::Difficulty)),
                    Some(difficulty) => match i32_of(props["METER"@]) {
                        None => Err(ChartError::Format(FormatError::Level)),
                        Some(level) => match assemble(measures_of(notes)) {
                            Err(e) => Err(e),
                            Ok(notes) => Ok(
                                Some(
                                    StepChartView {
                                        chart_type,
                                        difficulty,
                                        level: level as int,
                                        notes,
                                    },
                                ),
                            ),
                        },
                    },
                }
            },
        }
    }
}

/// Reads one chart of a file of several from its properties and notes.
pub fn props_to_chart(chart: &ChartProps) -> (r: Result<Option<StepChart>, ChartError>)
    ensures
        match r {
            Ok(Some(c)) => decode_chart_props(chart.props@, chart.note_strings@) == Ok::<
                Option<StepChartView>,
                ChartError,
            >(Some(c@)),
            Ok(None) => decode_chart_props(chart.props@, chart.note_strings@) == Ok::<
                Option<StepChartView>,
                ChartError,
            >(None),
            Err(e) => decode_chart_props(chart.props@, chart.note_strings@) == Err::<
                Option<StepChartView>,
                ChartError,
            >(e),
        },
{
    let chart_type = match chart.props.get("STEPSTYPE") {
        None => {
            return Err(ChartError::Format(FormatError::MissingProperty));
        },
        Some(text) => match ChartType::from_chars(chars_of(text.as_str()).as_slice()) {
            None => {
                return Err(ChartError::Format(FormatError::ChartType));
            },
            Some(chart_type) => chart_type,
        },
    };
    if chart_type != ChartType::DanceSingle {
        return Ok(None);
    }
    let difficulty_text = match chart.props.get("DIFFICULTY") {
        None => {
            return Err(ChartError::Format(FormatError::MissingProperty));
        },
        Some(text) => text,
    };
    let level_text = match chart.props.get("METER") {
        None => {
            return Err(ChartError::Format(FormatError::MissingProperty));
        },
        Some(text) => text,
    };
    let difficulty = match Difficulty::from_chars(chars_of(difficulty_text.as_str()).as_slice()) {
        None => {
            return Err(ChartError::Format(FormatError::Difficulty));
        },
        Some(difficulty) => difficulty,
    };
    let level = match parse_i32(chars_of(level_text.as_str()).as_slice()) {
        None => {
            return Err(ChartError::Format(FormatError::Level));
        },
        Some(level) => level,
    };
    let bars = split_measures(chars_of(chart.note_strings.as_str()).as_slice());
    let notes = match measures_to_notes(&bars) {
        Ok(notes) => notes,
        Err(e) => {
            return Err(e);
        },
    };
    Ok(Some(StepChart { chart_type, difficulty, level, notes }))
}

/// The charts of the first `k` charts of a file of several, in order and
/// each with the index of its properties, or the error of the first that is
/// refused.
pub open spec fn decode_charts(
    charts: Seq<(Map<Seq<char>, Seq<char>>, Seq<char>)>,
    k: int,
) -> Result<Seq<(int, StepChartView)>, ChartError>
    decreases k,
{
    if k <= 0 {
        Ok(Seq::empty())
    } else {
        match decode_charts(charts, k - 1) {
            Err(e) => Err(e),
            Ok(head) => match decode_chart_props(charts[k - 1].0, charts[k - 1].1) {
                Err(e) => Err(e),
                Ok(Some(chart)) => Ok(head.push((k - 1, chart))),
                Ok(None) => Ok(head),
            },
        }
    }
}

/// The properties and notes of each chart of a list, as mathematical
/// values.
pub open spec fn chart_props_models(charts: Seq<ChartProps>) -> Seq<
    (Map<Seq<char>, Seq<char>>, Seq<char>),
> {
    charts.map_values(|chart: ChartProps| chart.model())
}

/// The charts of a list with their indexes, as mathematical values.
pub open spec fn indexed_views(charts: Seq<(usize, StepChart)>) -> Seq<(int, StepChartView)> {
    charts.map_values(|found: (usize, StepChart)| (found.0 as int, found.1@))
}

/// Once a chart among the first `k` is refused, its error is that of every
/// longer prefix.
proof fn lemma_decode_charts_error_stays(
    charts: Seq<(Map<Seq<char>, Seq<char>>, Seq<char>)>,
    k: int,
    n: int,
)
    requires
        0 <= k <= n,
        decode_charts(charts, k) is Err,
    ensures
        decode_charts(charts, n) == decode_charts(charts, k),
    decreases n - k,
{
    if k < n {
        lemma_decode_charts_error_stays(charts, k, n - 1);
    }
}

/// Reads the dance-single charts of a file of several charts from the
/// properties and notes of each, and gives each chart with the index of its
/// properties in `charts`.
pub fn ssc_to_chart(charts: &Vec<ChartProps>) -> (r: Result<Vec<(usize, StepChart)>, ChartError>)
    ensures
        match r {
            Ok(found) => decode_charts(chart_props_models(charts@), charts@.len() as int) == Ok::<
                Seq<(int, StepChartView)>,
                ChartError,
            >(indexed_views(found@)),
            Err(e) => decode_charts(chart_props_models(charts@), charts@.len() as int) == Err::<
                Seq<(int, StepChartView)>,
                ChartError,
            >(e),
        },
{
    let ghost models = chart_props_models(charts@);
    let mut found: Vec<(usize, StepChart)> = Vec::new();
    let mut k: usize = 0;
    assert(indexed_views(found@) =~= Seq::empty());
    while k < charts.len()
        invariant
            k <= charts.len(),
            models == chart_props_models(charts@),
            decode_charts(models, k as int) == Ok::<Seq<(int, StepChartView)>, ChartError>(
                indexed_views(found@),
            ),
        decreases charts.len() - k,
    {
        match props_to_chart(&charts[k]) {
            Ok(Some(chart)) => {
                let ghost head = indexed_views(found@);
                let ghost view = chart@;
                found.push((k, chart));
                assert(indexed_views(found@) =~= head.push((k as int, view)));
            },
            Ok(None) => {},
            Err(e) => {
                proof {
                    lemma_decode_charts_error_stays(models, k + 1, charts.len() as int);
                }
                return Err(e);
            },
        }
        k += 1;
    }
    Ok(found)
}

} // verus!
