//! The properties of a chart file: `#KEY:value;` statements, read into a
//! table of properties and the text of the note blocks.

use crate::text::{
    chars_of, has_prefix, join, join_of, lemma_split_text_nonempty, same_text, split, split_on,
    split_on_text, split_text, starts_with, string_of, strip_of, texts, trim, trim_matches,
    trim_of,
};
use vstd::prelude::*;
use vstd::string::StringExecFns;

verus! {

/// The value that a list of entries gives a key: that of the last entry
/// with this key.
spec fn lookup(entries: Seq<(String, String)>, key: Seq<char>) -> Option<Seq<char>>
    decreases entries.len(),
{
    if entries.len() == 0 {
        None
    } else if entries.last().0@ == key {
        Some(entries.last().1@)
    } else {
        lookup(entries.drop_last(), key)
    }
}

/// A table of properties: at most one value for each key.
#[derive(Debug)]
pub struct Props {
    entries: Vec<(String, String)>,
}

impl View for Props {
    type V = Map<Seq<char>, Seq<char>>;

    closed spec fn view(&self) -> Map<Seq<char>, Seq<char>> {
        Map::new(
            |key: Seq<char>| lookup(self.entries@, key) is Some,
            |key: Seq<char>| lookup(self.entries@, key).unwrap(),
        )
    }
}

impl Props {
    /// The empty table.
    pub fn new() -> (props: Props)
        ensures
            props@ == Map::<Seq<char>, Seq<char>>::empty(),
    {
        let props = Props { entries: Vec::new() };
        props
    }

    /// Gives `key` the value `value`, in place of any value it had.
    pub fn insert(&mut self, key: String, value: String)
        ensures
            final(self)@ == old(self)@.insert(key@, value@),
    {
        let ghost before = self.entries@;
        self.entries.push((key, value));
        assert(self.entries@.drop_last() =~= before);
    }

    /// The value of `key`, if it has one.
    pub fn get(&self, key: &str) -> (value: Option<&String>)
        ensures
            match value {
                Some(v) => self@.contains_key(key@) && self@[key@] == v@,
                None => !self@.contains_key(key@),
            },
    {
        let wanted = String::from_str(key);
        let mut i: usize = self.entries.len();
        assert(self.entries@.take(i as int) =~= self.entries@);
        while i > 0
            invariant
                i <= self.entries.len(),
                wanted@ == key@,
                lookup(self.entries@, key@) == lookup(self.entries@.take(i as int), key@),
            decreases i,
        {
            assert(self.entries@.take(i as int).drop_last() =~= self.entries@.take(i - 1));
            if self.entries[i - 1].0 == wanted {
                return Some(&self.entries[i - 1].1);
            }
            i -= 1;
        }
        None
    }
}

/// The entry that a statement makes: the text before its first colon,
/// without number signs around it, is the key, and all that follows the
/// colon is the value. A statement without a colon makes no entry.
pub open spec fn statement_entry(statement: Seq<char>) -> Option<(Seq<char>, Seq<char>)> {
    let parts = split_on(trim_of(statement), ':');
    if parts.len() < 2 {
        None
    } else {
        Some((strip_of(parts[0], '#'), join_of(parts.skip(1), seq![':'])))
    }
}

/// Reads one statement.
pub fn read_statement(statement: &[char]) -> (entry: Option<(Vec<char>, Vec<char>)>)
    ensures
        match entry {
            Some((key, value)) => statement_entry(statement@) == Some((key@, value@)),
            None => statement_entry(statement@) is None,
        },
{
    let trimmed = trim(statement);
    let parts = split(trimmed.as_slice(), ':');
    if parts.len() < 2 {
        return None;
    }
    let key = trim_matches(parts[0].as_slice(), '#');
    let mut colon: Vec<char> = Vec::new();
    colon.push(':');
    let value = join(&parts, 1, colon.as_slice());
    Some((key, value))
}

/// Whether a key names a block of notes.
pub open spec fn is_notes_key(key: Seq<char>) -> bool {
    key == "NOTES"@
}

/// The table that the first `k` statements build: every entry but those of
/// note blocks, a later value taking the place of an earlier one.
pub open spec fn props_of(statements: Seq<Seq<char>>, k: int) -> Map<Seq<char>, Seq<char>>
    decreases k,
{
    if k <= 0 {
        Map::empty()
    } else {
        let head = props_of(statements, k - 1);
        match statement_entry(statements[k - 1]) {
            Some((key, value)) => if is_notes_key(key) {
                head
            } else {
                head.insert(key, value)
            },
            None => head,
        }
    }
}

/// The note blocks among the first `k` statements, in order.
pub open spec fn note_blocks_of(statements: Seq<Seq<char>>, k: int) -> Seq<Seq<char>>
    decreases k,
{
    if k <= 0 {
        Seq::empty()
    } else {
        let head = note_blocks_of(statements, k - 1);
        match statement_entry(statements[k - 1]) {
            Some((key, value)) => if is_notes_key(key) {
                head.push(value)
            } else {
                head
            },
            None => head,
        }
    }
}

/// The text of each string of a list.
pub open spec fn string_texts(items: Seq<String>) -> Seq<Seq<char>> {
    items.map_values(|item: String| item@)
}

/// The properties of a song file and the text of its note blocks.
#[derive(Debug)]
pub struct SongProps {
    pub props: Props,
    pub notes_strings: Vec<String>,
}

/// Reads statements, given as one text with a semicolon after each.
pub fn read_statements(text: &[char]) -> (song: SongProps)
    ensures
        song.props@ == props_of(split_on(text@, ';'), split_on(text@, ';').len() as int),
        string_texts(song.notes_strings@) == note_blocks_of(
            split_on(text@, ';'),
            split_on(text@, ';').len() as int,
        ),
{
    let statements = split(text, ';');
    let ghost all = split_on(text@, ';');
    let notes_key = chars_of("NOTES");
    let mut props = Props::new();
    let mut notes_strings: Vec<String> = Vec::new();
    let mut i: usize = 0;
    while i < statements.len()
        invariant
            i <= statements.len(),
            all == texts(statements@),
            notes_key@ == "NOTES"@,
            props@ == props_of(all, i as int),
            string_texts(notes_strings@) == note_blocks_of(all, i as int),
        decreases statements.len() - i,
    {
        match read_statement(statements[i].as_slice()) {
            Some((key, value)) => {
                if same_text(key.as_slice(), notes_key.as_slice()) {
                    notes_strings.push(string_of(value.as_slice()));
                } else {
                    props.insert(string_of(key.as_slice()), string_of(value.as_slice()));
                }
            },
            None => {},
        }
        i += 1;
    }
    SongProps { props, notes_strings }
}

/// Whether a line is a comment: it begins with two slashes.
pub open spec fn is_comment(line: Seq<char>) -> bool {
    has_prefix(line, "//"@)
}

/// The lines that stay of a list of lines: those that are no comment, each
/// without the white space around it, unless nothing is left of it.
pub open spec fn clean_lines(lines: Seq<Seq<char>>) -> Seq<Seq<char>> {
    lines.filter(|line: Seq<char>| !is_comment(line)).map_values(
        |line: Seq<char>| trim_of(line),
    ).filter(|line: Seq<char>| line.len() > 0)
}

/// The text of a file without its comments, without white space around its
/// lines and without empty lines.
pub open spec fn without_comments(contents: Seq<char>) -> Seq<char> {
    join_of(clean_lines(split_on(contents, '\n')), seq!['\n'])
}

/// One more line adds what is left of it, if it is no comment and not
/// blank.
proof fn lemma_clean_lines_push(lines: Seq<Seq<char>>, line: Seq<char>)
    ensures
        clean_lines(lines.push(line)) == if !is_comment(line) && trim_of(line).len() > 0 {
            clean_lines(lines).push(trim_of(line))
        } else {
            clean_lines(lines)
        },
{
    lines.lemma_filter_push(line, |line: Seq<char>| !is_comment(line));
    let kept = lines.filter(|line: Seq<char>| !is_comment(line));
    let trimmed = kept.map_values(|line: Seq<char>| trim_of(line));
    if !is_comment(line) {
        assert(kept.push(line).map_values(|line: Seq<char>| trim_of(line)) =~= trimmed.push(
            trim_of(line),
        ));
        trimmed.lemma_filter_push(trim_of(line), |line: Seq<char>| line.len() > 0);
    }
}

/// Removes the comment lines of a file, the white space around its lines,
/// and its empty lines.
pub fn strip_comments(contents: &[char]) -> (cleaned: Vec<char>)
    ensures
        cleaned@ == without_comments(contents@),
{
    let lines = split(contents, '\n');
    let slashes = chars_of("//");
    let ghost all = texts(lines@);
    let mut kept: Vec<Vec<char>> = Vec::new();
    let mut i: usize = 0;
    proof {
        reveal(Seq::filter);
    }
    while i < lines.len()
        invariant
            i <= lines.len(),
            all == texts(lines@),
            slashes@ == "//"@,
            texts(kept@) == clean_lines(all.take(i as int)),
        decreases lines.len() - i,
    {
        proof {
            assert(all.take(i + 1) =~= all.take(i as int).push(all[i as int]));
            lemma_clean_lines_push(all.take(i as int), all[i as int]);
        }
        if !starts_with(lines[i].as_slice(), slashes.as_slice()) {
            let line = trim(lines[i].as_slice());
            if line.len() > 0 {
                kept.push(line);
            }
        }
        i += 1;
    }
    assert(all.take(i as int) =~= all);
    let mut newline: Vec<char> = Vec::new();
    newline.push('\n');
    assert(texts(kept@).skip(0) =~= texts(kept@));
    join(&kept, 0, newline.as_slice())
}

/// Reads a song file: its properties, and the text of each of its note
/// blocks.
pub fn parse_song_props(contents: &str) -> (song: SongProps)
    ensures
        song.props@ == props_of(
            split_on(without_comments(contents@), ';'),
            split_on(without_comments(contents@), ';').len() as int,
        ),
        string_texts(song.notes_strings@) == note_blocks_of(
            split_on(without_comments(contents@), ';'),
            split_on(without_comments(contents@), ';').len() as int,
        ),
{
    let cleaned = strip_comments(chars_of(contents).as_slice());
    read_statements(cleaned.as_slice())
}

/// The properties of one chart and the text of its notes.
#[derive(Debug)]
pub struct ChartProps {
    pub props: Props,
    pub note_strings: String,
}

/// The text of the last note block, and no text where there is none.
pub open spec fn last_or_empty(blocks: Seq<Seq<char>>) -> Seq<char> {
    if blocks.len() == 0 {
        Seq::empty()
    } else {
        blocks.last()
    }
}

impl ChartProps {
    /// The chart's properties and the text of its notes, as mathematical
    /// values.
    pub open spec fn model(&self) -> (Map<Seq<char>, Seq<char>>, Seq<char>) {
        (self.props@, self.note_strings@)
    }
}

/// What the statements of one chart give: its table of properties and the
/// notes of its last note block.
pub open spec fn chart_props_of(chart: Seq<char>) -> (Map<Seq<char>, Seq<char>>, Seq<char>) {
    let statements = split_on(chart, ';');
    (
        props_of(statements, statements.len() as int),
        last_or_empty(note_blocks_of(statements, statements.len() as int)),
    )
}

/// Reads the statements of one chart, given as characters.
pub fn read_chart_props(chart: &[char]) -> (props: ChartProps)
    ensures
        props.model() == chart_props_of(chart@),
{
    let mut song = read_statements(chart);
    let note_strings = match song.notes_strings.pop() {
        Some(notes) => notes,
        None => String::new(),
    };
    ChartProps { props: song.props, note_strings }
}

/// Reads the statements of one chart: its properties, and the notes of its
/// last note block.
pub fn parse_chart_props(chart_string: &str) -> (chart: ChartProps)
    ensures
        chart.model() == chart_props_of(chart_string@),
{
    read_chart_props(chars_of(chart_string).as_slice())
}

/// What the statements in front of the first chart give: a table of every
/// entry, those of note blocks among them.
pub open spec fn common_props_of(head: Seq<char>) -> Map<Seq<char>, Seq<char>> {
    let statements = split_on(head, ';');
    let props = props_of(statements, statements.len() as int);
    let blocks = note_blocks_of(statements, statements.len() as int);
    if blocks.len() == 0 {
        props
    } else {
        props.insert("NOTES"@, blocks.last())
    }
}

/// The parts of a file of several charts: what stands in front of the
/// first chart, and the text of each chart. A chart begins where the file
/// says `#NOTEDATA:;`.
pub open spec fn chart_parts(contents: Seq<char>) -> Seq<Seq<char>> {
    split_on_text(without_comments(contents), "#NOTEDATA:;"@)
}

/// The properties that all charts of a file share, and those of each chart.
#[derive(Debug)]
pub struct SscProps {
    pub common: Props,
    pub charts: Vec<ChartProps>,
}

/// Reads a file of several charts: the properties in front of the first
/// chart, and the properties and notes of each chart.
pub fn parse_ssc_props(contents: &str) -> (file: SscProps)
    ensures
        file.common@ == common_props_of(chart_parts(contents@)[0]),
        file.charts@.len() == chart_parts(contents@).len() - 1,
        forall|i: int|
            0 <= i < file.charts@.len() ==> (#[trigger] file.charts@[i]).model() == chart_props_of(
                chart_parts(contents@)[i + 1],
            ),
{
    let cleaned = strip_comments(chars_of(contents).as_slice());
    let mark = chars_of("#NOTEDATA:;");
    proof {
        reveal_strlit("#NOTEDATA:;");
        lemma_split_text_nonempty(cleaned@, mark@);
    }
    let parts = split_text(cleaned.as_slice(), mark.as_slice());
    let mut head = read_statements(parts[0].as_slice());
    let mut common = head.props;
    match head.notes_strings.pop() {
        Some(notes) => {
            common.insert(String::from_str("NOTES"), notes);
        },
        None => {},
    }
    let mut charts: Vec<ChartProps> = Vec::new();
    let mut i: usize = 1;
    while i < parts.len()
        invariant
            1 <= i <= parts.len(),
            texts(parts@) == chart_parts(contents@),
            charts@.len() == i - 1,
            forall|j: int|
                0 <= j < charts@.len() ==> (#[trigger] charts@[j]).model() == chart_props_of(
                    chart_parts(contents@)[j + 1],
                ),
        decreases parts.len() - i,
    {
        charts.push(read_chart_props(parts[i].as_slice()));
        i += 1;
    }
    SscProps { common, charts }
}

} // verus!
