//! The grid decoder: lanes, arrow kinds, subdivision colors and the
//! divisions of a measure.

use crate::error::{ChartError, FormatError};
use crate::text::{chars_of, chars_of_each, str_texts, texts};
use vstd::prelude::*;
use vstd::string::StringExecFns;

verus! {

/// Rhythmic positions per measure.
pub const NOTE_UNIT: i32 = 192;

/// One of the four lanes of the grid.
#[derive(Debug, PartialEq, Eq, Clone, Copy, Structural)]
pub enum Direction {
    Up,
    Down,
    Left,
    Right,
}

/// The lane that column `i` of a grid row stands for.
pub open spec fn column_direction(i: int) -> Direction {
    if i == 0 {
        Direction::Left
    } else if i == 1 {
        Direction::Down
    } else if i == 2 {
        Direction::Up
    } else {
        Direction::Right
    }
}

/// Maps a column index of a grid row to its lane: left, down, up, right.
pub fn int_to_direction(i: i32) -> (d: Direction)
    requires
        0 <= i < 4,
    ensures
        d == column_direction(i as int),
{
    if i == 0 {
        Direction::Left
    } else if i == 1 {
        Direction::Down
    } else if i == 2 {
        Direction::Up
    } else {
        Direction::Right
    }
}

/// What a grid cell holds.
#[derive(Debug, PartialEq, Eq, Clone, Copy, Structural)]
pub enum ArrowType {
    /// Nothing; no arrow is made of it.
    Empty,
    /// A tap.
    Normal,
    /// The start of a hold.
    Freeze,
    /// The end of a hold.
    FreezeEnd,
    /// A mine.
    Mine,
}

/// The arrow kind that a grid character stands for, if it is a code at all.
pub open spec fn code_type(c: char) -> Option<ArrowType> {
    if c == '0' {
        Some(ArrowType::Empty)
    } else if c == '1' {
        Some(ArrowType::Normal)
    } else if c == '2' {
        Some(ArrowType::Freeze)
    } else if c == '3' {
        Some(ArrowType::FreezeEnd)
    } else if c == 'M' {
        Some(ArrowType::Mine)
    } else {
        None
    }
}

/// Whether `s` is a single character that is an arrow code.
pub open spec fn is_arrow_code(s: Seq<char>) -> bool {
    s.len() == 1 && code_type(s[0]) is Some
}

impl ArrowType {
    /// Reads one grid character.
    pub fn from_char(c: char) -> (t: Option<ArrowType>)
        ensures
            t == code_type(c),
    {
        if c == '0' {
            Some(ArrowType::Empty)
        } else if c == '1' {
            Some(ArrowType::Normal)
        } else if c == '2' {
            Some(ArrowType::Freeze)
        } else if c == '3' {
            Some(ArrowType::FreezeEnd)
        } else if c == 'M' {
            Some(ArrowType::Mine)
        } else {
            None
        }
    }

    /// Reads a one-character string; anything else is refused with a
    /// message that names the text.
    pub fn from_str(s: &str) -> (r: Result<ArrowType, String>)
        ensures
            match r {
                Ok(t) => is_arrow_code(s@) && code_type(s@[0]) == Some(t),
                Err(msg) => !is_arrow_code(s@) && msg@ == s@ + " is not arrow type"@,
            },
    {
        let chars = chars_of(s);
        if chars.len() == 1 {
            if let Some(t) = ArrowType::from_char(chars[0]) {
                return Ok(t);
            }
        }
        Err(String::from_str(s).concat(" is not arrow type"))
    }
}

/// An arrow in a lane. `end` is the position at which a hold is released,
/// and 0 for every other kind.
#[derive(Debug, PartialEq, Eq, Clone, Copy, Structural)]
pub struct Arrow {
    pub direction: Direction,
    pub arrow_type: ArrowType,
    pub end: i32,
}

impl Arrow {
    /// Whether this arrow is the end of a hold in lane `direction`.
    pub open spec fn spec_is_freeze_end(&self, direction: Direction) -> bool {
        self.arrow_type == ArrowType::FreezeEnd && self.direction == direction
    }

    /// Whether this arrow releases a hold in lane `direction`.
    #[verifier::when_used_as_spec(spec_is_freeze_end)]
    pub fn is_freeze_end(&self, direction: Direction) -> (b: bool)
        ensures
            b == self.spec_is_freeze_end(direction),
    {
        self.arrow_type == ArrowType::FreezeEnd && self.direction == direction
    }

    /// Whether this arrow is the start of a hold.
    pub open spec fn spec_is_freeze(&self) -> bool {
        self.arrow_type == ArrowType::Freeze
    }

    /// Whether this arrow starts a hold.
    #[verifier::when_used_as_spec(spec_is_freeze)]
    pub fn is_freeze(&self) -> (b: bool)
        ensures
            b == self.spec_is_freeze(),
    {
        self.arrow_type == ArrowType::Freeze
    }
}

/// The arrows that column `i` of a row gives: one, or none for the empty code.
pub open spec fn cell_arrows(row: Seq<char>, i: int) -> Seq<Arrow> {
    match code_type(row[i]) {
        Some(t) => if t == ArrowType::Empty {
            Seq::empty()
        } else {
            seq![Arrow { direction: column_direction(i), arrow_type: t, end: 0 }]
        },
        None => Seq::empty(),
    }
}

/// The arrows of a well-formed row, lane by lane.
pub open spec fn row_arrows(row: Seq<char>) -> Seq<Arrow> {
    cell_arrows(row, 0) + cell_arrows(row, 1) + cell_arrows(row, 2) + cell_arrows(row, 3)
}

/// What is wrong with a row, the width first, then its characters.
pub open spec fn row_error(row: Seq<char>) -> Option<FormatError> {
    if row.len() != 4 {
        Some(FormatError::RowWidth)
    } else if exists|i: int| 0 <= i < 4 && code_type(#[trigger] row[i]) is None {
        Some(FormatError::ArrowCode)
    } else {
        None
    }
}

/// A row decoded: its arrows, or the reason it is refused.
pub open spec fn decode_row(row: Seq<char>) -> Result<Seq<Arrow>, ChartError> {
    match row_error(row) {
        Some(e) => Err(ChartError::Format(e)),
        None => Ok(row_arrows(row)),
    }
}

/// Decodes one grid row, such as `"0012"`, into the arrows it places.
pub fn make_arrows(s: &str) -> (r: Result<Vec<Arrow>, ChartError>)
    ensures
        r matches Ok(v) ==> decode_row(s@) == Ok::<Seq<Arrow>, ChartError>(v@),
        r matches Err(e) ==> decode_row(s@) == Err::<Seq<Arrow>, ChartError>(e),
{
    let chars = chars_of(s);
    row_to_arrows(chars.as_slice())
}

/// Decodes the characters of one grid row.
pub fn row_to_arrows(row: &[char]) -> (r: Result<Vec<Arrow>, ChartError>)
    ensures
        r matches Ok(v) ==> decode_row(row@) == Ok::<Seq<Arrow>, ChartError>(v@),
        r matches Err(e) ==> decode_row(row@) == Err::<Seq<Arrow>, ChartError>(e),
{
    if row.len() != 4 {
        return Err(ChartError::Format(FormatError::RowWidth));
    }
    let mut arrows: Vec<Arrow> = Vec::new();
    let mut i: i32 = 0;
    while i < 4
        invariant
            0 <= i <= 4,
            row@.len() == 4,
            forall|j: int| 0 <= j < i ==> code_type(#[trigger] row@[j]) is Some,
            arrows@ == cells_upto(row@, i as int),
        decreases 4 - i,
    {
        match ArrowType::from_char(row[i as usize]) {
            Some(arrow_type) => {
                if arrow_type != ArrowType::Empty {
                    arrows.push(Arrow { direction: int_to_direction(i), arrow_type, end: 0 });
                }
            },
            None => {
                return Err(ChartError::Format(FormatError::ArrowCode));
            },
        }
        i += 1;
    }
    assert(arrows@ =~= row_arrows(row@)) by {
        reveal_with_fuel(cells_upto, 5);
    }
    Ok(arrows)
}

/// The arrows of the first `k` columns of a row.
spec fn cells_upto(row: Seq<char>, k: int) -> Seq<Arrow>
    decreases k,
{
    if k <= 0 {
        Seq::empty()
    } else {
        cells_upto(row, k - 1) + cell_arrows(row, k - 1)
    }
}

/// A row of nothing but the empty code places no arrow.
pub proof fn lemma_blank_row(row: Seq<char>)
    requires
        row.len() == 4,
        forall|i: int| 0 <= i < 4 ==> row[i] == '0',
    ensures
        decode_row(row) == Ok::<Seq<Arrow>, ChartError>(Seq::empty()),
{
}

/// A row is decoded exactly if it is four arrow codes wide, and then every
/// arrow stands in the lane of a column that is not empty, the columns in
/// their order.
pub proof fn lemma_row_arrows(row: Seq<char>)
    ensures
        decode_row(row) is Ok <==> row.len() == 4 && forall|i: int|
            0 <= i < 4 ==> code_type(#[trigger] row[i]) is Some,
        decode_row(row) is Ok ==> row_arrows(row).len() <= 4 && forall|j: int|
            0 <= j < row_arrows(row).len() ==> exists|i: int|
                0 <= i < 4 && code_type(row[i]) == Some((#[trigger] row_arrows(row)[j]).arrow_type)
                    && row_arrows(row)[j].arrow_type != ArrowType::Empty && row_arrows(
                    row,
                )[j].direction == column_direction(i) && row_arrows(row)[j].end == 0,
{
    if decode_row(row) is Ok {
        let arrows = row_arrows(row);
        assert forall|j: int| 0 <= j < arrows.len() implies exists|i: int|
            0 <= i < 4 && code_type(row[i]) == Some((#[trigger] arrows[j]).arrow_type)
                && arrows[j].arrow_type != ArrowType::Empty && arrows[j].direction
                == column_direction(i) && arrows[j].end == 0 by {
            let n0 = cell_arrows(row, 0).len();
            let n1 = cell_arrows(row, 1).len();
            let n2 = cell_arrows(row, 2).len();
            if j < n0 {
                assert(arrows[j] == cell_arrows(row, 0)[j]);
            } else if j < n0 + n1 {
                assert(arrows[j] == cell_arrows(row, 1)[j - n0]);
            } else if j < n0 + n1 + n2 {
                assert(arrows[j] == cell_arrows(row, 2)[j - n0 - n1]);
            } else {
                assert(arrows[j] == cell_arrows(row, 3)[j - n0 - n1 - n2]);
            }
        }
    }
}

/// Subdivision color of a rhythmic position.
#[derive(Debug, PartialEq, Eq, Clone, Copy, Structural)]
pub enum Color {
    Red,
    Blue,
    Yellow,
    Green,
}

/// The color of a position: the coarsest of quarter, eighth and sixteenth
/// notes on which it falls, green when it falls on none of them.
pub open spec fn color_of(ofs: int) -> Color {
    if ofs % 48 == 0 {
        Color::Red
    } else if ofs % 24 == 0 {
        Color::Blue
    } else if ofs % 12 == 0 {
        Color::Yellow
    } else {
        Color::Green
    }
}

/// Every position has one color, which the position within its measure
/// decides: the start of a measure is red, and so is every quarter note; an
/// eighth note that is no quarter note is blue; a sixteenth note that is no
/// eighth note is yellow; every other position is green.
pub proof fn lemma_color_of(ofs: int)
    ensures
        color_of(0) == Color::Red,
        color_of(ofs) == color_of(ofs % (NOTE_UNIT as int)),
        color_of(ofs) == Color::Red <==> ofs % (NOTE_UNIT as int / 4) == 0,
        color_of(ofs) == Color::Blue <==> ofs % (NOTE_UNIT as int / 8) == 0 && ofs % (NOTE_UNIT as int
            / 4) != 0,
        color_of(ofs) == Color::Yellow <==> ofs % (NOTE_UNIT as int / 16) == 0 && ofs % (
        NOTE_UNIT as int / 8) != 0,
        color_of(ofs) == Color::Green <==> ofs % (NOTE_UNIT as int / 16) != 0,
{
    let r = ofs % 192;
    assert(r % 48 == ofs % 48 && r % 24 == ofs % 24 && r % 12 == ofs % 12) by {
        vstd::arithmetic::div_mod::lemma_mod_mod(ofs, 48, 4);
        vstd::arithmetic::div_mod::lemma_mod_mod(ofs, 24, 8);
        vstd::arithmetic::div_mod::lemma_mod_mod(ofs, 12, 16);
    }
    assert(ofs % 48 == 0 ==> ofs % 24 == 0) by {
        vstd::arithmetic::div_mod::lemma_mod_mod(ofs, 24, 2);
    }
    assert(ofs % 24 == 0 ==> ofs % 12 == 0) by {
        vstd::arithmetic::div_mod::lemma_mod_mod(ofs, 12, 2);
    }
}

/// Classifies a position by the note value it falls on.
pub fn ofs_to_color(ofs: i32) -> (c: Color)
    ensures
        c == color_of(ofs as int),
{
    let quarter: i32 = NOTE_UNIT / 4;
    let eighth: i32 = NOTE_UNIT / 8;
    let sixteenth: i32 = NOTE_UNIT / 16;
    assert(quarter == 48 && eighth == 24 && sixteenth == 12);
    if ofs % quarter == 0 {
        Color::Red
    } else if ofs % eighth == 0 {
        Color::Blue
    } else if ofs % sixteenth == 0 {
        Color::Yellow
    } else {
        Color::Green
    }
}

/// Everything that happens at one rhythmic position.
#[derive(Debug, PartialEq, Eq, Clone)]
pub struct Division {
    pub arrows: Vec<Arrow>,
    pub color: Color,
    pub offset: i32,
}

/// A division as a mathematical value.
pub struct DivisionView {
    pub arrows: Seq<Arrow>,
    pub color: Color,
    pub offset: int,
}

impl View for Division {
    type V = DivisionView;

    open spec fn view(&self) -> DivisionView {
        DivisionView { arrows: self.arrows@, color: self.color, offset: self.offset as int }
    }
}

/// The divisions of a list, each as a mathematical value.
pub open spec fn views(notes: Seq<Division>) -> Seq<DivisionView> {
    notes.map_values(|d: Division| d@)
}

/// Whether an arrow has to be stepped on: a tap or the start of a hold.
pub open spec fn is_step(a: Arrow) -> bool {
    a.arrow_type == ArrowType::Freeze || a.arrow_type == ArrowType::Normal
}

/// The arrows of a division that have to be stepped on.
pub open spec fn steps(arrows: Seq<Arrow>) -> Seq<Arrow> {
    arrows.filter(|a: Arrow| is_step(a))
}

impl DivisionView {
    /// Exactly two arrows to step on at once.
    pub open spec fn is_jump(&self) -> bool {
        steps(self.arrows).len() == 2
    }

    /// At least one mine.
    pub open spec fn is_shock(&self) -> bool {
        exists|i: int|
            0 <= i < self.arrows.len() && (#[trigger] self.arrows[i]).arrow_type == ArrowType::Mine
    }
}

impl Division {
    /// Whether exactly two arrows have to be stepped on at once.
    pub fn is_jump(&self) -> (b: bool)
        ensures
            b == self@.is_jump(),
    {
        let mut count: usize = 0;
        let mut i: usize = 0;
        while i < self.arrows.len()
            invariant
                i <= self.arrows.len(),
                count == steps(self.arrows@.take(i as int)).len(),
                count <= i,
            decreases self.arrows.len() - i,
        {
            let a = self.arrows[i];
            proof {
                let prefix = self.arrows@.take(i as int);
                assert(self.arrows@.take(i + 1) =~= prefix.push(a));
                prefix.lemma_filter_len_push(|a: Arrow| is_step(a), a);
                prefix.lemma_filter_len(|a: Arrow| is_step(a));
            }
            if a.arrow_type == ArrowType::Freeze || a.arrow_type == ArrowType::Normal {
                count += 1;
            }
            i += 1;
        }
        assert(self.arrows@.take(i as int) =~= self.arrows@);
        count == 2
    }

    /// Whether the division holds a mine.
    pub fn is_shock(&self) -> (b: bool)
        ensures
            b == self@.is_shock(),
    {
        let mut i: usize = 0;
        while i < self.arrows.len()
            invariant
                i <= self.arrows.len(),
                forall|j: int| 0 <= j < i ==> (#[trigger] self.arrows@[j]).arrow_type != ArrowType::Mine,
            decreases self.arrows.len() - i,
        {
            if self.arrows[i].arrow_type == ArrowType::Mine {
                return true;
            }
            i += 1;
        }
        false
    }

    /// Whether the division lies after `offset` and ends a hold in lane
    /// `direction`.
    pub fn releases(&self, offset: i32, direction: Direction) -> (b: bool)
        ensures
            b == releases(self@, offset as int, direction),
    {
        if self.offset <= offset {
            return false;
        }
        let mut j: usize = 0;
        while j < self.arrows.len()
            invariant
                j <= self.arrows.len(),
                self.offset > offset,
                forall|k: int| 0 <= k < j ==> !(#[trigger] self.arrows@[k]).is_freeze_end(direction),
            decreases self.arrows.len() - j,
        {
            if self.arrows[j].is_freeze_end(direction) {
                assert(self@.arrows[j as int].is_freeze_end(direction));
                return true;
            }
            j += 1;
        }
        false
    }

    /// A copy of the division.
    pub fn duplicate(&self) -> (d: Division)
        ensures
            d@ == self@,
    {
        let mut arrows: Vec<Arrow> = Vec::new();
        let mut i: usize = 0;
        while i < self.arrows.len()
            invariant
                i <= self.arrows.len(),
                arrows@ == self.arrows@.take(i as int),
            decreases self.arrows.len() - i,
        {
            arrows.push(self.arrows[i]);
            i += 1;
        }
        assert(self.arrows@.take(i as int) =~= self.arrows@);
        Division { arrows, color: self.color, offset: self.offset }
    }
}

/// The error of the first refused row among the first `k`, if there is one.
pub open spec fn rows_error(rows: Seq<Seq<char>>, k: int) -> Option<FormatError>
    decreases k,
{
    if k <= 0 {
        None
    } else {
        match rows_error(rows, k - 1) {
            Some(e) => Some(e),
            None => row_error(rows[k - 1]),
        }
    }
}

/// What is wrong with a measure: a row count that does not divide the
/// measure, else the error of its first refused row.
pub open spec fn bar_error(rows: Seq<Seq<char>>) -> Option<FormatError> {
    if rows.len() == 0 || NOTE_UNIT as int % (rows.len() as int) != 0 {
        Some(FormatError::RowCount)
    } else {
        rows_error(rows, rows.len() as int)
    }
}

/// Row `i` of a measure that starts at `offset`, as a division. Rows are
/// spread evenly over the measure.
pub open spec fn row_division(rows: Seq<Seq<char>>, offset: int, i: int) -> DivisionView {
    let ofs_in_bar = i * (NOTE_UNIT as int / (rows.len() as int));
    DivisionView {
        arrows: row_arrows(rows[i]),
        color: color_of(ofs_in_bar),
        offset: offset + ofs_in_bar,
    }
}

/// The divisions among `all` that hold an arrow.
pub open spec fn populated(all: Seq<DivisionView>) -> Seq<DivisionView> {
    all.filter(|d: DivisionView| d.arrows.len() > 0)
}

/// A measure decoded: one division for each row that places an arrow.
pub open spec fn decode_bar(rows: Seq<Seq<char>>, offset: int) -> Result<
    Seq<DivisionView>,
    ChartError,
> {
    match bar_error(rows) {
        Some(e) => Err(ChartError::Format(e)),
        None => Ok(populated(Seq::new(rows.len(), |i: int| row_division(rows, offset, i)))),
    }
}

/// The position of row `i` of a measure of `count` rows that starts at
/// `offset`: the rows lie a whole step of `NOTE_UNIT / count` apart.
pub open spec fn row_offset(count: int, offset: int, i: int) -> int {
    offset + i * (NOTE_UNIT as int / count)
}

/// Whether `position` is that of a row of a measure of `count` rows that
/// starts at `offset`.
pub open spec fn is_row_offset(position: int, count: int, offset: int) -> bool {
    exists|i: int| 0 <= i < count && position == #[trigger] row_offset(count, offset, i)
}

/// Whether every division lies on a row of a measure of `count` rows that
/// starts at `offset`.
pub open spec fn on_rows(divisions: Seq<DivisionView>, count: int, offset: int) -> bool {
    forall|j: int|
        0 <= j < divisions.len() ==> is_row_offset(
            (#[trigger] divisions[j]).offset,
            count,
            offset,
        )
}

/// A measure is decoded only if the number of its rows divides the measure
/// evenly, and then each of its divisions lies on one of its rows, a whole
/// step from the start of the measure. With any other number of rows the
/// measure is refused for that, whatever its rows hold.
pub proof fn lemma_bar_row_count(rows: Seq<Seq<char>>, offset: int)
    ensures
        decode_bar(rows, offset) is Ok ==> rows.len() > 0 && NOTE_UNIT as int % (rows.len() as int)
            == 0,
        decode_bar(rows, offset) matches Ok(divisions) ==> on_rows(
            divisions,
            rows.len() as int,
            offset,
        ),
        rows.len() == 0 || NOTE_UNIT as int % (rows.len() as int) != 0 ==> decode_bar(rows, offset)
            == Err::<Seq<DivisionView>, ChartError>(ChartError::Format(FormatError::RowCount)),
{
    if let Ok(divisions) = decode_bar(rows, offset) {
        let all = Seq::new(rows.len(), |i: int| row_division(rows, offset, i));
        assert forall|j: int| 0 <= j < divisions.len() implies is_row_offset(
            (#[trigger] divisions[j]).offset,
            rows.len() as int,
            offset,
        ) by {
            all.lemma_filter_contains_rev(|d: DivisionView| d.arrows.len() > 0, divisions[j]);
            let i = choose|i: int| 0 <= i < all.len() && all[i] == divisions[j];
            assert(divisions[j].offset == row_offset(rows.len() as int, offset, i));
        }
    }
}

/// Decodes the rows of one measure that starts at `offset`.
pub fn bar_to_divisions(bar: Vec<&str>, offset: i32) -> (r: Result<Vec<Division>, ChartError>)
    requires
        offset + NOTE_UNIT - 1 <= i32::MAX,
    ensures
        r matches Ok(v) ==> decode_bar(str_texts(bar@), offset as int) == Ok::<
            Seq<DivisionView>,
            ChartError,
        >(views(v@)),
        r matches Err(e) ==> decode_bar(str_texts(bar@), offset as int) == Err::<
            Seq<DivisionView>,
            ChartError,
        >(e),
        r matches Ok(v) ==> bar@.len() >= 1 && NOTE_UNIT as int % (bar@.len() as int) == 0
            && on_rows(views(v@), bar@.len() as int, offset as int),
{
    let rows = chars_of_each(&bar);
    rows_to_divisions(&rows, offset)
}

/// Decodes the rows of one measure, given as characters.
pub fn rows_to_divisions(bar: &Vec<Vec<char>>, offset: i32) -> (r: Result<
    Vec<Division>,
    ChartError,
>)
    requires
        offset + NOTE_UNIT - 1 <= i32::MAX,
    ensures
        r matches Ok(v) ==> decode_bar(texts(bar@), offset as int) == Ok::<
            Seq<DivisionView>,
            ChartError,
        >(views(v@)),
        r matches Err(e) ==> decode_bar(texts(bar@), offset as int) == Err::<
            Seq<DivisionView>,
            ChartError,
        >(e),
        r matches Ok(v) ==> bar@.len() >= 1 && NOTE_UNIT as int % (bar@.len() as int) == 0
            && on_rows(views(v@), bar@.len() as int, offset as int),
{
    let n = bar.len();
    let ghost rows = texts(bar@);
    proof {
        lemma_bar_row_count(rows, offset as int);
    }
    if n == 0 || n > 192 || 192 % n != 0 {
        assert(n > 192 ==> 192int % (n as int) == 192) by (nonlinear_arith);
        return Err(ChartError::Format(FormatError::RowCount));
    }
    let ghost all = Seq::new(rows.len(), |i: int| row_division(rows, offset as int, i));
    let epsilon: i32 = NOTE_UNIT / (n as i32);
    let mut divisions: Vec<Division> = Vec::new();
    let mut i: usize = 0;
    while i < n
        invariant
            0 < n <= 192,
            n == bar.len(),
            rows == texts(bar@),
            rows.len() == n,
            all == Seq::new(rows.len(), |i: int| row_division(rows, offset as int, i)),
            epsilon == NOTE_UNIT as int / (n as int),
            NOTE_UNIT as int % (n as int) == 0,
            offset + NOTE_UNIT - 1 <= i32::MAX,
            i <= n,
            rows_error(rows, i as int) is None,
            views(divisions@) == populated(all.take(i as int)),
        decreases n - i,
    {
        assert(0 <= i * epsilon < 192) by (nonlinear_arith)
            requires
                0 <= i < n,
                0 < n <= 192,
                epsilon == 192int / (n as int),
        ;
        let ofs_in_bar: i32 = (i as i32) * epsilon;
        let color = ofs_to_color(ofs_in_bar);
        let arrows = match row_to_arrows(bar[i].as_slice()) {
            Ok(arrows) => arrows,
            Err(e) => {
                proof {
                    lemma_rows_error_stays(rows, i + 1, n as int);
                }
                return Err(e);
            },
        };
        proof {
            let prefix = all.take(i as int);
            assert(all.take(i + 1) =~= prefix.push(all[i as int]));
            prefix.lemma_filter_push(all[i as int], |d: DivisionView| d.arrows.len() > 0);
        }
        if arrows.len() > 0 {
            let division = Division { arrows, color, offset: offset + ofs_in_bar };
            divisions.push(division);
        }
        i += 1;
    }
    assert(all.take(n as int) =~= all);
    Ok(divisions)
}

/// Where no row among the first `n` is refused, none of them has an error.
pub proof fn lemma_rows_error_none(rows: Seq<Seq<char>>, n: int, k: int)
    requires
        0 <= k < n,
        rows_error(rows, n) is None,
    ensures
        row_error(rows[k]) is None,
    decreases n,
{
    if k < n - 1 {
        lemma_rows_error_none(rows, n - 1, k);
    }
}

/// Once a row among the first `k` is refused, its error is that of every
/// longer prefix.
proof fn lemma_rows_error_stays(rows: Seq<Seq<char>>, k: int, n: int)
    requires
        0 <= k <= n,
        rows_error(rows, k) is Some,
    ensures
        rows_error(rows, n) == rows_error(rows, k),
    decreases n - k,
{
    if k < n {
        lemma_rows_error_stays(rows, k, n - 1);
    }
}

/// Whether a division lies after `offset` and ends a hold in lane `direction`.
pub open spec fn releases(d: DivisionView, offset: int, direction: Direction) -> bool {
    d.offset > offset && exists|j: int|
        0 <= j < d.arrows.len() && (#[trigger] d.arrows[j]).is_freeze_end(direction)
}

/// The position of the first division, in list order, that releases a hold
/// started at `offset` in lane `direction`.
pub open spec fn first_release(notes: Seq<DivisionView>, offset: int, direction: Direction) -> Option<
    int,
>
    decreases notes.len(),
{
    if notes.len() == 0 {
        None
    } else if releases(notes[0], offset, direction) {
        Some(notes[0].offset)
    } else {
        first_release(notes.drop_first(), offset, direction)
    }
}

/// `first_release` finds the release with the least index, and finds none
/// only where no division releases the hold.
pub proof fn lemma_first_release(notes: Seq<DivisionView>, offset: int, direction: Direction)
    ensures
        match first_release(notes, offset, direction) {
            Some(end) => exists|i: int|
                0 <= i < notes.len() && releases(#[trigger] notes[i], offset, direction) && end
                    == notes[i].offset && forall|j: int|
                    0 <= j < i ==> !releases(#[trigger] notes[j], offset, direction),
            None => forall|i: int|
                0 <= i < notes.len() ==> !releases(#[trigger] notes[i], offset, direction),
        },
    decreases notes.len(),
{
    if notes.len() > 0 && !releases(notes[0], offset, direction) {
        let rest = notes.drop_first();
        lemma_first_release(rest, offset, direction);
        match first_release(rest, offset, direction) {
            Some(end) => {
                let i = choose|i: int|
                    0 <= i < rest.len() && releases(#[trigger] rest[i], offset, direction) && end
                        == rest[i].offset && forall|j: int|
                        0 <= j < i ==> !releases(#[trigger] rest[j], offset, direction);
                assert forall|j: int| 0 <= j < i + 1 implies !releases(
                    #[trigger] notes[j],
                    offset,
                    direction,
                ) by {
                    if j > 0 {
                        assert(notes[j] == rest[j - 1]);
                    }
                }
            },
            None => {
                assert forall|i: int| 0 <= i < notes.len() implies !releases(
                    #[trigger] notes[i],
                    offset,
                    direction,
                ) by {
                    if i > 0 {
                        assert(notes[i] == rest[i - 1]);
                    }
                }
            },
        }
    }
}

/// Finds where a hold that starts at `offset` in lane `direction` is
/// released: the position of the first later division with an end in that
/// lane. A hold that is never released is an error.
pub fn find_freeze_end(notes: &[Division], offset: i32, direction: Direction) -> (r: Result<
    i32,
    ChartError,
>)
    ensures
        match r {
            Ok(end) => first_release(views(notes@), offset as int, direction) == Some(end as int),
            Err(e) => e == ChartError::UnresolvedHold && first_release(
                views(notes@),
                offset as int,
                direction,
            ) is None,
        },
{
    let ghost all = views(notes@);
    assert(all.skip(0) =~= all);
    let mut i: usize = 0;
    while i < notes.len()
        invariant
            i <= notes.len(),
            all == views(notes@),
            first_release(all, offset as int, direction) == first_release(
                all.skip(i as int),
                offset as int,
                direction,
            ),
        decreases notes.len() - i,
    {
        assert(all.skip(i as int).drop_first() =~= all.skip(i + 1));
        if notes[i].releases(offset, direction) {
            return Ok(notes[i].offset);
        }
        i += 1;
    }
    Err(ChartError::UnresolvedHold)
}

} // verus!
