//! The timeline assembler: measures are decoded one after another, every
//! hold is paired with its release, and what is left is a timeline.

use crate::arrow::{
    decode_bar, find_freeze_end, first_release, lemma_first_release, lemma_row_arrows,
    lemma_rows_error_none, populated, releases, row_division, rows_to_divisions, views, Arrow,
    ArrowType, Color, Direction, Division, DivisionView, NOTE_UNIT,
};
use crate::error::{ChartError, FormatError};
use crate::text::{chars_of_each, nonempty_pieces, split_nonempty, str_texts, texts};
use vstd::prelude::*;

verus! {

/// An arrow as the timeline keeps it: the start of a hold carries the
/// position of its release, every other arrow carries 0.
pub open spec fn resolve_arrow(all: Seq<DivisionView>, offset: int, a: Arrow) -> Arrow {
    Arrow {
        direction: a.direction,
        arrow_type: a.arrow_type,
        end: if a.arrow_type == ArrowType::Freeze {
            match first_release(all, offset, a.direction) {
                Some(end) => end as i32,
                None => 0,
            }
        } else {
            0
        },
    }
}

/// The arrows of a division at `offset` that stay in the timeline, each
/// resolved against the whole chart `all`: the ends of holds leave.
pub open spec fn resolve_arrows(all: Seq<DivisionView>, offset: int, arrows: Seq<Arrow>) -> Seq<
    Arrow,
> {
    arrows.filter(|a: Arrow| a.arrow_type != ArrowType::FreezeEnd).map_values(
        |a: Arrow| resolve_arrow(all, offset, a),
    )
}

/// A division with its arrows resolved against the whole chart.
pub open spec fn resolve_division(all: Seq<DivisionView>, d: DivisionView) -> DivisionView {
    DivisionView { arrows: resolve_arrows(all, d.offset, d.arrows), color: d.color, offset: d.offset }
}

/// Whether arrow `j` of division `i` starts a hold that nothing releases.
pub open spec fn dangling(all: Seq<DivisionView>, i: int, j: int) -> bool {
    &&& 0 <= i < all.len()
    &&& 0 <= j < all[i].arrows.len()
    &&& all[i].arrows[j].arrow_type == ArrowType::Freeze
    &&& first_release(all, all[i].offset, all[i].arrows[j].direction) is None
}

/// The chart with every hold resolved and the divisions dropped that held
/// nothing but ends of holds; an error if some hold is never released.
pub open spec fn resolve(all: Seq<DivisionView>) -> Result<Seq<DivisionView>, ChartError> {
    if exists|i: int, j: int| dangling(all, i, j) {
        Err(ChartError::UnresolvedHold)
    } else {
        Ok(populated(all.map_values(|d: DivisionView| resolve_division(all, d))))
    }
}

/// A chart of one hold and one end. If the end stands in the lane of the
/// hold, the timeline is the start alone, released where the end stood; if
/// it stands in another lane, the chart is refused: an end never releases a
/// hold of another lane.
pub proof fn lemma_single_hold(
    offset: i32,
    length: i32,
    start_lane: Direction,
    end_lane: Direction,
    start_color: Color,
    end_color: Color,
)
    requires
        length > 0,
        offset + length <= i32::MAX,
    ensures
        ({
            let start = Arrow { direction: start_lane, arrow_type: ArrowType::Freeze, end: 0 };
            let end = Arrow { direction: end_lane, arrow_type: ArrowType::FreezeEnd, end: 0 };
            let chart = seq![
                DivisionView { arrows: seq![start], color: start_color, offset: offset as int },
                DivisionView { arrows: seq![end], color: end_color, offset: offset + length },
            ];
            let held = Arrow {
                direction: start_lane,
                arrow_type: ArrowType::Freeze,
                end: (offset + length) as i32,
            };
            resolve(chart) == if start_lane == end_lane {
                Ok::<Seq<DivisionView>, ChartError>(
                    seq![
                        DivisionView { arrows: seq![held], color: start_color, offset: offset as int },
                    ],
                )
            } else {
                Err::<Seq<DivisionView>, ChartError>(ChartError::UnresolvedHold)
            }
        }),
{
    let start = Arrow { direction: start_lane, arrow_type: ArrowType::Freeze, end: 0 };
    let end = Arrow { direction: end_lane, arrow_type: ArrowType::FreezeEnd, end: 0 };
    let first = DivisionView { arrows: seq![start], color: start_color, offset: offset as int };
    let second = DivisionView { arrows: seq![end], color: end_color, offset: offset + length };
    let chart = seq![first, second];
    let held = Arrow {
        direction: start_lane,
        arrow_type: ArrowType::Freeze,
        end: (offset + length) as i32,
    };
    assert(chart.drop_first() =~= seq![second]);
    assert(seq![second].drop_first() =~= Seq::<DivisionView>::empty());
    assert(first_release(chart, offset as int, start_lane) == first_release(
        seq![second],
        offset as int,
        start_lane,
    ));
    if start_lane == end_lane {
        assert(second.arrows[0].is_freeze_end(start_lane));
        let kept_first = resolve_arrows(chart, first.offset, first.arrows);
        let kept_second = resolve_arrows(chart, second.offset, second.arrows);
        assert(kept_first =~= seq![held] && kept_second =~= Seq::<Arrow>::empty()) by {
            reveal_with_fuel(Seq::filter, 3);
        }
        let resolved = chart.map_values(|d: DivisionView| resolve_division(chart, d));
        let kept = DivisionView { arrows: seq![held], color: start_color, offset: offset as int };
        assert(populated(resolved) =~= seq![kept]) by {
            reveal_with_fuel(Seq::filter, 3);
        }
    } else {
        assert(!releases(second, offset as int, start_lane));
        assert(first_release(Seq::<DivisionView>::empty(), offset as int, start_lane) is None);
        assert(dangling(chart, 0, 0));
    }
}

/// One more arrow is resolved and kept, unless it is the end of a hold.
proof fn lemma_resolve_arrows_push(all: Seq<DivisionView>, offset: int, arrows: Seq<Arrow>, a: Arrow)
    ensures
        resolve_arrows(all, offset, arrows.push(a)) == if a.arrow_type != ArrowType::FreezeEnd {
            resolve_arrows(all, offset, arrows).push(resolve_arrow(all, offset, a))
        } else {
            resolve_arrows(all, offset, arrows)
        },
{
    arrows.lemma_filter_push(a, |a: Arrow| a.arrow_type != ArrowType::FreezeEnd);
}

/// Resolves the arrows of division `i` of `notes`.
fn resolve_division_arrows(notes: &[Division], i: usize) -> (r: Result<Vec<Arrow>, ChartError>)
    requires
        i < notes.len(),
    ensures
        match r {
            Ok(arrows) => arrows@ == resolve_arrows(
                views(notes@),
                notes[i as int].offset as int,
                notes[i as int].arrows@,
            ) && forall|j: int| !dangling(views(notes@), i as int, j),
            Err(e) => e == ChartError::UnresolvedHold && exists|j: int|
                dangling(views(notes@), i as int, j),
        },
{
    let ghost all = views(notes@);
    let div = &notes[i];
    let mut arrows: Vec<Arrow> = Vec::new();
    let mut j: usize = 0;
    assert(resolve_arrows(all, div.offset as int, Seq::empty()) =~= Seq::empty()) by {
        reveal(Seq::filter);
    }
    while j < div.arrows.len()
        invariant
            i < notes.len(),
            all == views(notes@),
            *div == notes[i as int],
            j <= div.arrows.len(),
            arrows@ == resolve_arrows(all, div.offset as int, div.arrows@.take(j as int)),
            forall|k: int| 0 <= k < j ==> !dangling(all, i as int, k),
        decreases div.arrows.len() - j,
    {
        let arrow = div.arrows[j];
        let mut end: i32 = 0;
        if arrow.arrow_type == ArrowType::Freeze {
            match find_freeze_end(notes, div.offset, arrow.direction) {
                Ok(e) => {
                    end = e;
                },
                Err(e) => {
                    assert(dangling(all, i as int, j as int));
                    return Err(e);
                },
            }
        }
        proof {
            assert(div.arrows@.take(j + 1) =~= div.arrows@.take(j as int).push(arrow));
            lemma_resolve_arrows_push(all, div.offset as int, div.arrows@.take(j as int), arrow);
        }
        if arrow.arrow_type != ArrowType::FreezeEnd {
            arrows.push(Arrow { direction: arrow.direction, arrow_type: arrow.arrow_type, end });
        }
        j += 1;
    }
    assert(div.arrows@.take(j as int) =~= div.arrows@);
    Ok(arrows)
}

/// Pairs every hold of a chart with its release and folds the ends of holds
/// away: a division that held nothing else leaves the timeline.
pub fn resolve_freezes(notes: &[Division]) -> (r: Result<Vec<Division>, ChartError>)
    ensures
        r matches Ok(v) ==> resolve(views(notes@)) == Ok::<Seq<DivisionView>, ChartError>(
            views(v@),
        ),
        r matches Err(e) ==> resolve(views(notes@)) == Err::<Seq<DivisionView>, ChartError>(e),
{
    let ghost all = views(notes@);
    let ghost resolved = all.map_values(|d: DivisionView| resolve_division(all, d));
    let mut out: Vec<Division> = Vec::new();
    let mut i: usize = 0;
    assert(views(out@) =~= populated(resolved.take(0))) by {
        reveal(Seq::filter);
    }
    while i < notes.len()
        invariant
            i <= notes.len(),
            all == views(notes@),
            resolved == all.map_values(|d: DivisionView| resolve_division(all, d)),
            forall|k: int, j: int| 0 <= k < i ==> !dangling(all, k, j),
            views(out@) == populated(resolved.take(i as int)),
        decreases notes.len() - i,
    {
        let arrows = match resolve_division_arrows(notes, i) {
            Ok(arrows) => arrows,
            Err(e) => {
                return Err(e);
            },
        };
        proof {
            let prefix = resolved.take(i as int);
            assert(resolved.take(i + 1) =~= prefix.push(resolved[i as int]));
            prefix.lemma_filter_push(resolved[i as int], |d: DivisionView| d.arrows.len() > 0);
        }
        if arrows.len() > 0 {
            let division = Division { arrows, color: notes[i].color, offset: notes[i].offset };
            out.push(division);
        }
        i += 1;
    }
    assert(resolved.take(i as int) =~= resolved);
    Ok(out)
}

/// The rows of a measure: the lines of its text that are not empty.
pub open spec fn bar_rows(bar: Seq<char>) -> Seq<Seq<char>> {
    nonempty_pieces(bar, '\n')
}

/// The divisions of the first `k` measures of a chart, measure `m` starting
/// at `m * NOTE_UNIT`, or the error of the first measure that is refused.
pub open spec fn decode_bars(bars: Seq<Seq<char>>, k: int) -> Result<Seq<DivisionView>, ChartError>
    decreases k,
{
    if k <= 0 {
        Ok(Seq::empty())
    } else {
        match decode_bars(bars, k - 1) {
            Err(e) => Err(e),
            Ok(head) => match decode_bar(bar_rows(bars[k - 1]), (k - 1) * NOTE_UNIT as int) {
                Err(e) => Err(e),
                Ok(divisions) => Ok(head + divisions),
            },
        }
    }
}

/// The timeline of a chart: all measures decoded, then every hold resolved.
/// A chart whose measures outrun the positions is refused before anything
/// is decoded.
pub open spec fn assemble(bars: Seq<Seq<char>>) -> Result<Seq<DivisionView>, ChartError> {
    if bars.len() * NOTE_UNIT > i32::MAX {
        Err(ChartError::Format(FormatError::MeasureCount))
    } else {
        match decode_bars(bars, bars.len() as int) {
            Err(e) => Err(e),
            Ok(all) => resolve(all),
        }
    }
}

/// Whether the positions of a list of divisions ascend strictly.
pub open spec fn ascending(notes: Seq<DivisionView>) -> bool {
    forall|i: int, j: int| 0 <= i < j < notes.len() ==> notes[i].offset < notes[j].offset
}

/// Whether an arrow is one that a timeline holds at position `offset`: no
/// end of a hold and no empty cell; a release position after `offset` on
/// the start of a hold, and none on any other arrow.
pub open spec fn is_settled(a: Arrow, offset: int) -> bool {
    &&& a.arrow_type != ArrowType::FreezeEnd
    &&& a.arrow_type != ArrowType::Empty
    &&& if a.arrow_type == ArrowType::Freeze {
        a.end > offset
    } else {
        a.end == 0
    }
}

/// Whether a list of divisions is a timeline: positions that can be
/// numbered and ascend strictly, no division without arrows, and every arrow
/// settled.
pub open spec fn is_timeline(notes: Seq<DivisionView>) -> bool {
    &&& ascending(notes)
    &&& forall|i: int|
        0 <= i < notes.len() ==> 0 <= (#[trigger] notes[i]).offset <= i32::MAX
            && notes[i].arrows.len() > 0
    &&& forall|i: int, j: int|
        0 <= i < notes.len() && 0 <= j < notes[i].arrows.len() ==> is_settled(
            #[trigger] notes[i].arrows[j],
            notes[i].offset,
        )
}

/// Whether a list of divisions is what decoding gives: positions from 0 up
/// to, not including, `limit`, ascending strictly, and no empty cell among
/// the arrows.
spec fn is_decoded(all: Seq<DivisionView>, limit: int) -> bool {
    &&& ascending(all)
    &&& forall|i: int| 0 <= i < all.len() ==> 0 <= (#[trigger] all[i]).offset < limit
    &&& forall|i: int, j: int|
        0 <= i < all.len() && 0 <= j < all[i].arrows.len() ==> (#[trigger] all[i].arrows[j]).arrow_type
            != ArrowType::Empty
}

/// What is kept of an ascending list ascends, and is part of the list.
proof fn lemma_filter_ascending(s: Seq<DivisionView>, pred: spec_fn(DivisionView) -> bool)
    requires
        ascending(s),
    ensures
        ascending(s.filter(pred)),
        forall|i: int|
            0 <= i < s.filter(pred).len() ==> s.contains(#[trigger] s.filter(pred)[i]) && pred(
                s.filter(pred)[i],
            ),
    decreases s.len(),
{
    reveal(Seq::filter);
    if s.len() > 0 {
        let head = s.drop_last();
        lemma_filter_ascending(head, pred);
    }
}

/// The divisions of one measure ascend within the measure and hold no
/// empty cell.
proof fn lemma_decode_bar_decoded(rows: Seq<Seq<char>>, offset: int)
    requires
        decode_bar(rows, offset) is Ok,
        offset >= 0,
    ensures
        ({
            let divisions = decode_bar(rows, offset).unwrap();
            &&& ascending(divisions)
            &&& forall|i: int|
                0 <= i < divisions.len() ==> offset <= (#[trigger] divisions[i]).offset < offset
                    + NOTE_UNIT
            &&& forall|i: int, j: int|
                0 <= i < divisions.len() && 0 <= j < divisions[i].arrows.len() ==> (
                #[trigger] divisions[i].arrows[j]).arrow_type != ArrowType::Empty
        }),
{
    let n = rows.len() as int;
    let step = NOTE_UNIT as int / n;
    let all = Seq::new(rows.len(), |i: int| row_division(rows, offset, i));
    assert(step >= 1 && n * step == 192) by (nonlinear_arith)
        requires
            n > 0,
            192int % n == 0,
            step == 192int / n,
    ;
    assert forall|i: int, j: int| 0 <= i < j < all.len() implies all[i].offset
        < all[j].offset by {
        assert(i * step < j * step) by (nonlinear_arith)
            requires
                i < j,
                step >= 1,
        ;
    }
    assert forall|i: int| 0 <= i < all.len() implies offset <= (#[trigger] all[i]).offset < offset
        + 192 by {
        assert(0 <= i * step < n * step) by (nonlinear_arith)
            requires
                0 <= i < n,
                step >= 1,
        ;
    }
    lemma_filter_ascending(all, |d: DivisionView| d.arrows.len() > 0);
    let divisions = decode_bar(rows, offset).unwrap();
    assert forall|i: int| 0 <= i < divisions.len() implies offset <= (
    #[trigger] divisions[i]).offset < offset + NOTE_UNIT && forall|j: int|
        0 <= j < divisions[i].arrows.len() ==> (#[trigger] divisions[i].arrows[j]).arrow_type
            != ArrowType::Empty by {
        let k = choose|k: int| 0 <= k < all.len() && all[k] == divisions[i];
        lemma_rows_error_none(rows, n, k);
        lemma_row_arrows(rows[k]);
    }
}

/// The divisions of the first `k` measures ascend, lie before the end of
/// measure `k`, and hold no empty cell.
proof fn lemma_decode_bars_decoded(bars: Seq<Seq<char>>, k: int)
    requires
        0 <= k,
        decode_bars(bars, k) is Ok,
    ensures
        is_decoded(decode_bars(bars, k).unwrap(), k * NOTE_UNIT),
    decreases k,
{
    if k > 0 {
        lemma_decode_bars_decoded(bars, k - 1);
        let offset = (k - 1) * NOTE_UNIT as int;
        lemma_decode_bar_decoded(bar_rows(bars[k - 1]), offset);
    }
}

/// Resolving what was decoded gives a timeline.
proof fn lemma_resolve_timeline(all: Seq<DivisionView>, limit: int)
    requires
        is_decoded(all, limit),
        limit <= i32::MAX,
        resolve(all) is Ok,
    ensures
        is_timeline(resolve(all).unwrap()),
{
    let resolved = all.map_values(|d: DivisionView| resolve_division(all, d));
    let notes = resolve(all).unwrap();
    lemma_filter_ascending(resolved, |d: DivisionView| d.arrows.len() > 0);
    assert forall|i: int| 0 <= i < notes.len() implies 0 <= (#[trigger] notes[i]).offset
        <= i32::MAX && notes[i].arrows.len() > 0 && forall|j: int|
        0 <= j < notes[i].arrows.len() ==> is_settled(
            #[trigger] notes[i].arrows[j],
            notes[i].offset,
        ) by {
        let k = choose|k: int| 0 <= k < resolved.len() && resolved[k] == notes[i];
        let d = all[k];
        let kept = d.arrows.filter(|a: Arrow| a.arrow_type != ArrowType::FreezeEnd);
        assert forall|j: int| 0 <= j < notes[i].arrows.len() implies is_settled(
            #[trigger] notes[i].arrows[j],
            notes[i].offset,
        ) by {
            let a = kept[j];
            d.arrows.lemma_filter_pred(|a: Arrow| a.arrow_type != ArrowType::FreezeEnd, j);
            d.arrows.lemma_filter_contains_rev(|a: Arrow| a.arrow_type != ArrowType::FreezeEnd, a);
            let m = choose|m: int| 0 <= m < d.arrows.len() && d.arrows[m] == a;
            if a.arrow_type == ArrowType::Freeze {
                assert(!dangling(all, k, m));
                lemma_first_release(all, d.offset, a.direction);
            }
        }
    }
}

/// What the assembler builds is a timeline: its positions ascend, none of
/// its divisions is empty, no end of a hold is left in it, and exactly the
/// starts of holds carry a release position, which lies after them.
pub proof fn lemma_assemble_timeline(bars: Seq<Seq<char>>)
    requires
        assemble(bars) is Ok,
    ensures
        is_timeline(assemble(bars).unwrap()),
{
    lemma_decode_bars_decoded(bars, bars.len() as int);
    let all = decode_bars(bars, bars.len() as int).unwrap();
    lemma_resolve_timeline(all, bars.len() * NOTE_UNIT);
}

/// Once a measure among the first `k` is refused, its error is that of
/// every longer prefix.
proof fn lemma_decode_bars_error_stays(bars: Seq<Seq<char>>, k: int, n: int)
    requires
        0 <= k <= n,
        decode_bars(bars, k) is Err,
    ensures
        decode_bars(bars, n) == decode_bars(bars, k),
    decreases n - k,
{
    if k < n {
        lemma_decode_bars_error_stays(bars, k, n - 1);
    }
}

/// Builds the timeline of a chart from the text of its measures, one string
/// for each measure, its rows on lines of their own.
pub fn str_to_notes(bars: Vec<&str>) -> (r: Result<Vec<Division>, ChartError>)
    ensures
        r matches Ok(v) ==> assemble(str_texts(bars@)) == Ok::<Seq<DivisionView>, ChartError>(
            views(v@),
        ),
        r matches Err(e) ==> assemble(str_texts(bars@)) == Err::<Seq<DivisionView>, ChartError>(e),
        r matches Ok(v) ==> is_timeline(views(v@)),
{
    if bars.len() > (i32::MAX / NOTE_UNIT) as usize {
        return Err(ChartError::Format(FormatError::MeasureCount));
    }
    let measures = chars_of_each(&bars);
    measures_to_notes(&measures)
}

/// Builds the timeline of a chart from the characters of its measures.
pub fn measures_to_notes(bars: &Vec<Vec<char>>) -> (r: Result<Vec<Division>, ChartError>)
    ensures
        r matches Ok(v) ==> assemble(texts(bars@)) == Ok::<Seq<DivisionView>, ChartError>(
            views(v@),
        ),
        r matches Err(e) ==> assemble(texts(bars@)) == Err::<Seq<DivisionView>, ChartError>(e),
        r matches Ok(v) ==> is_timeline(views(v@)),
{
    if bars.len() > (i32::MAX / NOTE_UNIT) as usize {
        return Err(ChartError::Format(FormatError::MeasureCount));
    }
    let ghost all = texts(bars@);
    let mut notes: Vec<Division> = Vec::new();
    let mut offset: i32 = 0;
    let mut k: usize = 0;
    assert(views(notes@) =~= Seq::empty());
    while k < bars.len()
        invariant
            k <= bars.len(),
            bars.len() * NOTE_UNIT <= i32::MAX,
            all == texts(bars@),
            offset == k * NOTE_UNIT,
            decode_bars(all, k as int) == Ok::<Seq<DivisionView>, ChartError>(views(notes@)),
        decreases bars.len() - k,
    {
        let rows = split_nonempty(bars[k].as_slice(), '\n');
        let mut divisions = match rows_to_divisions(&rows, offset) {
            Ok(divisions) => divisions,
            Err(e) => {
                proof {
                    lemma_decode_bars_error_stays(all, k + 1, bars.len() as int);
                }
                return Err(e);
            },
        };
        let ghost head = views(notes@);
        let ghost tail = views(divisions@);
        notes.append(&mut divisions);
        assert(views(notes@) =~= head + tail);
        offset += NOTE_UNIT;
        k += 1;
    }
    let r = resolve_freezes(notes.as_slice());
    proof {
        if r is Ok {
            lemma_assemble_timeline(all);
        }
    }
    r
}

} // verus!
