//! The groove radar: five scores of a chart, and the whole-number
//! measurements of a timeline that they are computed from. The scores
//! themselves take tempi and seconds, which are no integers; a caller
//! that has them finishes the computation from the measurements here.

use crate::arrow::{views, Arrow, Color, Division, DivisionView, NOTE_UNIT};
use crate::error::ChartError;
use crate::math::{greatest, greatest_or_zero, lemma_greatest, sum};
use itertools::Itertools;
use vstd::prelude::*;

verus! {

/// The five scores of a chart.
#[derive(Debug, PartialEq, Eq, Clone, Copy, Structural)]
pub struct GrooveRadar {
    pub stream: i32,
    pub voltage: i32,
    pub air: i32,
    pub freeze: i32,
    pub chaos: i32,
}

/// Whether a division lies strictly after `offset` and at most one measure
/// later.
pub open spec fn follows_within_measure(d: DivisionView, offset: int) -> bool {
    offset < d.offset <= offset + NOTE_UNIT
}

/// The divisions of `notes` that follow `offset` within one measure.
pub open spec fn subsequent_notes(notes: Seq<DivisionView>, offset: int) -> Seq<DivisionView> {
    notes.filter(|d: DivisionView| follows_within_measure(d, offset))
}

/// Counts the divisions that lie strictly after `offset` and no more than
/// one measure later.
pub fn count_subsequent_notes(notes: &[Division], offset: i32) -> (count: usize)
    ensures
        count == subsequent_notes(views(notes@), offset as int).len(),
{
    let ghost all = views(notes@);
    let mut count: usize = 0;
    let mut i: usize = 0;
    assert(subsequent_notes(all.take(0), offset as int).len() == 0) by {
        reveal(Seq::filter);
    }
    while i < notes.len()
        invariant
            i <= notes.len(),
            all == views(notes@),
            count == subsequent_notes(all.take(i as int), offset as int).len(),
            count <= i,
        decreases notes.len() - i,
    {
        proof {
            let prefix = all.take(i as int);
            assert(all.take(i + 1) =~= prefix.push(all[i as int]));
            prefix.lemma_filter_len_push(
                |d: DivisionView| follows_within_measure(d, offset as int),
                all[i as int],
            );
        }
        let at = notes[i].offset;
        if offset < at && at as i64 <= offset as i64 + NOTE_UNIT as i64 {
            count += 1;
        }
        i += 1;
    }
    assert(all.take(i as int) =~= all);
    count
}

/// The divisions that are jumps.
pub open spec fn jumps(notes: Seq<DivisionView>) -> Seq<DivisionView> {
    notes.filter(|d: DivisionView| d.is_jump())
}

/// The divisions that are shocks.
pub open spec fn shocks(notes: Seq<DivisionView>) -> Seq<DivisionView> {
    notes.filter(|d: DivisionView| d.is_shock())
}

/// Counts the divisions in which exactly two arrows are stepped on at once.
pub fn count_jumps(notes: &[Division]) -> (count: usize)
    ensures
        count == jumps(views(notes@)).len(),
{
    let ghost all = views(notes@);
    let mut count: usize = 0;
    let mut i: usize = 0;
    assert(jumps(all.take(0)).len() == 0) by {
        reveal(Seq::filter);
    }
    while i < notes.len()
        invariant
            i <= notes.len(),
            all == views(notes@),
            count == jumps(all.take(i as int)).len(),
            count <= i,
        decreases notes.len() - i,
    {
        proof {
            let prefix = all.take(i as int);
            assert(all.take(i + 1) =~= prefix.push(all[i as int]));
            prefix.lemma_filter_len_push(|d: DivisionView| d.is_jump(), all[i as int]);
        }
        if notes[i].is_jump() {
            count += 1;
        }
        i += 1;
    }
    assert(all.take(i as int) =~= all);
    count
}

/// Counts the divisions that hold a mine.
pub fn count_shocks(notes: &[Division]) -> (count: usize)
    ensures
        count == shocks(views(notes@)).len(),
{
    let ghost all = views(notes@);
    let mut count: usize = 0;
    let mut i: usize = 0;
    assert(shocks(all.take(0)).len() == 0) by {
        reveal(Seq::filter);
    }
    while i < notes.len()
        invariant
            i <= notes.len(),
            all == views(notes@),
            count == shocks(all.take(i as int)).len(),
            count <= i,
        decreases notes.len() - i,
    {
        proof {
            let prefix = all.take(i as int);
            assert(all.take(i + 1) =~= prefix.push(all[i as int]));
            prefix.lemma_filter_len_push(|d: DivisionView| d.is_shock(), all[i as int]);
        }
        if notes[i].is_shock() {
            count += 1;
        }
        i += 1;
    }
    assert(all.take(i as int) =~= all);
    count
}

/// Counts the jumps and the shocks of a chart; a division that is both
/// counts twice.
pub fn count_air(notes: &[Division]) -> (count: u128)
    ensures
        count == jumps(views(notes@)).len() + shocks(views(notes@)).len(),
{
    count_jumps(notes) as u128 + count_shocks(notes) as u128
}

/// What each color adds to the chaos of a chart: nothing on the beat, more
/// the finer the subdivision.
pub open spec fn weight_of(color: Color) -> int {
    match color {
        Color::Red => 0,
        Color::Blue => 2,
        Color::Yellow => 4,
        Color::Green => 5,
    }
}

/// The weight of a color in the chaos score.
pub fn color_weight(color: &Color) -> (w: i32)
    ensures
        w == weight_of(*color),
{
    match color {
        Color::Red => 0,
        Color::Blue => 2,
        Color::Yellow => 4,
        Color::Green => 5,
    }
}

/// The neighbouring pairs of a list, in order: none for a list of fewer than
/// two items.
pub open spec fn neighbours(items: Seq<i32>) -> Seq<(i32, i32)> {
    Seq::new(
        if items.len() == 0 {
            0nat
        } else {
            (items.len() - 1) as nat
        },
        |i: int| (items[i], items[i + 1]),
    )
}

/// Pairs neighbouring items by `Itertools::tuple_windows`, with windows of
/// two, collected into a vector. Taken on trust, not proved: the windows
/// are the pairs of neighbouring items, in order, and there is none where
/// `items` has fewer than two items.
#[verifier::external_body]
fn tuple_windows(items: &Vec<i32>) -> (pairs: Vec<(i32, i32)>)
    ensures
        pairs@ == neighbours(items@),
{
    items.iter().copied().tuple_windows().collect()
}

/// The bounds of the tempo sections of a chart: from each tempo change to
/// the next, and from the last tempo change to the chart's last division.
pub open spec fn section_bounds(tempos: Seq<i32>, last: i32) -> Seq<(i32, i32)> {
    neighbours(tempos.push(last))
}

/// Lists the bounds of the tempo sections of a chart whose last division
/// lies at `last`, one pair for each tempo change.
pub fn tempo_sections(tempos: &[i32], last: i32) -> (bounds: Vec<(i32, i32)>)
    ensures
        bounds@ == section_bounds(tempos@, last),
        bounds@.len() == tempos@.len(),
{
    let mut marks: Vec<i32> = Vec::new();
    let mut i: usize = 0;
    while i < tempos.len()
        invariant
            i <= tempos.len(),
            marks@ == tempos@.take(i as int),
        decreases tempos.len() - i,
    {
        marks.push(tempos[i]);
        i += 1;
    }
    marks.push(last);
    tuple_windows(&marks)
}

/// Whether a division lies in the section from `lo` up to, not including,
/// `hi`.
pub open spec fn in_section(d: DivisionView, lo: int, hi: int) -> bool {
    lo <= d.offset < hi
}

/// The divisions of a section.
pub open spec fn section(notes: Seq<DivisionView>, lo: int, hi: int) -> Seq<DivisionView> {
    notes.filter(|d: DivisionView| in_section(d, lo, hi))
}

/// Copies the divisions that lie in the section from `lo` up to, not
/// including, `hi`.
pub fn section_of(notes: &[Division], lo: i32, hi: i32) -> (part: Vec<Division>)
    ensures
        views(part@) == section(views(notes@), lo as int, hi as int),
{
    let ghost all = views(notes@);
    let mut part: Vec<Division> = Vec::new();
    let mut i: usize = 0;
    assert(views(part@) =~= section(all.take(0), lo as int, hi as int)) by {
        reveal(Seq::filter);
    }
    while i < notes.len()
        invariant
            i <= notes.len(),
            all == views(notes@),
            views(part@) == section(all.take(i as int), lo as int, hi as int),
        decreases notes.len() - i,
    {
        proof {
            let prefix = all.take(i as int);
            assert(all.take(i + 1) =~= prefix.push(all[i as int]));
            prefix.lemma_filter_push(
                all[i as int],
                |d: DivisionView| in_section(d, lo as int, hi as int),
            );
        }
        if notes[i].offset >= lo && notes[i].offset < hi {
            part.push(notes[i].duplicate());
        }
        i += 1;
    }
    assert(all.take(i as int) =~= all);
    part
}

/// The sections of a chart, one for each tempo change.
pub open spec fn sections(notes: Seq<DivisionView>, tempos: Seq<i32>) -> Seq<Seq<DivisionView>> {
    let bounds = section_bounds(tempos, notes.last().offset as i32);
    Seq::new(bounds.len(), |i: int| section(notes, bounds[i].0 as int, bounds[i].1 as int))
}

/// The divisions of each list, each as a mathematical value.
pub open spec fn section_views(parts: Seq<Vec<Division>>) -> Seq<Seq<DivisionView>> {
    parts.map_values(|part: Vec<Division>| views(part@))
}

/// Cuts a chart into its tempo sections: section `i` holds the divisions
/// from tempo change `i` up to the next, the last one those up to, but
/// without, the chart's last division.
pub fn create_bpm_section_list(notes: &[Division], tempos: &[i32]) -> (parts: Vec<Vec<Division>>)
    requires
        notes@.len() > 0,
    ensures
        section_views(parts@) == sections(views(notes@), tempos@),
{
    let last = notes[notes.len() - 1].offset;
    let bounds = tempo_sections(tempos, last);
    let mut parts: Vec<Vec<Division>> = Vec::new();
    let mut i: usize = 0;
    while i < bounds.len()
        invariant
            i <= bounds.len(),
            bounds@ == section_bounds(tempos@, last),
            parts@.len() == i,
            forall|j: int|
                0 <= j < i ==> views((#[trigger] parts@[j])@) == section(
                    views(notes@),
                    bounds@[j].0 as int,
                    bounds@[j].1 as int,
                ),
        decreases bounds.len() - i,
    {
        let part = section_of(notes, bounds[i].0, bounds[i].1);
        parts.push(part);
        i += 1;
    }
    parts
}

/// How many divisions follow each division of a section within one
/// measure, counted inside the section.
pub open spec fn densities(part: Seq<DivisionView>) -> Seq<int> {
    Seq::new(part.len(), |i: int| subsequent_notes(part, part[i].offset).len() as int)
}

/// The density of a section: the most divisions that follow one of its
/// divisions within a measure, and 0 for an empty section.
pub open spec fn section_density(part: Seq<DivisionView>) -> int {
    greatest_or_zero(densities(part))
}

/// Finds the density of a section.
pub fn calc_max_notes_in_bpm_section(part: &[Division]) -> (density: usize)
    ensures
        density == section_density(views(part@)),
{
    let ghost all = densities(views(part@));
    let mut best: usize = 0;
    let mut i: usize = 0;
    while i < part.len()
        invariant
            i <= part.len(),
            all == densities(views(part@)),
            best == greatest_or_zero(all.take(i as int)),
        decreases part.len() - i,
    {
        let count = count_subsequent_notes(part, part[i].offset);
        assert(all.take(i + 1).drop_last() =~= all.take(i as int));
        if count > best {
            best = count;
        }
        i += 1;
    }
    assert(all.take(i as int) =~= all);
    best
}

/// The density of each section of a chart.
pub open spec fn section_densities(notes: Seq<DivisionView>, tempos: Seq<i32>) -> Seq<int> {
    sections(notes, tempos).map_values(|part: Seq<DivisionView>| section_density(part))
}

/// Finds the highest density among the tempo sections of a chart. A chart
/// without a tempo has no section and is refused.
pub fn calc_max_note_density(notes: &[Division], tempos: &[i32]) -> (r: Result<usize, ChartError>)
    requires
        notes@.len() > 0,
    ensures
        match r {
            Ok(density) => tempos@.len() > 0 && Some(density as int) == greatest(
                section_densities(views(notes@), tempos@),
            ),
            Err(e) => e == ChartError::TimingPrecondition && tempos@.len() == 0,
        },
{
    if tempos.len() == 0 {
        return Err(ChartError::TimingPrecondition);
    }
    let parts = create_bpm_section_list(notes, tempos);
    let ghost all = section_densities(views(notes@), tempos@);
    let mut best: usize = 0;
    let mut i: usize = 0;
    while i < parts.len()
        invariant
            i <= parts.len(),
            all.len() == parts.len(),
            all == section_densities(views(notes@), tempos@),
            section_views(parts@) == sections(views(notes@), tempos@),
            best == greatest_or_zero(all.take(i as int)),
            i > 0 ==> greatest(all.take(i as int)) is Some,
        decreases parts.len() - i,
    {
        let density = calc_max_notes_in_bpm_section(parts[i].as_slice());
        assert(all.take(i + 1).drop_last() =~= all.take(i as int));
        if density > best {
            best = density;
        }
        i += 1;
    }
    assert(all.take(i as int) =~= all);
    Ok(best)
}

/// How long each hold that starts in a division lasts, in rhythmic
/// positions.
pub open spec fn freeze_lengths(d: DivisionView) -> Seq<int> {
    d.arrows.filter(|a: Arrow| a.is_freeze()).map_values(|a: Arrow| a.end - d.offset)
}

/// The longest hold that starts in a division, and 0 where none starts.
pub open spec fn longest_freeze(d: DivisionView) -> int {
    greatest_or_zero(freeze_lengths(d))
}

/// One more arrow adds its length to the lengths if it starts a hold.
proof fn lemma_freeze_lengths_push(d: DivisionView, k: int)
    requires
        0 <= k < d.arrows.len(),
    ensures
        freeze_lengths(DivisionView { arrows: d.arrows.take(k + 1), ..d }) == if d.arrows[k].is_freeze() {
            freeze_lengths(DivisionView { arrows: d.arrows.take(k), ..d }).push(
                d.arrows[k].end - d.offset,
            )
        } else {
            freeze_lengths(DivisionView { arrows: d.arrows.take(k), ..d })
        },
{
    let prefix = d.arrows.take(k);
    assert(d.arrows.take(k + 1) =~= prefix.push(d.arrows[k]));
    prefix.lemma_filter_push(d.arrows[k], |a: Arrow| a.is_freeze());
}

impl Division {
    /// The length of the longest hold that starts here, 0 if none does.
    pub fn longest_freeze(&self) -> (len: i64)
        ensures
            len == longest_freeze(self@),
    {
        let ghost d = self@;
        let mut best: Option<i64> = None;
        let mut k: usize = 0;
        assert(freeze_lengths(DivisionView { arrows: d.arrows.take(0), ..d }) =~= Seq::empty()) by {
            reveal(Seq::filter);
        }
        while k < self.arrows.len()
            invariant
                k <= self.arrows.len(),
                d == self@,
                match best {
                    Some(b) => greatest(
                        freeze_lengths(DivisionView { arrows: d.arrows.take(k as int), ..d }),
                    ) == Some(b as int),
                    None => greatest(
                        freeze_lengths(DivisionView { arrows: d.arrows.take(k as int), ..d }),
                    ) is None,
                },
            decreases self.arrows.len() - k,
        {
            proof {
                lemma_freeze_lengths_push(d, k as int);
                let lengths = freeze_lengths(DivisionView { arrows: d.arrows.take(k + 1), ..d });
                if d.arrows[k as int].is_freeze() {
                    assert(lengths.drop_last() =~= freeze_lengths(
                        DivisionView { arrows: d.arrows.take(k as int), ..d },
                    ));
                }
            }
            let arrow = self.arrows[k];
            if arrow.is_freeze() {
                let len: i64 = arrow.end as i64 - self.offset as i64;
                best = match best {
                    Some(b) => if b >= len {
                        Some(b)
                    } else {
                        Some(len)
                    },
                    None => Some(len),
                };
            }
            k += 1;
        }
        assert(d.arrows.take(k as int) =~= d.arrows);
        match best {
            Some(b) => b,
            None => 0,
        }
    }
}

/// The longest hold of each division of a chart.
pub open spec fn longest_freezes(notes: Seq<DivisionView>) -> Seq<int> {
    notes.map_values(|d: DivisionView| longest_freeze(d))
}

/// The hold of a chart, in rhythmic positions: the longest hold of every
/// division, added up. A beat is `NOTE_UNIT / 4` positions, so the beats of
/// hold are this total over `NOTE_UNIT / 4`; they need not be a whole
/// number, and nothing is rounded here.
pub open spec fn freeze_units(notes: Seq<DivisionView>) -> int {
    sum(longest_freezes(notes))
}

/// Adds up the longest hold of every division, in rhythmic positions. A
/// division with several holds counts with its longest one only.
pub fn calc_freeze_units(notes: &[Division]) -> (units: i128)
    ensures
        units == freeze_units(views(notes@)),
{
    let ghost all = longest_freezes(views(notes@));
    let mut total: i128 = 0;
    let mut i: usize = 0;
    while i < notes.len()
        invariant
            i <= notes.len(),
            all == longest_freezes(views(notes@)),
            total == sum(all.take(i as int)),
            -(i * 0x1_0000_0000) <= total <= i * 0x1_0000_0000,
        decreases notes.len() - i,
    {
        let len = notes[i].longest_freeze();
        proof {
            assert(all.take(i + 1).drop_last() =~= all.take(i as int));
            lemma_longest_freeze_bound(notes@[i as int]);
        }
        total = total + len as i128;
        i += 1;
    }
    assert(all.take(i as int) =~= all);
    total
}

/// A hold is no longer than the distance between two positions can be.
proof fn lemma_longest_freeze_bound(d: Division)
    ensures
        -0x1_0000_0000 < longest_freeze(d@) < 0x1_0000_0000,
{
    lemma_greatest(freeze_lengths(d@));
}

/// What the step from one division to the next adds to the chaos of a
/// chart: the next division's arrows and the weight of its color, over the
/// distance between the two.
#[derive(Debug, PartialEq, Eq, Clone, Copy, Structural)]
pub struct ChaosStep {
    pub arrows: usize,
    pub weight: i32,
    pub interval: i64,
}

/// Whether `step` is the step into division `i + 1` of `notes`.
pub open spec fn is_chaos_step(notes: Seq<DivisionView>, i: int, step: ChaosStep) -> bool {
    &&& step.arrows == notes[i + 1].arrows.len()
    &&& step.weight == weight_of(notes[i + 1].color)
    &&& step.interval == notes[i + 1].offset - notes[i].offset
}

/// Lists the steps between neighbouring divisions of a chart, in order: one
/// fewer than there are divisions.
pub fn chaos_steps(notes: &[Division]) -> (steps: Vec<ChaosStep>)
    ensures
        steps@.len() == if notes@.len() == 0 {
            0
        } else {
            notes@.len() - 1
        },
        forall|i: int|
            0 <= i < steps@.len() ==> is_chaos_step(views(notes@), i, #[trigger] steps@[i]),
{
    let mut offsets: Vec<i32> = Vec::new();
    let mut i: usize = 0;
    while i < notes.len()
        invariant
            i <= notes.len(),
            offsets@.len() == i,
            forall|j: int| 0 <= j < i ==> #[trigger] offsets@[j] == notes@[j].offset,
        decreases notes.len() - i,
    {
        offsets.push(notes[i].offset);
        i += 1;
    }
    let pairs = tuple_windows(&offsets);
    let mut steps: Vec<ChaosStep> = Vec::new();
    let mut k: usize = 0;
    while k < pairs.len()
        invariant
            k <= pairs.len(),
            pairs@ == neighbours(offsets@),
            offsets@.len() == notes@.len(),
            forall|j: int| 0 <= j < offsets@.len() ==> #[trigger] offsets@[j] == notes@[j].offset,
            steps@.len() == k,
            forall|j: int| 0 <= j < k ==> is_chaos_step(views(notes@), j, #[trigger] steps@[j]),
        decreases pairs.len() - k,
    {
        let next = &notes[k + 1];
        let step = ChaosStep {
            arrows: next.arrows.len(),
            weight: color_weight(&next.color),
            interval: pairs[k].1 as i64 - pairs[k].0 as i64,
        };
        steps.push(step);
        k += 1;
    }
    steps
}

} // verus!
