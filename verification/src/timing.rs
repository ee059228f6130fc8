//! The timing model in whole units: which tempo is in force over which
//! stretch of rhythmic positions, and which pauses lie before a position.
//! Turning a stretch into seconds takes the tempo itself, which is no
//! integer, and is left to the caller.

use crate::error::ChartError;
use vstd::prelude::*;

verus! {

/// A stretch of `units` rhythmic positions played at the tempo with index
/// `tempo` in the chart's tempo list. At a tempo of `bpm` beats per minute
/// it lasts `60 / bpm` seconds for each quarter note, that is for each
/// `NOTE_UNIT / 4` units.
#[derive(Debug, PartialEq, Eq, Clone, Copy, Structural)]
pub struct Span {
    pub tempo: usize,
    pub units: i64,
}

/// A stretch as a mathematical value.
pub struct SpanView {
    pub tempo: int,
    pub units: int,
}

impl View for Span {
    type V = SpanView;

    open spec fn view(&self) -> SpanView {
        SpanView { tempo: self.tempo as int, units: self.units as int }
    }
}

/// The stretches of a list, each as a mathematical value.
pub open spec fn span_views(spans: Seq<Span>) -> Seq<SpanView> {
    spans.map_values(|s: Span| s@)
}

/// How many items at the front of `offsets` lie before position `t`.
pub open spec fn leading(offsets: Seq<i32>, t: int) -> int
    decreases offsets.len(),
{
    if offsets.len() == 0 || offsets[0] >= t {
        0
    } else {
        1 + leading(offsets.drop_first(), t)
    }
}

/// Where the stretch that ends at breakpoint `i` begins: the chart's start
/// for the first breakpoint, the breakpoint before it for the others.
pub open spec fn span_start(tempos: Seq<i32>, i: int) -> int {
    if i <= 0 {
        0
    } else {
        tempos[i - 1] as int
    }
}

/// The tempo in force on the stretch that ends at breakpoint `i`. Before
/// the first breakpoint the first tempo is in force.
pub open spec fn span_tempo(i: int) -> int {
    if i <= 0 {
        0
    } else {
        i - 1
    }
}

/// The stretch between two breakpoints that both lie before the target.
pub open spec fn full_span(tempos: Seq<i32>, i: int) -> SpanView {
    SpanView { tempo: span_tempo(i), units: tempos[i] - span_start(tempos, i) }
}

/// The stretches walked to reach position `t`, in order: one up to each
/// breakpoint before `t`; then, if a breakpoint at or after `t` stopped the
/// walk, the part up to `t` at the tempo in force; and, if the last
/// breakpoint lies before `t`, the part up to `t` at the last tempo.
pub open spec fn schedule(tempos: Seq<i32>, t: int) -> Seq<SpanView> {
    let m = leading(tempos, t);
    let rest = SpanView { tempo: span_tempo(m), units: t - span_start(tempos, m) };
    let tail = SpanView { tempo: tempos.len() - 1, units: t - span_start(tempos, m) };
    Seq::new(m as nat, |i: int| full_span(tempos, i)) + (if m < tempos.len() {
        seq![rest]
    } else {
        Seq::empty()
    }) + (if tempos.last() < t {
        seq![tail]
    } else {
        Seq::empty()
    })
}

/// `leading` is the index of the first item at or after `t`.
pub proof fn lemma_leading(offsets: Seq<i32>, t: int, i: int)
    requires
        0 <= i <= offsets.len(),
        forall|j: int| 0 <= j < i ==> offsets[j] < t,
        i == offsets.len() || offsets[i] >= t,
    ensures
        leading(offsets, t) == i,
    decreases i,
{
    if i > 0 {
        let rest = offsets.drop_first();
        lemma_leading(rest, t, i - 1);
    }
}

/// Walks the tempo list up to `offset` and returns the stretches to add up.
/// An empty tempo list is refused.
pub fn tempo_spans(offset: i32, tempos: &[i32]) -> (r: Result<Vec<Span>, ChartError>)
    ensures
        match r {
            Ok(spans) => tempos@.len() > 0 && span_views(spans@) == schedule(
                tempos@,
                offset as int,
            ),
            Err(e) => e == ChartError::TimingPrecondition && tempos@.len() == 0,
        },
{
    let n = tempos.len();
    if n == 0 {
        return Err(ChartError::TimingPrecondition);
    }
    let mut spans: Vec<Span> = Vec::new();
    let mut done: i32 = 0;
    let mut prev: usize = 0;
    let mut i: usize = 0;
    while i < n && tempos[i] < offset
        invariant
            n == tempos.len(),
            i <= n,
            done == span_start(tempos@, i as int),
            prev == span_tempo(i as int),
            forall|j: int| 0 <= j < i ==> tempos@[j] < offset,
            span_views(spans@) == Seq::new(i as nat, |j: int| full_span(tempos@, j)),
        decreases n - i,
    {
        let units: i64 = tempos[i] as i64 - done as i64;
        let ghost before = span_views(spans@);
        let span = Span { tempo: prev, units };
        spans.push(span);
        assert(span_views(spans@) =~= before.push(span@));
        done = tempos[i];
        prev = i;
        i += 1;
    }
    proof {
        lemma_leading(tempos@, offset as int, i as int);
    }
    let rest = Span { tempo: prev, units: offset as i64 - done as i64 };
    let tail = Span { tempo: n - 1, units: offset as i64 - done as i64 };
    if i < n {
        spans.push(rest);
    }
    if tempos[n - 1] < offset {
        spans.push(tail);
    }
    Ok(spans)
}

/// Counts the pauses that delay position `offset`: those at the front of
/// the list that lie strictly before it.
pub fn pauses_before(offset: i32, pauses: &[i32]) -> (count: usize)
    ensures
        count == leading(pauses@, offset as int),
{
    let mut i: usize = 0;
    while i < pauses.len() && pauses[i] < offset
        invariant
            i <= pauses.len(),
            forall|j: int| 0 <= j < i ==> pauses@[j] < offset,
        decreases pauses.len() - i,
    {
        i += 1;
    }
    proof {
        lemma_leading(pauses@, offset as int, i as int);
    }
    i
}

/// Whether a list of positions ascends.
pub open spec fn sorted(offsets: Seq<i32>) -> bool {
    forall|i: int, j: int| 0 <= i <= j < offsets.len() ==> offsets[i] <= offsets[j]
}

/// Tells whether a list of positions ascends, as the laws of the walk ask
/// of a tempo list.
pub fn is_sorted(offsets: &[i32]) -> (b: bool)
    ensures
        b == sorted(offsets@),
{
    let mut i: usize = 1;
    while i < offsets.len()
        invariant
            1 <= i,
            forall|j: int, k: int| 0 <= j <= k < i && k < offsets@.len() ==> offsets@[j] <= offsets@[k],
        decreases offsets.len() - i,
    {
        if offsets[i - 1] > offsets[i] {
            return false;
        }
        i += 1;
    }
    true
}

/// The units that a list of stretches spends at tempo `k`.
pub open spec fn units_at(spans: Seq<SpanView>, k: int) -> int
    decreases spans.len(),
{
    if spans.len() == 0 {
        0
    } else {
        units_at(spans.drop_last(), k) + if spans.last().tempo == k {
            spans.last().units
        } else {
            0
        }
    }
}

/// The units that a list of stretches spends in all.
pub open spec fn total_units(spans: Seq<SpanView>) -> int
    decreases spans.len(),
{
    if spans.len() == 0 {
        0
    } else {
        total_units(spans.drop_last()) + spans.last().units
    }
}

/// The units played at tempo `k` on the way to position `t`, for an
/// ascending tempo list: tempo `k` is in force from its own breakpoint to
/// the next, and the first tempo also from the chart's start.
pub open spec fn played(tempos: Seq<i32>, t: int, k: int) -> int {
    if k == 0 {
        if tempos.len() >= 2 && tempos[1] < t {
            tempos[1] as int
        } else {
            t
        }
    } else if tempos[k] >= t {
        0
    } else if k + 1 < tempos.len() && tempos[k + 1] < t {
        tempos[k + 1] - tempos[k]
    } else {
        t - tempos[k]
    }
}

/// The items before index `leading` lie before `t`, the item at it does not.
pub proof fn lemma_leading_bounds(offsets: Seq<i32>, t: int)
    ensures
        0 <= leading(offsets, t) <= offsets.len(),
        forall|j: int| 0 <= j < leading(offsets, t) ==> offsets[j] < t,
        leading(offsets, t) < offsets.len() ==> offsets[leading(offsets, t)] >= t,
    decreases offsets.len(),
{
    if !(offsets.len() == 0 || offsets[0] >= t) {
        let rest = offsets.drop_first();
        lemma_leading_bounds(rest, t);
        assert forall|j: int| 0 <= j < leading(offsets, t) implies offsets[j] < t by {
            if j > 0 {
                assert(offsets[j] == rest[j - 1]);
            }
        }
    }
}

/// A later position has at least as many items before it.
pub proof fn lemma_leading_monotone(offsets: Seq<i32>, t1: int, t2: int)
    requires
        t1 <= t2,
    ensures
        leading(offsets, t1) <= leading(offsets, t2),
    decreases offsets.len(),
{
    lemma_leading_bounds(offsets, t2);
    if !(offsets.len() == 0 || offsets[0] >= t1) {
        lemma_leading_monotone(offsets.drop_first(), t1, t2);
    }
}

/// The stretches up to the first `m` breakpoints.
spec fn head_spans(tempos: Seq<i32>, m: int) -> Seq<SpanView> {
    Seq::new(m as nat, |i: int| full_span(tempos, i))
}

/// One more stretch adds its units to its own tempo and to the total.
proof fn lemma_units_push(spans: Seq<SpanView>, span: SpanView, k: int)
    ensures
        units_at(spans.push(span), k) == units_at(spans, k) + if span.tempo == k {
            span.units
        } else {
            0
        },
        total_units(spans.push(span)) == total_units(spans) + span.units,
{
    assert(spans.push(span).drop_last() =~= spans);
}

/// What the stretches up to the first `m` breakpoints spend at tempo `k`,
/// and in all.
proof fn lemma_head_units(tempos: Seq<i32>, m: int, k: int)
    requires
        0 <= m <= tempos.len(),
        0 <= k < tempos.len(),
    ensures
        units_at(head_spans(tempos, m), k) == if k == 0 {
            if m == 0 {
                0
            } else if m == 1 {
                tempos[0] as int
            } else {
                tempos[1] as int
            }
        } else if m >= k + 2 {
            tempos[k + 1] - tempos[k]
        } else {
            0
        },
        total_units(head_spans(tempos, m)) == span_start(tempos, m),
    decreases m,
{
    if m > 0 {
        lemma_head_units(tempos, m - 1, k);
        assert(head_spans(tempos, m) =~= head_spans(tempos, m - 1).push(full_span(tempos, m - 1)));
        lemma_units_push(head_spans(tempos, m - 1), full_span(tempos, m - 1), k);
    }
}

/// On an ascending tempo list the walk to `t` spends at each tempo exactly
/// the units between its breakpoint and the next, cut off at `t`.
pub proof fn lemma_units_played(tempos: Seq<i32>, t: int, k: int)
    requires
        sorted(tempos),
        0 <= k < tempos.len(),
    ensures
        units_at(schedule(tempos, t), k) == played(tempos, t, k),
{
    let m = leading(tempos, t);
    lemma_leading_bounds(tempos, t);
    lemma_head_units(tempos, m, k);
    let head = head_spans(tempos, m);
    let rest = SpanView { tempo: span_tempo(m), units: t - span_start(tempos, m) };
    let tail = SpanView { tempo: tempos.len() - 1, units: t - span_start(tempos, m) };
    if m < tempos.len() {
        assert(schedule(tempos, t) =~= head.push(rest));
        lemma_units_push(head, rest, k);
    } else {
        lemma_units_push(head, tail, k);
    }
}

/// On an ascending tempo list the stretches of the walk to `t` add up to
/// `t`: the walk starts at position 0 and leaves nothing out.
pub proof fn lemma_schedule_total(tempos: Seq<i32>, t: int)
    requires
        sorted(tempos),
        tempos.len() > 0,
    ensures
        total_units(schedule(tempos, t)) == t,
{
    let m = leading(tempos, t);
    lemma_leading_bounds(tempos, t);
    lemma_head_units(tempos, m, 0);
    let head = head_spans(tempos, m);
    let rest = SpanView { tempo: span_tempo(m), units: t - span_start(tempos, m) };
    let tail = SpanView { tempo: tempos.len() - 1, units: t - span_start(tempos, m) };
    if m < tempos.len() {
        assert(schedule(tempos, t) =~= head.push(rest));
        lemma_units_push(head, rest, 0);
    } else {
        lemma_units_push(head, tail, 0);
    }
}

/// Time does not run backwards: on an ascending tempo list a later position
/// spends at least as many units at every tempo, and has at least as many
/// pauses before it.
pub proof fn lemma_schedule_monotone(tempos: Seq<i32>, pauses: Seq<i32>, t1: int, t2: int, k: int)
    requires
        sorted(tempos),
        0 <= k < tempos.len(),
        t1 <= t2,
    ensures
        units_at(schedule(tempos, t1), k) <= units_at(schedule(tempos, t2), k),
        leading(pauses, t1) <= leading(pauses, t2),
{
    lemma_units_played(tempos, t1, k);
    lemma_units_played(tempos, t2, k);
    lemma_leading_monotone(pauses, t1, t2);
}

/// No stretch runs backwards: on an ascending tempo list that starts at or
/// after position 0, every stretch of the walk to a position at or after 0
/// has at least no units.
pub proof fn lemma_schedule_nonnegative(tempos: Seq<i32>, t: int)
    requires
        sorted(tempos),
        tempos.len() > 0,
        tempos[0] >= 0,
        t >= 0,
    ensures
        forall|i: int|
            0 <= i < schedule(tempos, t).len() ==> (#[trigger] schedule(tempos, t)[i]).units >= 0,
{
    let m = leading(tempos, t);
    lemma_leading_bounds(tempos, t);
    assert forall|i: int| 0 <= i < schedule(tempos, t).len() implies (#[trigger] schedule(
        tempos,
        t,
    )[i]).units >= 0 by {
        if i < m {
            assert(schedule(tempos, t)[i] == full_span(tempos, i));
        }
    }
}

/// At position 0 no time has passed: with the first tempo at position 0 the
/// walk is a single stretch of no units, and no pause counts unless one
/// lies before position 0.
pub proof fn lemma_schedule_at_start(tempos: Seq<i32>, pauses: Seq<i32>)
    requires
        sorted(tempos),
        tempos.len() > 0,
        tempos[0] == 0,
        pauses.len() > 0 ==> pauses[0] >= 0,
    ensures
        schedule(tempos, 0) == seq![SpanView { tempo: 0, units: 0 }],
        leading(pauses, 0) == 0,
{
}

/// With a single tempo every unit of the walk to `t` is played at it: one
/// beat of rhythmic positions is one beat of that tempo.
pub proof fn lemma_single_tempo(tempos: Seq<i32>, t: int)
    requires
        tempos.len() == 1,
    ensures
        units_at(schedule(tempos, t), 0) == t,
        forall|i: int|
            0 <= i < schedule(tempos, t).len() ==> (#[trigger] schedule(tempos, t)[i]).tempo == 0,
{
    lemma_units_played(tempos, t, 0);
    lemma_leading_bounds(tempos, t);
}

} // verus!
