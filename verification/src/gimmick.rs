//! Tempo changes and pauses: the order in which the events of a chart take
//! effect, and the tempo and pause lists of a song file, read as text.

use crate::error::{ChartError, FormatError};
use crate::text::{
    chars_of, lemma_split_join, split, split_on, string_of, texts, trim_end, trim_end_of,
};
use vstd::prelude::*;

verus! {

/// Whether an event changes the tempo or pauses the chart.
#[derive(Debug, PartialEq, Eq, Clone, Copy, Structural)]
pub enum Kind {
    Bpm,
    Stop,
}

/// A tempo change or a pause: its position, and its index in the list of
/// its kind.
#[derive(Debug, PartialEq, Eq, Clone, Copy, Structural)]
pub struct BpmOrStop {
    pub offset: i32,
    pub index: usize,
    pub kind: Kind,
}

/// The place of an event in the list of all tempo changes followed by all
/// pauses.
pub open spec fn rank(e: BpmOrStop, tempo_count: int) -> int {
    match e.kind {
        Kind::Bpm => e.index as int,
        Kind::Stop => tempo_count + e.index,
    }
}

/// Whether an event names an entry of its list and carries its position.
pub open spec fn names_entry(e: BpmOrStop, tempos: Seq<i32>, pauses: Seq<i32>) -> bool {
    match e.kind {
        Kind::Bpm => e.index < tempos.len() && e.offset == tempos[e.index as int],
        Kind::Stop => e.index < pauses.len() && e.offset == pauses[e.index as int],
    }
}

/// Whether `a` takes effect before `b`: at an earlier position, or at the
/// same position and earlier in the list of tempo changes followed by
/// pauses.
pub open spec fn takes_effect_before(a: BpmOrStop, b: BpmOrStop, tempo_count: int) -> bool {
    a.offset < b.offset || (a.offset == b.offset && rank(a, tempo_count) < rank(b, tempo_count))
}

/// Whether one of `events` has rank `r`.
pub open spec fn holds_rank(events: Seq<BpmOrStop>, tempo_count: int, r: int) -> bool {
    exists|i: int| 0 <= i < events.len() && rank(#[trigger] events[i], tempo_count) == r
}

/// Whether `events` holds the first `count` entries of the list of tempo
/// changes followed by pauses, each once, in the order in which they take
/// effect.
pub open spec fn orders_first(
    events: Seq<BpmOrStop>,
    tempos: Seq<i32>,
    pauses: Seq<i32>,
    count: int,
) -> bool {
    &&& events.len() == count
    &&& forall|i: int|
        0 <= i < events.len() ==> names_entry(#[trigger] events[i], tempos, pauses) && rank(
            events[i],
            tempos.len() as int,
        ) < count
    &&& forall|i: int, j: int|
        0 <= i < j < events.len() ==> takes_effect_before(
            #[trigger] events[i],
            #[trigger] events[j],
            tempos.len() as int,
        )
    &&& forall|r: int| 0 <= r < count ==> #[trigger] holds_rank(events, tempos.len() as int, r)
}

/// Whether `events` is the chart's tempo changes and pauses in the order in
/// which they take effect: sorted by position, and where positions are
/// equal, tempo changes before pauses and each kind in its own order.
pub open spec fn is_gimmick_order(events: Seq<BpmOrStop>, tempos: Seq<i32>, pauses: Seq<i32>) -> bool {
    orders_first(events, tempos, pauses, (tempos.len() + pauses.len()) as int)
}

/// Puts the next entry of the list into the order.
fn place(
    events: &mut Vec<BpmOrStop>,
    e: BpmOrStop,
    Ghost(tempos): Ghost<Seq<i32>>,
    Ghost(pauses): Ghost<Seq<i32>>,
)
    requires
        orders_first(old(events)@, tempos, pauses, rank(e, tempos.len() as int)),
        names_entry(e, tempos, pauses),
    ensures
        orders_first(final(events)@, tempos, pauses, rank(e, tempos.len() as int) + 1),
{
    let ghost n = tempos.len() as int;
    let ghost before = events@;
    let mut p: usize = 0;
    while p < events.len() && events[p].offset <= e.offset
        invariant
            p <= events.len(),
            events@ == before,
            forall|i: int| 0 <= i < p ==> (#[trigger] before[i]).offset <= e.offset,
        decreases events.len() - p,
    {
        p += 1;
    }
    events.insert(p, e);
    proof {
        let after = events@;
        assert forall|r: int| 0 <= r < rank(e, n) + 1 implies #[trigger] holds_rank(after, n, r) by {
            if r == rank(e, n) {
                assert(rank(after[p as int], n) == r);
            } else {
                assert(holds_rank(before, n, r));
                let i = choose|i: int| 0 <= i < before.len() && rank(#[trigger] before[i], n) == r;
                if i < p {
                    assert(after[i] == before[i]);
                } else {
                    assert(after[i + 1] == before[i]);
                }
            }
        }
    }
}

/// Lists the tempo changes and pauses of a chart in the order in which
/// they take effect.
pub fn sort_gimmicks(tempos: &[i32], pauses: &[i32]) -> (events: Vec<BpmOrStop>)
    ensures
        is_gimmick_order(events@, tempos@, pauses@),
{
    let mut events: Vec<BpmOrStop> = Vec::new();
    let mut i: usize = 0;
    while i < tempos.len()
        invariant
            i <= tempos.len(),
            orders_first(events@, tempos@, pauses@, i as int),
        decreases tempos.len() - i,
    {
        let e = BpmOrStop { offset: tempos[i], index: i, kind: Kind::Bpm };
        place(&mut events, e, Ghost(tempos@), Ghost(pauses@));
        i += 1;
    }
    let mut k: usize = 0;
    while k < pauses.len()
        invariant
            k <= pauses.len(),
            orders_first(events@, tempos@, pauses@, (tempos@.len() + k) as int),
        decreases pauses.len() - k,
    {
        let e = BpmOrStop { offset: pauses[k], index: k, kind: Kind::Stop };
        place(&mut events, e, Ghost(tempos@), Ghost(pauses@));
        k += 1;
    }
    events
}

/// Whether `order` lists the indexes of `offsets`, each once, by ascending
/// position, the indexes of equal positions in their own order.
pub open spec fn is_sorted_order(order: Seq<usize>, offsets: Seq<i32>) -> bool {
    &&& order.len() == offsets.len()
    &&& forall|i: int| 0 <= i < order.len() ==> (#[trigger] order[i]) < offsets.len()
    &&& forall|i: int, j: int|
        0 <= i < j < order.len() ==> {
            let a = #[trigger] order[i] as int;
            let b = #[trigger] order[j] as int;
            offsets[a] < offsets[b] || (offsets[a] == offsets[b] && a < b)
        }
    &&& forall|k: int| 0 <= k < offsets.len() ==> #[trigger] order.contains(k as usize)
}

/// The positions of `offsets` in the order that `order` gives them.
pub open spec fn reordered(offsets: Seq<i32>, order: Seq<usize>) -> Seq<i32> {
    Seq::new(order.len(), |i: int| offsets[order[i] as int])
}

/// Positions taken in their sorted order ascend.
pub proof fn lemma_sorted_order(order: Seq<usize>, offsets: Seq<i32>)
    requires
        is_sorted_order(order, offsets),
    ensures
        crate::timing::sorted(reordered(offsets, order)),
{
}

/// Sorts a list of positions: gives the indexes of its entries by ascending
/// position, entries at one position in the order of the list.
pub fn sorted_order(offsets: &[i32]) -> (order: Vec<usize>)
    ensures
        is_sorted_order(order@, offsets@),
{
    let none: Vec<i32> = Vec::new();
    let events = sort_gimmicks(offsets, none.as_slice());
    let ghost n = offsets@.len() as int;
    let mut order: Vec<usize> = Vec::new();
    let mut i: usize = 0;
    while i < events.len()
        invariant
            i <= events.len(),
            n == offsets@.len(),
            is_gimmick_order(events@, offsets@, Seq::<i32>::empty()),
            order@.len() == i,
            forall|j: int| 0 <= j < i ==> #[trigger] order@[j] == events@[j].index,
        decreases events.len() - i,
    {
        order.push(events[i].index);
        i += 1;
    }
    proof {
        assert forall|k: int| 0 <= k < offsets@.len() implies #[trigger] order@.contains(
            k as usize,
        ) by {
            assert(holds_rank(events@, n, k));
            let i = choose|i: int| 0 <= i < events@.len() && rank(#[trigger] events@[i], n) == k;
            assert(order@[i] == k as usize);
        }
    }
    order
}

/// An entry of a tempo or pause list as the file writes it: the position,
/// in beats, and the tempo or the length of the pause. Both are decimal
/// numbers and are kept as text.
#[derive(Debug, PartialEq, Eq)]
pub struct GimmickText {
    pub offset: String,
    pub value: String,
}

impl View for GimmickText {
    type V = (Seq<char>, Seq<char>);

    open spec fn view(&self) -> (Seq<char>, Seq<char>) {
        (self.offset@, self.value@)
    }
}

/// The entries of a list, each as a pair of texts.
pub open spec fn gimmick_views(entries: Seq<GimmickText>) -> Seq<(Seq<char>, Seq<char>)> {
    entries.map_values(|e: GimmickText| e@)
}

/// The position and the value of an entry `position=value`. What follows a
/// second equals sign is left out; an entry without an equals sign has no
/// value.
pub open spec fn entry_fields(entry: Seq<char>) -> Option<(Seq<char>, Seq<char>)> {
    let parts = split_on(entry, '=');
    if parts.len() < 2 {
        None
    } else {
        Some((parts[0], parts[1]))
    }
}

/// The entries of a list: the pieces between its commas, each without the
/// white space at its end.
pub open spec fn list_entries(list: Seq<char>) -> Seq<Seq<char>> {
    split_on(list, ',').map_values(|entry: Seq<char>| trim_end_of(entry))
}

/// The fields of the first `k` entries, or an error if one of them has no
/// value.
pub open spec fn entries_fields(entries: Seq<Seq<char>>, k: int) -> Result<
    Seq<(Seq<char>, Seq<char>)>,
    ChartError,
>
    decreases k,
{
    if k <= 0 {
        Ok(Seq::empty())
    } else {
        match (entries_fields(entries, k - 1), entry_fields(entries[k - 1])) {
            (Ok(head), Some(fields)) => Ok(head.push(fields)),
            _ => Err(ChartError::Format(FormatError::Gimmick)),
        }
    }
}

/// A tempo list read: the fields of each of its entries.
pub open spec fn bpm_fields(list: Seq<char>) -> Result<Seq<(Seq<char>, Seq<char>)>, ChartError> {
    entries_fields(list_entries(list), list_entries(list).len() as int)
}

/// A pause list read: no entry for an empty list, else as a tempo list.
pub open spec fn stop_fields(list: Seq<char>) -> Result<Seq<(Seq<char>, Seq<char>)>, ChartError> {
    if list.len() == 0 {
        Ok(Seq::empty())
    } else {
        bpm_fields(list)
    }
}

/// Once an entry among the first `k` lacks its value, every longer prefix
/// is refused.
proof fn lemma_entries_fields_error_stays(entries: Seq<Seq<char>>, k: int, n: int)
    requires
        0 <= k <= n,
        entries_fields(entries, k) is Err,
    ensures
        entries_fields(entries, n) == entries_fields(entries, k),
    decreases n - k,
{
    if k < n {
        lemma_entries_fields_error_stays(entries, k, n - 1);
    }
}

/// Reads one entry, such as `32.000=150.000`.
pub fn read_entry(entry: &[char]) -> (r: Result<GimmickText, ChartError>)
    ensures
        match r {
            Ok(fields) => entry_fields(entry@) == Some(fields@),
            Err(e) => e == ChartError::Format(FormatError::Gimmick) && entry_fields(entry@) is None,
        },
{
    let parts = split(entry, '=');
    if parts.len() < 2 {
        return Err(ChartError::Format(FormatError::Gimmick));
    }
    Ok(GimmickText { offset: string_of(parts[0].as_slice()), value: string_of(parts[1].as_slice()) })
}

/// Reads the entries of a list that is not empty.
fn read_entries(list: &[char]) -> (r: Result<Vec<GimmickText>, ChartError>)
    ensures
        match r {
            Ok(entries) => bpm_fields(list@) == Ok::<Seq<(Seq<char>, Seq<char>)>, ChartError>(
                gimmick_views(entries@),
            ),
            Err(e) => bpm_fields(list@) == Err::<Seq<(Seq<char>, Seq<char>)>, ChartError>(e),
        },
{
    let pieces = split(list, ',');
    let ghost all = list_entries(list@);
    let mut entries: Vec<GimmickText> = Vec::new();
    let mut i: usize = 0;
    assert(gimmick_views(entries@) =~= Seq::empty());
    while i < pieces.len()
        invariant
            i <= pieces.len(),
            texts(pieces@) == split_on(list@, ','),
            all == list_entries(list@),
            entries_fields(all, i as int) == Ok::<Seq<(Seq<char>, Seq<char>)>, ChartError>(
                gimmick_views(entries@),
            ),
        decreases pieces.len() - i,
    {
        let entry = trim_end(pieces[i].as_slice());
        let fields = match read_entry(entry.as_slice()) {
            Ok(fields) => fields,
            Err(e) => {
                proof {
                    lemma_entries_fields_error_stays(all, i + 1, pieces.len() as int);
                }
                return Err(e);
            },
        };
        let ghost head = gimmick_views(entries@);
        let ghost view = fields@;
        entries.push(fields);
        assert(gimmick_views(entries@) =~= head.push(view));
        i += 1;
    }
    Ok(entries)
}

/// Reads a tempo list, such as `0.000=120.000,32.000=150.000`.
pub fn read_bpms(list: &str) -> (r: Result<Vec<GimmickText>, ChartError>)
    ensures
        match r {
            Ok(entries) => bpm_fields(list@) == Ok::<Seq<(Seq<char>, Seq<char>)>, ChartError>(
                gimmick_views(entries@),
            ),
            Err(e) => bpm_fields(list@) == Err::<Seq<(Seq<char>, Seq<char>)>, ChartError>(e),
        },
{
    read_entries(chars_of(list).as_slice())
}

/// Reads a pause list, which may be empty.
pub fn read_stops(list: &str) -> (r: Result<Vec<GimmickText>, ChartError>)
    ensures
        match r {
            Ok(entries) => stop_fields(list@) == Ok::<Seq<(Seq<char>, Seq<char>)>, ChartError>(
                gimmick_views(entries@),
            ),
            Err(e) => stop_fields(list@) == Err::<Seq<(Seq<char>, Seq<char>)>, ChartError>(e),
        },
{
    let chars = chars_of(list);
    if chars.len() == 0 {
        let entries: Vec<GimmickText> = Vec::new();
        assert(gimmick_views(entries@) =~= Seq::empty());
        return Ok(entries);
    }
    read_entries(chars.as_slice())
}

/// The tempo texts of a display tempo: the whole text where it has no
/// colon, else what stands before the first colon and what stands between
/// the first and the second.
pub open spec fn disp_bpm_fields(s: Seq<char>) -> (Seq<char>, Option<Seq<char>>) {
    let parts = split_on(s, ':');
    if parts.len() == 1 {
        (parts[0], None)
    } else {
        (parts[0], Some(parts[1]))
    }
}

/// Reads a display tempo: one tempo, or the lowest and the highest, as the
/// file writes them.
pub fn get_disp_bpm(s: &str) -> (fields: (String, Option<String>))
    ensures
        fields.0@ == disp_bpm_fields(s@).0,
        match fields.1 {
            Some(highest) => disp_bpm_fields(s@).1 == Some(highest@),
            None => disp_bpm_fields(s@).1 is None,
        },
{
    let chars = chars_of(s);
    let parts = split(chars.as_slice(), ':');
    proof {
        lemma_split_join(s@, ':');
    }
    if parts.len() == 1 {
        (string_of(parts[0].as_slice()), None)
    } else {
        (string_of(parts[0].as_slice()), Some(string_of(parts[1].as_slice())))
    }
}

} // verus!
