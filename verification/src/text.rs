//! Text as sequences of characters: splitting, trimming, joining, and
//! reading whole numbers.

use vstd::prelude::*;

verus! {

/// The characters of `s`, in order.
pub fn chars_of(s: &str) -> (v: Vec<char>)
    ensures
        v@ == s@,
{
    let mut v: Vec<char> = Vec::new();
    for c in it: s.chars()
        invariant
            v@ == it.seq().take(it.index() as int),
    {
        v.push(c);
    }
    v
}

/// Makes a string of characters by `String::from_iter`. Taken on trust, not
/// proved: the string holds exactly these characters, in order.
#[verifier::external_body]
pub(crate) fn string_of(chars: &[char]) -> (s: String)
    ensures
        s@ == chars@,
{
    String::from_iter(chars.iter())
}

/// The text of each item of a list of character vectors.
pub open spec fn texts(items: Seq<Vec<char>>) -> Seq<Seq<char>> {
    items.map_values(|item: Vec<char>| item@)
}

/// The text of each item of a list of string slices.
pub open spec fn str_texts(items: Seq<&str>) -> Seq<Seq<char>> {
    items.map_values(|item: &str| item@)
}

/// The characters of each string of a list.
pub fn chars_of_each(items: &Vec<&str>) -> (v: Vec<Vec<char>>)
    ensures
        texts(v@) == str_texts(items@),
{
    let mut v: Vec<Vec<char>> = Vec::new();
    let mut i: usize = 0;
    while i < items.len()
        invariant
            i <= items.len(),
            v.len() == i,
            forall|j: int| 0 <= j < i ==> (#[trigger] v@[j])@ == items@[j]@,
        decreases items.len() - i,
    {
        v.push(chars_of(items[i]));
        i += 1;
    }
    v
}

/// The pieces of `s` between occurrences of `sep`. A text without the
/// separator is one piece; each separator starts a new piece, so that two
/// separators in a row, or one at either end, give an empty piece.
pub open spec fn split_on(s: Seq<char>, sep: char) -> Seq<Seq<char>>
    decreases s.len(),
{
    if s.len() == 0 {
        seq![Seq::empty()]
    } else {
        let head = split_on(s.drop_last(), sep);
        if s.last() == sep {
            head.push(Seq::empty())
        } else {
            head.drop_last().push(head.last().push(s.last()))
        }
    }
}

/// Splits `s` at every occurrence of `sep`.
pub fn split(s: &[char], sep: char) -> (pieces: Vec<Vec<char>>)
    ensures
        texts(pieces@) == split_on(s@, sep),
{
    let mut pieces: Vec<Vec<char>> = Vec::new();
    let mut piece: Vec<char> = Vec::new();
    let mut i: usize = 0;
    while i < s.len()
        invariant
            i <= s.len(),
            texts(pieces@).push(piece@) == split_on(s@.take(i as int), sep),
        decreases s.len() - i,
    {
        let c = s[i];
        assert(s@.take(i + 1).drop_last() =~= s@.take(i as int));
        if c == sep {
            pieces.push(piece);
            piece = Vec::new();
        } else {
            piece.push(c);
        }
        i += 1;
    }
    assert(s@.take(i as int) =~= s@);
    pieces.push(piece);
    pieces
}

/// The pieces of a split that hold at least one character.
pub open spec fn nonempty_pieces(s: Seq<char>, sep: char) -> Seq<Seq<char>> {
    split_on(s, sep).filter(|piece: Seq<char>| piece.len() > 0)
}

/// Splits `s` at every occurrence of `sep` and drops the empty pieces.
pub fn split_nonempty(s: &[char], sep: char) -> (pieces: Vec<Vec<char>>)
    ensures
        texts(pieces@) == nonempty_pieces(s@, sep),
{
    let mut pieces: Vec<Vec<char>> = Vec::new();
    let mut piece: Vec<char> = Vec::new();
    let ghost mut done: Seq<Seq<char>> = Seq::empty();
    let mut i: usize = 0;
    assert(texts(pieces@) =~= done.filter(|piece: Seq<char>| piece.len() > 0)) by {
        reveal(Seq::filter);
    }
    while i < s.len()
        invariant
            i <= s.len(),
            done.push(piece@) == split_on(s@.take(i as int), sep),
            texts(pieces@) == done.filter(|piece: Seq<char>| piece.len() > 0),
        decreases s.len() - i,
    {
        let c = s[i];
        assert(s@.take(i + 1).drop_last() =~= s@.take(i as int));
        let ghost before = done.push(piece@);
        if c == sep {
            proof {
                done.lemma_filter_push(piece@, |piece: Seq<char>| piece.len() > 0);
            }
            if piece.len() > 0 {
                pieces.push(piece);
            }
            piece = Vec::new();
            proof {
                done = before;
            }
        } else {
            piece.push(c);
        }
        i += 1;
    }
    assert(s@.take(i as int) =~= s@);
    proof {
        done.lemma_filter_push(piece@, |piece: Seq<char>| piece.len() > 0);
    }
    if piece.len() > 0 {
        pieces.push(piece);
    }
    pieces
}

/// Whether `c` is white space: one of the code points to which Unicode
/// gives the property White_Space.
pub open spec fn is_space(c: char) -> bool {
    let n = c as u32;
    ||| 0x09 <= n <= 0x0d
    ||| n == 0x20
    ||| n == 0x85
    ||| n == 0xa0
    ||| n == 0x1680
    ||| 0x2000 <= n <= 0x200a
    ||| n == 0x2028
    ||| n == 0x2029
    ||| n == 0x202f
    ||| n == 0x205f
    ||| n == 0x3000
}

/// Tells whether a character is white space.
pub fn is_whitespace(c: char) -> (b: bool)
    ensures
        b == is_space(c),
{
    let n = c as u32;
    (0x09 <= n && n <= 0x0d) || n == 0x20 || n == 0x85 || n == 0xa0 || n == 0x1680 || (0x2000 <= n
        && n <= 0x200a) || n == 0x2028 || n == 0x2029 || n == 0x202f || n == 0x205f || n == 0x3000
}

/// `s` without the white space at its start.
pub open spec fn trim_start_of(s: Seq<char>) -> Seq<char>
    decreases s.len(),
{
    if s.len() > 0 && is_space(s[0]) {
        trim_start_of(s.drop_first())
    } else {
        s
    }
}

/// `s` without the white space at its end.
pub open spec fn trim_end_of(s: Seq<char>) -> Seq<char>
    decreases s.len(),
{
    if s.len() > 0 && is_space(s.last()) {
        trim_end_of(s.drop_last())
    } else {
        s
    }
}

/// `s` without the white space at either end.
pub open spec fn trim_of(s: Seq<char>) -> Seq<char> {
    trim_end_of(trim_start_of(s))
}

/// `s` without the run of `c` at its start.
pub open spec fn strip_start_of(s: Seq<char>, c: char) -> Seq<char>
    decreases s.len(),
{
    if s.len() > 0 && s[0] == c {
        strip_start_of(s.drop_first(), c)
    } else {
        s
    }
}

/// `s` without the run of `c` at its end.
pub open spec fn strip_end_of(s: Seq<char>, c: char) -> Seq<char>
    decreases s.len(),
{
    if s.len() > 0 && s.last() == c {
        strip_end_of(s.drop_last(), c)
    } else {
        s
    }
}

/// `s` without the runs of `c` at either end.
pub open spec fn strip_of(s: Seq<char>, c: char) -> Seq<char> {
    strip_end_of(strip_start_of(s, c), c)
}

/// Copies the characters of `s` from `from` up to `to`.
pub fn slice_of(s: &[char], from: usize, to: usize) -> (part: Vec<char>)
    requires
        from <= to <= s@.len(),
    ensures
        part@ == s@.subrange(from as int, to as int),
{
    let mut part: Vec<char> = Vec::new();
    let mut i: usize = from;
    while i < to
        invariant
            from <= i <= to <= s@.len(),
            part@ == s@.subrange(from as int, i as int),
        decreases to - i,
    {
        part.push(s[i]);
        i += 1;
    }
    part
}

/// Finds where the white space at the start of `s` ends.
fn space_start(s: &[char]) -> (from: usize)
    ensures
        from <= s@.len(),
        trim_start_of(s@) == s@.skip(from as int),
{
    let mut from: usize = 0;
    assert(s@.skip(0) =~= s@);
    while from < s.len() && is_whitespace(s[from])
        invariant
            from <= s@.len(),
            trim_start_of(s@) == trim_start_of(s@.skip(from as int)),
        decreases s.len() - from,
    {
        assert(s@.skip(from as int).drop_first() =~= s@.skip(from + 1));
        from += 1;
    }
    from
}

/// Finds where the white space at the end of `s`, from `from` on, begins.
fn space_end(s: &[char], from: usize) -> (to: usize)
    requires
        from <= s@.len(),
    ensures
        from <= to <= s@.len(),
        trim_end_of(s@.skip(from as int)) == s@.subrange(from as int, to as int),
{
    let mut to: usize = s.len();
    while to > from && is_whitespace(s[to - 1])
        invariant
            from <= to <= s@.len(),
            trim_end_of(s@.skip(from as int)) == trim_end_of(s@.subrange(from as int, to as int)),
        decreases to,
    {
        assert(s@.subrange(from as int, to as int).drop_last() =~= s@.subrange(
            from as int,
            to - 1,
        ));
        to -= 1;
    }
    to
}

/// Removes the white space at the start of `s`.
pub fn trim_start(s: &[char]) -> (t: Vec<char>)
    ensures
        t@ == trim_start_of(s@),
{
    let from = space_start(s);
    slice_of(s, from, s.len())
}

/// Removes the white space at the end of `s`.
pub fn trim_end(s: &[char]) -> (t: Vec<char>)
    ensures
        t@ == trim_end_of(s@),
{
    assert(s@.skip(0) =~= s@);
    let to = space_end(s, 0);
    slice_of(s, 0, to)
}

/// Removes the white space at both ends of `s`.
pub fn trim(s: &[char]) -> (t: Vec<char>)
    ensures
        t@ == trim_of(s@),
{
    let from = space_start(s);
    let to = space_end(s, from);
    slice_of(s, from, to)
}

/// Removes every `c` at the start and at the end of `s`.
pub fn trim_matches(s: &[char], c: char) -> (t: Vec<char>)
    ensures
        t@ == strip_of(s@, c),
{
    let mut from: usize = 0;
    assert(s@.skip(0) =~= s@);
    while from < s.len() && s[from] == c
        invariant
            from <= s@.len(),
            strip_start_of(s@, c) == strip_start_of(s@.skip(from as int), c),
        decreases s.len() - from,
    {
        assert(s@.skip(from as int).drop_first() =~= s@.skip(from + 1));
        from += 1;
    }
    let mut to: usize = s.len();
    while to > from && s[to - 1] == c
        invariant
            from <= to <= s@.len(),
            strip_of(s@, c) == strip_end_of(s@.subrange(from as int, to as int), c),
        decreases to,
    {
        assert(s@.subrange(from as int, to as int).drop_last() =~= s@.subrange(
            from as int,
            to - 1,
        ));
        to -= 1;
    }
    slice_of(s, from, to)
}

/// Whether `s` begins with `prefix`.
pub open spec fn has_prefix(s: Seq<char>, prefix: Seq<char>) -> bool {
    prefix.len() <= s.len() && s.take(prefix.len() as int) == prefix
}

/// Tells whether `s` begins with `prefix`.
pub fn starts_with(s: &[char], prefix: &[char]) -> (b: bool)
    ensures
        b == has_prefix(s@, prefix@),
{
    if prefix.len() > s.len() {
        return false;
    }
    let mut i: usize = 0;
    while i < prefix.len()
        invariant
            i <= prefix.len() <= s.len(),
            s@.take(i as int) == prefix@.take(i as int),
        decreases prefix.len() - i,
    {
        if s[i] != prefix[i] {
            return false;
        }
        i += 1;
    }
    assert(prefix@.take(i as int) =~= prefix@);
    true
}

/// Tells whether two texts are the same.
pub fn same_text(a: &[char], b: &[char]) -> (same: bool)
    ensures
        same == (a@ == b@),
{
    if a.len() != b.len() {
        return false;
    }
    let same = starts_with(a, b);
    assert(a@.take(b@.len() as int) =~= a@);
    same
}

/// The pieces put together again, with `sep` between every two of them.
pub open spec fn join_of(pieces: Seq<Seq<char>>, sep: Seq<char>) -> Seq<char>
    decreases pieces.len(),
{
    if pieces.len() == 0 {
        Seq::empty()
    } else if pieces.len() == 1 {
        pieces[0]
    } else {
        join_of(pieces.drop_last(), sep) + sep + pieces.last()
    }
}

/// A split loses nothing: no piece holds the separator, and the pieces put
/// together again with the separator between them are the text.
pub proof fn lemma_split_join(s: Seq<char>, sep: char)
    ensures
        split_on(s, sep).len() >= 1,
        join_of(split_on(s, sep), seq![sep]) == s,
        forall|i: int|
            0 <= i < split_on(s, sep).len() ==> !(#[trigger] split_on(s, sep)[i]).contains(sep),
    decreases s.len(),
{
    let pieces = split_on(s, sep);
    if s.len() > 0 {
        let head = split_on(s.drop_last(), sep);
        lemma_split_join(s.drop_last(), sep);
        let c = s.last();
        if c == sep {
            assert(pieces.drop_last() =~= head);
        } else {
            assert(!head.last().push(c).contains(sep));
            if head.len() > 1 {
                assert(pieces.drop_last() =~= head.drop_last());
                assert(join_of(pieces, seq![sep]) =~= (join_of(head.drop_last(), seq![sep])
                    + seq![sep] + head.last()).push(c));
            }
        }
    }
}

/// Adds the characters of `more` to the end of `text`.
pub fn append(text: &mut Vec<char>, more: &[char])
    ensures
        final(text)@ == old(text)@ + more@,
{
    let mut i: usize = 0;
    while i < more.len()
        invariant
            i <= more.len(),
            text@ == old(text)@ + more@.take(i as int),
        decreases more.len() - i,
    {
        text.push(more[i]);
        i += 1;
    }
}

/// Puts the pieces from index `from` on together, with `sep` between every
/// two of them.
pub fn join(pieces: &Vec<Vec<char>>, from: usize, sep: &[char]) -> (joined: Vec<char>)
    requires
        from <= pieces@.len(),
    ensures
        joined@ == join_of(texts(pieces@).skip(from as int), sep@),
{
    let ghost rest = texts(pieces@).skip(from as int);
    let mut joined: Vec<char> = Vec::new();
    let mut i: usize = from;
    while i < pieces.len()
        invariant
            from <= i <= pieces@.len(),
            rest == texts(pieces@).skip(from as int),
            joined@ == join_of(rest.take(i - from), sep@),
        decreases pieces.len() - i,
    {
        proof {
            let upto = rest.take(i - from + 1);
            assert(upto.drop_last() =~= rest.take(i - from));
        }
        if i > from {
            append(&mut joined, sep);
        }
        append(&mut joined, pieces[i].as_slice());
        i += 1;
    }
    assert(rest.take(i - from) =~= rest);
    joined
}

/// Whether `pat` stands in `s` at position `i`.
pub open spec fn matches_at(s: Seq<char>, pat: Seq<char>, i: int) -> bool {
    0 <= i && i + pat.len() <= s.len() && s.subrange(i, i + pat.len()) == pat
}

/// The first position at or after `from` at which `pat` stands in `s`.
pub open spec fn find_from(s: Seq<char>, pat: Seq<char>, from: int) -> Option<int>
    decreases s.len() - from,
{
    if from < 0 || from >= s.len() || from + pat.len() > s.len() {
        None
    } else if matches_at(s, pat, from) {
        Some(from)
    } else {
        find_from(s, pat, from + 1)
    }
}

/// A place that `find_from` finds lies inside the text.
pub proof fn lemma_find_from_bounds(s: Seq<char>, pat: Seq<char>, from: int)
    ensures
        find_from(s, pat, from) matches Some(i) ==> from <= i && matches_at(s, pat, i),
    decreases s.len() - from,
{
    if !(from < 0 || from >= s.len() || from + pat.len() > s.len()) && !matches_at(s, pat, from) {
        lemma_find_from_bounds(s, pat, from + 1);
    }
}

/// The pieces of `s` between occurrences of the text `pat`, which is not
/// empty. Occurrences are taken from the left and do not overlap.
pub open spec fn split_on_text(s: Seq<char>, pat: Seq<char>) -> Seq<Seq<char>>
    decreases s.len(),
{
    match find_from(s, pat, 0) {
        None => seq![s],
        Some(i) => {
            if pat.len() > 0 && 0 <= i && i + pat.len() <= s.len() {
                seq![s.take(i)] + split_on_text(s.skip(i + pat.len()), pat)
            } else {
                seq![s]
            }
        },
    }
}

/// A split always has a first piece.
pub proof fn lemma_split_text_nonempty(s: Seq<char>, pat: Seq<char>)
    ensures
        split_on_text(s, pat).len() >= 1,
{
}

/// Tells whether `pat` stands in `s` at position `i`.
pub fn matches_here(s: &[char], pat: &[char], i: usize) -> (b: bool)
    requires
        i + pat@.len() <= s@.len(),
    ensures
        b == matches_at(s@, pat@, i as int),
{
    let n = s.len();
    let mut k: usize = 0;
    while k < pat.len()
        invariant
            k <= pat.len(),
            n == s@.len(),
            i + pat@.len() <= s@.len(),
            s@.subrange(i as int, i + k) == pat@.take(k as int),
        decreases pat.len() - k,
    {
        if s[i + k] != pat[k] {
            return false;
        }
        k += 1;
    }
    assert(pat@.take(k as int) =~= pat@);
    true
}

/// Splits `s` at every occurrence of the text `pat`.
pub fn split_text(s: &[char], pat: &[char]) -> (pieces: Vec<Vec<char>>)
    requires
        pat@.len() > 0,
    ensures
        texts(pieces@) == split_on_text(s@, pat@),
{
    let mut pieces: Vec<Vec<char>> = Vec::new();
    let mut start: usize = 0;
    let mut i: usize = 0;
    assert(s@.skip(0) =~= s@);
    while i < s.len() && pat.len() <= s.len() - i
        invariant
            start <= i <= s@.len(),
            pat@.len() > 0,
            texts(pieces@) + split_on_text(s@.skip(start as int), pat@) == split_on_text(s@, pat@),
            find_from(s@.skip(start as int), pat@, 0) == find_from(
                s@.skip(start as int),
                pat@,
                i - start,
            ),
        decreases s.len() - i,
    {
        let ghost rest = s@.skip(start as int);
        proof {
            assert(rest.subrange(i - start, i - start + pat@.len()) =~= s@.subrange(
                i as int,
                i + pat@.len(),
            ));
        }
        if matches_here(s, pat, i) {
            let piece = slice_of(s, start, i);
            pieces.push(piece);
            proof {
                assert(rest.take(i - start) =~= s@.subrange(start as int, i as int));
                assert(rest.skip(i - start + pat@.len()) =~= s@.skip(i + pat@.len()));
            }
            start = i + pat.len();
            i = start;
        } else {
            i += 1;
        }
    }
    let piece = slice_of(s, start, s.len());
    pieces.push(piece);
    pieces
}

/// The value of a decimal digit.
pub open spec fn digit_of(c: char) -> Option<int> {
    if '0' <= c <= '9' {
        Some(c as int - '0' as int)
    } else {
        None
    }
}

/// The number that a run of decimal digits writes, if `s` is such a run and
/// is not empty.
pub open spec fn digits_value(s: Seq<char>) -> Option<int>
    decreases s.len(),
{
    if s.len() == 0 {
        None
    } else if s.len() == 1 {
        digit_of(s[0])
    } else {
        match (digits_value(s.drop_last()), digit_of(s.last())) {
            (Some(v), Some(d)) => Some(10 * v + d),
            _ => None,
        }
    }
}

/// The integer that `s` writes: digits, with one sign in front of them or
/// none.
pub open spec fn int_of(s: Seq<char>) -> Option<int> {
    if s.len() > 0 && s[0] == '-' {
        match digits_value(s.drop_first()) {
            Some(v) => Some(-v),
            None => None,
        }
    } else if s.len() > 0 && s[0] == '+' {
        digits_value(s.drop_first())
    } else {
        digits_value(s)
    }
}

/// The integer that `s` writes, if it fits in 32 bits.
pub open spec fn i32_of(s: Seq<char>) -> Option<i32> {
    match int_of(s) {
        Some(v) => if i32::MIN <= v <= i32::MAX {
            Some(v as i32)
        } else {
            None
        },
        None => None,
    }
}

/// The digits in front of a number are a number no greater than it.
proof fn lemma_digits_prefix(s: Seq<char>, k: int)
    requires
        1 <= k <= s.len(),
        digits_value(s) is Some,
    ensures
        digits_value(s.take(k)) is Some,
        0 <= digits_value(s.take(k)).unwrap() <= digits_value(s).unwrap(),
    decreases s.len() - k,
{
    if k == s.len() {
        assert(s.take(k) =~= s);
        lemma_digits_nonnegative(s);
    } else {
        assert(s.drop_last().take(k) =~= s.take(k));
        lemma_digits_prefix(s.drop_last(), k);
    }
}

/// A run of digits writes no negative number.
proof fn lemma_digits_nonnegative(s: Seq<char>)
    requires
        digits_value(s) is Some,
    ensures
        digits_value(s).unwrap() >= 0,
    decreases s.len(),
{
    if s.len() > 1 {
        lemma_digits_nonnegative(s.drop_last());
    }
}

/// Reads a decimal integer of 32 bits: digits with at most one sign in
/// front, and nothing else.
pub fn parse_i32(s: &[char]) -> (r: Option<i32>)
    ensures
        r == i32_of(s@),
{
    if s.len() == 0 {
        return None;
    }
    let negative = s[0] == '-';
    let start: usize = if s[0] == '-' || s[0] == '+' {
        1
    } else {
        0
    };
    let ghost digits = s@.skip(start as int);
    assert(start == 0 ==> digits =~= s@);
    if start == s.len() {
        return None;
    }
    let mut acc: i64 = 0;
    let mut i: usize = start;
    while i < s.len()
        invariant
            start <= i <= s@.len(),
            start < s@.len(),
            digits == s@.skip(start as int),
            int_of(s@) == if negative {
                match digits_value(digits) {
                    Some(v) => Some(-v),
                    None => None,
                }
            } else {
                digits_value(digits)
            },
            i > start ==> digits_value(digits.take(i - start)) == Some(acc as int),
            i == start ==> acc == 0,
            0 <= acc <= 0x8000_0000,
        decreases s.len() - i,
    {
        let c = s[i];
        proof {
            let upto = digits.take(i - start + 1);
            assert(upto.drop_last() =~= digits.take(i - start));
        }
        if !('0' <= c && c <= '9') {
            proof {
                if digits_value(digits) is Some {
                    lemma_digits_prefix(digits, i - start + 1);
                }
            }
            return None;
        }
        let d: i64 = (c as u32 - '0' as u32) as i64;
        acc = 10 * acc + d;
        if acc > 0x8000_0000 {
            proof {
                if digits_value(digits) is Some {
                    lemma_digits_prefix(digits, i - start + 1);
                }
            }
            return None;
        }
        i += 1;
    }
    assert(digits.take(i - start) =~= digits);
    if negative {
        Some((-acc) as i32)
    } else if acc > 0x7fff_ffff {
        None
    } else {
        Some(acc as i32)
    }
}

} // verus!
