//! Small arithmetic on whole numbers: the greatest of a list, sums, and
//! division that rounds toward zero.

use vstd::arithmetic::div_mod::{
    lemma_div_is_ordered, lemma_div_is_ordered_by_denominator, lemma_div_pos_is_pos,
};
use vstd::prelude::*;

verus! {

/// The greatest of a list of numbers, if it has any.
pub open spec fn greatest(values: Seq<int>) -> Option<int>
    decreases values.len(),
{
    if values.len() == 0 {
        None
    } else {
        match greatest(values.drop_last()) {
            Some(m) => if m >= values.last() {
                Some(m)
            } else {
                Some(values.last())
            },
            None => Some(values.last()),
        }
    }
}

/// `greatest` is one of the numbers and no number exceeds it.
pub proof fn lemma_greatest(values: Seq<int>)
    ensures
        match greatest(values) {
            Some(m) => values.contains(m) && forall|i: int|
                0 <= i < values.len() ==> values[i] <= m,
            None => values.len() == 0,
        },
    decreases values.len(),
{
    if values.len() > 0 {
        let head = values.drop_last();
        lemma_greatest(head);
        match greatest(head) {
            Some(m) => {
                let i = choose|i: int| 0 <= i < head.len() && head[i] == m;
                assert forall|i: int| 0 <= i < values.len() implies values[i] <= greatest(
                    values,
                ).unwrap() by {
                    if i < head.len() {
                        assert(values[i] == head[i]);
                    }
                }
            },
            None => {},
        }
    }
}

/// The greatest of a list of counts, and 0 for an empty list.
pub open spec fn greatest_or_zero(values: Seq<int>) -> int {
    match greatest(values) {
        Some(m) => m,
        None => 0,
    }
}

/// The sum of a list of numbers.
pub open spec fn sum(values: Seq<int>) -> int
    decreases values.len(),
{
    if values.len() == 0 {
        0
    } else {
        sum(values.drop_last()) + values.last()
    }
}

/// The quotient of `a` by a positive `b`, rounded toward zero.
pub open spec fn quotient(a: int, b: int) -> int {
    if a >= 0 {
        a / b
    } else {
        -((-a) / b)
    }
}

/// Divides `a` by a positive `b` and rounds toward zero.
pub fn toward_zero(a: i128, b: i128) -> (q: i128)
    requires
        b > 0,
        a > i128::MIN,
    ensures
        q == quotient(a as int, b as int),
{
    if a >= 0 {
        a / b
    } else {
        let q = (-a) / b;
        assert(0 <= q <= -a) by {
            lemma_div_pos_is_pos(-a as int, b as int);
            lemma_div_is_ordered_by_denominator(-a as int, 1, b as int);
        }
        -q
    }
}

/// Rounding toward zero keeps the order of quotients by one divisor.
pub proof fn lemma_quotient_ordered(a: int, b: int, d: int)
    requires
        a <= b,
        d > 0,
    ensures
        quotient(a, d) <= quotient(b, d),
{
    if a >= 0 {
        lemma_div_is_ordered(a, b, d);
    } else if b < 0 {
        lemma_div_is_ordered(-b, -a, d);
    } else {
        lemma_div_pos_is_pos(-a, d);
        lemma_div_pos_is_pos(b, d);
    }
}

} // verus!
