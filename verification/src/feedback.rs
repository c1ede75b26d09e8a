//! The feedback a guess receives, defined on digit sequences: how many holes
//! agree exactly, and how many further colours agree when position is ignored.

use vstd::prelude::*;

verus! {

/// Feedback for one guess against one code.
#[derive(Clone, Copy, Debug, PartialEq, Eq, PartialOrd, Ord, Hash, Structural)]
pub struct MatchKeys {
    /// Holes where guess and code carry the same colour.
    pub exact_count: u32,
    /// Further colour agreements among the remaining holes, position aside.
    pub color_count: u32,
}

impl MatchKeys {
    /// Feedback with the given two counts.
    pub fn new(exact_count: u32, color_count: u32) -> (keys: MatchKeys)
        ensures
            keys == (MatchKeys { exact_count, color_count }),
    {
        MatchKeys { exact_count, color_count }
    }
}

/// The number of positions at which `a` and `b` hold the same digit.
pub open spec fn exact_matches(a: Seq<int>, b: Seq<int>) -> nat
    decreases a.len(),
{
    if a.len() == 0 || b.len() == 0 {
        0
    } else {
        exact_matches(a.drop_last(), b.drop_last()) + if a.last() == b.last() {
            1nat
        } else {
            0nat
        }
    }
}

/// The number of positions at which `a` holds `color` and `b` does not:
/// how often `color` is left over in `a` once the exact matches are set aside.
pub open spec fn unmatched_count(a: Seq<int>, b: Seq<int>, color: int) -> nat
    decreases a.len(),
{
    if a.len() == 0 || b.len() == 0 {
        0
    } else {
        unmatched_count(a.drop_last(), b.drop_last(), color) + if a.last() == color && b.last()
            != color {
            1nat
        } else {
            0nat
        }
    }
}

/// The smaller of two counts.
pub open spec fn smaller(x: nat, y: nat) -> nat {
    if x <= y {
        x
    } else {
        y
    }
}

/// The sum, over the colours `0 .. colors`, of the smaller of the two
/// left-over counts of that colour: the colour agreements beyond the exact ones.
pub open spec fn color_matches(a: Seq<int>, b: Seq<int>, colors: nat) -> nat
    decreases colors,
{
    if colors == 0 {
        0
    } else {
        let color = (colors - 1) as nat;
        color_matches(a, b, color) + smaller(
            unmatched_count(a, b, color as int),
            unmatched_count(b, a, color as int),
        )
    }
}

/// The number of positions at which `a` holds one of the colours
/// `0 .. colors` and `b` holds a different digit.
spec fn unmatched_total(a: Seq<int>, b: Seq<int>, colors: nat) -> nat
    decreases colors,
{
    if colors == 0 {
        0
    } else {
        let color = (colors - 1) as nat;
        unmatched_total(a, b, color) + unmatched_count(a, b, color as int)
    }
}

/// Exact matches do not depend on which sequence is the guess.
pub proof fn lemma_exact_symmetric(a: Seq<int>, b: Seq<int>)
    ensures
        exact_matches(a, b) == exact_matches(b, a),
    decreases a.len(),
{
    if a.len() > 0 && b.len() > 0 {
        lemma_exact_symmetric(a.drop_last(), b.drop_last());
    }
}

/// Colour matches do not depend on which sequence is the guess.
pub proof fn lemma_color_symmetric(a: Seq<int>, b: Seq<int>, colors: nat)
    ensures
        color_matches(a, b, colors) == color_matches(b, a, colors),
    decreases colors,
{
    if colors > 0 {
        lemma_color_symmetric(a, b, (colors - 1) as nat);
    }
}

/// Appending one position adds one to the left-over total exactly when the
/// new digits differ and the first is one of the counted colours.
proof fn lemma_unmatched_total_step(a: Seq<int>, b: Seq<int>, colors: nat)
    requires
        a.len() > 0,
        b.len() > 0,
    ensures
        unmatched_total(a, b, colors) == unmatched_total(a.drop_last(), b.drop_last(), colors)
            + if 0 <= a.last() < colors && a.last() != b.last() {
            1nat
        } else {
            0nat
        },
    decreases colors,
{
    if colors > 0 {
        lemma_unmatched_total_step(a, b, (colors - 1) as nat);
    }
}

/// Exact matches and left-over digits are counted at different positions.
proof fn lemma_unmatched_total_bound(a: Seq<int>, b: Seq<int>, colors: nat)
    requires
        a.len() == b.len(),
    ensures
        exact_matches(a, b) + unmatched_total(a, b, colors) <= a.len(),
    decreases a.len(),
{
    if a.len() == 0 {
        lemma_unmatched_total_empty(a, b, colors);
    } else {
        lemma_unmatched_total_bound(a.drop_last(), b.drop_last(), colors);
        lemma_unmatched_total_step(a, b, colors);
    }
}

proof fn lemma_unmatched_total_empty(a: Seq<int>, b: Seq<int>, colors: nat)
    requires
        a.len() == 0 || b.len() == 0,
    ensures
        unmatched_total(a, b, colors) == 0,
    decreases colors,
{
    if colors > 0 {
        lemma_unmatched_total_empty(a, b, (colors - 1) as nat);
    }
}

/// Colour matches never exceed the left-over digits of the first sequence.
proof fn lemma_color_below_unmatched(a: Seq<int>, b: Seq<int>, colors: nat)
    ensures
        color_matches(a, b, colors) <= unmatched_total(a, b, colors),
    decreases colors,
{
    if colors > 0 {
        lemma_color_below_unmatched(a, b, (colors - 1) as nat);
    }
}

/// Exact and colour matches together never exceed the number of positions.
pub proof fn lemma_match_bound(a: Seq<int>, b: Seq<int>, colors: nat)
    requires
        a.len() == b.len(),
    ensures
        exact_matches(a, b) + color_matches(a, b, colors) <= a.len(),
{
    lemma_unmatched_total_bound(a, b, colors);
    lemma_color_below_unmatched(a, b, colors);
}

/// A sequence matches itself exactly at every position, with nothing left over.
pub proof fn lemma_match_self(a: Seq<int>, colors: nat)
    ensures
        exact_matches(a, a) == a.len(),
        color_matches(a, a, colors) == 0,
    decreases a.len(), colors,
{
    if a.len() > 0 {
        lemma_match_self(a.drop_last(), 0);
    }
    if colors > 0 {
        lemma_match_self(a, (colors - 1) as nat);
        lemma_unmatched_self(a, (colors - 1) as int);
    }
}

proof fn lemma_unmatched_self(a: Seq<int>, color: int)
    ensures
        unmatched_count(a, a, color) == 0,
    decreases a.len(),
{
    if a.len() > 0 {
        lemma_unmatched_self(a.drop_last(), color);
    }
}

/// Exact matches never exceed the number of positions.
pub proof fn lemma_exact_bound(a: Seq<int>, b: Seq<int>)
    ensures
        exact_matches(a, b) <= a.len(),
    decreases a.len(),
{
    if a.len() > 0 && b.len() > 0 {
        lemma_exact_bound(a.drop_last(), b.drop_last());
    }
}

/// Two sequences of one length that match exactly at every position are equal.
pub proof fn lemma_exact_everywhere(a: Seq<int>, b: Seq<int>)
    requires
        a.len() == b.len(),
        exact_matches(a, b) == a.len(),
    ensures
        a == b,
    decreases a.len(),
{
    if a.len() > 0 {
        lemma_exact_bound(a.drop_last(), b.drop_last());
        lemma_exact_everywhere(a.drop_last(), b.drop_last());
        assert(a =~= a.drop_last().push(a.last()));
        assert(b =~= b.drop_last().push(b.last()));
    } else {
        assert(a =~= b);
    }
}

} // verus!
