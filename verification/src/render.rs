//! The integer side of the picture of all 6^6 throws: pixel coordinates as faces, and what
//! decides the colour of a throw.

use vstd::prelude::*;
use crate::scoring::{
    faces_valid, face_counts, face_counts_spec, is_bust, is_bust_counts, lemma_occurrences_bounded,
    occurrences, roll_score, widen, law_bust_iff_no_score,
};

verus! {

/// Decodes `n` into three base-6 digits (each in 0..5), least significant first.
pub fn decode_base6_3(n: u32) -> (digits: [usize; 3])
    ensures
        digits@ == seq![(n % 6) as usize, ((n / 6) % 6) as usize, ((n / 36) % 6) as usize],
        n < 216 ==> digits[0] + 6 * digits[1] + 36 * digits[2] == n,
        forall|i: int| 0 <= i < 3 ==> #[trigger] digits@[i] < 6,
{
    let mut m = n;
    let a = (m % 6) as usize;
    m = m / 6;
    let b = (m % 6) as usize;
    m = m / 6;
    let c = (m % 6) as usize;
    assert(n / 6 / 6 == n / 36) by (nonlinear_arith);
    let digits = [a, b, c];
    assert(n < 216 ==> a + 6 * b + 36 * c == n) by (nonlinear_arith)
        requires
            a == n % 6,
            b == (n / 6) % 6,
            c == (n / 36) % 6,
    ;
    assert(digits@ =~= seq![(n % 6) as usize, ((n / 6) % 6) as usize, ((n / 36) % 6) as usize]);
    digits
}

/// What decides the colour of a throw in the picture.
pub enum ThrowPattern {
    /// The throw scores nothing.
    Bust,
    /// The throw shows one to six, one to five or two to six, each number once.
    Straight,
    /// Any other throw: its ones, its fives and the largest number of equal faces.
    Mixed { ones: u8, fives: u8, max_kind: u8 },
}

/// Each face from `lo` to `hi` shows exactly once in `c`.
pub open spec fn exactly_once(c: Seq<u8>, lo: int, hi: int) -> bool {
    forall|g: int| lo <= g <= hi ==> #[trigger] c[g] == 1
}

/// The largest of the counts.
pub open spec fn max_count(c: Seq<u8>, n: int) -> u8
    decreases n,
{
    if n <= 0 {
        0
    } else if c[n - 1] > max_count(c, n - 1) {
        c[n - 1]
    } else {
        max_count(c, n - 1)
    }
}

/// The pattern of a throw of six dice.
pub open spec fn pattern_of(faces: Seq<usize>) -> ThrowPattern {
    let c = face_counts_spec(faces);
    if is_bust_counts(c) {
        ThrowPattern::Bust
    } else if exactly_once(c, 0, 5) || exactly_once(c, 0, 4) || exactly_once(c, 1, 5) {
        ThrowPattern::Straight
    } else {
        ThrowPattern::Mixed { ones: c[0], fives: c[4], max_kind: max_count(c, 6) }
    }
}

/// Classifies a throw of six dice (face indices 0..5) for its colour.
pub fn throw_pattern(faces: &[usize; 6]) -> (pattern: ThrowPattern)
    requires
        faces_valid(faces@),
    ensures
        pattern == pattern_of(faces@),
{
    let counts = face_counts(faces);
    assert(counts@ =~= face_counts_spec(faces@));
    if is_bust(faces) {
        return ThrowPattern::Bust;
    }
    let mut max_kind: u8 = 0;
    let mut g: usize = 0;
    while g < 6
        invariant
            g <= 6,
            counts@.len() == 6,
            max_kind == max_count(counts@, g as int),
        decreases 6 - g,
    {
        if counts[g] > max_kind {
            max_kind = counts[g];
        }
        g = g + 1;
    }
    let straight_1_6 = counts[0] == 1 && counts[1] == 1 && counts[2] == 1 && counts[3] == 1
        && counts[4] == 1 && counts[5] == 1;
    let straight_1_5 = counts[0] == 1 && counts[1] == 1 && counts[2] == 1 && counts[3] == 1
        && counts[4] == 1;
    let straight_2_6 = counts[1] == 1 && counts[2] == 1 && counts[3] == 1 && counts[4] == 1
        && counts[5] == 1;
    proof {
        let c = counts@;
        assert(straight_1_6 == exactly_once(c, 0, 5)) by {
            if !straight_1_6 {
                assert(!(c[0] == 1 && c[1] == 1 && c[2] == 1 && c[3] == 1 && c[4] == 1 && c[5] == 1));
            }
        }
        assert(straight_1_5 == exactly_once(c, 0, 4)) by {
            if !straight_1_5 {
                assert(!(c[0] == 1 && c[1] == 1 && c[2] == 1 && c[3] == 1 && c[4] == 1));
            }
        }
        assert(straight_2_6 == exactly_once(c, 1, 5)) by {
            if !straight_2_6 {
                assert(!(c[1] == 1 && c[2] == 1 && c[3] == 1 && c[4] == 1 && c[5] == 1));
            }
        }
    }
    if straight_1_6 || straight_1_5 || straight_2_6 {
        return ThrowPattern::Straight;
    }
    ThrowPattern::Mixed { ones: counts[0], fives: counts[4], max_kind }
}

/// The largest of the first `n` counts is at least each of them and equal to one of them.
proof fn lemma_max_count_is_largest(c: Seq<u8>, n: int)
    requires
        0 < n <= c.len(),
    ensures
        forall|g: int| 0 <= g < n ==> #[trigger] c[g] <= max_count(c, n),
        exists|g: int| 0 <= g < n && #[trigger] c[g] == max_count(c, n),
    decreases n,
{
    if n > 1 {
        lemma_max_count_is_largest(c, n - 1);
        let w = choose|g: int| 0 <= g < n - 1 && #[trigger] c[g] == max_count(c, n - 1);
        if c[n - 1] > max_count(c, n - 1) {
            assert(c[n - 1] == max_count(c, n));
        } else {
            assert(c[w] == max_count(c, n));
        }
    } else {
        assert(max_count(c, 0) == 0);
        assert(c[0] == max_count(c, 1));
    }
}

/// For a throw that is neither bust nor a straight, the picture's pattern holds the number
/// of ones and of fives the throw shows, and as `max_kind` the largest number of dice that
/// show one face, over all six faces (ones included): at least the count of every face, and
/// equal to the count of some face.
pub proof fn law_mixed_pattern_counts(faces: Seq<usize>)
    requires
        faces_valid(faces),
    ensures
        pattern_of(faces) matches ThrowPattern::Mixed { ones, fives, max_kind } ==> {
            &&& ones == occurrences(faces, 0, 6)
            &&& fives == occurrences(faces, 4, 6)
            &&& forall|g: int| 0 <= g < 6 ==> #[trigger] occurrences(faces, g, 6) <= max_kind
            &&& exists|g: int| 0 <= g < 6 && #[trigger] occurrences(faces, g, 6) == max_kind
        },
{
    let c = face_counts_spec(faces);
    assert forall|g: int| 0 <= g < 6 implies #[trigger] c[g] == occurrences(faces, g, 6) by {
        lemma_occurrences_bounded(faces, g, 6);
    }
    lemma_max_count_is_largest(c, 6);
    if pattern_of(faces) is Mixed {
        let w = choose|g: int| 0 <= g < 6 && #[trigger] c[g] == max_count(c, 6);
        assert(occurrences(faces, w, 6) == max_count(c, 6));
        assert forall|g: int| 0 <= g < 6 implies #[trigger] occurrences(faces, g, 6) <= max_count(
            c,
            6,
        ) by {
            assert(c[g] <= max_count(c, 6));
        }
    }
}

/// A throw is painted as a bust exactly when it scores nothing, and as a straight exactly
/// when it scores and either each of the faces one to five or each of the faces two to six
/// shows on exactly one die.
pub proof fn law_pattern_kinds(faces: Seq<usize>)
    requires
        faces_valid(faces),
    ensures
        pattern_of(faces) is Bust <==> roll_score(widen(face_counts_spec(faces))) == 0,
        pattern_of(faces) is Straight <==> roll_score(widen(face_counts_spec(faces))) != 0 && (
        (forall|g: int| 0 <= g <= 4 ==> #[trigger] occurrences(faces, g, 6) == 1) || (forall|g: int|
            1 <= g <= 5 ==> #[trigger] occurrences(faces, g, 6) == 1)),
{
    let c = face_counts_spec(faces);
    law_bust_iff_no_score(faces);
    assert forall|g: int| 0 <= g < 6 implies #[trigger] c[g] == occurrences(faces, g, 6) by {
        lemma_occurrences_bounded(faces, g, 6);
    }
    let low = forall|g: int| 0 <= g <= 4 ==> #[trigger] occurrences(faces, g, 6) == 1;
    let high = forall|g: int| 1 <= g <= 5 ==> #[trigger] occurrences(faces, g, 6) == 1;
    if exactly_once(c, 0, 5) {
        assert forall|g: int| 0 <= g <= 4 implies #[trigger] occurrences(faces, g, 6) == 1 by {
            assert(c[g] == 1);
        }
    }
    if exactly_once(c, 0, 4) {
        assert forall|g: int| 0 <= g <= 4 implies #[trigger] occurrences(faces, g, 6) == 1 by {
            assert(c[g] == 1);
        }
    }
    if exactly_once(c, 1, 5) {
        assert forall|g: int| 1 <= g <= 5 implies #[trigger] occurrences(faces, g, 6) == 1 by {
            assert(c[g] == 1);
        }
    }
    if low {
        assert forall|g: int| 0 <= g <= 4 implies #[trigger] c[g] == 1 by {
            assert(occurrences(faces, g, 6) == 1);
        }
    }
    if high {
        assert forall|g: int| 1 <= g <= 5 implies #[trigger] c[g] == 1 by {
            assert(occurrences(faces, g, 6) == 1);
        }
    }
}

} // verus!
