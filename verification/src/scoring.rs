//! Points of a throw: singles, multiples and straights.

use vstd::arithmetic::power2::{pow2, lemma2_to64};
use vstd::bits::lemma_u32_shl_is_mul;
use vstd::prelude::*;

verus! {

/// Points of three of a kind of the face with index `face` (0 stands for a one, 5 for a six).
pub open spec fn triple_value(face: int) -> int {
    if face == 0 {
        1000
    } else {
        (face + 1) * 100
    }
}

/// Points of a face that a throw shows `count` times, when scoring is taken face by face:
/// three or more of a kind are worth the triple value, doubled for each die beyond the third;
/// fewer than three ones are worth 100 each, fewer than three fives 50 each, anything else nothing.
pub open spec fn face_points(face: int, count: int) -> int {
    if count >= 3 {
        triple_value(face) * pow2((count - 3) as nat)
    } else if face == 0 {
        count * 100
    } else if face == 4 {
        count * 50
    } else {
        0
    }
}

/// Score contributed by a single face (0..5 stands for 1..6) given that it appears `count`
/// times in the roll.
pub fn score_for_face_count(face: usize, count: usize) -> (score: u32)
    requires
        face < 6,
        count < 3 || face_points(face as int, count as int) <= u32::MAX,
    ensures
        score == face_points(face as int, count as int),
{
    let value = face + 1;
    if value == 1 && count < 3 {
        return (count as u32) * 100;
    }
    if value == 5 && count < 3 {
        return (count as u32) * 50;
    }
    let base3: u32 = match value {
        1 => 1000,
        2 => 200,
        3 => 300,
        4 => 400,
        5 => 500,
        _ => 600,
    };
    if count < 3 {
        return 0;
    }
    let shift = count - 3;
    proof {
        lemma2_to64();
        if shift > 32 {
            vstd::arithmetic::power2::lemma_pow2_strictly_increases(32, shift as nat);
        }
        assert(pow2(shift as nat) <= u32::MAX) by {
            vstd::arithmetic::mul::lemma_mul_inequality(1, base3 as int, pow2(shift as nat) as int);
        }
        lemma_u32_shl_is_mul(1u32, shift as u32);
    }
    let multiplier: u32 = 1u32 << (shift as u32);
    base3 * multiplier
}


/// Every face shows exactly once: the straight one to six.
pub open spec fn is_full_straight(c: Seq<usize>) -> bool {
    c[0] == 1 && c[1] == 1 && c[2] == 1 && c[3] == 1 && c[4] == 1 && c[5] == 1
}

/// Faces one to five each show at least once.
pub open spec fn has_low_straight(c: Seq<usize>) -> bool {
    c[0] >= 1 && c[1] >= 1 && c[2] >= 1 && c[3] >= 1 && c[4] >= 1
}

/// Faces two to six each show at least once.
pub open spec fn has_high_straight(c: Seq<usize>) -> bool {
    c[1] >= 1 && c[2] >= 1 && c[3] >= 1 && c[4] >= 1 && c[5] >= 1
}

/// Sum of `face_points` over the faces below `n`.
pub open spec fn points_below(c: Seq<usize>, n: int) -> int
    decreases n,
{
    if n <= 0 {
        0
    } else {
        points_below(c, n - 1) + face_points(n - 1, c[n - 1] as int)
    }
}

/// The score of a throw, given how many times each face shows (`c[0]` ones, ..., `c[5]` sixes).
/// A full straight is worth 1500; a straight one to five 500, a straight two to six 750, each
/// with the ones (100) and fives (50) that it does not use added; any other throw is scored
/// face by face.
pub open spec fn roll_score(c: Seq<usize>) -> int {
    if is_full_straight(c) {
        1500
    } else if has_low_straight(c) {
        500 + (c[0] - 1) * 100 + (c[4] - 1) * 50
    } else if has_high_straight(c) {
        750 + c[0] * 100 + (c[4] - 1) * 50
    } else {
        points_below(c, 6)
    }
}

/// Every face shows at most six times, as in a throw of six dice.
pub open spec fn counts_in_range(c: Seq<usize>) -> bool {
    c.len() == 6 && forall|i: int| 0 <= i < 6 ==> #[trigger] c[i] <= 6
}

/// The face counts on which `calc_score` is defined: at most six of each face (as in a throw
/// of six dice), or a straight whose ones and fives are below 2^32 and whose score fits in a
/// `u32`.
pub open spec fn calc_score_accepts(c: Seq<usize>) -> bool {
    ||| counts_in_range(c)
    ||| c.len() == 6 && (has_low_straight(c) || has_high_straight(c)) && c[0] < 0x1_0000_0000
        && c[4] < 0x1_0000_0000 && roll_score(c) <= u32::MAX
}

proof fn lemma_small_powers()
    ensures
        pow2(0) == 1,
        pow2(1) == 2,
        pow2(2) == 4,
        pow2(3) == 8,
{
    lemma2_to64();
}

/// Score of a throw given the number of times each face shows.
pub fn calc_score(counts: &[usize; 6]) -> (score: u32)
    requires
        calc_score_accepts(counts@),
    ensures
        score == roll_score(counts@),
{
    // -------- Straights --------
    if counts[0] == 1 && counts[1] == 1 && counts[2] == 1 && counts[3] == 1 && counts[4] == 1
        && counts[5] == 1 {
        return 1500;
    }
    let is_straight_1_5 = counts[0] >= 1 && counts[1] >= 1 && counts[2] >= 1 && counts[3] >= 1
        && counts[4] >= 1;
    if is_straight_1_5 {
        let extra_ones = (counts[0] - 1) as u32;
        let extra_fives = (counts[4] - 1) as u32;
        return 500 + extra_ones * 100 + extra_fives * 50;
    }
    let is_straight_2_6 = counts[1] >= 1 && counts[2] >= 1 && counts[3] >= 1 && counts[4] >= 1
        && counts[5] >= 1;
    if is_straight_2_6 {
        let extra_ones = counts[0] as u32;
        let extra_fives = (counts[4] - 1) as u32;
        return 750 + extra_ones * 100 + extra_fives * 50;
    }
    // -------- Multiples + singles --------
    proof {
        lemma_small_powers();
        assert(counts_in_range(counts@));
    }
    let mut score: u32 = 0;
    let mut face: usize = 0;
    while face < 6
        invariant
            face <= 6,
            counts_in_range(counts@),
            pow2(0) == 1 && pow2(1) == 2 && pow2(2) == 4 && pow2(3) == 8,
            score == points_below(counts@, face as int),
            score <= 8000 * face,
        decreases 6 - face,
    {
        let c = counts[face];
        if c >= 3 {
            let base: u32 = if face == 0 {
                1000
            } else if face == 4 {
                500
            } else {
                (face as u32 + 1) * 100
            };
            let mult: u32 = if c == 3 {
                1
            } else if c == 4 {
                2
            } else if c == 5 {
                4
            } else {
                8
            };
            score = score + base * mult;
        } else {
            if face == 0 {
                score = score + c as u32 * 100;
            } else if face == 4 {
                score = score + c as u32 * 50;
            }
        }
        face = face + 1;
    }
    score
}


/// The score of a throw when `calc_score` is defined on its counts, `None` otherwise (where
/// scoring a face seven times or more has no rule).
pub fn checked_calc_score(counts: &[usize; 6]) -> (score: Option<u32>)
    ensures
        score == if calc_score_accepts(counts@) {
            Some(roll_score(counts@) as u32)
        } else {
            None::<u32>
        },
{
    if counts[0] <= 6 && counts[1] <= 6 && counts[2] <= 6 && counts[3] <= 6 && counts[4] <= 6
        && counts[5] <= 6 {
        assert(counts_in_range(counts@));
        return Some(calc_score(counts));
    }
    proof {
        if counts_in_range(counts@) {
            assert(counts@[0] <= 6 && counts@[1] <= 6 && counts@[2] <= 6 && counts@[3] <= 6
                && counts@[4] <= 6 && counts@[5] <= 6);
        }
    }
    let low = counts[0] >= 1 && counts[1] >= 1 && counts[2] >= 1 && counts[3] >= 1 && counts[4] >= 1;
    let high = counts[1] >= 1 && counts[2] >= 1 && counts[3] >= 1 && counts[4] >= 1 && counts[5] >= 1;
    if !(low || high) || counts[0] as u64 >= 0x1_0000_0000u64 || counts[4] as u64 >= 0x1_0000_0000u64 {
        return None;
    }
    let ones = counts[0] as u64;
    let fives = counts[4] as u64;
    let total: u64 = if low {
        500 + (ones - 1) * 100 + (fives - 1) * 50
    } else {
        750 + ones * 100 + (fives - 1) * 50
    };
    assert(!is_full_straight(counts@));
    if total <= 0xffff_ffff {
        Some(calc_score(counts))
    } else {
        None
    }
}

/// How many of the first `n` entries of `faces` equal `face`.
pub open spec fn occurrences(faces: Seq<usize>, face: int, n: int) -> int
    decreases n,
{
    if n <= 0 {
        0
    } else {
        occurrences(faces, face, n - 1) + if faces[n - 1] as int == face {
            1int
        } else {
            0int
        }
    }
}

/// `counts` tells how many times each face shows in the throw `faces`.
pub open spec fn tallies(faces: Seq<usize>, counts: Seq<u8>) -> bool {
    counts.len() == 6 && forall|g: int|
        0 <= g < 6 ==> #[trigger] counts[g] as int == occurrences(faces, g, faces.len() as int)
}

/// Every die of the throw shows a face index below six.
pub open spec fn faces_valid(faces: Seq<usize>) -> bool {
    faces.len() == 6 && forall|i: int| 0 <= i < 6 ==> #[trigger] faces[i] < 6
}

/// A throw scores nothing: it shows no one, no five and no face three times or more.
pub open spec fn is_bust_counts(c: Seq<u8>) -> bool {
    c[0] == 0 && c[4] == 0 && forall|g: int| 0 <= g < 6 ==> #[trigger] c[g] < 3
}

pub proof fn lemma_occurrences_bounded(faces: Seq<usize>, face: int, n: int)
    requires
        0 <= n <= faces.len(),
    ensures
        0 <= occurrences(faces, face, n) <= n,
    decreases n,
{
    if n > 0 {
        lemma_occurrences_bounded(faces, face, n - 1);
    }
}

/// Counts how many times each face shows in a throw of six dice.
pub fn face_counts(faces: &[usize; 6]) -> (counts: [u8; 6])
    requires
        faces_valid(faces@),
    ensures
        tallies(faces@, counts@),
{
    let mut counts = [0u8; 6];
    let mut i: usize = 0;
    while i < 6
        invariant
            i <= 6,
            faces_valid(faces@),
            forall|g: int| 0 <= g < 6 ==> #[trigger] counts@[g] as int == occurrences(faces@, g, i as int),
        decreases 6 - i,
    {
        let f = faces[i];
        proof {
            lemma_occurrences_bounded(faces@, f as int, i as int);
        }
        counts[f] = counts[f] + 1;
        i = i + 1;
    }
    counts
}

/// Whether a throw of six dice (face indices 0..5) scores nothing.
pub fn is_bust(faces: &[usize; 6]) -> (bust: bool)
    requires
        faces_valid(faces@),
    ensures
        bust == is_bust_counts(face_counts_spec(faces@)),
{
    let counts = face_counts(faces);
    proof {
        lemma_tallies_unique(faces@, counts@);
    }
    // 1 or 5 score
    if counts[0] > 0 || counts[4] > 0 {
        return false;
    }
    // triples or more score
    let mut g: usize = 0;
    while g < 6
        invariant
            g <= 6,
            counts@ == face_counts_spec(faces@),
            counts@[0] == 0 && counts@[4] == 0,
            forall|h: int| 0 <= h < g ==> #[trigger] counts@[h] < 3,
        decreases 6 - g,
    {
        if counts[g] >= 3 {
            assert(counts@[g as int] >= 3);
            return false;
        }
        g = g + 1;
    }
    // check straights
    let straight_1_6 = counts[0] == 1 && counts[1] == 1 && counts[2] == 1 && counts[3] == 1
        && counts[4] == 1 && counts[5] == 1;
    if straight_1_6 {
        return false;
    }
    let straight_1_5 = counts[0] == 1 && counts[1] == 1 && counts[2] == 1 && counts[3] == 1
        && counts[4] == 1;
    if straight_1_5 {
        return false;
    }
    let straight_2_6 = counts[1] == 1 && counts[2] == 1 && counts[3] == 1 && counts[4] == 1
        && counts[5] == 1;
    if straight_2_6 {
        return false;
    }
    true
}

/// The face counts of a throw, as a sequence of six numbers.
pub open spec fn face_counts_spec(faces: Seq<usize>) -> Seq<u8> {
    Seq::new(6, |g: int| occurrences(faces, g, faces.len() as int) as u8)
}

proof fn lemma_tallies_unique(faces: Seq<usize>, counts: Seq<u8>)
    requires
        tallies(faces, counts),
    ensures
        counts == face_counts_spec(faces),
{
    assert(counts =~= face_counts_spec(faces));
}


/// Face counts as the `usize` numbers that `calc_score` takes.
pub open spec fn widen(c: Seq<u8>) -> Seq<usize> {
    c.map_values(|x: u8| x as usize)
}

proof fn lemma_points_below_zero(c: Seq<usize>, n: int)
    requires
        n <= 6,
        c.len() == 6,
        c[0] == 0,
        c[4] == 0,
        forall|g: int| 0 <= g < 6 ==> #[trigger] c[g] < 3,
    ensures
        points_below(c, n) == 0,
    decreases n,
{
    if n > 0 {
        lemma_points_below_zero(c, n - 1);
        assert(c[n - 1] < 3);
    }
}

proof fn lemma_face_points_nonneg(face: int, count: int)
    requires
        0 <= face < 6,
        count >= 0,
    ensures
        face_points(face, count) >= 0,
        count >= 3 ==> face_points(face, count) > 0,
{
    if count >= 3 {
        vstd::arithmetic::power2::lemma_pow2_pos((count - 3) as nat);
        vstd::arithmetic::mul::lemma_mul_strictly_positive(
            triple_value(face),
            pow2((count - 3) as nat) as int,
        );
    }
}

/// A throw of six dice is a bust exactly when its score is zero: `is_bust` and
/// `calc_score` agree on every throw.
pub proof fn law_bust_iff_no_score(faces: Seq<usize>)
    requires
        faces_valid(faces),
    ensures
        is_bust_counts(face_counts_spec(faces)) <==> roll_score(widen(face_counts_spec(faces))) == 0,
{
    let c = face_counts_spec(faces);
    let w = widen(c);
    assert forall|g: int| 0 <= g < 6 implies #[trigger] w[g] == c[g] as usize && w[g] <= 6 by {
        lemma_occurrences_bounded(faces, g, 6);
    }
    assert forall|h: int| 0 <= h < 6 implies face_points(h, #[trigger] w[h] as int) >= 0 by {
        lemma_face_points_nonneg(h, w[h] as int);
    }
    assert(w[0] == c[0] as usize && w[4] == c[4] as usize);
    if is_bust_counts(c) {
        assert forall|g: int| 0 <= g < 6 implies #[trigger] w[g] < 3 by {
            assert(c[g] < 3);
        }
        assert(w[0] == 0 && w[4] == 0);
        lemma_points_below_zero(w, 6);
    } else {
        if is_full_straight(w) || has_low_straight(w) || has_high_straight(w) {
        } else if c[0] != 0 {
            lemma_face_points_nonneg(0, w[0] as int);
            assert(face_points(0, w[0] as int) > 0);
            lemma_points_sum_split(w, 0);
        } else if c[4] != 0 {
            lemma_face_points_nonneg(4, w[4] as int);
            assert(face_points(4, w[4] as int) > 0);
            lemma_points_sum_split(w, 4);
        } else {
            let g = choose|g: int| 0 <= g < 6 && !(#[trigger] c[g] < 3);
            assert(w[g] >= 3);
            lemma_face_points_nonneg(g, w[g] as int);
            lemma_points_sum_split(w, g);
        }
    }
}

proof fn lemma_points_sum_split(c: Seq<usize>, g: int)
    requires
        0 <= g < 6,
        face_points(g, c[g] as int) > 0,
        forall|h: int| 0 <= h < 6 ==> face_points(h, #[trigger] c[h] as int) >= 0,
    ensures
        points_below(c, 6) > 0,
{
    lemma_points_below_monotone(c, g + 1, 6);
    lemma_points_below_nonneg_all(c, g);
}

proof fn lemma_points_below_monotone(c: Seq<usize>, m: int, n: int)
    requires
        0 <= m <= n <= 6,
        forall|h: int| 0 <= h < 6 ==> face_points(h, #[trigger] c[h] as int) >= 0,
    ensures
        points_below(c, m) <= points_below(c, n),
    decreases n - m,
{
    if m < n {
        lemma_points_below_monotone(c, m, n - 1);
        assert(face_points(n - 1, c[n - 1] as int) >= 0);
    }
}

proof fn lemma_points_below_nonneg_all(c: Seq<usize>, n: int)
    requires
        0 <= n <= 6,
        forall|h: int| 0 <= h < 6 ==> face_points(h, #[trigger] c[h] as int) >= 0,
    ensures
        points_below(c, n) >= 0,
    decreases n,
{
    if n > 0 {
        lemma_points_below_nonneg_all(c, n - 1);
        assert(face_points(n - 1, c[n - 1] as int) >= 0);
    }
}

/// Every straight shows a five, so a throw with a straight is never a bust.
pub proof fn law_every_straight_shows_a_five(c: Seq<usize>)
    requires
        c.len() == 6,
        is_full_straight(c) || has_low_straight(c) || has_high_straight(c),
    ensures
        c[4] >= 1,
{
}

/// Without a straight, the score of a throw is the sum of the scores of its faces taken one
/// by one (`calc_score` is additive over `score_for_face_count`).
pub proof fn law_score_additive_without_straight(c: Seq<usize>)
    requires
        c.len() == 6,
        !has_low_straight(c),
        !has_high_straight(c),
    ensures
        roll_score(c) == face_points(0, c[0] as int) + face_points(1, c[1] as int) + face_points(
            2,
            c[2] as int,
        ) + face_points(3, c[3] as int) + face_points(4, c[4] as int) + face_points(5, c[5] as int),
{
    assert(!is_full_straight(c));
    reveal_with_fuel(points_below, 7);
}

/// Each die beyond the third of a kind doubles the points of that face.
pub proof fn law_extra_die_doubles(face: int, count: int)
    requires
        0 <= face < 6,
        count >= 3,
    ensures
        face_points(face, count + 1) == 2 * face_points(face, count),
{
    vstd::arithmetic::power2::lemma_pow2_unfold((count - 2) as nat);
    assert((count + 1 - 3) as nat == (count - 2) as nat);
    assert(((count - 2) as nat - 1) as nat == (count - 3) as nat);
    let p = pow2((count - 3) as nat) as int;
    let t = triple_value(face);
    assert(pow2((count - 2) as nat) == 2 * p);
    assert(t * (2 * p) == 2 * (t * p)) by (nonlinear_arith);
}

/// The points of a face shown `count` times (at most six), in numbers: fewer than three
/// ones score 100 each, fewer than three fives 50 each, fewer than three of any other face
/// nothing; three ones score 1000 and three of the face numbered `face + 1` otherwise
/// `(face + 1) * 100`; four, five and six of a kind score two, four and eight times three.
pub proof fn law_face_points_table(face: int, count: int)
    requires
        0 <= face < 6,
        0 <= count <= 6,
    ensures
        count < 3 && face == 0 ==> face_points(face, count) == 100 * count,
        count < 3 && face == 4 ==> face_points(face, count) == 50 * count,
        count < 3 && face != 0 && face != 4 ==> face_points(face, count) == 0,
        count >= 3 ==> face_points(face, count) == (if face == 0 {
            1000
        } else {
            (face + 1) * 100
        }) * (if count == 3 {
            1int
        } else if count == 4 {
            2int
        } else if count == 5 {
            4int
        } else {
            8int
        }),
{
    lemma_small_powers();
}

/// The score of a throw with a straight, in numbers: every face once scores 1500; one to
/// five scores 500 plus 100 for each further one and 50 for each further five; two to six
/// without a one scores 750 plus 50 for each further five.
pub proof fn law_straight_points(c: Seq<usize>)
    requires
        c.len() == 6,
    ensures
        c[0] == 1 && c[1] == 1 && c[2] == 1 && c[3] == 1 && c[4] == 1 && c[5] == 1 ==> roll_score(c)
            == 1500,
        c[0] >= 1 && c[1] >= 1 && c[2] >= 1 && c[3] >= 1 && c[4] >= 1 && !(c[0] == 1 && c[1] == 1
            && c[2] == 1 && c[3] == 1 && c[4] == 1 && c[5] == 1) ==> roll_score(c) == 500 + (c[0] - 1)
            * 100 + (c[4] - 1) * 50,
        c[0] == 0 && c[1] >= 1 && c[2] >= 1 && c[3] >= 1 && c[4] >= 1 && c[5] >= 1 ==> roll_score(c)
            == 750 + (c[4] - 1) * 50,
{
}

/// Every histogram of a throw of six dice is scored: counts of at most six of each face lie
/// where `calc_score` is defined, so `checked_calc_score` gives `Some` on them.
pub proof fn law_every_histogram_is_scored(c: Seq<usize>)
    requires
        c.len() == 6,
        c[0] <= 6 && c[1] <= 6 && c[2] <= 6 && c[3] <= 6 && c[4] <= 6 && c[5] <= 6,
    ensures
        calc_score_accepts(c),
{
    assert forall|i: int| 0 <= i < 6 implies #[trigger] c[i] <= 6 by {
        assert(c[0] <= 6 && c[1] <= 6 && c[2] <= 6 && c[3] <= 6 && c[4] <= 6 && c[5] <= 6);
    }
}

/// Without a straight, and with at most six of each face, the score of a throw in numbers:
/// each face contributes by the table of `law_face_points_table`.
pub proof fn law_score_without_straight(c: Seq<usize>)
    requires
        c.len() == 6,
        c[0] <= 6 && c[1] <= 6 && c[2] <= 6 && c[3] <= 6 && c[4] <= 6 && c[5] <= 6,
        !(c[0] >= 1 && c[1] >= 1 && c[2] >= 1 && c[3] >= 1 && c[4] >= 1),
        !(c[1] >= 1 && c[2] >= 1 && c[3] >= 1 && c[4] >= 1 && c[5] >= 1),
    ensures
        roll_score(c) == points_in_numbers(0, c[0] as int) + points_in_numbers(1, c[1] as int)
            + points_in_numbers(2, c[2] as int) + points_in_numbers(3, c[3] as int) + points_in_numbers(
            4,
            c[4] as int,
        ) + points_in_numbers(5, c[5] as int),
{
    law_score_additive_without_straight(c);
    law_face_points_table(0, c[0] as int);
    law_face_points_table(1, c[1] as int);
    law_face_points_table(2, c[2] as int);
    law_face_points_table(3, c[3] as int);
    law_face_points_table(4, c[4] as int);
    law_face_points_table(5, c[5] as int);
}

/// The points of a face shown `count` times (at most six), written out as numbers.
pub open spec fn points_in_numbers(face: int, count: int) -> int {
    if count == 0 {
        0
    } else if count < 3 {
        if face == 0 {
            100 * count
        } else if face == 4 {
            50 * count
        } else {
            0
        }
    } else {
        (if face == 0 {
            1000
        } else {
            (face + 1) * 100
        }) * (if count == 3 {
            1int
        } else if count == 4 {
            2int
        } else if count == 5 {
            4int
        } else {
            8int
        })
    }
}

} // verus!
