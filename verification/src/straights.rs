//! The states of the straight computation: which numbers a throw has shown so far, as a
//! six-bit mask (bit `n - 1` for the number `n`), and how many jokers it has shown.

use vstd::prelude::*;
use crate::scoring::{
    occurrences, faces_valid, face_counts_spec, widen, has_low_straight, has_high_straight,
    lemma_occurrences_bounded,
};

verus! {

/// Numbers one to five.
pub const REQ_1_TO_5: u8 = 0x1f;

/// Numbers two to six.
pub const REQ_2_TO_6: u8 = 0x3e;

/// Numbers one to six.
pub const REQ_1_TO_6: u8 = 0x3f;

/// The bit that stands for the number `n` (1 to 8).
pub fn bit_for_number(n: u8) -> (bit: u8)
    requires
        1 <= n <= 8,
    ensures
        bit == 1u8 << (n - 1) as u8,
{
    1u8 << (n - 1)
}

/// Number of one bits among the lowest `n` bits of `x`.
pub open spec fn ones_below(x: u8, n: nat) -> nat
    decreases n,
{
    if n == 0 {
        0
    } else {
        ones_below(x, (n - 1) as nat) + if (x >> (n - 1) as u8) & 1 == 1 {
            1nat
        } else {
            0nat
        }
    }
}

/// Number of one bits of `x`.
pub fn popcount_u8(x: u8) -> (count: u32)
    ensures
        count == ones_below(x, 8),
{
    let mut count: u32 = 0;
    let mut k: u8 = 0;
    while k < 8
        invariant
            k <= 8,
            count == ones_below(x, k as nat),
            count <= k,
        decreases 8 - k,
    {
        if (x >> k) & 1 == 1 {
            count = count + 1;
        }
        k = k + 1;
    }
    count
}

/// The state after one more die shows `face` (0 stands for the one): a joker when the die is
/// a devil's die and shows its first face, else the number `face + 1`. `None` when a seventh
/// joker would be counted, which six dice never do.
pub open spec fn straight_successor(mask: u8, jokers: u8, face: int, is_devil: bool) -> Option<(u8, u8)> {
    if is_devil && face == 0 {
        if jokers < 6 {
            Some((mask, (jokers + 1) as u8))
        } else {
            None
        }
    } else {
        Some((mask | (1u8 << face as u8), jokers))
    }
}

/// One step of the straight computation.
pub fn straight_step(mask: u8, jokers: u8, face: usize, is_devil: bool) -> (next: Option<(u8, u8)>)
    requires
        face < 6,
    ensures
        next == straight_successor(mask, jokers, face as int, is_devil),
{
    if is_devil && face == 0 {
        if jokers < 6 {
            Some((mask, jokers + 1))
        } else {
            None
        }
    } else {
        let number = (face as u8) + 1;
        Some((mask | bit_for_number(number), jokers))
    }
}

/// Whether the jokers suffice to fill the numbers of `req` that `mask` lacks.
pub open spec fn completes(req: u8, mask: u8, jokers: u8) -> bool {
    ones_below(req & !mask, 8) <= jokers
}

/// Which straights a final state makes: one to five, two to six, one to six.
pub fn straights_completed(mask: u8, jokers: u8) -> (made: (bool, bool, bool))
    ensures
        made == (
            completes(REQ_1_TO_5, mask, jokers),
            completes(REQ_2_TO_6, mask, jokers),
            completes(REQ_1_TO_6, mask, jokers),
        ),
{
    let missing_1to5 = popcount_u8(REQ_1_TO_5 & !mask);
    let missing_2to6 = popcount_u8(REQ_2_TO_6 & !mask);
    let missing_1to6 = popcount_u8(REQ_1_TO_6 & !mask);
    (missing_1to5 <= jokers as u32, missing_2to6 <= jokers as u32, missing_1to6 <= jokers as u32)
}


proof fn lemma_ones_subset(x: u8, y: u8, n: nat)
    requires
        x & y == x,
        n <= 8,
    ensures
        ones_below(x, n) <= ones_below(y, n),
    decreases n,
{
    if n > 0 {
        lemma_ones_subset(x, y, (n - 1) as nat);
        let k = (n - 1) as u8;
        assert(((x >> k) & 1 == 1) ==> ((y >> k) & 1 == 1)) by (bit_vector)
            requires
                x & y == x,
                k < 8,
        ;
    }
}

/// A throw that makes the straight one to six also makes the straights one to five and two
/// to six, so the chance of each of the shorter straights alone is never negative.
pub proof fn law_full_straight_makes_both_short_ones(mask: u8, jokers: u8)
    requires
        completes(REQ_1_TO_6, mask, jokers),
    ensures
        completes(REQ_1_TO_5, mask, jokers),
        completes(REQ_2_TO_6, mask, jokers),
{
    assert((0x1fu8 & !mask) & (0x3fu8 & !mask) == (0x1fu8 & !mask)) by (bit_vector);
    assert((0x3eu8 & !mask) & (0x3fu8 & !mask) == (0x3eu8 & !mask)) by (bit_vector);
    lemma_ones_subset(0x1fu8 & !mask, 0x3fu8 & !mask, 8);
    lemma_ones_subset(0x3eu8 & !mask, 0x3fu8 & !mask, 8);
}

/// The mask after the first `n` dice of a throw of ordinary dice.
pub open spec fn run_mask(faces: Seq<usize>, n: int) -> u8
    decreases n,
{
    if n <= 0 {
        0
    } else {
        run_mask(faces, n - 1) | (1u8 << faces[n - 1] as u8)
    }
}

proof fn lemma_run_mask(faces: Seq<usize>, n: int)
    requires
        faces_valid(faces),
        0 <= n <= 6,
    ensures
        run_mask(faces, n) < 64,
        forall|b: int|
            0 <= b < 6 ==> (((run_mask(faces, n) >> b as u8) & 1 == 1) <==> #[trigger] occurrences(
                faces,
                b,
                n,
            ) > 0),
    decreases n,
{
    if n > 0 {
        lemma_run_mask(faces, n - 1);
        let m = run_mask(faces, n - 1);
        let f = faces[n - 1] as u8;
        assert(f < 6);
        assert((m | (1u8 << f)) < 64) by (bit_vector)
            requires
                m < 64,
                f < 6,
        ;
        assert forall|b: int| 0 <= b < 6 implies (((run_mask(faces, n) >> b as u8) & 1 == 1)
            <==> #[trigger] occurrences(faces, b, n) > 0) by {
            let bb = b as u8;
            assert((((m | (1u8 << f)) >> bb) & 1 == 1) <==> (((m >> bb) & 1 == 1) || bb == f))
                by (bit_vector)
                requires
                    f < 6,
                    bb < 6,
            ;
            crate::bust_states::lemma_occ_nonneg(faces, b, n - 1);
        }
    } else {
        assert forall|b: int| 0 <= b < 6 implies (((run_mask(faces, n) >> b as u8) & 1 == 1)
            <==> #[trigger] occurrences(faces, b, n) > 0) by {
            let bb = b as u8;
            assert((0u8 >> bb) & 1 != 1) by (bit_vector);
        }
    }
}

proof fn lemma_ones_zero(x: u8)
    ensures
        ones_below(x, 8) == 0 <==> x == 0,
{
    reveal_with_fuel(ones_below, 9);
    assert(x == 0 <==> ((x >> 0u8) & 1 != 1 && (x >> 1u8) & 1 != 1 && (x >> 2u8) & 1 != 1 && (x
        >> 3u8) & 1 != 1 && (x >> 4u8) & 1 != 1 && (x >> 5u8) & 1 != 1 && (x >> 6u8) & 1 != 1 && (
    x >> 7u8) & 1 != 1)) by (bit_vector);
}

/// For a throw of six ordinary dice, the straight states agree with the scoring: the final
/// state makes the straight one to five exactly when the throw shows one to five, two to six
/// exactly when it shows two to six, and one to six exactly when it shows every number.
pub proof fn law_straight_states_track_straights(faces: Seq<usize>)
    requires
        faces_valid(faces),
    ensures
        completes(REQ_1_TO_5, run_mask(faces, 6), 0) <==> has_low_straight(
            widen(face_counts_spec(faces)),
        ),
        completes(REQ_2_TO_6, run_mask(faces, 6), 0) <==> has_high_straight(
            widen(face_counts_spec(faces)),
        ),
        completes(REQ_1_TO_6, run_mask(faces, 6), 0) <==> (forall|g: int|
            0 <= g < 6 ==> #[trigger] occurrences(faces, g, 6) > 0),
{
    let m = run_mask(faces, 6);
    lemma_run_mask(faces, 6);
    let w = widen(face_counts_spec(faces));
    assert forall|g: int| 0 <= g < 6 implies (#[trigger] w[g] >= 1 <==> occurrences(faces, g, 6) > 0)
        && (((m >> g as u8) & 1 == 1) <==> occurrences(faces, g, 6) > 0) by {
        lemma_occurrences_bounded(faces, g, 6);
    }
    assert(w[0] >= 1 <==> ((m >> 0u8) & 1 == 1));
    assert(w[1] >= 1 <==> ((m >> 1u8) & 1 == 1));
    assert(w[2] >= 1 <==> ((m >> 2u8) & 1 == 1));
    assert(w[3] >= 1 <==> ((m >> 3u8) & 1 == 1));
    assert(w[4] >= 1 <==> ((m >> 4u8) & 1 == 1));
    assert(w[5] >= 1 <==> ((m >> 5u8) & 1 == 1));
    lemma_ones_zero(0x1fu8 & !m);
    lemma_ones_zero(0x3eu8 & !m);
    lemma_ones_zero(0x3fu8 & !m);
    assert((0x1fu8 & !m) == 0 <==> ((m >> 0u8) & 1 == 1 && (m >> 1u8) & 1 == 1 && (m >> 2u8) & 1
        == 1 && (m >> 3u8) & 1 == 1 && (m >> 4u8) & 1 == 1)) by (bit_vector);
    assert((0x3eu8 & !m) == 0 <==> ((m >> 1u8) & 1 == 1 && (m >> 2u8) & 1 == 1 && (m >> 3u8) & 1
        == 1 && (m >> 4u8) & 1 == 1 && (m >> 5u8) & 1 == 1)) by (bit_vector);
    assert((0x3fu8 & !m) == 0 <==> ((m >> 0u8) & 1 == 1 && (m >> 1u8) & 1 == 1 && (m >> 2u8) & 1
        == 1 && (m >> 3u8) & 1 == 1 && (m >> 4u8) & 1 == 1 && (m >> 5u8) & 1 == 1)) by (bit_vector);
    if forall|g: int| 0 <= g < 6 ==> #[trigger] occurrences(faces, g, 6) > 0 {
    } else {
        let g = choose|g: int| 0 <= g < 6 && !(#[trigger] occurrences(faces, g, 6) > 0);
        assert((m >> g as u8) & 1 != 1);
    }
}


/// Die `i` of the throw `o` shows a joker: it is a devil's die showing its first face.
pub open spec fn is_joker(o: Seq<usize>, devils: Seq<bool>, i: int) -> bool {
    devils[i] && o[i] == 0
}

/// How many of the first `n` dice show the number `k + 1` as a number, not as a joker.
pub open spec fn shows_number(o: Seq<usize>, devils: Seq<bool>, k: int, n: int) -> int
    decreases n,
{
    if n <= 0 {
        0
    } else {
        shows_number(o, devils, k, n - 1) + if !is_joker(o, devils, n - 1) && o[n - 1] as int == k {
            1int
        } else {
            0int
        }
    }
}

/// How many of the first `n` dice show a joker.
pub open spec fn joker_count(o: Seq<usize>, devils: Seq<bool>, n: int) -> int
    decreases n,
{
    if n <= 0 {
        0
    } else {
        joker_count(o, devils, n - 1) + if is_joker(o, devils, n - 1) {
            1int
        } else {
            0int
        }
    }
}

/// The mask of the numbers that the first `n` dice show as numbers.
pub open spec fn number_mask(o: Seq<usize>, devils: Seq<bool>, n: int) -> u8
    decreases n,
{
    if n <= 0 {
        0
    } else if is_joker(o, devils, n - 1) {
        number_mask(o, devils, n - 1)
    } else {
        number_mask(o, devils, n - 1) | (1u8 << o[n - 1] as u8)
    }
}

/// How many of the numbers of `req` among the lowest `k` bits no die of the throw shows as
/// a number.
pub open spec fn missing_numbers(req: u8, o: Seq<usize>, devils: Seq<bool>, k: nat) -> nat
    decreases k,
{
    if k == 0 {
        0
    } else {
        missing_numbers(req, o, devils, (k - 1) as nat) + if (req >> (k - 1) as u8) & 1 == 1
            && shows_number(o, devils, k - 1, 6) == 0 {
            1nat
        } else {
            0nat
        }
    }
}

/// The mask after the first `n` dice holds exactly the numbers they show as numbers.
pub proof fn lemma_number_mask(o: Seq<usize>, devils: Seq<bool>, n: int)
    requires
        faces_valid(o),
        0 <= n <= 6,
    ensures
        number_mask(o, devils, n) < 64,
        0 <= joker_count(o, devils, n) <= n,
        forall|b: int|
            0 <= b < 8 ==> (((number_mask(o, devils, n) >> b as u8) & 1 == 1) <==> #[trigger] shows_number(
                o,
                devils,
                b,
                n,
            ) > 0),
    decreases n,
{
    if n > 0 {
        lemma_number_mask(o, devils, n - 1);
        let m = number_mask(o, devils, n - 1);
        let f = o[n - 1] as u8;
        assert(f < 6);
        assert((m | (1u8 << f)) < 64) by (bit_vector)
            requires
                m < 64,
                f < 6,
        ;
        assert forall|b: int| 0 <= b < 8 implies (((number_mask(o, devils, n) >> b as u8) & 1 == 1)
            <==> #[trigger] shows_number(o, devils, b, n) > 0) by {
            let bb = b as u8;
            assert((((m | (1u8 << f)) >> bb) & 1 == 1) <==> (((m >> bb) & 1 == 1) || bb == f))
                by (bit_vector)
                requires
                    f < 6,
                    bb < 8,
            ;
            lemma_shows_nonneg(o, devils, b, n - 1);
        }
    } else {
        assert forall|b: int| 0 <= b < 8 implies (((number_mask(o, devils, n) >> b as u8) & 1 == 1)
            <==> #[trigger] shows_number(o, devils, b, n) > 0) by {
            let bb = b as u8;
            assert((0u8 >> bb) & 1 != 1) by (bit_vector);
        }
    }
}

proof fn lemma_shows_nonneg(o: Seq<usize>, devils: Seq<bool>, k: int, n: int)
    ensures
        shows_number(o, devils, k, n) >= 0,
    decreases n,
{
    if n > 0 {
        lemma_shows_nonneg(o, devils, k, n - 1);
    }
}

proof fn lemma_missing_is_ones(req: u8, o: Seq<usize>, devils: Seq<bool>, k: nat)
    requires
        faces_valid(o),
        k <= 8,
    ensures
        ones_below(req & !number_mask(o, devils, 6), k) == missing_numbers(req, o, devils, k),
    decreases k,
{
    if k > 0 {
        lemma_missing_is_ones(req, o, devils, (k - 1) as nat);
        lemma_number_mask(o, devils, 6);
        let m = number_mask(o, devils, 6);
        let b = (k - 1) as u8;
        assert((((req & !m) >> b) & 1 == 1) <==> ((req >> b) & 1 == 1 && (m >> b) & 1 != 1))
            by (bit_vector)
            requires
                b < 8,
        ;
        assert(((m >> b) & 1 == 1) <==> shows_number(o, devils, b as int, 6) > 0);
        lemma_shows_nonneg(o, devils, b as int, 6);
    }
}

/// With devil's dice, the jokers fill exactly the missing numbers: a throw makes a straight
/// exactly when no more numbers of the straight are missing among the numbers its dice show
/// than it shows jokers.
pub proof fn law_jokers_fill_missing_numbers(req: u8, o: Seq<usize>, devils: Seq<bool>)
    requires
        faces_valid(o),
    ensures
        completes(req, number_mask(o, devils, 6), joker_count(o, devils, 6) as u8) <==> missing_numbers(
            req,
            o,
            devils,
            8,
        ) <= joker_count(o, devils, 6),
{
    lemma_number_mask(o, devils, 6);
    lemma_missing_is_ones(req, o, devils, 8);
}

} // verus!
