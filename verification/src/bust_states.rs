//! The states of the bust computation: how many twos, threes, fours and sixes a throw
//! has shown so far, each 0, 1 or 2, packed as a base-3 number.

use vstd::prelude::*;
use crate::scoring::{occurrences, faces_valid, is_bust_counts, face_counts_spec};

verus! {

/// Number of states: 3^4.
pub const STATE_COUNT: usize = 81;

/// The base-3 number with digits `c2`, `c3`, `c4`, `c6`, least significant first.
pub open spec fn state_index(c2: int, c3: int, c4: int, c6: int) -> int {
    c2 + 3 * c3 + 9 * c4 + 27 * c6
}

/// Packs the counts of twos, threes, fours and sixes into one state index.
pub fn encode(c2: u8, c3: u8, c4: u8, c6: u8) -> (idx: usize)
    ensures
        idx == state_index(c2 as int, c3 as int, c4 as int, c6 as int),
{
    (c2 as usize) + 3 * (c3 as usize) + 9 * (c4 as usize) + 27 * (c6 as usize)
}

/// The four base-3 digits of `idx` below 81, least significant first.
pub open spec fn state_digits(idx: int) -> (int, int, int, int) {
    (idx % 3, (idx / 3) % 3, (idx / 9) % 3, (idx / 27) % 3)
}

/// Unpacks a state index into the counts of twos, threes, fours and sixes.
pub fn decode(idx: usize) -> (c: (u8, u8, u8, u8))
    ensures
        (c.0 as int, c.1 as int, c.2 as int, c.3 as int) == state_digits(idx as int),
{
    let c2 = (idx % 3) as u8;
    let c3 = ((idx / 3) % 3) as u8;
    let c4 = ((idx / 9) % 3) as u8;
    let c6 = ((idx / 27) % 3) as u8;
    (c2, c3, c4, c6)
}

/// Decoding an encoded state gives back its counts, for counts of at most two.
pub proof fn law_decode_encode(c2: int, c3: int, c4: int, c6: int)
    requires
        0 <= c2 < 3,
        0 <= c3 < 3,
        0 <= c4 < 3,
        0 <= c6 < 3,
    ensures
        state_digits(state_index(c2, c3, c4, c6)) == (c2, c3, c4, c6),
        0 <= state_index(c2, c3, c4, c6) < STATE_COUNT,
{
    let i = state_index(c2, c3, c4, c6);
    assert(i % 3 == c2) by (nonlinear_arith)
        requires
            i == c2 + 3 * c3 + 9 * c4 + 27 * c6,
            0 <= c2 < 3,
            0 <= c3 < 3,
            0 <= c4 < 3,
            0 <= c6 < 3,
    ;
    assert(i / 3 == c3 + 3 * c4 + 9 * c6) by (nonlinear_arith)
        requires
            i == c2 + 3 * c3 + 9 * c4 + 27 * c6,
            0 <= c2 < 3,
            0 <= c3 < 3,
            0 <= c4 < 3,
            0 <= c6 < 3,
    ;
    assert(i / 9 == c4 + 3 * c6) by (nonlinear_arith)
        requires
            i == c2 + 3 * c3 + 9 * c4 + 27 * c6,
            0 <= c2 < 3,
            0 <= c3 < 3,
            0 <= c4 < 3,
            0 <= c6 < 3,
    ;
    assert(i / 27 == c6) by (nonlinear_arith)
        requires
            i == c2 + 3 * c3 + 9 * c4 + 27 * c6,
            0 <= c2 < 3,
            0 <= c3 < 3,
            0 <= c4 < 3,
            0 <= c6 < 3,
    ;
}

/// Encoding the decoded counts of a state below 81 gives back the state.
pub proof fn law_encode_decode(idx: int)
    requires
        0 <= idx < STATE_COUNT,
    ensures
        ({
            let d = state_digits(idx);
            state_index(d.0, d.1, d.2, d.3) == idx
        }),
{
    assert(idx % 3 + 3 * ((idx / 3) % 3) + 9 * ((idx / 9) % 3) + 27 * ((idx / 27) % 3) == idx)
        by (nonlinear_arith)
        requires
            0 <= idx < 81,
    ;
}


/// The state reached from `state` when one more die shows `face` (0 stands for a one), or
/// `None` when that die makes the throw score: a one, a five, or a third two, three, four
/// or six.
pub open spec fn successor(state: int, face: int) -> Option<int> {
    let d = state_digits(state);
    if face == 1 && d.0 < 2 {
        Some(state_index(d.0 + 1, d.1, d.2, d.3))
    } else if face == 2 && d.1 < 2 {
        Some(state_index(d.0, d.1 + 1, d.2, d.3))
    } else if face == 3 && d.2 < 2 {
        Some(state_index(d.0, d.1, d.2 + 1, d.3))
    } else if face == 5 && d.3 < 2 {
        Some(state_index(d.0, d.1, d.2, d.3 + 1))
    } else {
        None
    }
}

/// One step of the bust computation: the state after one more die shows `face`, or `None`
/// when the throw can no longer be a bust.
pub fn bust_successor(state: usize, face: usize) -> (next: Option<usize>)
    requires
        state < STATE_COUNT,
    ensures
        match next {
            Some(n) => successor(state as int, face as int) == Some(n as int) && n < STATE_COUNT,
            None => successor(state as int, face as int) is None,
        },
{
    let (c2, c3, c4, c6) = decode(state);
    proof {
        law_encode_decode(state as int);
    }
    if face == 1 && c2 < 2 {
        proof { law_decode_encode(c2 + 1, c3 as int, c4 as int, c6 as int); }
        Some(encode(c2 + 1, c3, c4, c6))
    } else if face == 2 && c3 < 2 {
        proof { law_decode_encode(c2 as int, c3 + 1, c4 as int, c6 as int); }
        Some(encode(c2, c3 + 1, c4, c6))
    } else if face == 3 && c4 < 2 {
        proof { law_decode_encode(c2 as int, c3 as int, c4 + 1, c6 as int); }
        Some(encode(c2, c3, c4 + 1, c6))
    } else if face == 5 && c6 < 2 {
        proof { law_decode_encode(c2 as int, c3 as int, c4 as int, c6 + 1); }
        Some(encode(c2, c3, c4, c6 + 1))
    } else {
        None
    }
}

/// The state after the first `n` dice of `faces`, starting from the empty state, or `None`
/// once one of them has made the throw score.
pub open spec fn run_states(faces: Seq<usize>, n: int) -> Option<int>
    decreases n,
{
    if n <= 0 {
        Some(0)
    } else {
        match run_states(faces, n - 1) {
            Some(s) => successor(s, faces[n - 1] as int),
            None => None,
        }
    }
}

proof fn lemma_run_states(faces: Seq<usize>, n: int)
    requires
        faces_valid(faces),
        0 <= n <= 6,
    ensures
        run_states(faces, n) is Some <==> (occurrences(faces, 0, n) == 0 && occurrences(faces, 4, n)
            == 0 && forall|g: int| 0 <= g < 6 ==> #[trigger] occurrences(faces, g, n) < 3),
        run_states(faces, n) is Some ==> run_states(faces, n) == Some(
            state_index(
                occurrences(faces, 1, n),
                occurrences(faces, 2, n),
                occurrences(faces, 3, n),
                occurrences(faces, 5, n),
            ),
        ),
    decreases n,
{
    if n > 0 {
        lemma_run_states(faces, n - 1);
        let f = faces[n - 1] as int;
        assert(0 <= f < 6);
        let prev = run_states(faces, n - 1);
        assert forall|g: int| #[trigger] occurrences(faces, g, n) == occurrences(faces, g, n - 1) + if f == g { 1int } else { 0int } by {}
        if prev is Some {
            let a = occurrences(faces, 1, n - 1);
            let b = occurrences(faces, 2, n - 1);
            let c = occurrences(faces, 3, n - 1);
            let d = occurrences(faces, 5, n - 1);
            assert(occurrences(faces, 1, n - 1) < 3);
            assert(occurrences(faces, 2, n - 1) < 3);
            assert(occurrences(faces, 3, n - 1) < 3);
            assert(occurrences(faces, 5, n - 1) < 3);
            lemma_occ_nonneg(faces, 1, n - 1);
            lemma_occ_nonneg(faces, 2, n - 1);
            lemma_occ_nonneg(faces, 3, n - 1);
            lemma_occ_nonneg(faces, 5, n - 1);
            law_decode_encode(a, b, c, d);
            if run_states(faces, n) is Some {
                assert forall|g: int| 0 <= g < 6 implies #[trigger] occurrences(faces, g, n) < 3 by {
                    assert(occurrences(faces, g, n - 1) < 3);
                }
            } else {
                if f == 1 || f == 2 || f == 3 || f == 5 {
                    assert(occurrences(faces, f, n) >= 3);
                } else {
                    assert(f == 0 || f == 4);
                }
            }
        } else {
            if !(occurrences(faces, 0, n - 1) == 0 && occurrences(faces, 4, n - 1) == 0) {
                lemma_occ_nonneg(faces, 0, n - 1);
                lemma_occ_nonneg(faces, 4, n - 1);
            } else {
                let g = choose|g: int| 0 <= g < 6 && !(#[trigger] occurrences(faces, g, n - 1) < 3);
                assert(occurrences(faces, g, n) >= 3);
            }
        }
    }
}

pub proof fn lemma_occ_nonneg(faces: Seq<usize>, g: int, n: int)
    ensures
        occurrences(faces, g, n) >= 0,
    decreases n,
{
    if n > 0 {
        lemma_occ_nonneg(faces, g, n - 1);
    }
}

/// The bust states track exactly the bust throws: stepping through the six dice of a throw
/// never leaves the states if and only if the throw is a bust, and the final state holds
/// the numbers of twos, threes, fours and sixes.
pub proof fn law_states_track_busts(faces: Seq<usize>)
    requires
        faces_valid(faces),
    ensures
        run_states(faces, 6) is Some <==> is_bust_counts(face_counts_spec(faces)),
        run_states(faces, 6) is Some ==> run_states(faces, 6) == Some(
            state_index(
                occurrences(faces, 1, 6),
                occurrences(faces, 2, 6),
                occurrences(faces, 3, 6),
                occurrences(faces, 5, 6),
            ),
        ),
{
    lemma_run_states(faces, 6);
    let c = face_counts_spec(faces);
    assert forall|g: int| 0 <= g < 6 implies (#[trigger] c[g] < 3 <==> occurrences(faces, g, 6) < 3)
        && (c[g] == 0 <==> occurrences(faces, g, 6) == 0) by {
        crate::scoring::lemma_occurrences_bounded(faces, g, 6);
    }
    if is_bust_counts(c) {
        assert forall|g: int| 0 <= g < 6 implies #[trigger] occurrences(faces, g, 6) < 3 by {
            assert(c[g] < 3);
        }
    }
}

} // verus!
