//! Weights of throws, and why summing weights state by state, one die at a time, gives the
//! weight of the throws that end in each state. With the weights of the faces of each die,
//! the weight of a throw is the product of the weights of its faces, and the probability of
//! a set of throws is its weight divided by the weight of all throws.

use vstd::prelude::*;
use crate::bust_states::{successor, run_states, law_decode_encode, law_encode_decode, law_states_track_busts, STATE_COUNT};
use crate::scoring::{faces_valid, is_bust_counts, face_counts_spec, widen, has_low_straight, has_high_straight, occurrences};
use crate::histogram::{key_from, key_digits, pow7, counts_at_most, lemma_key_digits, lemma_key_below, lemma_pow7_pos, law_encode_counts_injective};
use crate::dice::counts_toward_spec;
use crate::straights::{number_mask, joker_count, missing_numbers, lemma_number_mask, law_jokers_fill_missing_numbers, straight_successor, completes, run_mask, law_straight_states_track_straights, REQ_1_TO_5, REQ_2_TO_6, REQ_1_TO_6};

verus! {

/// Sum of `f(i)` for `0 <= i < n`.
pub open spec fn sum_to(n: int, f: spec_fn(int) -> int) -> int
    decreases n,
{
    if n <= 0 {
        0
    } else {
        sum_to(n - 1, f) + f(n - 1)
    }
}

proof fn lemma_sum_ext(n: int, f: spec_fn(int) -> int, g: spec_fn(int) -> int)
    requires
        forall|i: int| 0 <= i < n ==> #[trigger] f(i) == g(i),
    ensures
        sum_to(n, f) == sum_to(n, g),
    decreases n,
{
    if n > 0 {
        lemma_sum_ext(n - 1, f, g);
    }
}

proof fn lemma_sum_scale(n: int, c: int, f: spec_fn(int) -> int)
    ensures
        sum_to(n, |i: int| c * f(i)) == c * sum_to(n, f),
    decreases n,
{
    if n > 0 {
        lemma_sum_scale(n - 1, c, f);
        let a = sum_to(n - 1, f);
        assert(c * a + c * f(n - 1) == c * (a + f(n - 1))) by (nonlinear_arith);
    }
}

proof fn lemma_sum_zero(n: int, f: spec_fn(int) -> int)
    requires
        forall|i: int| 0 <= i < n ==> #[trigger] f(i) == 0,
    ensures
        sum_to(n, f) == 0,
    decreases n,
{
    if n > 0 {
        lemma_sum_zero(n - 1, f);
    }
}

proof fn lemma_sum_add(n: int, f: spec_fn(int) -> int, g: spec_fn(int) -> int)
    ensures
        sum_to(n, |i: int| f(i) + g(i)) == sum_to(n, f) + sum_to(n, g),
    decreases n,
{
    if n > 0 {
        lemma_sum_add(n - 1, f, g);
    }
}

/// Exchanging the order of two finite sums.
proof fn lemma_sum_swap(n: int, m: int, f: spec_fn(int, int) -> int)
    ensures
        sum_to(n, |t: int| sum_to(m, |s: int| f(s, t))) == sum_to(m, |s: int| sum_to(n, |t: int| f(s, t))),
    decreases n,
{
    if n > 0 {
        lemma_sum_swap(n - 1, m, f);
        let outer = |t: int| sum_to(m, |s: int| f(s, t));
        let inner_prev = |s: int| sum_to(n - 1, |t: int| f(s, t));
        let last = |s: int| f(s, n - 1);
        let full = |s: int| sum_to(n, |t: int| f(s, t));
        let split = |s: int| inner_prev(s) + last(s);
        assert(sum_to(n, outer) == sum_to(n - 1, outer) + outer(n - 1));
        assert(sum_to(n - 1, outer) == sum_to(m, inner_prev));
        assert(outer(n - 1) == sum_to(m, last)) by {
            assert((|s: int| f(s, n - 1)) =~= last);
        }
        lemma_sum_add(m, inner_prev, last);
        assert(sum_to(m, split) == sum_to(m, inner_prev) + sum_to(m, last)) by {
            assert(split =~= (|i: int| inner_prev(i) + last(i)));
        }
        assert forall|s: int| 0 <= s < m implies #[trigger] full(s) == split(s) by {
            assert(sum_to(n, |t: int| f(s, t)) == sum_to(n - 1, |t: int| f(s, t)) + f(s, n - 1));
        }
        lemma_sum_ext(m, full, split);
        assert((|t: int| sum_to(m, |s: int| f(s, t))) =~= outer);
        assert((|s: int| sum_to(n, |t: int| f(s, t))) =~= full);
    } else {
        lemma_sum_zero(m, |s: int| sum_to(n, |t: int| f(s, t)));
    }
}

/// Only the term at `x` survives in a sum of terms that vanish away from `x`.
proof fn lemma_sum_single(n: int, x: int, f: spec_fn(int) -> int)
    requires
        forall|i: int| 0 <= i < n && i != x ==> #[trigger] f(i) == 0,
    ensures
        sum_to(n, f) == if 0 <= x < n {
            f(x)
        } else {
            0
        },
    decreases n,
{
    if n > 0 {
        lemma_sum_single(n - 1, x, f);
    }
}


/// The total weight of the throws of the first `k` dice, each throw `o` (faces 0..5) counted
/// with the product of the weights `ws[j][o[j]]` of its faces times `g(o)`. With `g` the
/// indicator of a set of throws this is the weight of that set; with `g` constantly one it
/// is the weight of all throws.
pub open spec fn throws_weight(ws: Seq<Seq<int>>, k: int, g: spec_fn(Seq<usize>) -> int) -> int
    decreases k,
{
    if k <= 0 {
        g(Seq::empty())
    } else {
        throws_weight(
            ws,
            k - 1,
            |o: Seq<usize>| sum_to(6, |f: int| ws[k - 1][f] * g(o.push(f as usize))),
        )
    }
}

/// `o` is a throw of `k` dice.
pub open spec fn is_throw(o: Seq<usize>, k: int) -> bool {
    o.len() == k && forall|i: int| 0 <= i < k ==> #[trigger] o[i] < 6
}

proof fn lemma_throws_ext(
    ws: Seq<Seq<int>>,
    k: int,
    g1: spec_fn(Seq<usize>) -> int,
    g2: spec_fn(Seq<usize>) -> int,
)
    requires
        k >= 0,
        forall|o: Seq<usize>| is_throw(o, k) ==> #[trigger] g1(o) == g2(o),
    ensures
        throws_weight(ws, k, g1) == throws_weight(ws, k, g2),
    decreases k,
{
    if k == 0 {
        assert(is_throw(Seq::<usize>::empty(), 0));
    } else {
        let h1 = |o: Seq<usize>| sum_to(6, |f: int| ws[k - 1][f] * g1(o.push(f as usize)));
        let h2 = |o: Seq<usize>| sum_to(6, |f: int| ws[k - 1][f] * g2(o.push(f as usize)));
        assert forall|o: Seq<usize>| is_throw(o, k - 1) implies #[trigger] h1(o) == h2(o) by {
            let a = |f: int| ws[k - 1][f] * g1(o.push(f as usize));
            let b = |f: int| ws[k - 1][f] * g2(o.push(f as usize));
            assert forall|f: int| 0 <= f < 6 implies #[trigger] a(f) == b(f) by {
                assert(is_throw(o.push(f as usize), k));
            }
            lemma_sum_ext(6, a, b);
        }
        lemma_throws_ext(ws, k - 1, h1, h2);
    }
}

/// The state of a machine that starts in `start` and reads the first `n` faces of `o`,
/// moving with `step(die, state, face)`; `None` once a step has left the machine.
pub open spec fn run_machine(
    step: spec_fn(int, int, int) -> Option<int>,
    start: int,
    o: Seq<usize>,
    n: int,
) -> Option<int>
    decreases n,
{
    if n <= 0 {
        Some(start)
    } else {
        match run_machine(step, start, o, n - 1) {
            Some(s) => step(n - 1, s, o[n - 1] as int),
            None => None,
        }
    }
}

/// `h` of a state, zero for no state.
pub open spec fn at_state(h: spec_fn(int) -> int, x: Option<int>) -> int {
    match x {
        Some(t) => h(t),
        None => 0,
    }
}

/// The weight in each state after `k` dice, summed state by state: the weight of state `t`
/// is the sum, over the states `s` and faces `f` with `step(k - 1, s, f) == Some(t)`, of the
/// weight of `s` times the weight of `f` on die `k - 1`.
pub open spec fn forward(
    ws: Seq<Seq<int>>,
    step: spec_fn(int, int, int) -> Option<int>,
    size: int,
    start: int,
    k: int,
) -> spec_fn(int) -> int
    decreases k,
{
    if k <= 0 {
        |t: int|
            if t == start {
                1int
            } else {
                0int
            }
    } else {
        let prev = forward(ws, step, size, start, k - 1);
        |t: int|
            sum_to(
                size,
                |s: int|
                    prev(s) * sum_to(
                        6,
                        |f: int|
                            ws[k - 1][f] * if step(k - 1, s, f) == Some(t) {
                                1int
                            } else {
                                0int
                            },
                    ),
            )
    }
}

/// The steps never leave the states `0..size`.
pub open spec fn closed_machine(step: spec_fn(int, int, int) -> Option<int>, size: int) -> bool {
    forall|d: int, s: int, f: int|
        0 <= s < size && 0 <= f < 6 ==> match #[trigger] step(d, s, f) {
            Some(t) => 0 <= t < size,
            None => true,
        }
}

proof fn lemma_run_prefix(
    step: spec_fn(int, int, int) -> Option<int>,
    start: int,
    o: Seq<usize>,
    x: usize,
    n: int,
)
    requires
        0 <= n <= o.len(),
    ensures
        run_machine(step, start, o.push(x), n) == run_machine(step, start, o, n),
    decreases n,
{
    if n > 0 {
        lemma_run_prefix(step, start, o, x, n - 1);
        assert(o.push(x)[n - 1] == o[n - 1]);
    }
}


proof fn lemma_sum_scale_right(n: int, c: int, f: spec_fn(int) -> int, g: spec_fn(int) -> int)
    requires
        forall|i: int| 0 <= i < n ==> #[trigger] g(i) == f(i) * c,
    ensures
        sum_to(n, g) == sum_to(n, f) * c,
{
    lemma_sum_scale(n, c, f);
    let cf = |i: int| c * f(i);
    assert forall|i: int| 0 <= i < n implies #[trigger] g(i) == cf(i) by {
        assert(f(i) * c == c * f(i)) by (nonlinear_arith);
    }
    lemma_sum_ext(n, g, cf);
    assert(c * sum_to(n, f) == sum_to(n, f) * c) by (nonlinear_arith);
}

proof fn lemma_sum_scale_left(n: int, c: int, f: spec_fn(int) -> int, g: spec_fn(int) -> int)
    requires
        forall|i: int| 0 <= i < n ==> #[trigger] g(i) == c * f(i),
    ensures
        sum_to(n, g) == c * sum_to(n, f),
{
    lemma_sum_scale(n, c, f);
    lemma_sum_ext(n, g, |i: int| c * f(i));
}

/// For one state `s`: summing over the next states `t` the weight of reaching `t` times
/// `h(t)` gives the weight of the faces times `h` of where they lead.
proof fn lemma_one_state(
    w: Seq<int>,
    step: spec_fn(int, int, int) -> Option<int>,
    size: int,
    d: int,
    s: int,
    h: spec_fn(int) -> int,
)
    requires
        closed_machine(step, size),
        0 <= s < size,
    ensures
        sum_to(
            size,
            |t: int|
                sum_to(
                    6,
                    |f: int|
                        w[f] * if step(d, s, f) == Some(t) {
                            1int
                        } else {
                            0int
                        },
                ) * h(t),
        ) == sum_to(6, |f: int| w[f] * at_state(h, step(d, s, f))),
{
    let ind = |f: int, t: int|
        if step(d, s, f) == Some(t) {
            1int
        } else {
            0int
        };
    let a = |t: int| sum_to(6, |f: int| w[f] * ind(f, t));
    let lhs = |t: int| a(t) * h(t);
    let x = |f: int, t: int| w[f] * ind(f, t) * h(t);
    // each term: (sum_f w ind) * h == sum_f (w ind h)
    assert forall|t: int| 0 <= t < size implies #[trigger] lhs(t) == sum_to(6, |f: int| x(f, t)) by {
        lemma_sum_scale_right(6, h(t), |f: int| w[f] * ind(f, t), |f: int| x(f, t));
        assert((|f: int| w[f] * ind(f, t)) =~= (|f: int| w[f] * if step(d, s, f) == Some(t) {
            1int
        } else {
            0int
        }));
    }
    lemma_sum_ext(size, lhs, |t: int| sum_to(6, |f: int| x(f, t)));
    lemma_sum_swap(size, 6, x);
    // sum_f sum_t w ind h == sum_f w * at_state
    let target = |f: int| w[f] * at_state(h, step(d, s, f));
    let outer = |f: int| sum_to(size, |t: int| x(f, t));
    assert forall|f: int| 0 <= f < 6 implies #[trigger] outer(f) == target(f) by {
        let it = |t: int| ind(f, t) * h(t);
        assert forall|t: int| 0 <= t < size implies #[trigger] x(f, t) == w[f] * it(t) by {
            let (p, q, r) = (w[f], ind(f, t), h(t));
            assert(p * q * r == p * (q * r)) by (nonlinear_arith);
        }
        lemma_sum_scale_left(size, w[f], it, |t: int| x(f, t));
        match step(d, s, f) {
            Some(t0) => {
                assert(0 <= t0 < size);
                assert forall|t: int| 0 <= t < size && t != t0 implies #[trigger] it(t) == 0 by {
                    assert(ind(f, t) == 0);
                }
                lemma_sum_single(size, t0, it);
                assert(ind(f, t0) == 1);
            },
            None => {
                assert forall|t: int| 0 <= t < size implies #[trigger] it(t) == 0 by {
                    assert(ind(f, t) == 0);
                }
                lemma_sum_zero(size, it);
            },
        }
    }
    lemma_sum_ext(6, outer, target);
    let e = |t: int| sum_to(6, |f: int| w[f] * if step(d, s, f) == Some(t) {
        1int
    } else {
        0int
    }) * h(t);
    assert forall|t: int| 0 <= t < size implies #[trigger] e(t) == lhs(t) by {
        assert((|f: int| w[f] * if step(d, s, f) == Some(t) {
            1int
        } else {
            0int
        }) =~= (|f: int| w[f] * ind(f, t)));
    }
    lemma_sum_ext(size, e, lhs);
}


/// Summing weights state by state, one die at a time, is summing over throws: for any
/// valuation `h` of the states, the states' weights after `k` dice, weighted by `h`, add up
/// to the weight of the throws of `k` dice, each valued by `h` of the state it ends in (and
/// zero when it leaves the machine).
pub proof fn law_forward_weights(
    ws: Seq<Seq<int>>,
    step: spec_fn(int, int, int) -> Option<int>,
    size: int,
    start: int,
    k: int,
    h: spec_fn(int) -> int,
)
    requires
        0 <= start < size,
        closed_machine(step, size),
        k >= 0,
    ensures
        sum_to(size, |t: int| forward(ws, step, size, start, k)(t) * h(t)) == throws_weight(
            ws,
            k,
            |o: Seq<usize>| at_state(h, run_machine(step, start, o, k)),
        ),
    decreases k,
{
    let lhs = |t: int| forward(ws, step, size, start, k)(t) * h(t);
    if k == 0 {
        assert forall|t: int| 0 <= t < size && t != start implies #[trigger] lhs(t) == 0 by {}
        lemma_sum_single(size, start, lhs);
    } else {
        let p = forward(ws, step, size, start, k - 1);
        let a = |s: int, t: int|
            sum_to(
                6,
                |f: int|
                    ws[k - 1][f] * if step(k - 1, s, f) == Some(t) {
                        1int
                    } else {
                        0int
                    },
            );
        let y = |s: int, t: int| p(s) * a(s, t) * h(t);
        let h2 = |s: int| sum_to(6, |f: int| ws[k - 1][f] * at_state(h, step(k - 1, s, f)));
        // each state's term, spread over the previous states
        assert forall|t: int| 0 <= t < size implies #[trigger] lhs(t) == sum_to(size, |s: int| y(s, t)) by {
            let ps = |s: int| p(s) * a(s, t);
            assert(forward(ws, step, size, start, k)(t) == sum_to(size, ps)) by {
                let inner = |s: int|
                    p(s) * sum_to(
                        6,
                        |f: int|
                            ws[k - 1][f] * if step(k - 1, s, f) == Some(t) {
                                1int
                            } else {
                                0int
                            },
                    );
                assert(forward(ws, step, size, start, k)(t) == sum_to(size, inner));
                assert(inner =~= ps);
            }
            lemma_sum_scale_right(size, h(t), ps, |s: int| y(s, t));
        }
        lemma_sum_ext(size, lhs, |t: int| sum_to(size, |s: int| y(s, t)));
        lemma_sum_swap(size, size, y);
        let ph = |s: int| p(s) * h2(s);
        let col = |s: int| sum_to(size, |t: int| y(s, t));
        assert forall|s: int| 0 <= s < size implies #[trigger] col(s) == ph(s) by {
            let at = |t: int| a(s, t) * h(t);
            assert forall|t: int| 0 <= t < size implies #[trigger] y(s, t) == p(s) * at(t) by {
                let (u, v, z) = (p(s), a(s, t), h(t));
                assert(u * v * z == u * (v * z)) by (nonlinear_arith);
            }
            lemma_sum_scale_left(size, p(s), at, |t: int| y(s, t));
            lemma_one_state(ws[k - 1], step, size, k - 1, s, h);
            let e = |t: int|
                sum_to(
                    6,
                    |f: int|
                        ws[k - 1][f] * if step(k - 1, s, f) == Some(t) {
                            1int
                        } else {
                            0int
                        },
                ) * h(t);
            assert(e =~= at);
        }
        lemma_sum_ext(size, col, ph);
        law_forward_weights(ws, step, size, start, k - 1, h2);
        assert((|t: int| p(t) * h2(t)) =~= ph);
        // the same on the side of the throws
        let g = |o: Seq<usize>| at_state(h, run_machine(step, start, o, k));
        let g_next = |o: Seq<usize>| sum_to(6, |f: int| ws[k - 1][f] * g(o.push(f as usize)));
        let g_prev = |o: Seq<usize>| at_state(h2, run_machine(step, start, o, k - 1));
        assert forall|o: Seq<usize>| is_throw(o, k - 1) implies #[trigger] g_next(o) == g_prev(o) by {
            let terms = |f: int| ws[k - 1][f] * g(o.push(f as usize));
            assert forall|f: int| 0 <= f < 6 implies #[trigger] run_machine(step, start, o.push(f as usize), k)
                == match run_machine(step, start, o, k - 1) {
                Some(s) => step(k - 1, s, f),
                None => None,
            } by {
                lemma_run_prefix(step, start, o, f as usize, k - 1);
                assert(o.push(f as usize)[k - 1] == f as usize);
            }
            match run_machine(step, start, o, k - 1) {
                Some(s) => {
                    let hs = |f: int| ws[k - 1][f] * at_state(h, step(k - 1, s, f));
                    assert forall|f: int| 0 <= f < 6 implies #[trigger] terms(f) == hs(f) by {}
                    lemma_sum_ext(6, terms, hs);
                },
                None => {
                    assert forall|f: int| 0 <= f < 6 implies #[trigger] terms(f) == 0 by {}
                    lemma_sum_zero(6, terms);
                },
            }
        }
        lemma_throws_ext(ws, k - 1, g_next, g_prev);
    }
}


/// Product of the sums of the face weights of the first `k` dice: the weight of all throws.
pub open spec fn total_weight(ws: Seq<Seq<int>>, k: int) -> int
    decreases k,
{
    if k <= 0 {
        1
    } else {
        total_weight(ws, k - 1) * sum_to(6, |f: int| ws[k - 1][f])
    }
}

proof fn lemma_throws_const(ws: Seq<Seq<int>>, k: int, c: int)
    requires
        k >= 0,
    ensures
        throws_weight(ws, k, |o: Seq<usize>| c) == c * total_weight(ws, k),
    decreases k,
{
    if k > 0 {
        let wsum = sum_to(6, |f: int| ws[k - 1][f]);
        let g_next = |o: Seq<usize>| sum_to(6, |f: int| ws[k - 1][f] * (|o: Seq<usize>| c)(o.push(f as usize)));
        assert forall|o: Seq<usize>| is_throw(o, k - 1) implies #[trigger] g_next(o) == (|o: Seq<usize>| c * wsum)(o) by {
            lemma_sum_scale_right(6, c, |f: int| ws[k - 1][f], |f: int| ws[k - 1][f] * (|o: Seq<usize>| c)(o.push(f as usize)));
            assert(wsum * c == c * wsum) by (nonlinear_arith);
        }
        lemma_throws_ext(ws, k - 1, g_next, |o: Seq<usize>| c * wsum);
        lemma_throws_const(ws, k - 1, c * wsum);
        let t = total_weight(ws, k - 1);
        assert(c * wsum * t == c * (t * wsum)) by (nonlinear_arith);
    }
}

/// The weights of all throws multiply: the throws of `k` dice weigh the product of the
/// dice's total weights, so that the probabilities of all throws add up to one.
pub proof fn law_all_throws_weight(ws: Seq<Seq<int>>, k: int)
    requires
        k >= 0,
    ensures
        throws_weight(ws, k, |o: Seq<usize>| 1int) == total_weight(ws, k),
{
    lemma_throws_const(ws, k, 1);
}

/// The step of the bust states, the same for every die.
pub open spec fn bust_step() -> spec_fn(int, int, int) -> Option<int> {
    |d: int, s: int, f: int| successor(s, f)
}

proof fn lemma_bust_machine(o: Seq<usize>, n: int)
    requires
        n >= 0,
    ensures
        run_machine(bust_step(), 0, o, n) == run_states(o, n),
    decreases n,
{
    if n > 0 {
        lemma_bust_machine(o, n - 1);
    }
}

proof fn lemma_bust_closed()
    ensures
        closed_machine(bust_step(), STATE_COUNT as int),
{
    assert forall|d: int, s: int, f: int| 0 <= s < STATE_COUNT && 0 <= f < 6 implies match #[trigger] bust_step()(d, s, f) {
        Some(t) => 0 <= t < STATE_COUNT,
        None => true,
    } by {
        law_encode_decode(s);
        let g = crate::bust_states::state_digits(s);
        assert(0 <= g.0 < 3 && 0 <= g.1 < 3 && 0 <= g.2 < 3 && 0 <= g.3 < 3);
        if g.0 < 2 { law_decode_encode(g.0 + 1, g.1, g.2, g.3); }
        if g.1 < 2 { law_decode_encode(g.0, g.1 + 1, g.2, g.3); }
        if g.2 < 2 { law_decode_encode(g.0, g.1, g.2 + 1, g.3); }
        if g.3 < 2 { law_decode_encode(g.0, g.1, g.2, g.3 + 1); }
    }
}

/// Stepping the bust states with the weights of the faces of six dice and adding up the
/// weights left in the states gives the weight of the bust throws: divided by the weight of
/// all throws, the probability that a throw of these dice is a bust.
pub proof fn law_bust_states_weigh_busts(ws: Seq<Seq<int>>)
    ensures
        sum_to(STATE_COUNT as int, forward(ws, bust_step(), STATE_COUNT as int, 0, 6)) == throws_weight(
            ws,
            6,
            |o: Seq<usize>|
                if is_bust_counts(face_counts_spec(o)) {
                    1int
                } else {
                    0int
                },
        ),
{
    lemma_bust_closed();
    let one = |t: int| 1int;
    law_forward_weights(ws, bust_step(), STATE_COUNT as int, 0, 6, one);
    let fw = forward(ws, bust_step(), STATE_COUNT as int, 0, 6);
    lemma_sum_ext(STATE_COUNT as int, fw, |t: int| fw(t) * one(t));
    let g1 = |o: Seq<usize>| at_state(one, run_machine(bust_step(), 0, o, 6));
    let g2 = |o: Seq<usize>|
        if is_bust_counts(face_counts_spec(o)) {
            1int
        } else {
            0int
        };
    assert forall|o: Seq<usize>| is_throw(o, 6) implies #[trigger] g1(o) == g2(o) by {
        assert(faces_valid(o));
        lemma_bust_machine(o, 6);
        law_states_track_busts(o);
    }
    lemma_throws_ext(ws, 6, g1, g2);
}


/// Number of straight states: masks of six numbers times zero to six jokers.
pub const STRAIGHT_STATES: usize = 448;

/// The step of the straight states, numbered `mask * 7 + jokers`, where die `d` is a devil's
/// die when `devils[d]`.
pub open spec fn straight_index_step(devils: Seq<bool>) -> spec_fn(int, int, int) -> Option<int> {
    |d: int, s: int, f: int|
        match straight_successor((s / 7) as u8, (s % 7) as u8, f, devils[d]) {
            Some((m, j)) => Some(m as int * 7 + j as int),
            None => None,
        }
}

proof fn lemma_straight_closed(devils: Seq<bool>)
    ensures
        closed_machine(straight_index_step(devils), STRAIGHT_STATES as int),
{
    assert forall|d: int, s: int, f: int| 0 <= s < STRAIGHT_STATES as int && 0 <= f < 6 implies match #[trigger] straight_index_step(devils)(d, s, f) {
        Some(t) => 0 <= t < STRAIGHT_STATES as int,
        None => true,
    } by {
        let m = (s / 7) as u8;
        let j = (s % 7) as u8;
        assert(s / 7 < 64 && s % 7 < 7);
        let ff = f as u8;
        assert((m | (1u8 << ff)) < 64) by (bit_vector)
            requires
                m < 64,
                ff < 6,
        ;
    }
}

/// The ordinary dice: no devil's die among six.
pub open spec fn no_devils() -> Seq<bool> {
    seq![false, false, false, false, false, false]
}

proof fn lemma_ordinary_run(o: Seq<usize>, n: int)
    requires
        faces_valid(o),
        0 <= n <= 6,
    ensures
        run_machine(straight_index_step(no_devils()), 0, o, n) == Some(run_mask(o, n) as int * 7),
        run_mask(o, n) < 64,
    decreases n,
{
    if n > 0 {
        lemma_ordinary_run(o, n - 1);
        let m = run_mask(o, n - 1);
        let f = o[n - 1] as u8;
        assert((m as int * 7) / 7 == m as int);
        assert((m as int * 7) % 7 == 0);
        assert((m | (1u8 << f)) < 64) by (bit_vector)
            requires
                m < 64,
                f < 6,
        ;
    }
}

/// Stepping the straight states of six ordinary dice with the weights of their faces, the
/// weights left in the states that make a straight add up to the weight of the throws that
/// show that straight: one to five, two to six, or every number.
pub proof fn law_straight_states_weigh_straights(ws: Seq<Seq<int>>)
    ensures
        sum_to(
            STRAIGHT_STATES as int,
            |t: int|
                forward(ws, straight_index_step(no_devils()), STRAIGHT_STATES as int, 0, 6)(t) * if completes(
                    REQ_1_TO_5,
                    (t / 7) as u8,
                    (t % 7) as u8,
                ) {
                    1int
                } else {
                    0int
                },
        ) == throws_weight(
            ws,
            6,
            |o: Seq<usize>|
                if has_low_straight(widen(face_counts_spec(o))) {
                    1int
                } else {
                    0int
                },
        ),
        sum_to(
            STRAIGHT_STATES as int,
            |t: int|
                forward(ws, straight_index_step(no_devils()), STRAIGHT_STATES as int, 0, 6)(t) * if completes(
                    REQ_2_TO_6,
                    (t / 7) as u8,
                    (t % 7) as u8,
                ) {
                    1int
                } else {
                    0int
                },
        ) == throws_weight(
            ws,
            6,
            |o: Seq<usize>|
                if has_high_straight(widen(face_counts_spec(o))) {
                    1int
                } else {
                    0int
                },
        ),
        sum_to(
            STRAIGHT_STATES as int,
            |t: int|
                forward(ws, straight_index_step(no_devils()), STRAIGHT_STATES as int, 0, 6)(t) * if completes(
                    REQ_1_TO_6,
                    (t / 7) as u8,
                    (t % 7) as u8,
                ) {
                    1int
                } else {
                    0int
                },
        ) == throws_weight(
            ws,
            6,
            |o: Seq<usize>|
                if forall|g: int| 0 <= g < 6 ==> #[trigger] occurrences(o, g, 6) > 0 {
                    1int
                } else {
                    0int
                },
        ),
{
    let step = straight_index_step(no_devils());
    lemma_straight_closed(no_devils());
    let h15 = |t: int|
        if completes(REQ_1_TO_5, (t / 7) as u8, (t % 7) as u8) {
            1int
        } else {
            0int
        };
    let h26 = |t: int|
        if completes(REQ_2_TO_6, (t / 7) as u8, (t % 7) as u8) {
            1int
        } else {
            0int
        };
    let h16 = |t: int|
        if completes(REQ_1_TO_6, (t / 7) as u8, (t % 7) as u8) {
            1int
        } else {
            0int
        };
    law_forward_weights(ws, step, STRAIGHT_STATES as int, 0, 6, h15);
    law_forward_weights(ws, step, STRAIGHT_STATES as int, 0, 6, h26);
    law_forward_weights(ws, step, STRAIGHT_STATES as int, 0, 6, h16);
    let fw = forward(ws, step, STRAIGHT_STATES as int, 0, 6);
    lemma_sum_ext(STRAIGHT_STATES as int, |t: int| fw(t) * h15(t), |t: int|
        forward(ws, straight_index_step(no_devils()), STRAIGHT_STATES as int, 0, 6)(t) * if completes(
            REQ_1_TO_5,
            (t / 7) as u8,
            (t % 7) as u8,
        ) {
            1int
        } else {
            0int
        });
    lemma_sum_ext(STRAIGHT_STATES as int, |t: int| fw(t) * h26(t), |t: int|
        forward(ws, straight_index_step(no_devils()), STRAIGHT_STATES as int, 0, 6)(t) * if completes(
            REQ_2_TO_6,
            (t / 7) as u8,
            (t % 7) as u8,
        ) {
            1int
        } else {
            0int
        });
    lemma_sum_ext(STRAIGHT_STATES as int, |t: int| fw(t) * h16(t), |t: int|
        forward(ws, straight_index_step(no_devils()), STRAIGHT_STATES as int, 0, 6)(t) * if completes(
            REQ_1_TO_6,
            (t / 7) as u8,
            (t % 7) as u8,
        ) {
            1int
        } else {
            0int
        });
    assert forall|o: Seq<usize>| is_throw(o, 6) implies #[trigger] at_state(h15, run_machine(step, 0, o, 6)) == (if has_low_straight(widen(face_counts_spec(o))) {
        1int
    } else {
        0int
    }) && at_state(h26, run_machine(step, 0, o, 6)) == (if has_high_straight(widen(face_counts_spec(o))) {
        1int
    } else {
        0int
    }) && at_state(h16, run_machine(step, 0, o, 6)) == (if forall|g: int| 0 <= g < 6 ==> #[trigger] occurrences(o, g, 6) > 0 {
        1int
    } else {
        0int
    }) by {
        assert(faces_valid(o));
        lemma_ordinary_run(o, 6);
        let m = run_mask(o, 6);
        assert((m as int * 7) / 7 == m as int);
        assert((m as int * 7) % 7 == 0);
        law_straight_states_track_straights(o);
    }
    assert forall|o: Seq<usize>| is_throw(o, 6) implies #[trigger] at_state(h26, run_machine(step, 0, o, 6)) == (if has_high_straight(widen(face_counts_spec(o))) {
        1int
    } else {
        0int
    }) by {
        assert(faces_valid(o));
        lemma_ordinary_run(o, 6);
        let m = run_mask(o, 6);
        assert((m as int * 7) / 7 == m as int);
        assert((m as int * 7) % 7 == 0);
        law_straight_states_track_straights(o);
    }
    assert forall|o: Seq<usize>| is_throw(o, 6) implies #[trigger] at_state(h16, run_machine(step, 0, o, 6)) == (if forall|g: int| 0 <= g < 6 ==> #[trigger] occurrences(o, g, 6) > 0 {
        1int
    } else {
        0int
    }) by {
        assert(faces_valid(o));
        lemma_ordinary_run(o, 6);
        let m = run_mask(o, 6);
        assert((m as int * 7) / 7 == m as int);
        assert((m as int * 7) % 7 == 0);
        law_straight_states_track_straights(o);
    }
    lemma_throws_ext(
        ws,
        6,
        |o: Seq<usize>| at_state(h15, run_machine(step, 0, o, 6)),
        |o: Seq<usize>|
            if has_low_straight(widen(face_counts_spec(o))) {
                1int
            } else {
                0int
            },
    );
    lemma_throws_ext(
        ws,
        6,
        |o: Seq<usize>| at_state(h26, run_machine(step, 0, o, 6)),
        |o: Seq<usize>|
            if has_high_straight(widen(face_counts_spec(o))) {
                1int
            } else {
                0int
            },
    );
    lemma_throws_ext(
        ws,
        6,
        |o: Seq<usize>| at_state(h16, run_machine(step, 0, o, 6)),
        |o: Seq<usize>|
            if forall|g: int| 0 <= g < 6 ==> #[trigger] occurrences(o, g, 6) > 0 {
                1int
            } else {
                0int
            },
    );
}


/// Number of histogram keys: 7^6.
pub const HISTOGRAM_KEYS: usize = 117649;

/// The step of the histogram keys: one more die showing `f` adds one to digit `f` of the
/// key, as long as that digit is below six.
pub open spec fn histogram_step() -> spec_fn(int, int, int) -> Option<int> {
    |d: int, s: int, f: int|
        if 0 <= f < 6 && key_digits(s)[f] < 6 {
            Some(key_from(key_digits(s).update(f, (key_digits(s)[f] + 1) as u8), 0))
        } else {
            None
        }
}

/// The counts of the faces among the first `n` dice of `o`.
pub open spec fn counts_after(o: Seq<usize>, n: int) -> Seq<u8> {
    Seq::new(6, |g: int| occurrences(o, g, n) as u8)
}

proof fn lemma_histogram_closed()
    ensures
        closed_machine(histogram_step(), HISTOGRAM_KEYS as int),
{
    reveal_with_fuel(pow7, 7);
    assert forall|d: int, s: int, f: int| 0 <= s < HISTOGRAM_KEYS as int && 0 <= f < 6 implies match #[trigger] histogram_step()(d, s, f) {
        Some(t) => 0 <= t < HISTOGRAM_KEYS as int,
        None => true,
    } by {
        let c = key_digits(s);
        if c[f] < 6 {
            let c2 = c.update(f, (c[f] + 1) as u8);
            assert forall|i: int| 0 <= i < 6 implies #[trigger] c2[i] <= 6 by {
                lemma_pow7_pos(i);
                assert(c[i] as int == (s / pow7(i)) % 7);
            }
            lemma_key_below(c2, 0);
        }
    }
}

proof fn lemma_histogram_run(o: Seq<usize>, n: int)
    requires
        faces_valid(o),
        0 <= n <= 6,
    ensures
        run_machine(histogram_step(), 0, o, n) == Some(key_from(counts_after(o, n), 0)),
        counts_at_most(counts_after(o, n), n),
    decreases n,
{
    if n == 0 {
        reveal_with_fuel(key_from, 7);
        assert(counts_after(o, 0) =~= seq![0u8, 0, 0, 0, 0, 0]);
    } else {
        lemma_histogram_run(o, n - 1);
        let c = counts_after(o, n - 1);
        let f = o[n - 1] as int;
        lemma_key_digits(c);
        assert(key_digits(key_from(c, 0)) == c);
        assert(c[f] <= n - 1);
        assert(counts_after(o, n) =~= c.update(f, (c[f] + 1) as u8)) by {
            assert forall|g: int| 0 <= g < 6 implies #[trigger] counts_after(o, n)[g] == c.update(f, (c[f] + 1) as u8)[g] by {
                crate::scoring::lemma_occurrences_bounded(o, g, n - 1);
            }
        }
        assert forall|g: int| 0 <= g < 6 implies #[trigger] counts_after(o, n)[g] <= n by {
            assert(c[g] <= n - 1);
        }
    }
}

/// Stepping the histogram keys with the weights of the faces of six dice, the weight left
/// at the key of the counts `c` is the weight of the throws whose face counts are `c`:
/// divided by the weight of all throws, the probability of that histogram.
pub proof fn law_histogram_keys_weigh_histograms(ws: Seq<Seq<int>>, c: Seq<u8>)
    requires
        counts_at_most(c, 6),
    ensures
        forward(ws, histogram_step(), HISTOGRAM_KEYS as int, 0, 6)(key_from(c, 0)) == throws_weight(
            ws,
            6,
            |o: Seq<usize>|
                if face_counts_spec(o) == c {
                    1int
                } else {
                    0int
                },
        ),
{
    reveal_with_fuel(pow7, 7);
    lemma_histogram_closed();
    let key = key_from(c, 0);
    lemma_key_below(c, 0);
    let h = |t: int|
        if t == key {
            1int
        } else {
            0int
        };
    law_forward_weights(ws, histogram_step(), HISTOGRAM_KEYS as int, 0, 6, h);
    let fw = forward(ws, histogram_step(), HISTOGRAM_KEYS as int, 0, 6);
    let terms = |t: int| fw(t) * h(t);
    assert forall|t: int| 0 <= t < HISTOGRAM_KEYS as int && t != key implies #[trigger] terms(t) == 0 by {}
    lemma_sum_single(HISTOGRAM_KEYS as int, key, terms);
    let g1 = |o: Seq<usize>| at_state(h, run_machine(histogram_step(), 0, o, 6));
    let g2 = |o: Seq<usize>|
        if face_counts_spec(o) == c {
            1int
        } else {
            0int
        };
    assert forall|o: Seq<usize>| is_throw(o, 6) implies #[trigger] g1(o) == g2(o) by {
        assert(faces_valid(o));
        lemma_histogram_run(o, 6);
        let oc = counts_after(o, 6);
        assert(oc =~= face_counts_spec(o));
        if key_from(oc, 0) == key {
            law_encode_counts_injective(oc, c);
        }
    }
    lemma_throws_ext(ws, 6, g1, g2);
}


/// The step of the number of dice that count toward `target` so far (0 to 6), where die `d`
/// is a devil's die when `devils[d]`.
pub open spec fn success_step(devils: Seq<bool>, target: int) -> spec_fn(int, int, int) -> Option<int> {
    |d: int, r: int, f: int|
        if counts_toward_spec(target, f, devils[d]) {
            if r < 6 {
                Some(r + 1)
            } else {
                None
            }
        } else {
            Some(r)
        }
}

/// How many of the first `n` dice of `o` count toward `target`.
pub open spec fn successes(o: Seq<usize>, devils: Seq<bool>, target: int, n: int) -> int
    decreases n,
{
    if n <= 0 {
        0
    } else {
        successes(o, devils, target, n - 1) + if counts_toward_spec(target, o[n - 1] as int, devils[n - 1]) {
            1int
        } else {
            0int
        }
    }
}

proof fn lemma_success_run(o: Seq<usize>, devils: Seq<bool>, target: int, n: int)
    requires
        0 <= n <= 6,
    ensures
        run_machine(success_step(devils, target), 0, o, n) == Some(successes(o, devils, target, n)),
        0 <= successes(o, devils, target, n) <= n,
    decreases n,
{
    if n > 0 {
        lemma_success_run(o, devils, target, n - 1);
    }
}

/// Stepping the number of dice that count toward a face with the weights of the faces of six
/// dice, the weight left at `r` is the weight of the throws in which exactly `r` dice count
/// toward that face: divided by the weight of all throws, the probability of `r` such dice.
pub proof fn law_success_counts_weigh_throws(ws: Seq<Seq<int>>, devils: Seq<bool>, target: int, r: int)
    requires
        0 <= r <= 6,
    ensures
        forward(ws, success_step(devils, target), 7, 0, 6)(r) == throws_weight(
            ws,
            6,
            |o: Seq<usize>|
                if successes(o, devils, target, 6) == r {
                    1int
                } else {
                    0int
                },
        ),
{
    let step = success_step(devils, target);
    assert(closed_machine(step, 7));
    let h = |t: int|
        if t == r {
            1int
        } else {
            0int
        };
    law_forward_weights(ws, step, 7, 0, 6, h);
    let fw = forward(ws, step, 7, 0, 6);
    let terms = |t: int| fw(t) * h(t);
    assert forall|t: int| 0 <= t < 7 && t != r implies #[trigger] terms(t) == 0 by {}
    lemma_sum_single(7, r, terms);
    let g1 = |o: Seq<usize>| at_state(h, run_machine(step, 0, o, 6));
    let g2 = |o: Seq<usize>|
        if successes(o, devils, target, 6) == r {
            1int
        } else {
            0int
        };
    assert forall|o: Seq<usize>| is_throw(o, 6) implies #[trigger] g1(o) == g2(o) by {
        lemma_success_run(o, devils, target, 6);
    }
    lemma_throws_ext(ws, 6, g1, g2);
}


proof fn lemma_joker_run(o: Seq<usize>, devils: Seq<bool>, n: int)
    requires
        faces_valid(o),
        0 <= n <= 6,
    ensures
        run_machine(straight_index_step(devils), 0, o, n) == Some(
            number_mask(o, devils, n) as int * 7 + joker_count(o, devils, n),
        ),
    decreases n,
{
    lemma_number_mask(o, devils, n);
    if n > 0 {
        lemma_joker_run(o, devils, n - 1);
        lemma_number_mask(o, devils, n - 1);
        let m = number_mask(o, devils, n - 1);
        let j = joker_count(o, devils, n - 1);
        assert((m as int * 7 + j) / 7 == m as int);
        assert((m as int * 7 + j) % 7 == j);
    }
}

/// Stepping the straight states of six dice, some of them devil's dice (`devils`), with the
/// weights of their faces, the weights left in the states that make the straight `req` add
/// up to the weight of the throws whose jokers fill the numbers of `req` that their dice do
/// not show.
pub proof fn law_straight_states_weigh_straights_with_jokers(
    ws: Seq<Seq<int>>,
    devils: Seq<bool>,
    req: u8,
)
    ensures
        sum_to(
            STRAIGHT_STATES as int,
            |t: int|
                forward(ws, straight_index_step(devils), STRAIGHT_STATES as int, 0, 6)(t) * if completes(
                    req,
                    (t / 7) as u8,
                    (t % 7) as u8,
                ) {
                    1int
                } else {
                    0int
                },
        ) == throws_weight(
            ws,
            6,
            |o: Seq<usize>|
                if missing_numbers(req, o, devils, 8) <= joker_count(o, devils, 6) {
                    1int
                } else {
                    0int
                },
        ),
{
    let step = straight_index_step(devils);
    lemma_straight_closed(devils);
    let h = |t: int|
        if completes(req, (t / 7) as u8, (t % 7) as u8) {
            1int
        } else {
            0int
        };
    law_forward_weights(ws, step, STRAIGHT_STATES as int, 0, 6, h);
    let fw = forward(ws, step, STRAIGHT_STATES as int, 0, 6);
    lemma_sum_ext(STRAIGHT_STATES as int, |t: int| fw(t) * h(t), |t: int|
        forward(ws, straight_index_step(devils), STRAIGHT_STATES as int, 0, 6)(t) * if completes(
            req,
            (t / 7) as u8,
            (t % 7) as u8,
        ) {
            1int
        } else {
            0int
        });
    let g1 = |o: Seq<usize>| at_state(h, run_machine(step, 0, o, 6));
    let g2 = |o: Seq<usize>|
        if missing_numbers(req, o, devils, 8) <= joker_count(o, devils, 6) {
            1int
        } else {
            0int
        };
    assert forall|o: Seq<usize>| is_throw(o, 6) implies #[trigger] g1(o) == g2(o) by {
        assert(faces_valid(o));
        lemma_joker_run(o, devils, 6);
        lemma_number_mask(o, devils, 6);
        let m = number_mask(o, devils, 6);
        let j = joker_count(o, devils, 6);
        assert((m as int * 7 + j) / 7 == m as int);
        assert((m as int * 7 + j) % 7 == j);
        law_jokers_fill_missing_numbers(req, o, devils);
    }
    lemma_throws_ext(ws, 6, g1, g2);
}

} // verus!
