//! The candidate sets of six dice that a search for the best set goes through: every way
//! to take at most `limits[i]` dice of each kind `i`, six dice in all, in lexicographic order.

use vstd::prelude::*;
use crate::dice::dice_total;

verus! {

/// How many dice of kind `i` may still be taken: the stock of that kind, but no more than
/// the dice that are still missing.
pub open spec fn take_bound(limits: Seq<u8>, i: int, rem: int) -> int {
    if limits[i] < rem {
        limits[i] as int
    } else {
        rem
    }
}

/// All ways to choose the counts of the kinds `i..` so that they add up to `rem` and stay
/// within `limits`, in the order in which a depth-first search that tries smaller counts
/// first meets them.
pub open spec fn completions(limits: Seq<u8>, i: int, rem: int) -> Seq<Seq<u8>>
    decreases limits.len() - i, 300int,
{
    if i < 0 || rem < 0 {
        Seq::empty()
    } else if i >= limits.len() {
        if rem == 0 {
            seq![Seq::<u8>::empty()]
        } else {
            Seq::empty()
        }
    } else {
        choices_below(limits, i, rem, take_bound(limits, i, rem) + 1)
    }
}

/// The completions from kind `i` that take fewer than `t` dice of kind `i`.
pub open spec fn choices_below(limits: Seq<u8>, i: int, rem: int, t: int) -> Seq<Seq<u8>>
    decreases limits.len() - i, t,
{
    if t <= 0 || i >= limits.len() || i < 0 || t > 256 {
        Seq::empty()
    } else {
        choices_below(limits, i, rem, t - 1) + completions(limits, i + 1, rem - (t - 1)).map_values(
            |s: Seq<u8>| seq![(t - 1) as u8] + s,
        )
    }
}

fn dfs(limits: &[u8], i: usize, remaining: u8, current: &mut Vec<u8>, out: &mut Vec<Vec<u8>>)
    requires
        i <= limits@.len(),
        old(current)@.len() == limits@.len(),
        forall|j: int| i <= j < limits@.len() ==> #[trigger] old(current)@[j] == 0,
    ensures
        final(current)@ == old(current)@,
        final(out)@.len() == old(out)@.len() + completions(limits@, i as int, remaining as int).len(),
        forall|k: int| 0 <= k < old(out)@.len() ==> #[trigger] final(out)@[k]@ == old(out)@[k]@,
        forall|k: int|
            0 <= k < completions(limits@, i as int, remaining as int).len()
                ==> #[trigger] final(out)@[old(out)@.len() + k]@
                == old(current)@.take(i as int) + completions(limits@, i as int, remaining as int)[k],
    decreases limits@.len() - i,
{
    if i == limits.len() {
        if remaining == 0 {
            out.push(current.clone());
            assert(old(current)@.take(i as int) =~= old(current)@);
            assert(old(current)@.take(i as int) + Seq::<u8>::empty() =~= old(current)@);
        }
        return;
    }
    let max_take: u8 = if limits[i] < remaining {
        limits[i]
    } else {
        remaining
    };
    let ghost cur0 = current@;
    let ghost out0 = out@;
    let n = limits.len();
    let mut take: u16 = 0;
    while take <= max_take as u16
        invariant
            i < limits@.len(),
            n == limits@.len(),
            max_take as int == take_bound(limits@, i as int, remaining as int),
            take <= max_take as u16 + 1,
            current@.len() == limits@.len(),
            current@.take(i as int) == cur0.take(i as int),
            forall|j: int| i < j < limits@.len() ==> #[trigger] current@[j] == 0,
            cur0.len() == limits@.len(),
            forall|j: int| i <= j < limits@.len() ==> #[trigger] cur0[j] == 0,
            out@.len() == out0.len() + choices_below(limits@, i as int, remaining as int, take as int).len(),
            forall|k: int| 0 <= k < out0.len() ==> #[trigger] out@[k]@ == out0[k]@,
            forall|k: int|
                0 <= k < choices_below(limits@, i as int, remaining as int, take as int).len()
                    ==> #[trigger] out@[out0.len() + k]@ == cur0.take(i as int) + choices_below(
                    limits@,
                    i as int,
                    remaining as int,
                    take as int,
                )[k],
        decreases max_take as u16 + 1 - take,
    {
        let t = take as u8;
        current.set(i, t);
        let ghost cur1 = current@;
        let ghost out1 = out@;
        assert forall|j: int| i + 1 <= j < limits@.len() implies #[trigger] cur1[j] == 0 by {}
        dfs(limits, i + 1, remaining - t, current, out);
        let ghost prev = choices_below(limits@, i as int, remaining as int, take as int);
        let ghost sub = completions(limits@, i as int + 1, remaining as int - t as int);
        let ghost next = choices_below(limits@, i as int, remaining as int, take as int + 1);
        assert(next == prev + sub.map_values(|s: Seq<u8>| seq![t] + s));
        assert(cur1.take(i as int + 1) =~= cur0.take(i as int).push(t)) by {
            assert(current@.take(i as int) == cur0.take(i as int));
        }
        assert forall|k: int| 0 <= k < next.len() implies #[trigger] out@[out0.len() + k]@
            == cur0.take(i as int) + next[k] by {
            if k < prev.len() {
                assert(out@[out0.len() + k]@ == out1[out0.len() + k]@);
            } else {
                let m = k - prev.len();
                assert(out@[out1.len() + m]@ == cur1.take(i as int + 1) + sub[m]);
                assert(next[k] == seq![t] + sub[m]);
                assert(cur0.take(i as int).push(t) + sub[m] =~= cur0.take(i as int) + (seq![t] + sub[m]));
            }
        }
        take = take + 1;
    }
    current.set(i, 0);
    assert(current@ =~= cur0) by {
        assert forall|j: int| 0 <= j < limits@.len() implies current@[j] == cur0[j] by {
            if j < i {
                assert(current@.take(i as int)[j] == cur0.take(i as int)[j]);
            }
        }
    }
}

/// Every way to take six dice from the stock `available_counts` (at most
/// `available_counts[i]` of kind `i`), as counts per kind, in lexicographic order.
pub fn candidate_selections(available_counts: &[u8]) -> (all: Vec<Vec<u8>>)
    ensures
        all@.len() == completions(available_counts@, 0, 6).len(),
        forall|k: int| 0 <= k < all@.len() ==> #[trigger] all@[k]@ == completions(available_counts@, 0, 6)[k],
{
    let mut current: Vec<u8> = Vec::new();
    let mut j: usize = 0;
    while j < available_counts.len()
        invariant
            j <= available_counts@.len(),
            current@.len() == j,
            forall|k: int| 0 <= k < j ==> #[trigger] current@[k] == 0,
        decreases available_counts@.len() - j,
    {
        current.push(0);
        j = j + 1;
    }
    let mut all: Vec<Vec<u8>> = Vec::new();
    dfs(available_counts, 0, 6, &mut current, &mut all);
    assert forall|k: int| 0 <= k < all@.len() implies #[trigger] all@[k]@ == completions(available_counts@, 0, 6)[k] by {
        assert(all@[0 + k]@ == current@.take(0) + completions(available_counts@, 0, 6)[k]);
        assert(current@.take(0) + completions(available_counts@, 0, 6)[k] =~= completions(available_counts@, 0, 6)[k]);
    }
    all
}


/// Sum of the counts of a selection.
pub open spec fn sum_of(s: Seq<u8>) -> int
    decreases s.len(),
{
    if s.len() == 0 {
        0
    } else {
        s[0] + sum_of(s.drop_first())
    }
}

/// `s` chooses counts for the kinds `i..` that stay within `limits` and add up to `rem`.
pub open spec fn valid_suffix(limits: Seq<u8>, i: int, rem: int, s: Seq<u8>) -> bool {
    &&& s.len() == limits.len() - i
    &&& forall|j: int| 0 <= j < s.len() ==> #[trigger] s[j] <= limits[i + j]
    &&& sum_of(s) == rem
}

/// `a` comes before `b` in lexicographic order.
pub open spec fn lex_less(a: Seq<u8>, b: Seq<u8>) -> bool
    decreases a.len(),
{
    a.len() > 0 && b.len() > 0 && (a[0] < b[0] || (a[0] == b[0] && lex_less(
        a.drop_first(),
        b.drop_first(),
    )))
}

proof fn lemma_cons_parts(t: u8, s: Seq<u8>)
    ensures
        (seq![t] + s)[0] == t,
        (seq![t] + s).drop_first() =~= s,
        (seq![t] + s).len() == s.len() + 1,
{
}

proof fn lemma_choices_prefix(limits: Seq<u8>, i: int, rem: int, t1: int, t2: int)
    requires
        t1 <= t2 <= 256,
    ensures
        choices_below(limits, i, rem, t1).len() <= choices_below(limits, i, rem, t2).len(),
        forall|k: int|
            0 <= k < choices_below(limits, i, rem, t1).len() ==> #[trigger] choices_below(limits, i, rem, t2)[k]
                == choices_below(limits, i, rem, t1)[k],
    decreases t2 - t1,
{
    if t1 < t2 {
        lemma_choices_prefix(limits, i, rem, t1, t2 - 1);
    }
}


proof fn lemma_sum_of_nonneg(s: Seq<u8>)
    ensures
        sum_of(s) >= 0,
    decreases s.len(),
{
    if s.len() > 0 {
        lemma_sum_of_nonneg(s.drop_first());
    }
}

proof fn lemma_sum_of_cons(t: u8, s: Seq<u8>)
    ensures
        sum_of(seq![t] + s) == t + sum_of(s),
{
    lemma_cons_parts(t, s);
}

proof fn lemma_completions_valid(limits: Seq<u8>, i: int, rem: int)
    requires
        0 <= i <= limits.len(),
        rem >= 0,
    ensures
        forall|k: int|
            0 <= k < completions(limits, i, rem).len() ==> valid_suffix(
                limits,
                i,
                rem,
                #[trigger] completions(limits, i, rem)[k],
            ),
    decreases limits.len() - i, 300int,
{
    if i == limits.len() {
        if rem == 0 {
            assert(sum_of(Seq::<u8>::empty()) == 0);
            assert(completions(limits, i, rem) == seq![Seq::<u8>::empty()]);
            assert(valid_suffix(limits, i, rem, Seq::<u8>::empty()));
        }
    } else {
        lemma_choices_valid(limits, i, rem, take_bound(limits, i, rem) + 1);
        assert(completions(limits, i, rem) == choices_below(limits, i, rem, take_bound(limits, i, rem) + 1));
    }
}

proof fn lemma_choices_valid(limits: Seq<u8>, i: int, rem: int, t: int)
    requires
        0 <= i < limits.len(),
        rem >= 0,
        0 <= t <= take_bound(limits, i, rem) + 1,
    ensures
        forall|k: int|
            0 <= k < choices_below(limits, i, rem, t).len() ==> valid_suffix(
                limits,
                i,
                rem,
                #[trigger] choices_below(limits, i, rem, t)[k],
            ) && choices_below(limits, i, rem, t)[k][0] < t,
    decreases limits.len() - i, t,
{
    if t > 0 {
        lemma_choices_valid(limits, i, rem, t - 1);
        lemma_completions_valid(limits, i + 1, rem - (t - 1));
        let prev = choices_below(limits, i, rem, t - 1);
        let sub = completions(limits, i + 1, rem - (t - 1));
        let cur = choices_below(limits, i, rem, t);
        assert forall|k: int| 0 <= k < cur.len() implies valid_suffix(limits, i, rem, #[trigger] cur[k])
            && cur[k][0] < t by {
            if k >= prev.len() {
                let m = k - prev.len();
                let x = sub[m];
                assert(valid_suffix(limits, i + 1, rem - (t - 1), x));
                assert(cur[k] == seq![(t - 1) as u8] + x);
                lemma_cons_parts((t - 1) as u8, x);
                lemma_sum_of_cons((t - 1) as u8, x);
                assert forall|j: int| 0 <= j < cur[k].len() implies #[trigger] cur[k][j] <= limits[i + j] by {
                    if j > 0 {
                        assert(cur[k][j] == x[j - 1]);
                        assert(x[j - 1] <= limits[i + 1 + (j - 1)]);
                    }
                }
            }
        }
    }
}

/// Gives the position of a valid choice of counts in the search order.
proof fn lemma_completions_complete(limits: Seq<u8>, i: int, rem: int, s: Seq<u8>) -> (k: int)
    requires
        0 <= i <= limits.len(),
        valid_suffix(limits, i, rem, s),
    ensures
        0 <= k < completions(limits, i, rem).len(),
        completions(limits, i, rem)[k] == s,
    decreases limits.len() - i,
{
    lemma_sum_of_nonneg(s);
    if i == limits.len() {
        assert(s =~= Seq::<u8>::empty());
        0
    } else {
        let t = s[0];
        let rest = s.drop_first();
        lemma_sum_of_nonneg(rest);
        assert(valid_suffix(limits, i + 1, rem - t, rest)) by {
            assert forall|j: int| 0 <= j < rest.len() implies #[trigger] rest[j] <= limits[i + 1 + j] by {
                assert(rest[j] == s[j + 1]);
                assert(s[j + 1] <= limits[i + (j + 1)]);
            }
        }
        assert(s[0] <= limits[i + 0]);
        let m = lemma_completions_complete(limits, i + 1, rem - t, rest);
        let bound = take_bound(limits, i, rem);
        assert(t <= bound);
        let prev = choices_below(limits, i, rem, t as int);
        let k = prev.len() + m;
        assert(choices_below(limits, i, rem, t + 1)[k] == seq![t] + rest);
        assert(seq![t] + rest =~= s);
        lemma_choices_prefix(limits, i, rem, t + 1, bound + 1);
        k
    }
}

proof fn lemma_lex_cons(t: u8, a: Seq<u8>, b: Seq<u8>)
    requires
        lex_less(a, b),
    ensures
        lex_less(seq![t] + a, seq![t] + b),
{
    lemma_cons_parts(t, a);
    lemma_cons_parts(t, b);
}

proof fn lemma_completions_sorted(limits: Seq<u8>, i: int, rem: int)
    requires
        0 <= i <= limits.len(),
        rem >= 0,
    ensures
        forall|k: int, l: int|
            0 <= k < l < completions(limits, i, rem).len() ==> lex_less(
                #[trigger] completions(limits, i, rem)[k],
                #[trigger] completions(limits, i, rem)[l],
            ),
    decreases limits.len() - i, 300int,
{
    if i < limits.len() {
        lemma_choices_sorted(limits, i, rem, take_bound(limits, i, rem) + 1);
        assert(completions(limits, i, rem) == choices_below(limits, i, rem, take_bound(limits, i, rem) + 1));
    } else {
        assert(completions(limits, i, rem).len() <= 1);
    }
}

proof fn lemma_choices_sorted(limits: Seq<u8>, i: int, rem: int, t: int)
    requires
        0 <= i < limits.len(),
        rem >= 0,
        0 <= t <= take_bound(limits, i, rem) + 1,
    ensures
        forall|k: int, l: int|
            0 <= k < l < choices_below(limits, i, rem, t).len() ==> lex_less(
                #[trigger] choices_below(limits, i, rem, t)[k],
                #[trigger] choices_below(limits, i, rem, t)[l],
            ),
    decreases limits.len() - i, t,
{
    if t > 0 {
        lemma_choices_sorted(limits, i, rem, t - 1);
        lemma_choices_valid(limits, i, rem, t - 1);
        lemma_completions_sorted(limits, i + 1, rem - (t - 1));
        lemma_completions_valid(limits, i + 1, rem - (t - 1));
        let prev = choices_below(limits, i, rem, t - 1);
        let sub = completions(limits, i + 1, rem - (t - 1));
        let cur = choices_below(limits, i, rem, t);
        let h = (t - 1) as u8;
        assert forall|k: int, l: int| 0 <= k < l < cur.len() implies lex_less(
            #[trigger] cur[k],
            #[trigger] cur[l],
        ) by {
            if l < prev.len() {
                assert(cur[k] == prev[k] && cur[l] == prev[l]);
            } else if k < prev.len() {
                let m = l - prev.len();
                assert(cur[l] == seq![h] + sub[m]);
                lemma_cons_parts(h, sub[m]);
                assert(valid_suffix(limits, i, rem, prev[k]));
                assert(prev[k][0] < t - 1);
                assert(cur[k] == prev[k]);
            } else {
                let mk = k - prev.len();
                let ml = l - prev.len();
                assert(cur[k] == seq![h] + sub[mk]);
                assert(cur[l] == seq![h] + sub[ml]);
                lemma_lex_cons(h, sub[mk], sub[ml]);
            }
        }
    }
}


proof fn lemma_sum_of_last(s: Seq<u8>)
    requires
        s.len() > 0,
    ensures
        sum_of(s) == sum_of(s.drop_last()) + s.last(),
    decreases s.len(),
{
    if s.len() > 1 {
        lemma_sum_of_last(s.drop_first());
        assert(s.drop_first().drop_last() =~= s.drop_last().drop_first());
    } else {
        assert(s.drop_first() =~= Seq::<u8>::empty());
        assert(s.drop_last() =~= Seq::<u8>::empty());
    }
}

proof fn lemma_sum_of_is_dice_total(s: Seq<u8>, n: int)
    requires
        0 <= n <= s.len(),
    ensures
        sum_of(s.take(n)) == dice_total(s, n),
    decreases n,
{
    if n > 0 {
        lemma_sum_of_is_dice_total(s, n - 1);
        lemma_sum_of_last(s.take(n));
        assert(s.take(n).drop_last() =~= s.take(n - 1));
    } else {
        assert(s.take(0) =~= Seq::<u8>::empty());
    }
}

/// `s` takes six dice in all from the stock `limits`, at most `limits[i]` of kind `i`.
pub open spec fn is_selection(limits: Seq<u8>, s: Seq<u8>) -> bool {
    &&& s.len() == limits.len()
    &&& forall|j: int| 0 <= j < s.len() ==> #[trigger] s[j] <= limits[j]
    &&& dice_total(s, s.len() as int) == 6
}

/// The search goes through every selection of six dice from the stock exactly once, in
/// lexicographic order: every candidate is a selection, every selection is a candidate,
/// and each candidate comes before the ones after it.
pub proof fn law_candidates_are_all_selections(limits: Seq<u8>)
    ensures
        forall|k: int|
            0 <= k < completions(limits, 0, 6).len() ==> is_selection(
                limits,
                #[trigger] completions(limits, 0, 6)[k],
            ),
        forall|s: Seq<u8>|
            is_selection(limits, s) ==> exists|k: int|
                0 <= k < completions(limits, 0, 6).len() && #[trigger] completions(limits, 0, 6)[k]
                    == s,
        forall|k: int, l: int|
            0 <= k < l < completions(limits, 0, 6).len() ==> lex_less(
                #[trigger] completions(limits, 0, 6)[k],
                #[trigger] completions(limits, 0, 6)[l],
            ),
{
    let c = completions(limits, 0, 6);
    lemma_completions_valid(limits, 0, 6);
    lemma_completions_sorted(limits, 0, 6);
    assert forall|k: int| 0 <= k < c.len() implies is_selection(limits, #[trigger] c[k]) by {
        let s = c[k];
        assert(valid_suffix(limits, 0, 6, s));
        lemma_sum_of_is_dice_total(s, s.len() as int);
        assert(s.take(s.len() as int) =~= s);
        assert forall|j: int| 0 <= j < s.len() implies #[trigger] s[j] <= limits[j] by {
            assert(s[j] <= limits[0 + j]);
        }
    }
    assert forall|s: Seq<u8>| is_selection(limits, s) implies exists|k: int|
        0 <= k < c.len() && #[trigger] c[k] == s by {
        lemma_sum_of_is_dice_total(s, s.len() as int);
        assert(s.take(s.len() as int) =~= s);
        assert forall|j: int| 0 <= j < s.len() implies #[trigger] s[j] <= limits[0 + j] by {
            assert(s[j] <= limits[j]);
        }
        let k = lemma_completions_complete(limits, 0, 6, s);
    }
}

} // verus!
