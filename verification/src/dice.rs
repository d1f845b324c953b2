//! Dice with weighted faces, and the sets of dice that make up a throw.

use vstd::prelude::*;
use crate::text::{decimal, join, push_decimal, lemma_join_push};

verus! {

/// Sum of the first `n` weights.
pub open spec fn weight_sum(w: Seq<u32>, n: int) -> int
    decreases n,
{
    if n <= 0 {
        0
    } else {
        weight_sum(w, n - 1) + w[n - 1]
    }
}

proof fn lemma_weight_sum_monotone(w: Seq<u32>, n: int)
    requires
        0 <= n <= w.len(),
    ensures
        forall|k: int| 0 <= k <= n ==> #[trigger] weight_sum(w, k) <= weight_sum(w, n),
    decreases n,
{
    if n > 0 {
        lemma_weight_sum_monotone(w, n - 1);
    }
}

/// A six-sided die whose face `i` (0 stands for the one) comes up with probability
/// `weights[i] / (sum of the weights)`. A devil's die shows a joker on its first face.
pub struct Die {
    weights: [u32; 6],
    name: String,
    pub is_devil: bool,
}

impl Die {
    /// The weights of the faces, face 0 (the one) first.
    pub closed spec fn weights_view(self) -> Seq<u32> {
        self.weights@
    }

    /// The name of the die.
    pub closed spec fn name_view(self) -> Seq<char> {
        self.name@
    }

    /// Whether the die is a devil's die.
    pub closed spec fn devil_view(self) -> bool {
        self.is_devil
    }

    /// The weights sum to a positive number that fits in a `u32`.
    pub open spec fn valid(self) -> bool {
        self.weights_view().len() == 6 && 0 < weight_sum(self.weights_view(), 6) <= u32::MAX
    }

    /// A die with the given face weights; the probability of a face is its weight divided
    /// by the sum of the weights, which must not be zero.
    pub fn new(weights: [u32; 6], name: String) -> (die: Self)
        requires
            0 < weight_sum(weights@, 6) <= u32::MAX,
        ensures
            die.weights_view() == weights@,
            die.name_view() == name@,
            !die.devil_view(),
            die.valid(),
    {
        proof {
            lemma_weight_sum_monotone(weights@, 6);
        }
        let mut sum: u32 = 0;
        let mut i: usize = 0;
        while i < 6
            invariant
                i <= 6,
                sum == weight_sum(weights@, i as int),
                weight_sum(weights@, 6) <= u32::MAX,
                forall|k: int| 0 <= k <= 6 ==> #[trigger] weight_sum(weights@, k) <= weight_sum(weights@, 6),
            decreases 6 - i,
        {
            assert(weight_sum(weights@, i as int + 1) <= weight_sum(weights@, 6));
            sum = sum + weights[i];
            i = i + 1;
        }
        Die { weights, name, is_devil: false }
    }

    /// The devil's die: even weights, and a joker on its first face.
    pub fn devil() -> (die: Self)
        ensures
            die.weights_view() == seq![1u32, 1, 1, 1, 1, 1],
            die.name_view() == "Devil"@,
            die.devil_view(),
            die.valid(),
    {
        proof {
            reveal_with_fuel(weight_sum, 7);
        }
        let mut new_die = Self::new([1, 1, 1, 1, 1, 1], String::from_str("Devil"));
        new_die.is_devil = true;
        new_die
    }

    /// The weight of face `face`.
    pub fn weight(&self, face: usize) -> (w: u32)
        requires
            face < 6,
        ensures
            w == self.weights_view()[face as int],
    {
        self.weights[face]
    }

    /// The sum of the weights of the six faces: the denominator of every face probability.
    pub fn total_weight(&self) -> (total: u32)
        requires
            self.valid(),
        ensures
            total == weight_sum(self.weights_view(), 6),
    {
        proof {
            lemma_weight_sum_monotone(self.weights_view(), 6);
        }
        let mut sum: u32 = 0;
        let mut i: usize = 0;
        while i < 6
            invariant
                i <= 6,
                self.valid(),
                sum == weight_sum(self.weights_view(), i as int),
                forall|k: int| 0 <= k <= 6 ==> #[trigger] weight_sum(self.weights_view(), k) <= weight_sum(self.weights_view(), 6),
            decreases 6 - i,
        {
            assert(weight_sum(self.weights_view(), i as int + 1) <= weight_sum(self.weights_view(), 6));
            sum = sum + self.weights[i];
            i = i + 1;
        }
        sum
    }

    /// The name of the die.
    pub fn name(&self) -> (name: &str)
        ensures
            name@ == self.name_view(),
    {
        self.name.as_str()
    }
}

/// A die that shows `shown` counts toward the face `target`: it shows that face, or it is a
/// devil's die showing its joker (face 0), which counts as any face.
pub open spec fn counts_toward_spec(target: int, shown: int, is_devil: bool) -> bool {
    shown == target || (is_devil && shown == 0)
}

/// Whether a die showing `shown` counts toward the face `target`.
pub fn counts_toward(target: usize, shown: usize, is_devil: bool) -> (counts: bool)
    ensures
        counts == counts_toward_spec(target as int, shown as int, is_devil),
{
    shown == target || (is_devil && shown == 0)
}

impl Clone for Die {
    fn clone(&self) -> (copy: Self)
        ensures
            copy == *self,
    {
        Die { weights: self.weights, name: self.name.clone(), is_devil: self.is_devil }
    }
}


/// Number of dice in the first `n` entries of `counts`.
pub open spec fn dice_total(counts: Seq<u8>, n: int) -> int
    decreases n,
{
    if n <= 0 {
        0
    } else {
        dice_total(counts, n - 1) + counts[n - 1]
    }
}

proof fn lemma_dice_total_monotone(counts: Seq<u8>, n: int)
    requires
        0 <= n <= counts.len(),
    ensures
        forall|k: int| 0 <= k <= n ==> #[trigger] dice_total(counts, k) <= dice_total(counts, n),
        dice_total(counts, n) >= 0,
    decreases n,
{
    if n > 0 {
        lemma_dice_total_monotone(counts, n - 1);
    }
}

/// Whether the counts add up to exactly six dice.
pub fn is_six_dice(counts: &[u8]) -> (six: bool)
    ensures
        six == (dice_total(counts@, counts@.len() as int) == 6),
{
    proof {
        lemma_dice_total_monotone(counts@, counts@.len() as int);
    }
    let mut total: usize = 0;
    let mut i: usize = 0;
    while i < counts.len()
        invariant
            i <= counts@.len(),
            total == dice_total(counts@, i as int),
            total <= 6,
            forall|k: int| 0 <= k <= counts@.len() ==> #[trigger] dice_total(counts@, k) <= dice_total(counts@, counts@.len() as int),
        decreases counts@.len() - i,
    {
        total = total + counts[i] as usize;
        i = i + 1;
        if total > 6 {
            assert(dice_total(counts@, i as int) > 6);
            return false;
        }
    }
    total == 6
}

/// The dice of a set, each repeated as many times as its count, in order, for the first
/// `n` kinds.
pub open spec fn expanded(dice: Seq<Die>, counts: Seq<u8>, n: int) -> Seq<Die>
    decreases n,
{
    if n <= 0 {
        Seq::empty()
    } else {
        expanded(dice, counts, n - 1) + Seq::new(counts[n - 1] as nat, |j: int| dice[n - 1])
    }
}

proof fn lemma_expanded_len(dice: Seq<Die>, counts: Seq<u8>, n: int)
    requires
        0 <= n <= counts.len(),
    ensures
        expanded(dice, counts, n).len() == dice_total(counts, n),
    decreases n,
{
    if n > 0 {
        lemma_expanded_len(dice, counts, n - 1);
    }
}

/// Expands kinds of dice and how many of each into the six concrete dice of a throw.
pub fn expand_to_six(dice_types: &[Die], counts: &[u8]) -> (dice: [Die; 6])
    requires
        dice_types@.len() == counts@.len(),
        dice_total(counts@, counts@.len() as int) == 6,
    ensures
        dice@ == expanded(dice_types@, counts@, counts@.len() as int),
{
    let mut out: Vec<Die> = Vec::new();
    let mut i: usize = 0;
    while i < counts.len()
        invariant
            i <= counts@.len(),
            dice_types@.len() == counts@.len(),
            out@ == expanded(dice_types@, counts@, i as int),
        decreases counts@.len() - i,
    {
        let c = counts[i];
        let mut k: u8 = 0;
        while k < c
            invariant
                k <= c,
                i < counts@.len(),
                c == counts@[i as int],
                dice_types@.len() == counts@.len(),
                out@ == expanded(dice_types@, counts@, i as int) + Seq::new(k as nat, |j: int| dice_types@[i as int]),
            decreases c - k,
        {
            out.push(dice_types[i].clone());
            k = k + 1;
            assert(out@ =~= expanded(dice_types@, counts@, i as int) + Seq::new(k as nat, |j: int| dice_types@[i as int]));
        }
        i = i + 1;
        assert(out@ =~= expanded(dice_types@, counts@, i as int));
    }
    proof {
        lemma_expanded_len(dice_types@, counts@, counts@.len() as int);
    }
    let dice = [
        out[0].clone(),
        out[1].clone(),
        out[2].clone(),
        out[3].clone(),
        out[4].clone(),
        out[5].clone(),
    ];
    assert(dice@ =~= out@);
    dice
}

/// The kinds of dice with a positive count, and their counts, among the first `n` kinds.
pub open spec fn selected(dice: Seq<Die>, counts: Seq<u8>, n: int) -> (Seq<Die>, Seq<u8>)
    decreases n,
{
    if n <= 0 {
        (Seq::empty(), Seq::empty())
    } else {
        let prev = selected(dice, counts, n - 1);
        if counts[n - 1] > 0 {
            (prev.0.push(dice[n - 1]), prev.1.push(counts[n - 1]))
        } else {
            prev
        }
    }
}

/// Keeps the kinds of dice that a selection uses, with their counts, in order.
pub fn selection_from_counts(available_dice: &[Die], best_counts: &[u8]) -> (sel: (
    Vec<Die>,
    Vec<u8>,
))
    requires
        available_dice@.len() == best_counts@.len(),
    ensures
        (sel.0@, sel.1@) == selected(available_dice@, best_counts@, best_counts@.len() as int),
{
    let mut dice_types: Vec<Die> = Vec::new();
    let mut counts: Vec<u8> = Vec::new();
    let mut i: usize = 0;
    while i < best_counts.len()
        invariant
            i <= best_counts@.len(),
            available_dice@.len() == best_counts@.len(),
            (dice_types@, counts@) == selected(available_dice@, best_counts@, i as int),
        decreases best_counts@.len() - i,
    {
        let c = best_counts[i];
        if c > 0 {
            dice_types.push(available_dice[i].clone());
            counts.push(c);
        }
        i = i + 1;
    }
    (dice_types, counts)
}

/// The words "{count}x {name}" of the kinds with a positive count among the first `n`.
pub open spec fn set_words(dice: Seq<Die>, counts: Seq<u8>, n: int) -> Seq<Seq<char>>
    decreases n,
{
    if n <= 0 {
        Seq::empty()
    } else if counts[n - 1] > 0 {
        set_words(dice, counts, n - 1).push(
            decimal(counts[n - 1] as nat) + "x "@ + dice[n - 1].name_view(),
        )
    } else {
        set_words(dice, counts, n - 1)
    }
}

/// Describes a set of dice, for instance "2x Ordinary die, 4x Odd die".
pub fn format_dice_set(dice_types: &[Die], counts: &[u8]) -> (text: String)
    requires
        dice_types@.len() == counts@.len(),
    ensures
        text@ == join(set_words(dice_types@, counts@, counts@.len() as int), ", "@),
{
    let mut text = String::new();
    let mut any = false;
    let mut i: usize = 0;
    while i < counts.len()
        invariant
            i <= counts@.len(),
            dice_types@.len() == counts@.len(),
            any == (set_words(dice_types@, counts@, i as int).len() > 0),
            text@ == join(set_words(dice_types@, counts@, i as int), ", "@),
        decreases counts@.len() - i,
    {
        let c = counts[i];
        if c > 0 {
            let ghost word = decimal(c as nat) + "x "@ + dice_types@[i as int].name_view();
            proof {
                lemma_join_push(set_words(dice_types@, counts@, i as int), ", "@, word);
            }
            if any {
                text.append(", ");
            }
            let ghost sep_added = text@;
            push_decimal(&mut text, c as u64);
            text.append("x ");
            text.append(dice_types[i].name());
            assert(text@ =~= sep_added + word);
            any = true;
        }
        i = i + 1;
    }
    text
}

/// Number of kinds among the first `n` whose count is positive.
pub open spec fn positive_kinds(counts: Seq<u8>, n: int) -> int
    decreases n,
{
    if n <= 0 {
        0
    } else {
        positive_kinds(counts, n - 1) + if counts[n - 1] > 0 {
            1int
        } else {
            0int
        }
    }
}

proof fn lemma_positive_kinds_monotone(counts: Seq<u8>, i: int, n: int)
    requires
        0 <= i <= n,
    ensures
        positive_kinds(counts, i) <= positive_kinds(counts, n),
    decreases n - i,
{
    if i < n {
        lemma_positive_kinds_monotone(counts, i, n - 1);
    }
}

pub(crate) proof fn lemma_positive_kind_below(counts: Seq<u8>, i: int, n: int)
    requires
        0 <= i < n,
        counts[i] > 0,
    ensures
        0 <= positive_kinds(counts, i) < positive_kinds(counts, n),
{
    lemma_positive_kinds_monotone(counts, 0, i);
    assert(positive_kinds(counts, i + 1) == positive_kinds(counts, i) + 1);
    lemma_positive_kinds_monotone(counts, i + 1, n);
}

/// The description of a set of dice has one word per kind with a positive count (a count of
/// one included), in order: the word of kind `i` is its count in decimal, "x " and its name.
pub proof fn law_one_word_per_used_kind(dice: Seq<Die>, counts: Seq<u8>, n: int)
    requires
        0 <= n <= counts.len(),
    ensures
        set_words(dice, counts, n).len() == positive_kinds(counts, n),
        forall|i: int|
            0 <= i < n && counts[i] > 0 ==> #[trigger] set_words(dice, counts, n)[positive_kinds(
                counts,
                i,
            )] == decimal(counts[i] as nat) + "x "@ + dice[i].name_view(),
    decreases n,
{
    if n > 0 {
        law_one_word_per_used_kind(dice, counts, n - 1);
        let prev = set_words(dice, counts, n - 1);
        let word = decimal(counts[n - 1] as nat) + "x "@ + dice[n - 1].name_view();
        if counts[n - 1] > 0 {
            assert(set_words(dice, counts, n) == prev.push(word));
        } else {
            assert(set_words(dice, counts, n) == prev);
        }
        assert forall|i: int|
            0 <= i < n && counts[i] > 0 implies #[trigger] set_words(dice, counts, n)[positive_kinds(
                counts,
                i,
            )] == decimal(counts[i] as nat) + "x "@ + dice[i].name_view() by {
            if i < n - 1 {
                lemma_positive_kind_below(counts, i, n - 1);
                assert(prev[positive_kinds(counts, i)] == decimal(counts[i] as nat) + "x "@
                    + dice[i].name_view());
            }
        }
    }
}

/// Keeping the kinds a selection uses keeps exactly the kinds with a positive count, each
/// with its count, and keeps the number of dice.
pub proof fn law_selection_keeps_used_kinds(dice: Seq<Die>, counts: Seq<u8>, n: int)
    requires
        0 <= n <= counts.len(),
    ensures
        selected(dice, counts, n).0.len() == positive_kinds(counts, n),
        selected(dice, counts, n).1.len() == positive_kinds(counts, n),
        forall|k: int| 0 <= k < selected(dice, counts, n).1.len() ==> #[trigger] selected(dice, counts, n).1[k] > 0,
        forall|i: int|
            0 <= i < n && counts[i] > 0 ==> #[trigger] selected(dice, counts, n).1[positive_kinds(counts, i)]
                == counts[i] && selected(dice, counts, n).0[positive_kinds(counts, i)] == dice[i],
        dice_total(selected(dice, counts, n).1, positive_kinds(counts, n)) == dice_total(counts, n),
    decreases n,
{
    if n > 0 {
        law_selection_keeps_used_kinds(dice, counts, n - 1);
        let prev = selected(dice, counts, n - 1);
        let p = positive_kinds(counts, n - 1);
        if counts[n - 1] > 0 {
            assert(selected(dice, counts, n) == (
            prev.0.push(dice[n - 1]),
            prev.1.push(counts[n - 1]),
            ));
            lemma_dice_total_prefix(prev.1, prev.1.push(counts[n - 1]), p);
        } else {
            assert(selected(dice, counts, n) == prev);
        }
        assert forall|i: int| 0 <= i < n && counts[i] > 0 implies #[trigger] selected(
            dice,
            counts,
            n,
        ).1[positive_kinds(counts, i)] == counts[i] && selected(dice, counts, n).0[positive_kinds(
            counts,
            i,
        )] == dice[i] by {
            if i < n - 1 {
                lemma_positive_kind_below(counts, i, n - 1);
                assert(prev.1[positive_kinds(counts, i)] == counts[i]);
                assert(prev.0[positive_kinds(counts, i)] == dice[i]);
            }
        }
    }
}

proof fn lemma_dice_total_prefix(a: Seq<u8>, b: Seq<u8>, n: int)
    requires
        0 <= n <= a.len(),
        n <= b.len(),
        forall|i: int| 0 <= i < n ==> #[trigger] a[i] == b[i],
    ensures
        dice_total(a, n) == dice_total(b, n),
    decreases n,
{
    if n > 0 {
        lemma_dice_total_prefix(a, b, n - 1);
    }
}

/// Expanding a set gives as many dice as the counts add up to, kind by kind: the dice of
/// kind `i` come right after those of the kinds before it.
pub proof fn law_expanded_blocks(dice: Seq<Die>, counts: Seq<u8>, n: int)
    requires
        0 <= n <= counts.len(),
    ensures
        expanded(dice, counts, n).len() == dice_total(counts, n),
        forall|i: int, k: int|
            #![trigger expanded(dice, counts, n)[k], dice_total(counts, i)]
            0 <= i < n && dice_total(counts, i) <= k < dice_total(counts, i + 1) ==> expanded(
                dice,
                counts,
                n,
            )[k] == dice[i],
    decreases n,
{
    lemma_expanded_len(dice, counts, n);
    if n > 0 {
        law_expanded_blocks(dice, counts, n - 1);
        lemma_dice_total_monotone(counts, n);
        assert forall|i: int, k: int|
            #![trigger expanded(dice, counts, n)[k], dice_total(counts, i)]
            0 <= i < n && dice_total(counts, i) <= k < dice_total(counts, i + 1) implies expanded(
                dice,
                counts,
                n,
            )[k] == dice[i] by {
            let prev = expanded(dice, counts, n - 1);
            lemma_dice_total_monotone(counts, i);
            assert(expanded(dice, counts, n) == prev + Seq::new(counts[n - 1] as nat, |j: int| dice[n - 1]));
            if i < n - 1 {
                lemma_dice_total_monotone(counts, n - 1);
                assert(dice_total(counts, i + 1) <= dice_total(counts, n - 1));
                assert(prev[k] == dice[i]);
            }
        }
    }
}

/// The weight sum of six faces, in numbers.
pub proof fn law_weight_sum_of_six(w: Seq<u32>)
    ensures
        weight_sum(w, 6) == w[0] + w[1] + w[2] + w[3] + w[4] + w[5],
{
    reveal_with_fuel(weight_sum, 7);
}

/// A die counts toward a face exactly when it shows it, or when it is a devil's die showing
/// its joker, whatever the face.
pub proof fn law_joker_counts_toward_all(target: int, shown: int, is_devil: bool)
    ensures
        shown == target ==> counts_toward_spec(target, shown, is_devil),
        is_devil && shown == 0 ==> counts_toward_spec(target, shown, is_devil),
        shown != target && !(is_devil && shown == 0) ==> !counts_toward_spec(target, shown, is_devil),
{
}

} // verus!
