//! Throws as histograms: how many times each face shows.

use vstd::prelude::*;
use crate::text::{decimal, join, push_decimal, lemma_join_push};
use crate::dice::{positive_kinds, lemma_positive_kind_below};

verus! {

/// The base-7 number whose digits, least significant first, are `c[i..6]`.
pub open spec fn key_from(c: Seq<u8>, i: int) -> int
    decreases 6 - i,
{
    if i >= 6 {
        0
    } else {
        c[i] + 7 * key_from(c, i + 1)
    }
}

proof fn lemma_key_from_nonneg(c: Seq<u8>, i: int)
    ensures
        key_from(c, i) >= 0,
    decreases 6 - i,
{
    if i < 6 {
        lemma_key_from_nonneg(c, i + 1);
    }
}

proof fn lemma_key_from_bound(c: Seq<u8>, i: int)
    requires
        0 <= i <= 6,
        c.len() == 6,
    ensures
        6 * key_from(c, i) + 255 <= 255 * pow7(6 - i),
    decreases 6 - i,
{
    if i < 6 {
        lemma_key_from_bound(c, i + 1);
        assert(pow7(6 - i) == 7 * pow7(6 - (i + 1)));
        assert(c[i] <= 255);
    }
}

/// Seven to the power `n`.
pub open spec fn pow7(n: int) -> int
    decreases n,
{
    if n <= 0 {
        1
    } else {
        7 * pow7(n - 1)
    }
}

/// Encodes counts[0..6] into one integer key, reading the counts as the digits of a
/// base-7 number, least significant first.
pub fn encode_counts(c: &[u8; 6]) -> (key: u32)
    ensures
        key == key_from(c@, 0),
{
    proof {
        lemma_key_from_bound(c@, 0);
        reveal_with_fuel(pow7, 7);
    }
    let mut key: u32 = 0;
    let mut mul: u32 = 1;
    let mut i: usize = 0;
    while i < 6
        invariant
            i <= 6,
            mul == pow7(i as int),
            key + mul * key_from(c@, i as int) == key_from(c@, 0),
            6 * key_from(c@, 0) + 255 <= 255 * 117649,
        decreases 6 - i,
    {
        proof {
            lemma_key_from_nonneg(c@, i as int + 1);
            assert(mul * key_from(c@, i as int) == (c@[i as int] as u32) * mul + (7 * mul) * key_from(
                c@,
                i as int + 1,
            )) by (nonlinear_arith)
                requires
                    key_from(c@, i as int) == c@[i as int] + 7 * key_from(c@, i as int + 1),
            ;
            assert(0 <= (7 * mul) * key_from(c@, i as int + 1)) by (nonlinear_arith)
                requires
                    mul >= 0,
                    key_from(c@, i as int + 1) >= 0,
            ;
            assert(pow7(i as int + 1) <= 117649) by {
                lemma_pow7_le(i as int + 1);
            }
        }
        key = key + (c[i] as u32) * mul;
        mul = mul * 7;
        i = i + 1;
    }
    key
}

proof fn lemma_pow7_le(n: int)
    requires
        0 <= n <= 6,
    ensures
        1 <= pow7(n) <= 117649,
{
    reveal_with_fuel(pow7, 7);
}

/// Different face counts, each at most six, get different keys.
pub proof fn law_encode_counts_injective(a: Seq<u8>, b: Seq<u8>)
    requires
        a.len() == 6,
        b.len() == 6,
        forall|i: int| 0 <= i < 6 ==> #[trigger] a[i] <= 6,
        forall|i: int| 0 <= i < 6 ==> #[trigger] b[i] <= 6,
        key_from(a, 0) == key_from(b, 0),
    ensures
        a == b,
{
    lemma_key_digits_equal(a, b, 0);
    assert(a =~= b);
}

proof fn lemma_key_digits_equal(a: Seq<u8>, b: Seq<u8>, i: int)
    requires
        0 <= i <= 6,
        a.len() == 6,
        b.len() == 6,
        forall|j: int| 0 <= j < 6 ==> #[trigger] a[j] <= 6,
        forall|j: int| 0 <= j < 6 ==> #[trigger] b[j] <= 6,
        key_from(a, i) == key_from(b, i),
    ensures
        forall|j: int| i <= j < 6 ==> #[trigger] a[j] == b[j],
    decreases 6 - i,
{
    if i < 6 {
        let x = a[i] as int;
        let y = b[i] as int;
        let ka = key_from(a, i + 1);
        let kb = key_from(b, i + 1);
        lemma_key_from_nonneg(a, i + 1);
        lemma_key_from_nonneg(b, i + 1);
        assert(x == y && ka == kb) by (nonlinear_arith)
            requires
                0 <= x < 7,
                0 <= y < 7,
                x + 7 * ka == y + 7 * kb,
        ;
        lemma_key_digits_equal(a, b, i + 1);
    }
}

/// Digit `i` of the base-7 number `s`.
pub open spec fn key_digit(s: int, i: int) -> int {
    (s / pow7(i)) % 7
}

/// The six base-7 digits of `s`, least significant first.
pub open spec fn key_digits(s: int) -> Seq<u8> {
    Seq::new(6, |i: int| key_digit(s, i) as u8)
}

/// Every count is at most `bound`.
pub open spec fn counts_at_most(c: Seq<u8>, bound: int) -> bool {
    c.len() == 6 && forall|i: int| 0 <= i < 6 ==> #[trigger] c[i] <= bound
}

/// The digits below position `i`, as a number.
pub open spec fn key_low(c: Seq<u8>, i: int) -> int
    decreases i,
{
    if i <= 0 {
        0
    } else {
        key_low(c, i - 1) + c[i - 1] * pow7(i - 1)
    }
}

pub proof fn lemma_pow7_pos(n: int)
    ensures
        pow7(n) >= 1,
    decreases n,
{
    if n > 0 {
        lemma_pow7_pos(n - 1);
    }
}

proof fn lemma_key_split(c: Seq<u8>, i: int)
    requires
        counts_at_most(c, 6),
        0 <= i <= 6,
    ensures
        key_from(c, 0) == key_low(c, i) + pow7(i) * key_from(c, i),
        0 <= key_low(c, i) < pow7(i),
    decreases i,
{
    if i > 0 {
        lemma_key_split(c, i - 1);
        lemma_pow7_pos(i - 1);
        let p = pow7(i - 1);
        let l = key_low(c, i - 1);
        let x = c[i - 1] as int;
        let k = key_from(c, i);
        assert(pow7(i) == 7 * p);
        assert(key_from(c, i - 1) == x + 7 * k);
        assert(p * (x + 7 * k) == x * p + (7 * p) * k) by (nonlinear_arith);
        assert(0 <= x * p <= 6 * p) by (nonlinear_arith)
            requires
                0 <= x <= 6,
                p >= 1,
        ;
    }
}

/// The base-7 digits of a key are the counts it was made from.
pub proof fn lemma_key_digits(c: Seq<u8>)
    requires
        counts_at_most(c, 6),
    ensures
        key_digits(key_from(c, 0)) == c,
{
    assert forall|i: int| 0 <= i < 6 implies #[trigger] key_digit(key_from(c, 0), i) == c[i] by {
        lemma_key_split(c, i);
        lemma_key_from_nonneg(c, i + 1);
        let p = pow7(i);
        let k = key_from(c, i);
        assert(key_from(c, 0) == k * p + key_low(c, i)) by (nonlinear_arith)
            requires
                key_from(c, 0) == key_low(c, i) + p * k,
        ;
        vstd::arithmetic::div_mod::lemma_fundamental_div_mod_converse_div(
            key_from(c, 0),
            p,
            k,
            key_low(c, i),
        );
        vstd::arithmetic::div_mod::lemma_fundamental_div_mod_converse_mod(
            k,
            7,
            key_from(c, i + 1),
            c[i] as int,
        );
    }
    assert(key_digits(key_from(c, 0)) =~= c);
}

/// Keys of counts of at most six are below 7^(6 - i).
pub proof fn lemma_key_below(c: Seq<u8>, i: int)
    requires
        counts_at_most(c, 6),
        0 <= i <= 6,
    ensures
        0 <= key_from(c, i) < pow7(6 - i),
    decreases 6 - i,
{
    if i < 6 {
        lemma_key_below(c, i + 1);
        assert(pow7(6 - i) == 7 * pow7(6 - (i + 1)));
    }
}

/// The words "{count}x{face}" for the faces below `n` that show, in face order.
pub open spec fn face_words(c: Seq<u8>, n: int) -> Seq<Seq<char>>
    decreases n,
{
    if n <= 0 {
        Seq::empty()
    } else if c[n - 1] > 0 {
        face_words(c, n - 1).push(decimal(c[n - 1] as nat) + seq!['x'] + decimal(n as nat))
    } else {
        face_words(c, n - 1)
    }
}

/// Writes a throw as, for instance, "2x1 1x3 3x5": each face that shows, with its count.
pub fn format_faces(counts: &[u8; 6]) -> (text: String)
    ensures
        text@ == join(face_words(counts@, 6), seq![' ']),
{
    proof {
        reveal_strlit("x");
        reveal_strlit(" ");
    }
    let mut text = String::new();
    let mut any = false;
    let mut face: usize = 0;
    while face < 6
        invariant
            face <= 6,
            any == (face_words(counts@, face as int).len() > 0),
            text@ == join(face_words(counts@, face as int), seq![' ']),
        decreases 6 - face,
    {
        let c = counts[face];
        if c > 0 {
            let ghost word = decimal(c as nat) + seq!['x'] + decimal((face + 1) as nat);
            proof {
                lemma_join_push(face_words(counts@, face as int), seq![' '], word);
                reveal_strlit("x");
                reveal_strlit(" ");
            }
            let ghost before = text@;
            if any {
                text.append(" ");
            }
            let ghost sep_added = text@;
            push_decimal(&mut text, c as u64);
            text.append("x");
            push_decimal(&mut text, (face + 1) as u64);
            assert(text@ =~= sep_added + word);
            assert(text@ == join(face_words(counts@, face as int + 1), seq![' ']));
            any = true;
        }
        face = face + 1;
    }
    text
}

/// The text of a throw has one word per face that shows (once or more), in order of the
/// faces: the word of face index `g` is its count in decimal, 'x' and the face's number
/// `g + 1`.
pub proof fn law_one_word_per_shown_face(c: Seq<u8>, n: int)
    requires
        0 <= n <= c.len(),
    ensures
        face_words(c, n).len() == positive_kinds(c, n),
        forall|g: int|
            0 <= g < n && c[g] > 0 ==> #[trigger] face_words(c, n)[positive_kinds(c, g)] == decimal(
                c[g] as nat,
            ) + seq!['x'] + decimal((g + 1) as nat),
    decreases n,
{
    if n > 0 {
        law_one_word_per_shown_face(c, n - 1);
        let prev = face_words(c, n - 1);
        let word = decimal(c[n - 1] as nat) + seq!['x'] + decimal(n as nat);
        if c[n - 1] > 0 {
            assert(face_words(c, n) == prev.push(word));
        } else {
            assert(face_words(c, n) == prev);
        }
        assert forall|g: int| 0 <= g < n && c[g] > 0 implies #[trigger] face_words(c, n)[positive_kinds(
            c,
            g,
        )] == decimal(c[g] as nat) + seq!['x'] + decimal((g + 1) as nat) by {
            if g < n - 1 {
                lemma_positive_kind_below(c, g, n - 1);
                assert(prev[positive_kinds(c, g)] == decimal(c[g] as nat) + seq!['x'] + decimal(
                    (g + 1) as nat,
                ));
            }
        }
    }
}

/// The key of a histogram written out: the counts are the base-7 digits of the key, the
/// count of ones least significant.
pub proof fn law_key_in_numbers(c: Seq<u8>)
    ensures
        key_from(c, 0) == c[0] + 7 * c[1] + 49 * c[2] + 343 * c[3] + 2401 * c[4] + 16807 * c[5],
{
    reveal_with_fuel(key_from, 7);
}

} // verus!
