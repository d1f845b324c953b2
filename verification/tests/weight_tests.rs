use std::collections::HashMap;

use kcd_dice::bust_states::{bust_successor, STATE_COUNT};
use kcd_dice::dice::counts_toward;
use kcd_dice::histogram::encode_counts;
use kcd_dice::scoring::{face_counts, is_bust};
use kcd_dice::straights::{straight_step, straights_completed};

const DICE: [[u64; 6]; 6] = [
    [6, 1, 6, 1, 6, 1],
    [5, 3, 2, 3, 5, 3],
    [6, 0, 1, 1, 6, 4],
    [4, 5, 7, 1, 1, 1],
    [8, 2, 8, 2, 8, 2],
    [1, 1, 1, 1, 1, 1],
];

fn throws() -> Vec<([usize; 6], u64)> {
    let mut out = Vec::new();
    for code in 0..46656u32 {
        let mut faces = [0usize; 6];
        let mut n = code;
        for f in faces.iter_mut() {
            *f = (n % 6) as usize;
            n /= 6;
        }
        let w: u64 = (0..6).map(|d| DICE[d][faces[d]]).product();
        out.push((faces, w));
    }
    out
}

#[test]
fn all_throws_weigh_the_product_of_totals() {
    let total: u64 = throws().iter().map(|t| t.1).sum();
    let product: u64 = DICE.iter().map(|d| d.iter().sum::<u64>()).product();
    assert_eq!(total, product);
}

#[test]
fn bust_states_weigh_the_bust_throws() {
    let mut dp = vec![0u64; STATE_COUNT];
    dp[0] = 1;
    for die in DICE.iter() {
        let mut next = vec![0u64; STATE_COUNT];
        for s in 0..STATE_COUNT {
            for f in 0..6 {
                if let Some(t) = bust_successor(s, f) {
                    next[t] += dp[s] * die[f];
                }
            }
        }
        dp = next;
    }
    let by_states: u64 = dp.iter().sum();
    let by_throws: u64 = throws().iter().filter(|t| is_bust(&t.0)).map(|t| t.1).sum();
    assert_eq!(by_states, by_throws);
}

#[test]
fn histogram_keys_weigh_the_histograms() {
    let mut dp: HashMap<u32, ([u8; 6], u64)> = HashMap::new();
    dp.insert(encode_counts(&[0; 6]), ([0; 6], 1));
    for die in DICE.iter() {
        let mut next: HashMap<u32, ([u8; 6], u64)> = HashMap::new();
        for (_, (c, w)) in dp.iter() {
            for f in 0..6 {
                let mut nc = *c;
                nc[f] += 1;
                let e = next.entry(encode_counts(&nc)).or_insert((nc, 0));
                e.1 += w * die[f];
            }
        }
        dp = next;
    }
    let mut by_throws: HashMap<u32, u64> = HashMap::new();
    for (faces, w) in throws() {
        *by_throws.entry(encode_counts(&face_counts(&faces))).or_insert(0) += w;
    }
    assert_eq!(dp.len(), 462);
    for (k, (_, w)) in dp.iter() {
        assert_eq!(by_throws.get(k).copied().unwrap_or(0), *w);
    }
}

#[test]
fn straight_states_weigh_the_straights() {
    let mut dp = vec![0u64; 64 * 7];
    dp[0] = 1;
    for die in DICE.iter() {
        let mut next = vec![0u64; 64 * 7];
        for mask in 0..64u8 {
            for j in 0..=6u8 {
                for f in 0..6 {
                    if let Some((m, k)) = straight_step(mask, j, f, false) {
                        next[m as usize * 7 + k as usize] += dp[mask as usize * 7 + j as usize] * die[f];
                    }
                }
            }
        }
        dp = next;
    }
    let (mut s15, mut s26, mut s16) = (0u64, 0u64, 0u64);
    for mask in 0..64u8 {
        for j in 0..=6u8 {
            let w = dp[mask as usize * 7 + j as usize];
            let (a, b, c) = straights_completed(mask, j);
            if a {
                s15 += w;
            }
            if b {
                s26 += w;
            }
            if c {
                s16 += w;
            }
        }
    }
    let (mut t15, mut t26, mut t16) = (0u64, 0u64, 0u64);
    for (faces, w) in throws() {
        let c = face_counts(&faces);
        if (0..5).all(|g| c[g] >= 1) {
            t15 += w;
        }
        if (1..6).all(|g| c[g] >= 1) {
            t26 += w;
        }
        if (0..6).all(|g| c[g] >= 1) {
            t16 += w;
        }
    }
    assert_eq!((s15, s26, s16), (t15, t26, t16));
}

#[test]
fn devil_joker_counts_toward_every_face() {
    assert!(counts_toward(3, 3, false));
    assert!(!counts_toward(3, 0, false));
    assert!(counts_toward(3, 0, true));
    assert!(counts_toward(0, 0, true));
    assert!(!counts_toward(2, 4, true));
}

#[test]
fn success_counts_weigh_the_throws() {
    let devils = [false, true, false, false, true, false];
    for target in 0..6 {
        let mut dp = [0u64; 7];
        dp[0] = 1;
        for (d, die) in DICE.iter().enumerate() {
            let mut next = [0u64; 7];
            for r in 0..7 {
                for f in 0..6 {
                    if counts_toward(target, f, devils[d]) {
                        if r < 6 {
                            next[r + 1] += dp[r] * die[f];
                        }
                    } else {
                        next[r] += dp[r] * die[f];
                    }
                }
            }
            dp = next;
        }
        let mut by_throws = [0u64; 7];
        for (faces, w) in throws() {
            let r = (0..6).filter(|&d| counts_toward(target, faces[d], devils[d])).count();
            by_throws[r] += w;
        }
        assert_eq!(dp, by_throws);
    }
}
