use kcd_dice::bust_states::bust_successor;
use kcd_dice::scoring::{calc_score, face_counts, is_bust};
use kcd_dice::straights::{straight_step, straights_completed};

fn all_throws() -> Vec<[usize; 6]> {
    let mut out = Vec::new();
    for code in 0..46656u32 {
        let mut faces = [0usize; 6];
        let mut n = code;
        for f in faces.iter_mut() {
            *f = (n % 6) as usize;
            n /= 6;
        }
        out.push(faces);
    }
    out
}

#[test]
fn straight_with_large_extra_ones_is_scored() {
    assert_eq!(calc_score(&[7, 1, 1, 1, 1, 0]), 500 + 600);
    assert_eq!(calc_score(&[9, 1, 1, 1, 3, 1]), 500 + 800 + 100);
}

#[test]
fn bust_states_follow_bust_throws() {
    for faces in all_throws() {
        let mut state = Some(0usize);
        for &f in faces.iter() {
            state = state.and_then(|s| bust_successor(s, f));
        }
        assert_eq!(state.is_some(), is_bust(&faces), "{:?}", faces);
    }
}

#[test]
fn straights_always_show_a_five_and_never_bust() {
    for faces in all_throws() {
        let c = face_counts(&faces);
        let low = (0..5).all(|g| c[g] >= 1);
        let high = (1..6).all(|g| c[g] >= 1);
        if low || high {
            assert!(c[4] >= 1);
            assert!(!is_bust(&faces));
        }
    }
}

#[test]
fn straight_states_follow_ordinary_throws() {
    for faces in all_throws() {
        let mut state = (0u8, 0u8);
        for &f in faces.iter() {
            state = straight_step(state.0, state.1, f, false).unwrap();
        }
        let c = face_counts(&faces);
        let low = (0..5).all(|g| c[g] >= 1);
        let high = (1..6).all(|g| c[g] >= 1);
        let full = (0..6).all(|g| c[g] >= 1);
        assert_eq!(straights_completed(state.0, state.1), (low, high, full), "{:?}", faces);
    }
}

#[test]
fn full_straight_implies_both_short_straights() {
    for mask in 0..64u8 {
        for jokers in 0..=6u8 {
            let (s15, s26, s16) = straights_completed(mask, jokers);
            if s16 {
                assert!(s15 && s26);
            }
        }
    }
}

#[test]
fn devil_joker_completes_a_straight() {
    // a devil's die showing its joker next to 2, 3, 4, 5 and 6 makes every straight
    let mut state = (0u8, 0u8);
    for (f, devil) in [(0usize, true), (1, false), (2, false), (3, false), (4, false), (5, false)] {
        state = straight_step(state.0, state.1, f, devil).unwrap();
    }
    assert_eq!(state, (0b111110, 1));
    assert_eq!(straights_completed(state.0, state.1), (true, true, true));
}

#[test]
fn checked_score_where_defined() {
    assert_eq!(kcd_dice::scoring::checked_calc_score(&[2, 0, 3, 1, 0, 0]), Some(500));
    assert_eq!(kcd_dice::scoring::checked_calc_score(&[7, 1, 1, 1, 1, 0]), Some(1100));
    assert_eq!(kcd_dice::scoring::checked_calc_score(&[0, 0, 7, 0, 0, 0]), None);
    assert_eq!(kcd_dice::scoring::checked_calc_score(&[8, 0, 1, 1, 0, 0]), None);
    assert_eq!(kcd_dice::scoring::checked_calc_score(&[0, 9, 1, 1, 1, 1]), Some(750 + 0 + 0));
}

#[test]
fn jokers_fill_exactly_the_missing_numbers() {
    // every throw of six dice where dice 0 and 3 are devil's dice
    let devils = [true, false, false, true, false, false];
    let reqs = [0x1fu8, 0x3e, 0x3f];
    for code in 0..46656u32 {
        let mut faces = [0usize; 6];
        let mut n = code;
        for f in faces.iter_mut() {
            *f = (n % 6) as usize;
            n /= 6;
        }
        let mut state = (0u8, 0u8);
        for d in 0..6 {
            state = straight_step(state.0, state.1, faces[d], devils[d]).unwrap();
        }
        let jokers = (0..6).filter(|&d| devils[d] && faces[d] == 0).count() as u32;
        let made = straights_completed(state.0, state.1);
        let made = [made.0, made.1, made.2];
        for (r, req) in reqs.iter().enumerate() {
            let missing = (0..6u32)
                .filter(|&b| (req >> b) & 1 == 1)
                .filter(|&b| !(0..6).any(|d| !(devils[d] && faces[d] == 0) && faces[d] as u32 == b))
                .count() as u32;
            assert_eq!(made[r], missing <= jokers, "{:?}", faces);
        }
    }
}
