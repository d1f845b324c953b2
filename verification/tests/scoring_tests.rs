use kcd_dice::scoring::{calc_score, face_counts, is_bust, score_for_face_count};

#[test]
fn full_straight_scores_1500() {
    assert_eq!(calc_score(&[1, 1, 1, 1, 1, 1]), 1500);
}

#[test]
fn low_straight_with_extra_one() {
    assert_eq!(calc_score(&[2, 1, 1, 1, 1, 0]), 600);
}

#[test]
fn low_straight_with_extra_five() {
    assert_eq!(calc_score(&[1, 1, 1, 1, 2, 0]), 550);
}

#[test]
fn high_straight_with_extra_five() {
    assert_eq!(calc_score(&[0, 1, 1, 1, 2, 1]), 800);
}

#[test]
fn high_straight_with_a_one_is_full() {
    // one to six with every face once is the full straight, not two to six plus a one
    assert_eq!(calc_score(&[1, 1, 1, 1, 1, 1]), 1500);
}

#[test]
fn three_ones_score_1000() {
    assert_eq!(calc_score(&[3, 0, 0, 0, 0, 0]), 1000);
}

#[test]
fn six_twos_score_eight_times_the_triple() {
    assert_eq!(calc_score(&[0, 6, 0, 0, 0, 0]), 1600);
}

#[test]
fn four_fives_and_two_ones() {
    assert_eq!(calc_score(&[2, 0, 0, 0, 4, 0]), 1000 + 200);
}

#[test]
fn singles_and_a_triple_add_up() {
    assert_eq!(calc_score(&[1, 0, 3, 0, 1, 1]), 100 + 300 + 50);
}

#[test]
fn pairs_without_ones_or_fives_score_nothing() {
    assert_eq!(calc_score(&[0, 2, 2, 0, 0, 2]), 0);
}

#[test]
fn score_for_face_count_singles() {
    assert_eq!(score_for_face_count(0, 2), 200);
    assert_eq!(score_for_face_count(4, 1), 50);
    assert_eq!(score_for_face_count(2, 2), 0);
    assert_eq!(score_for_face_count(5, 0), 0);
}

#[test]
fn score_for_face_count_multiples_double() {
    assert_eq!(score_for_face_count(1, 3), 200);
    assert_eq!(score_for_face_count(0, 4), 2000);
    assert_eq!(score_for_face_count(4, 5), 2000);
    assert_eq!(score_for_face_count(5, 6), 4800);
}

#[test]
fn score_is_sum_of_faces_without_straight() {
    let c = [2usize, 0, 3, 1, 0, 0];
    let sum: u32 = (0..6).map(|f| score_for_face_count(f, c[f])).sum();
    assert_eq!(calc_score(&c), sum);
}

#[test]
fn face_counts_of_a_throw() {
    assert_eq!(face_counts(&[0, 4, 4, 2, 5, 0]), [2, 0, 1, 0, 2, 1]);
}

#[test]
fn pairs_of_twos_threes_fours_are_bust() {
    assert!(is_bust(&[1, 1, 2, 2, 3, 3]));
}

#[test]
fn a_one_is_no_bust() {
    assert!(!is_bust(&[0, 1, 1, 2, 3, 5]));
}

#[test]
fn a_five_is_no_bust() {
    assert!(!is_bust(&[4, 1, 1, 2, 3, 5]));
}

#[test]
fn a_triple_is_no_bust() {
    assert!(!is_bust(&[1, 1, 1, 2, 3, 5]));
}

#[test]
fn bust_exactly_when_score_is_zero() {
    // every throw of six dice: is_bust agrees with calc_score
    for code in 0..46656u32 {
        let mut faces = [0usize; 6];
        let mut n = code;
        for f in faces.iter_mut() {
            *f = (n % 6) as usize;
            n /= 6;
        }
        let c = face_counts(&faces);
        let wide = [c[0] as usize, c[1] as usize, c[2] as usize, c[3] as usize, c[4] as usize, c[5] as usize];
        assert_eq!(is_bust(&faces), calc_score(&wide) == 0, "{:?}", faces);
    }
}
