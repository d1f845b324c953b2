use kcd_dice::dice::{expand_to_six, format_dice_set, is_six_dice, selection_from_counts, Die};
use kcd_dice::render::{decode_base6_3, throw_pattern, ThrowPattern};
use kcd_dice::search::candidate_selections;

#[test]
fn new_die_keeps_weights_and_name() {
    let d = Die::new([6, 1, 6, 1, 6, 1], "Aranka's die".to_string());
    assert_eq!(d.weight(0), 6);
    assert_eq!(d.weight(5), 1);
    assert_eq!(d.total_weight(), 21);
    assert_eq!(d.name(), "Aranka's die");
    assert!(!d.is_devil);
}

#[test]
fn devil_die_is_even_with_a_joker() {
    let d = Die::devil();
    assert!(d.is_devil);
    assert_eq!(d.total_weight(), 6);
    assert_eq!(d.name(), "Devil");
    for f in 0..6 {
        assert_eq!(d.weight(f), 1);
    }
}

#[test]
fn clone_keeps_everything() {
    let d = Die::devil();
    let e = d.clone();
    assert_eq!(e.name(), "Devil");
    assert!(e.is_devil);
    assert_eq!(e.total_weight(), 6);
}

#[test]
fn six_dice_check() {
    assert!(is_six_dice(&[2, 4]));
    assert!(is_six_dice(&[6]));
    assert!(!is_six_dice(&[2, 3]));
    assert!(!is_six_dice(&[200, 100]));
    assert!(!is_six_dice(&[]));
}

#[test]
fn expand_to_six_repeats_each_kind() {
    let a = Die::new([1; 6], "A".to_string());
    let b = Die::new([2; 6], "B".to_string());
    let c = Die::new([3; 6], "C".to_string());
    let six = expand_to_six(&[a, b, c], &[2, 0, 4]);
    let names: Vec<&str> = six.iter().map(|d| d.name()).collect();
    assert_eq!(names, vec!["A", "A", "C", "C", "C", "C"]);
}

#[test]
fn selection_keeps_used_kinds() {
    let a = Die::new([1; 6], "A".to_string());
    let b = Die::new([2; 6], "B".to_string());
    let c = Die::new([3; 6], "C".to_string());
    let (dice, counts) = selection_from_counts(&[a, b, c], &[0, 5, 1]);
    assert_eq!(counts, vec![5, 1]);
    assert_eq!(dice.len(), 2);
    assert_eq!(dice[0].name(), "B");
    assert_eq!(dice[1].name(), "C");
}

#[test]
fn format_dice_set_joins_counts_and_names() {
    let a = Die::new([1; 6], "Ordinary die".to_string());
    let b = Die::new([8, 2, 8, 2, 8, 2], "Odd die".to_string());
    let c = Die::new([3; 6], "Unused".to_string());
    assert_eq!(format_dice_set(&[a, c, b], &[2, 0, 4]), "2x Ordinary die, 4x Odd die");
    assert_eq!(format_dice_set(&[], &[]), "");
}

#[test]
fn candidates_from_a_single_kind() {
    assert_eq!(candidate_selections(&[6]), vec![vec![6u8]]);
    assert_eq!(candidate_selections(&[7]), vec![vec![6u8]]);
    assert!(candidate_selections(&[5]).is_empty());
}

#[test]
fn candidates_from_two_kinds_in_order() {
    let all = candidate_selections(&[4, 5]);
    assert_eq!(all, vec![vec![1u8, 5], vec![2, 4], vec![3, 3], vec![4, 2]]);
}

#[test]
fn candidates_cover_every_selection_once() {
    let limits = [1u8, 1, 1, 3, 3, 2, 1, 1, 1, 1];
    let all = candidate_selections(&limits);
    for w in all.windows(2) {
        assert!(w[0] < w[1]);
    }
    for c in &all {
        assert_eq!(c.iter().map(|&x| x as u32).sum::<u32>(), 6);
        assert!(c.iter().zip(limits.iter()).all(|(x, l)| x <= l));
    }
    // count by brute force
    let mut count = 0;
    let mut v = vec![0u8; limits.len()];
    loop {
        if v.iter().map(|&x| x as u32).sum::<u32>() == 6 {
            count += 1;
        }
        let mut i = 0;
        while i < v.len() && v[i] == limits[i] {
            v[i] = 0;
            i += 1;
        }
        if i == v.len() {
            break;
        }
        v[i] += 1;
    }
    assert_eq!(all.len(), count);
}

#[test]
fn base6_digits() {
    assert_eq!(decode_base6_3(0), [0, 0, 0]);
    assert_eq!(decode_base6_3(7), [1, 1, 0]);
    assert_eq!(decode_base6_3(215), [5, 5, 5]);
    assert_eq!(decode_base6_3(216), [0, 0, 0]);
}

#[test]
fn patterns_of_throws() {
    assert!(matches!(throw_pattern(&[1, 1, 2, 2, 3, 3]), ThrowPattern::Bust));
    assert!(matches!(throw_pattern(&[0, 1, 2, 3, 4, 5]), ThrowPattern::Straight));
    // two to six with a second six shows the six twice: coloured as a mixed throw
    assert!(matches!(
        throw_pattern(&[5, 1, 2, 3, 4, 5]),
        ThrowPattern::Mixed { ones: 0, fives: 1, max_kind: 2 }
    ));
    match throw_pattern(&[0, 0, 4, 2, 2, 2]) {
        ThrowPattern::Mixed { ones, fives, max_kind } => {
            assert_eq!((ones, fives, max_kind), (2, 1, 3));
        }
        _ => panic!("expected a mixed throw"),
    }
}
