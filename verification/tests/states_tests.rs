use kcd_dice::bust_states::{bust_successor, decode, encode, STATE_COUNT};
use kcd_dice::histogram::{encode_counts, format_faces};
use kcd_dice::straights::{
    bit_for_number, popcount_u8, straight_step, straights_completed, REQ_1_TO_5, REQ_1_TO_6,
    REQ_2_TO_6,
};

#[test]
fn encode_is_base_three() {
    assert_eq!(encode(0, 0, 0, 0), 0);
    assert_eq!(encode(1, 0, 0, 0), 1);
    assert_eq!(encode(0, 1, 0, 0), 3);
    assert_eq!(encode(0, 0, 1, 0), 9);
    assert_eq!(encode(2, 2, 2, 2), 80);
}

#[test]
fn decode_undoes_encode() {
    for idx in 0..STATE_COUNT {
        let (a, b, c, d) = decode(idx);
        assert_eq!(encode(a, b, c, d), idx);
    }
    assert_eq!(decode(encode(2, 0, 1, 2)), (2, 0, 1, 2));
}

#[test]
fn bust_successor_counts_twos_to_sixes() {
    assert_eq!(bust_successor(0, 1), Some(1));
    assert_eq!(bust_successor(0, 2), Some(3));
    assert_eq!(bust_successor(0, 3), Some(9));
    assert_eq!(bust_successor(0, 5), Some(27));
}

#[test]
fn bust_successor_ends_on_ones_fives_and_triples() {
    assert_eq!(bust_successor(0, 0), None);
    assert_eq!(bust_successor(0, 4), None);
    assert_eq!(bust_successor(encode(2, 0, 0, 0), 1), None);
    assert_eq!(bust_successor(encode(2, 0, 0, 0), 2), Some(encode(2, 1, 0, 0)));
}

#[test]
fn encode_counts_is_base_seven() {
    assert_eq!(encode_counts(&[0; 6]), 0);
    assert_eq!(encode_counts(&[1, 0, 0, 0, 0, 0]), 1);
    assert_eq!(encode_counts(&[0, 1, 0, 0, 0, 0]), 7);
    assert_eq!(encode_counts(&[0, 0, 0, 0, 0, 1]), 16807);
    assert_eq!(encode_counts(&[6; 6]), 117648);
}

#[test]
fn encode_counts_keys_are_unique() {
    let mut seen = std::collections::HashSet::new();
    for code in 0..117649u32 {
        let mut c = [0u8; 6];
        let mut n = code;
        for x in c.iter_mut() {
            *x = (n % 7) as u8;
            n /= 7;
        }
        assert!(seen.insert(encode_counts(&c)));
    }
}

#[test]
fn format_faces_lists_shown_faces() {
    assert_eq!(format_faces(&[2, 0, 1, 0, 3, 0]), "2x1 1x3 3x5");
    assert_eq!(format_faces(&[0, 0, 0, 0, 0, 6]), "6x6");
    assert_eq!(format_faces(&[0; 6]), "");
    assert_eq!(format_faces(&[12, 0, 0, 0, 0, 255]), "12x1 255x6");
}

#[test]
fn bits_for_numbers() {
    assert_eq!(bit_for_number(1), 1);
    assert_eq!(bit_for_number(3), 4);
    assert_eq!(bit_for_number(6), 32);
}

#[test]
fn popcount_counts_ones() {
    assert_eq!(popcount_u8(0), 0);
    assert_eq!(popcount_u8(0xff), 8);
    assert_eq!(popcount_u8(0b1010_0110), 4);
    for x in 0..=255u8 {
        assert_eq!(popcount_u8(x), x.count_ones());
    }
}

#[test]
fn straight_step_normal_die_sets_a_bit() {
    assert_eq!(straight_step(0, 0, 0, false), Some((1, 0)));
    assert_eq!(straight_step(1, 2, 5, false), Some((33, 2)));
}

#[test]
fn straight_step_devil_joker() {
    assert_eq!(straight_step(4, 0, 0, true), Some((4, 1)));
    assert_eq!(straight_step(4, 6, 0, true), None);
    assert_eq!(straight_step(4, 1, 1, true), Some((6, 1)));
}

#[test]
fn straights_completed_with_and_without_jokers() {
    assert_eq!(straights_completed(REQ_1_TO_6, 0), (true, true, true));
    assert_eq!(straights_completed(REQ_1_TO_5, 0), (true, false, false));
    assert_eq!(straights_completed(REQ_2_TO_6, 0), (false, true, false));
    assert_eq!(straights_completed(REQ_2_TO_6, 1), (true, true, true));
    assert_eq!(straights_completed(0b001111, 1), (true, false, false));
    assert_eq!(straights_completed(0b001111, 2), (true, true, true));
    assert_eq!(straights_completed(0, 5), (true, true, false));
}
