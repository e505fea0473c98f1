use yahtzee::rolls::{enumerate_keeps, enumerate_rolls, get_straight_length, score_roll, sum_dice};
use yahtzee::state::{
    CHANCE_CAT, FOUR_OF_A_KIND_CAT, FULL_HOUSE_CAT, LRG_STRAIGHT_CAT, ONES_CAT, SML_STRAIGHT_CAT,
    THREE_OF_A_KIND_CAT, TWOS_CAT, YAHTZEE_CAT,
};

#[test]
fn test_can_list_all_rolls() {
    let rolls = enumerate_rolls(5);
    assert_eq!(rolls.len(), 252)
}

#[test]
fn test_can_list_all_keep() {
    let keeps = enumerate_keeps(&[5, 0, 0, 0, 0, 0]);
    assert_eq!(keeps.len(), 6); // 0, 1, 2, .. 5

    let keeps = enumerate_keeps(&[2, 3, 0, 0, 0, 0]);
    assert_eq!(keeps.len(), 12); // (0, 0), (1, 0), (2, 0), (0, 1) .. 3 * 4

    let keeps = enumerate_keeps(&[2, 1, 2, 0, 0, 0]);
    assert_eq!(keeps.len(), 18); // 3 * 2 * 3
}

#[test]
fn test_can_get_straight_length() {
    assert_eq!(get_straight_length(&[1, 1, 1, 1, 1, 0]), 5);
    assert_eq!(get_straight_length(&[1, 2, 1, 1, 0, 0]), 4);
    assert_eq!(get_straight_length(&[0, 2, 1, 1, 1, 0]), 4);
    assert_eq!(get_straight_length(&[0, 2, 1, 1, 0, 1]), 3);
    assert_eq!(get_straight_length(&[0, 2, 0, 1, 0, 2]), 1);
    assert_eq!(get_straight_length(&[0, 5, 0, 0, 0, 0]), 1);
}

#[test]
fn test_can_score_rolls() {
    assert_eq!(score_roll(&[1, 1, 1, 1, 1, 0], ONES_CAT, false), 1);
    assert_eq!(score_roll(&[5, 0, 0, 0, 0, 0], ONES_CAT, false), 5);
    assert_eq!(score_roll(&[0, 5, 0, 0, 0, 0], ONES_CAT, false), 0);
    assert_eq!(score_roll(&[0, 5, 0, 0, 0, 0], TWOS_CAT, false), 5 * 2);

    assert_eq!(score_roll(&[0, 5, 0, 0, 0, 0], THREE_OF_A_KIND_CAT, false), 5 * 2);
    assert_eq!(score_roll(&[0, 3, 0, 2, 0, 0], THREE_OF_A_KIND_CAT, false), 2 * 3 + 4 * 2);
    assert_eq!(score_roll(&[0, 2, 0, 2, 1, 0], THREE_OF_A_KIND_CAT, false), 0);

    assert_eq!(score_roll(&[0, 5, 0, 0, 0, 0], FOUR_OF_A_KIND_CAT, false), 5 * 2);
    assert_eq!(score_roll(&[0, 4, 0, 1, 0, 0], FOUR_OF_A_KIND_CAT, false), 2 * 4 + 4 * 1);
    assert_eq!(score_roll(&[0, 3, 0, 2, 0, 0], FOUR_OF_A_KIND_CAT, false), 0);

    assert_eq!(score_roll(&[0, 3, 0, 2, 0, 0], FULL_HOUSE_CAT, false), 25);
    assert_eq!(score_roll(&[0, 2, 1, 2, 0, 0], FULL_HOUSE_CAT, false), 0);

    assert_eq!(score_roll(&[1, 1, 1, 1, 1, 0], SML_STRAIGHT_CAT, false), 30);
    assert_eq!(score_roll(&[1, 1, 2, 1, 0, 0], SML_STRAIGHT_CAT, false), 30);
    assert_eq!(score_roll(&[0, 0, 1, 2, 1, 1], SML_STRAIGHT_CAT, false), 30);
    assert_eq!(score_roll(&[0, 1, 2, 1, 1, 0], SML_STRAIGHT_CAT, false), 30);
    assert_eq!(score_roll(&[2, 1, 0, 1, 1, 0], SML_STRAIGHT_CAT, false), 0);

    assert_eq!(score_roll(&[1, 1, 1, 1, 1, 0], LRG_STRAIGHT_CAT, false), 40);
    assert_eq!(score_roll(&[0, 1, 1, 1, 1, 1], LRG_STRAIGHT_CAT, false), 40);
    assert_eq!(score_roll(&[1, 1, 0, 1, 1, 1], LRG_STRAIGHT_CAT, false), 0);

    assert_eq!(score_roll(&[5, 0, 0, 0, 0, 0], YAHTZEE_CAT, false), 50);
    assert_eq!(score_roll(&[5, 0, 0, 0, 0, 0], YAHTZEE_CAT, true), 100);
    assert_eq!(score_roll(&[4, 1, 0, 0, 0, 0], YAHTZEE_CAT, true), 0);

    assert_eq!(score_roll(&[5, 0, 0, 0, 0, 0], CHANCE_CAT, false), 1 * 5);
    assert_eq!(score_roll(&[3, 0, 1, 0, 1, 0], CHANCE_CAT, false), 1 * 3 + 3 * 1 + 5 * 1);
}

#[test]
fn rolls_of_five_dice_are_distinct_ascending_and_complete() {
    let rolls = enumerate_rolls(5);
    for r in &rolls {
        assert_eq!(r.iter().map(|&c| c as u32).sum::<u32>(), 5);
    }
    for w in rolls.windows(2) {
        assert!(w[0] < w[1]);
    }
    assert_eq!(rolls[0], [0, 0, 0, 0, 0, 5]);
    assert_eq!(rolls[251], [5, 0, 0, 0, 0, 0]);
}

#[test]
fn rolls_of_small_counts() {
    assert_eq!(enumerate_rolls(0), vec![[0, 0, 0, 0, 0, 0]]);
    assert_eq!(enumerate_rolls(1).len(), 6);
    assert_eq!(enumerate_rolls(1)[0], [0, 0, 0, 0, 0, 1]);
    assert_eq!(enumerate_rolls(2).len(), 21);
}

#[test]
fn keeps_are_sub_rolls_in_ascending_order() {
    let roll = [1, 0, 2, 0, 1, 1];
    let keeps = enumerate_keeps(&roll);
    assert_eq!(keeps.len(), 2 * 1 * 3 * 1 * 2 * 2);
    assert_eq!(keeps[0], [0, 0, 0, 0, 0, 0]);
    assert_eq!(keeps[keeps.len() - 1], roll);
    for k in &keeps {
        for f in 0..6 {
            assert!(k[f] <= roll[f]);
        }
    }
    for w in keeps.windows(2) {
        assert!(w[0] < w[1]);
    }
    assert_eq!(enumerate_keeps(&[0, 0, 0, 0, 0, 0]), vec![[0, 0, 0, 0, 0, 0]]);
}

#[test]
fn sum_dice_counts_pips() {
    assert_eq!(sum_dice(&[0, 0, 0, 0, 0, 5]), 30);
    assert_eq!(sum_dice(&[1, 1, 1, 1, 1, 0]), 15);
    assert_eq!(sum_dice(&[0, 0, 0, 0, 0, 0]), 0);
}

#[test]
fn straight_length_edges() {
    assert_eq!(get_straight_length(&[0, 0, 0, 0, 0, 0]), 0);
    assert_eq!(get_straight_length(&[1, 1, 1, 1, 1, 1]), 6);
    assert_eq!(get_straight_length(&[1, 0, 1, 1, 0, 1]), 2);
}

#[test]
fn straights_of_six_faces_are_not_large_straights() {
    // All six faces showing is impossible with five dice, but the rule
    // scores a large straight only for exactly five in a row.
    assert_eq!(score_roll(&[1, 1, 1, 1, 1, 1], LRG_STRAIGHT_CAT, false), 0);
    assert_eq!(score_roll(&[1, 1, 1, 1, 1, 1], SML_STRAIGHT_CAT, false), 30);
}

#[test]
fn upper_categories_multiply_count_by_face() {
    assert_eq!(score_roll(&[0, 0, 0, 0, 0, 3], 5, false), 18);
    assert_eq!(score_roll(&[0, 0, 2, 0, 0, 0], 2, true), 6);
    assert_eq!(score_roll(&[0, 0, 0, 4, 0, 0], 3, false), 16);
}
