use yahtzee::rolls::{enumerate_keeps, enumerate_rolls, score_roll};
use yahtzee::state::{encode_state, FILLED_CATEGORIES};
use yahtzee::tables::{
    count_dice, count_filled, open_categories, reachable_rolls, reroll_counts, roll_index,
    same_roll, score_table, stage_states, terminal_values, upper_bonus, Advice,
};

#[test]
fn rolls_are_found_by_index() {
    let rolls = enumerate_rolls(5);
    assert_eq!(roll_index(&rolls, &[0, 0, 0, 0, 0, 5]), Some(0));
    assert_eq!(roll_index(&rolls, &[5, 0, 0, 0, 0, 0]), Some(251));
    assert_eq!(roll_index(&rolls, &[1, 0, 0, 0, 0, 0]), None);
    let idx = roll_index(&rolls, &[1, 1, 1, 1, 1, 0]).unwrap();
    assert_eq!(rolls[idx], [1, 1, 1, 1, 1, 0]);
}

#[test]
fn rolls_compare_face_by_face() {
    assert!(same_roll(&[1, 2, 0, 0, 2, 0], &[1, 2, 0, 0, 2, 0]));
    assert!(!same_roll(&[1, 2, 0, 0, 2, 0], &[1, 2, 0, 0, 0, 2]));
}

#[test]
fn rerolled_dice_make_up_the_difference() {
    assert_eq!(reroll_counts(&[0, 0, 0, 0, 0, 0], &[5, 0, 0, 0, 0, 0]), Some([5, 0, 0, 0, 0, 0]));
    assert_eq!(reroll_counts(&[4, 0, 0, 0, 0, 0], &[5, 0, 0, 0, 0, 0]), Some([1, 0, 0, 0, 0, 0]));
    assert_eq!(reroll_counts(&[5, 0, 0, 0, 0, 0], &[0, 5, 0, 0, 0, 0]), None);
    assert_eq!(count_dice(&[1, 0, 2, 0, 0, 1]), 4);
}

#[test]
fn reachable_rolls_contain_the_keep() {
    let rolls = enumerate_rolls(5);
    let all = reachable_rolls(&[0, 0, 0, 0, 0, 0], &rolls);
    assert_eq!(all.len(), 252);
    let one = reachable_rolls(&[5, 0, 0, 0, 0, 0], &rolls);
    assert_eq!(one, vec![251]);
    let four_ones = reachable_rolls(&[4, 0, 0, 0, 0, 0], &rolls);
    assert_eq!(four_ones.len(), 6);
    for t in four_ones {
        assert!(rolls[t][0] >= 4);
    }
}

#[test]
fn score_table_matches_score_roll() {
    let rolls = enumerate_rolls(5);
    let table = score_table(&rolls);
    assert_eq!(table.len(), rolls.len());
    for (i, roll) in rolls.iter().enumerate() {
        for c in 0u8..13 {
            assert_eq!(table[i][0][c as usize], score_roll(roll, c, false));
            assert_eq!(table[i][1][c as usize], score_roll(roll, c, true));
        }
    }
    assert_eq!(table[251][1][11], 100);
}

#[test]
fn open_categories_are_the_clear_bits() {
    assert_eq!(open_categories(0).len(), 13);
    assert_eq!(open_categories(FILLED_CATEGORIES), Vec::<u8>::new());
    assert_eq!(open_categories(FILLED_CATEGORIES & !(1 << 4) & !(1 << 11)), vec![4, 11]);
}

#[test]
fn filled_categories_are_counted() {
    assert_eq!(count_filled(0), 0);
    assert_eq!(count_filled(FILLED_CATEGORIES), 13);
    assert_eq!(count_filled(0b1010_0000_0001), 3);
}

#[test]
fn stages_list_every_state_once() {
    let last = stage_states(13);
    assert_eq!(last.len(), 128);
    assert!(last.iter().all(|s| s.0 == FILLED_CATEGORIES));
    let first = stage_states(0);
    assert_eq!(first.len(), 128);
    assert_eq!(first[0], (0, 0, false));
    assert_eq!(first[1], (0, 0, true));
    assert_eq!(first[127], (0, 63, true));
    assert_eq!(stage_states(1).len(), 13 * 128);
    assert_eq!(stage_states(14).len(), 0);
}

#[test]
fn end_of_game_values_carry_the_upper_bonus() {
    assert_eq!(upper_bonus(62), 0);
    assert_eq!(upper_bonus(63), 35);
    let values = terminal_values();
    assert_eq!(values.len(), 128);
    assert_eq!(values[0], (encode_state(FILLED_CATEGORIES, 0, false), 0));
    assert_eq!(values[127], (encode_state(FILLED_CATEGORIES, 63, true), 35));
    assert_eq!(values[2 * 62 + 1], (encode_state(FILLED_CATEGORIES, 62, true), 0));
}

#[test]
fn keeps_of_a_roll_index_targets() {
    let rolls = enumerate_rolls(5);
    let keeps = enumerate_keeps(&rolls[0]);
    assert_eq!(keeps.len(), 6);
    let advice = Advice::KeepDice(keeps[5]);
    match advice {
        Advice::KeepDice(k) => assert_eq!(k, [0, 0, 0, 0, 0, 5]),
        Advice::FillCategory(_) => panic!("wrong advice"),
    }
}
