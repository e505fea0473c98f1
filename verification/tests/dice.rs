use yahtzee::dice::{bools_to_roll, dice_to_roll, roll_to_bools, roll_to_dice};

#[test]
fn dice_are_counted_by_face() {
    assert_eq!(dice_to_roll(&[2, 3, 1, 1, 2]), [2, 2, 1, 0, 0, 0]);
    assert_eq!(dice_to_roll(&[6, 6, 6, 6, 6]), [0, 0, 0, 0, 0, 5]);
}

#[test]
fn rolls_list_their_faces_in_order() {
    assert_eq!(roll_to_dice(&[2, 2, 1, 0, 0, 0]), vec![1, 1, 2, 2, 3]);
    assert_eq!(roll_to_dice(&[0, 0, 0, 0, 0, 0]), Vec::<u8>::new());
    assert_eq!(roll_to_dice(&[0, 1, 0, 0, 0, 2]), vec![2, 6, 6]);
}

#[test]
fn listing_and_counting_round_trip() {
    let roll = [1, 0, 2, 0, 1, 1];
    let dice = roll_to_dice(&roll);
    let dice: [u8; 5] = [dice[0], dice[1], dice[2], dice[3], dice[4]];
    assert_eq!(dice_to_roll(&dice), roll);
}

#[test]
fn keeps_mark_the_earliest_dice() {
    let dice = [2, 3, 2, 1, 2];
    assert_eq!(roll_to_bools(&dice, &[0, 2, 0, 0, 0, 0]), [true, false, true, false, false]);
    assert_eq!(roll_to_bools(&dice, &[1, 0, 1, 0, 0, 0]), [false, true, false, true, false]);
    assert_eq!(roll_to_bools(&dice, &[0, 0, 0, 0, 0, 0]), [false; 5]);
}

#[test]
fn marked_dice_make_up_the_keep() {
    let dice = [5, 5, 1, 5, 3];
    let keep = [1, 0, 0, 0, 2, 0];
    let marks = roll_to_bools(&dice, &keep);
    assert_eq!(bools_to_roll(&dice, &marks), keep);
    assert_eq!(bools_to_roll(&dice, &[true; 5]), dice_to_roll(&dice));
    assert_eq!(bools_to_roll(&dice, &[false, false, false, true, true]), [0, 0, 1, 0, 1, 0]);
}
