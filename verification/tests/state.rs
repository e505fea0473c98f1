use yahtzee::state::{
    decode_state, encode_state, next_state, FILLED_CATEGORIES, ONES_CAT, SIXES_CAT, TABLE_SIZE,
    THREES_CAT, YAHTZEE_CAT, CHANCE_CAT,
};

#[test]
fn test_can_encode_and_decode_state() {
    let categories: u16 = 0b000_0100_0010_1011;
    let upper_total: u8 = 23;
    let yahtzee: bool = true;

    let encoded = encode_state(categories, upper_total, yahtzee);

    let (cat_decoded, upp_total_decoded, yahtzee_decoded) = decode_state(encoded);

    assert_eq!(cat_decoded, categories);
    assert_eq!(upp_total_decoded, upper_total);
    assert_eq!(yahtzee_decoded, yahtzee);
}

#[test]
fn test_can_get_next_state() {
    let categories: u16 = 0b000_0100_0010_1010;
    let upper_total: u8 = 23;
    let yahtzee: bool = true;

    // fill all 1s in "1"s category
    let next = next_state(categories, upper_total, yahtzee, &[5, 0, 0, 0, 0, 0], ONES_CAT);

    let (cat_decoded, upp_total_decoded, yahtzee_decoded) = decode_state(next);

    assert_eq!(cat_decoded, 0b000_0100_0010_1011);
    assert_eq!(upp_total_decoded, upper_total + 5);
    assert_eq!(yahtzee_decoded, yahtzee);

    // fill all 1s in "3s" category
    let next2 = next_state(cat_decoded, upp_total_decoded, yahtzee_decoded, &[5, 0, 0, 0, 0, 0], THREES_CAT);
    let (cat_decoded2, upp_total_decoded2, yahtzee_decoded2) = decode_state(next2);

    assert_eq!(cat_decoded2, 0b000_0100_0010_1111);
    assert_eq!(upp_total_decoded2, upp_total_decoded);
    assert_eq!(yahtzee_decoded2, yahtzee);
}

#[test]
fn test_yahtzee_bonus_set_next_state() {
    let categories: u16 = 0b000_0100_0010_1010;
    let upper_total: u8 = 23;
    let yahtzee: bool = false;

    let next = next_state(categories, upper_total, yahtzee, &[5, 0, 0, 0, 0, 0], YAHTZEE_CAT);

    let (cat_decoded, upp_total_decoded, yahtzee_decoded) = decode_state(next);

    assert_eq!(cat_decoded, 0b000_1100_0010_1010);
    assert_eq!(upp_total_decoded, upper_total);
    assert_eq!(yahtzee_decoded, true);
}

#[test]
fn encoding_places_fields_at_their_bits() {
    assert_eq!(encode_state(0, 0, false), 0);
    assert_eq!(encode_state(1, 0, false), 1);
    assert_eq!(encode_state(0, 1, false), 8192);
    assert_eq!(encode_state(0, 0, true), 524288);
    assert_eq!(encode_state(FILLED_CATEGORIES, 63, true), TABLE_SIZE - 1);
}

#[test]
fn every_table_index_round_trips() {
    for idx in [0usize, 1, 8191, 8192, 524287, 524288, TABLE_SIZE - 1] {
        let (c, u, b) = decode_state(idx);
        assert_eq!(encode_state(c, u, b), idx);
    }
}

#[test]
fn upper_total_is_capped_at_63() {
    let next = next_state(0, 60, false, &[0, 0, 0, 0, 0, 5], SIXES_CAT);
    assert_eq!(decode_state(next), (1 << SIXES_CAT, 63, false));
    let next = next_state(0, 63, false, &[0, 0, 0, 0, 0, 5], SIXES_CAT);
    assert_eq!(decode_state(next), (1 << SIXES_CAT, 63, false));
}

#[test]
fn lower_categories_leave_upper_total_alone() {
    let next = next_state(0, 10, false, &[0, 0, 0, 0, 0, 5], CHANCE_CAT);
    assert_eq!(decode_state(next), (1 << CHANCE_CAT, 10, false));
}

#[test]
fn scratching_yahtzee_does_not_set_bonus() {
    let next = next_state(0, 0, false, &[4, 1, 0, 0, 0, 0], YAHTZEE_CAT);
    assert_eq!(decode_state(next), (1 << YAHTZEE_CAT, 0, false));
}

#[test]
fn bonus_is_never_lost() {
    let next = next_state(0, 0, true, &[4, 1, 0, 0, 0, 0], CHANCE_CAT);
    assert_eq!(decode_state(next).2, true);
}
