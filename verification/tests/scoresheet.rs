use yahtzee::scoresheet::{
    parse_categories, to_categories_bitmask, to_upper_total, to_yahtzee_bonus, CategoryScores,
};

fn empty_sheet() -> CategoryScores {
    CategoryScores {
        ones: None,
        twos: None,
        threes: None,
        fours: None,
        fives: None,
        sixes: None,
        three_of_a_kind: None,
        four_of_a_kind: None,
        full_house: None,
        small_straight: None,
        large_straight: None,
        yahtzee: None,
        chance: None,
    }
}

#[test]
fn bitmask_marks_scored_boxes() {
    let mut sheet = empty_sheet();
    assert_eq!(to_categories_bitmask(&sheet), 0);
    sheet.ones = Some(3);
    sheet.full_house = Some(0);
    sheet.chance = Some(22);
    assert_eq!(to_categories_bitmask(&sheet), (1 << 0) | (1 << 8) | (1 << 12));
}

#[test]
fn upper_total_sums_and_caps() {
    let mut sheet = empty_sheet();
    sheet.ones = Some(3);
    sheet.sixes = Some(24);
    sheet.chance = Some(30);
    assert_eq!(to_upper_total(&sheet), 27);
    sheet.fives = Some(25);
    sheet.fours = Some(20);
    assert_eq!(to_upper_total(&sheet), 63);
}

#[test]
fn bonus_needs_a_scored_yahtzee() {
    let mut sheet = empty_sheet();
    assert!(!to_yahtzee_bonus(&sheet));
    sheet.yahtzee = Some(0);
    assert!(!to_yahtzee_bonus(&sheet));
    sheet.yahtzee = Some(50);
    assert!(to_yahtzee_bonus(&sheet));
}

#[test]
fn front_end_sheet_is_parsed() {
    let entries = vec![
        ("ones".to_string(), Some(3)),
        ("twos".to_string(), None),
        ("sixes".to_string(), Some(18)),
        ("yahtzee".to_string(), Some(50)),
        ("chance".to_string(), Some(21)),
        ("nonsense".to_string(), Some(99)),
    ];
    let (mask, upper, bonus) = parse_categories(&entries);
    assert_eq!(mask, (1 << 0) | (1 << 5) | (1 << 11) | (1 << 12));
    assert_eq!(upper, 21);
    assert!(bonus);
}

#[test]
fn front_end_sheet_caps_and_scratches() {
    let entries = vec![
        ("fives".to_string(), Some(25)),
        ("sixes".to_string(), Some(30)),
        ("fours".to_string(), Some(20)),
        ("yahtzee".to_string(), Some(0)),
    ];
    let (mask, upper, bonus) = parse_categories(&entries);
    assert_eq!(mask, (1 << 3) | (1 << 4) | (1 << 5) | (1 << 11));
    assert_eq!(upper, 63);
    assert!(!bonus);
}
