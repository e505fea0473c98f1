use yahtzee::names::{category_name, idx_to_name, name_to_idx, same_text};

#[test]
fn server_names() {
    assert_eq!(category_name(0), "ones");
    assert_eq!(category_name(6), "three_of_a_kind");
    assert_eq!(category_name(9), "small_straight");
    assert_eq!(category_name(12), "chance");
}

#[test]
fn front_end_names_round_trip() {
    for idx in 0u8..13 {
        assert_eq!(name_to_idx(idx_to_name(idx)), Some(idx));
    }
    assert_eq!(idx_to_name(7), "fourOfAKind");
}

#[test]
fn unknown_names_are_rejected() {
    assert_eq!(name_to_idx("three_of_a_kind"), None);
    assert_eq!(name_to_idx(""), None);
    assert_eq!(name_to_idx("Ones"), None);
    assert_eq!(name_to_idx("onesx"), None);
}

#[test]
fn text_comparison() {
    assert!(same_text("yahtzee", "yahtzee"));
    assert!(!same_text("yahtzee", "yahtze"));
    assert!(!same_text("ab", "ba"));
    assert!(same_text("", ""));
}
