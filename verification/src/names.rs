use vstd::prelude::*;

verus! {

/// Name of a category as the advice server reports it.
pub open spec fn server_label(cat: int) -> Seq<char> {
    if cat == 0 {
        "ones"@
    } else if cat == 1 {
        "twos"@
    } else if cat == 2 {
        "threes"@
    } else if cat == 3 {
        "fours"@
    } else if cat == 4 {
        "fives"@
    } else if cat == 5 {
        "sixes"@
    } else if cat == 6 {
        "three_of_a_kind"@
    } else if cat == 7 {
        "four_of_a_kind"@
    } else if cat == 8 {
        "full_house"@
    } else if cat == 9 {
        "small_straight"@
    } else if cat == 10 {
        "large_straight"@
    } else if cat == 11 {
        "yahtzee"@
    } else {
        "chance"@
    }
}

/// Name of the category with index `cat` (0 = ones ... 12 = chance), as
/// the advice server reports it.
pub fn category_name(cat: u8) -> (name: &'static str)
    requires
        cat < 13,
    ensures
        name@ == server_label(cat as int),
        name@ == snake_case(ui_label(cat as int)),
{
    proof {
        lemma_server_names_match_ui_names(cat);
    }
    if cat == 0 {
        "ones"
    } else if cat == 1 {
        "twos"
    } else if cat == 2 {
        "threes"
    } else if cat == 3 {
        "fours"
    } else if cat == 4 {
        "fives"
    } else if cat == 5 {
        "sixes"
    } else if cat == 6 {
        "three_of_a_kind"
    } else if cat == 7 {
        "four_of_a_kind"
    } else if cat == 8 {
        "full_house"
    } else if cat == 9 {
        "small_straight"
    } else if cat == 10 {
        "large_straight"
    } else if cat == 11 {
        "yahtzee"
    } else {
        "chance"
    }
}

/// Name of a category as the browser front end spells it.
pub open spec fn ui_label(cat: int) -> Seq<char> {
    if cat == 0 {
        "ones"@
    } else if cat == 1 {
        "twos"@
    } else if cat == 2 {
        "threes"@
    } else if cat == 3 {
        "fours"@
    } else if cat == 4 {
        "fives"@
    } else if cat == 5 {
        "sixes"@
    } else if cat == 6 {
        "threeOfAKind"@
    } else if cat == 7 {
        "fourOfAKind"@
    } else if cat == 8 {
        "fullHouse"@
    } else if cat == 9 {
        "smallStraight"@
    } else if cat == 10 {
        "largeStraight"@
    } else if cat == 11 {
        "yahtzee"@
    } else {
        "chance"@
    }
}

/// The category a front-end name stands for, if any.
pub open spec fn ui_index(name: Seq<char>) -> Option<u8> {
    if name == "ones"@ {
        Some(0u8)
    } else if name == "twos"@ {
        Some(1u8)
    } else if name == "threes"@ {
        Some(2u8)
    } else if name == "fours"@ {
        Some(3u8)
    } else if name == "fives"@ {
        Some(4u8)
    } else if name == "sixes"@ {
        Some(5u8)
    } else if name == "threeOfAKind"@ {
        Some(6u8)
    } else if name == "fourOfAKind"@ {
        Some(7u8)
    } else if name == "fullHouse"@ {
        Some(8u8)
    } else if name == "smallStraight"@ {
        Some(9u8)
    } else if name == "largeStraight"@ {
        Some(10u8)
    } else if name == "yahtzee"@ {
        Some(11u8)
    } else if name == "chance"@ {
        Some(12u8)
    } else {
        None
    }
}

/// Whether two strings hold the same characters.
pub fn same_text(a: &str, b: &str) -> (same: bool)
    ensures
        same == (a@ == b@),
{
    let n: usize = a.unicode_len();
    let m: usize = b.unicode_len();
    if n != m {
        return false;
    }
    let mut i: usize = 0;
    while i < n
        invariant
            n == a@.len(),
            m == b@.len(),
            n == m,
            i <= n,
            forall|j: int| 0 <= j < i ==> a@[j] == b@[j],
        decreases n - i,
    {
        if a.get_char(i) != b.get_char(i) {
            return false;
        }
        i = i + 1;
    }
    assert(a@ =~= b@);
    true
}

/// The category index of a front-end category name.
pub fn name_to_idx(name: &str) -> (idx: Option<u8>)
    ensures
        idx == ui_index(name@),
{
    if same_text(name, "ones") {
        Some(0)
    } else if same_text(name, "twos") {
        Some(1)
    } else if same_text(name, "threes") {
        Some(2)
    } else if same_text(name, "fours") {
        Some(3)
    } else if same_text(name, "fives") {
        Some(4)
    } else if same_text(name, "sixes") {
        Some(5)
    } else if same_text(name, "threeOfAKind") {
        Some(6)
    } else if same_text(name, "fourOfAKind") {
        Some(7)
    } else if same_text(name, "fullHouse") {
        Some(8)
    } else if same_text(name, "smallStraight") {
        Some(9)
    } else if same_text(name, "largeStraight") {
        Some(10)
    } else if same_text(name, "yahtzee") {
        Some(11)
    } else if same_text(name, "chance") {
        Some(12)
    } else {
        None
    }
}

/// The front-end name of the category with index `idx`.
pub fn idx_to_name(idx: u8) -> (name: &'static str)
    requires
        idx < 13,
    ensures
        name@ == ui_label(idx as int),
{
    if idx == 0 {
        "ones"
    } else if idx == 1 {
        "twos"
    } else if idx == 2 {
        "threes"
    } else if idx == 3 {
        "fours"
    } else if idx == 4 {
        "fives"
    } else if idx == 5 {
        "sixes"
    } else if idx == 6 {
        "threeOfAKind"
    } else if idx == 7 {
        "fourOfAKind"
    } else if idx == 8 {
        "fullHouse"
    } else if idx == 9 {
        "smallStraight"
    } else if idx == 10 {
        "largeStraight"
    } else if idx == 11 {
        "yahtzee"
    } else {
        "chance"
    }
}

/// Reading back the front-end name of a category gives that category.
pub proof fn lemma_ui_name_round_trip(cat: u8)
    requires
        cat < 13,
    ensures
        ui_index(ui_label(cat as int)) == Some(cat),
{
    reveal_strlit("ones");
    reveal_strlit("twos");
    reveal_strlit("threes");
    reveal_strlit("fours");
    reveal_strlit("fives");
    reveal_strlit("sixes");
    reveal_strlit("threeOfAKind");
    reveal_strlit("fourOfAKind");
    reveal_strlit("fullHouse");
    reveal_strlit("smallStraight");
    reveal_strlit("largeStraight");
    reveal_strlit("yahtzee");
    reveal_strlit("chance");
    if cat == 0 {
    } else if cat == 1 {
        assert("twos"@[0] != "ones"@[0]);
    } else if cat == 2 {
        assert("threes"@.len() != "ones"@.len());
        assert("threes"@.len() != "twos"@.len());
    } else if cat == 3 {
        assert("fours"@.len() != "ones"@.len());
        assert("fours"@.len() != "twos"@.len());
        assert("fours"@.len() != "threes"@.len());
    } else if cat == 4 {
        assert("fives"@.len() != "ones"@.len());
        assert("fives"@.len() != "twos"@.len());
        assert("fives"@.len() != "threes"@.len());
        assert("fives"@[1] != "fours"@[1]);
    } else if cat == 5 {
        assert("sixes"@.len() != "ones"@.len());
        assert("sixes"@.len() != "twos"@.len());
        assert("sixes"@.len() != "threes"@.len());
        assert("sixes"@[0] != "fours"@[0]);
        assert("sixes"@[0] != "fives"@[0]);
    } else if cat == 6 {
        assert("threeOfAKind"@.len() != "ones"@.len());
        assert("threeOfAKind"@.len() != "twos"@.len());
        assert("threeOfAKind"@.len() != "threes"@.len());
        assert("threeOfAKind"@.len() != "fours"@.len());
        assert("threeOfAKind"@.len() != "fives"@.len());
        assert("threeOfAKind"@.len() != "sixes"@.len());
    } else if cat == 7 {
        assert("fourOfAKind"@.len() != "ones"@.len());
        assert("fourOfAKind"@.len() != "twos"@.len());
        assert("fourOfAKind"@.len() != "threes"@.len());
        assert("fourOfAKind"@.len() != "fours"@.len());
        assert("fourOfAKind"@.len() != "fives"@.len());
        assert("fourOfAKind"@.len() != "sixes"@.len());
        assert("fourOfAKind"@.len() != "threeOfAKind"@.len());
    } else if cat == 8 {
        assert("fullHouse"@.len() != "ones"@.len());
        assert("fullHouse"@.len() != "twos"@.len());
        assert("fullHouse"@.len() != "threes"@.len());
        assert("fullHouse"@.len() != "fours"@.len());
        assert("fullHouse"@.len() != "fives"@.len());
        assert("fullHouse"@.len() != "sixes"@.len());
        assert("fullHouse"@.len() != "threeOfAKind"@.len());
        assert("fullHouse"@.len() != "fourOfAKind"@.len());
    } else if cat == 9 {
        assert("smallStraight"@.len() != "ones"@.len());
        assert("smallStraight"@.len() != "twos"@.len());
        assert("smallStraight"@.len() != "threes"@.len());
        assert("smallStraight"@.len() != "fours"@.len());
        assert("smallStraight"@.len() != "fives"@.len());
        assert("smallStraight"@.len() != "sixes"@.len());
        assert("smallStraight"@.len() != "threeOfAKind"@.len());
        assert("smallStraight"@.len() != "fourOfAKind"@.len());
        assert("smallStraight"@.len() != "fullHouse"@.len());
    } else if cat == 10 {
        assert("largeStraight"@.len() != "ones"@.len());
        assert("largeStraight"@.len() != "twos"@.len());
        assert("largeStraight"@.len() != "threes"@.len());
        assert("largeStraight"@.len() != "fours"@.len());
        assert("largeStraight"@.len() != "fives"@.len());
        assert("largeStraight"@.len() != "sixes"@.len());
        assert("largeStraight"@.len() != "threeOfAKind"@.len());
        assert("largeStraight"@.len() != "fourOfAKind"@.len());
        assert("largeStraight"@.len() != "fullHouse"@.len());
        assert("largeStraight"@[0] != "smallStraight"@[0]);
    } else if cat == 11 {
        assert("yahtzee"@.len() != "ones"@.len());
        assert("yahtzee"@.len() != "twos"@.len());
        assert("yahtzee"@.len() != "threes"@.len());
        assert("yahtzee"@.len() != "fours"@.len());
        assert("yahtzee"@.len() != "fives"@.len());
        assert("yahtzee"@.len() != "sixes"@.len());
        assert("yahtzee"@.len() != "threeOfAKind"@.len());
        assert("yahtzee"@.len() != "fourOfAKind"@.len());
        assert("yahtzee"@.len() != "fullHouse"@.len());
        assert("yahtzee"@.len() != "smallStraight"@.len());
        assert("yahtzee"@.len() != "largeStraight"@.len());
    } else if cat == 12 {
        assert("chance"@.len() != "ones"@.len());
        assert("chance"@.len() != "twos"@.len());
        assert("chance"@[0] != "threes"@[0]);
        assert("chance"@.len() != "fours"@.len());
        assert("chance"@.len() != "fives"@.len());
        assert("chance"@.len() != "sixes"@.len());
        assert("chance"@.len() != "threeOfAKind"@.len());
        assert("chance"@.len() != "fourOfAKind"@.len());
        assert("chance"@.len() != "fullHouse"@.len());
        assert("chance"@.len() != "smallStraight"@.len());
        assert("chance"@.len() != "largeStraight"@.len());
        assert("chance"@.len() != "yahtzee"@.len());
    }
}


/// The name with each uppercase ASCII letter replaced by an underscore and
/// the lowercase letter: camelCase spelled as snake_case.
pub open spec fn snake_case(name: Seq<char>) -> Seq<char>
    decreases name.len(),
{
    if name.len() == 0 {
        Seq::empty()
    } else {
        let c = name[0];
        let head = if 65 <= (c as int) <= 90 {
            seq!['_', ((c as int) + 32) as char]
        } else {
            seq![c]
        };
        head + snake_case(name.drop_first())
    }
}

proof fn lemma_snake_name_0()
    ensures
        snake_case("ones"@) == "ones"@,
{
    reveal_with_fuel(snake_case, 5);
    reveal_strlit("ones");
    assert(snake_case("ones"@) =~= "ones"@);
}

proof fn lemma_snake_name_1()
    ensures
        snake_case("twos"@) == "twos"@,
{
    reveal_with_fuel(snake_case, 5);
    reveal_strlit("twos");
    assert(snake_case("twos"@) =~= "twos"@);
}

proof fn lemma_snake_name_2()
    ensures
        snake_case("threes"@) == "threes"@,
{
    reveal_with_fuel(snake_case, 7);
    reveal_strlit("threes");
    assert(snake_case("threes"@) =~= "threes"@);
}

proof fn lemma_snake_name_3()
    ensures
        snake_case("fours"@) == "fours"@,
{
    reveal_with_fuel(snake_case, 6);
    reveal_strlit("fours");
    assert(snake_case("fours"@) =~= "fours"@);
}

proof fn lemma_snake_name_4()
    ensures
        snake_case("fives"@) == "fives"@,
{
    reveal_with_fuel(snake_case, 6);
    reveal_strlit("fives");
    assert(snake_case("fives"@) =~= "fives"@);
}

proof fn lemma_snake_name_5()
    ensures
        snake_case("sixes"@) == "sixes"@,
{
    reveal_with_fuel(snake_case, 6);
    reveal_strlit("sixes");
    assert(snake_case("sixes"@) =~= "sixes"@);
}

proof fn lemma_snake_name_6()
    ensures
        snake_case("threeOfAKind"@) == "three_of_a_kind"@,
{
    reveal_with_fuel(snake_case, 13);
    reveal_strlit("threeOfAKind");
    reveal_strlit("three_of_a_kind");
    assert(snake_case("threeOfAKind"@) =~= "three_of_a_kind"@);
}

proof fn lemma_snake_name_7()
    ensures
        snake_case("fourOfAKind"@) == "four_of_a_kind"@,
{
    reveal_with_fuel(snake_case, 12);
    reveal_strlit("fourOfAKind");
    reveal_strlit("four_of_a_kind");
    assert(snake_case("fourOfAKind"@) =~= "four_of_a_kind"@);
}

proof fn lemma_snake_name_8()
    ensures
        snake_case("fullHouse"@) == "full_house"@,
{
    reveal_with_fuel(snake_case, 10);
    reveal_strlit("fullHouse");
    reveal_strlit("full_house");
    assert(snake_case("fullHouse"@) =~= "full_house"@);
}

proof fn lemma_snake_name_9()
    ensures
        snake_case("smallStraight"@) == "small_straight"@,
{
    reveal_with_fuel(snake_case, 14);
    reveal_strlit("smallStraight");
    reveal_strlit("small_straight");
    assert(snake_case("smallStraight"@) =~= "small_straight"@);
}

proof fn lemma_snake_name_10()
    ensures
        snake_case("largeStraight"@) == "large_straight"@,
{
    reveal_with_fuel(snake_case, 14);
    reveal_strlit("largeStraight");
    reveal_strlit("large_straight");
    assert(snake_case("largeStraight"@) =~= "large_straight"@);
}

proof fn lemma_snake_name_11()
    ensures
        snake_case("yahtzee"@) == "yahtzee"@,
{
    reveal_with_fuel(snake_case, 8);
    reveal_strlit("yahtzee");
    assert(snake_case("yahtzee"@) =~= "yahtzee"@);
}

proof fn lemma_snake_name_12()
    ensures
        snake_case("chance"@) == "chance"@,
{
    reveal_with_fuel(snake_case, 7);
    reveal_strlit("chance");
    assert(snake_case("chance"@) =~= "chance"@);
}

/// The server and the browser name every category alike, up to the
/// spelling: each server name is the snake_case form of the browser's
/// camelCase name.
pub proof fn lemma_server_names_match_ui_names(cat: u8)
    requires
        cat < 13,
    ensures
        server_label(cat as int) == snake_case(ui_label(cat as int)),
{
    if cat == 0 {
        lemma_snake_name_0();
    } else if cat == 1 {
        lemma_snake_name_1();
    } else if cat == 2 {
        lemma_snake_name_2();
    } else if cat == 3 {
        lemma_snake_name_3();
    } else if cat == 4 {
        lemma_snake_name_4();
    } else if cat == 5 {
        lemma_snake_name_5();
    } else if cat == 6 {
        lemma_snake_name_6();
    } else if cat == 7 {
        lemma_snake_name_7();
    } else if cat == 8 {
        lemma_snake_name_8();
    } else if cat == 9 {
        lemma_snake_name_9();
    } else if cat == 10 {
        lemma_snake_name_10();
    } else if cat == 11 {
        lemma_snake_name_11();
    } else if cat == 12 {
        lemma_snake_name_12();
    }
}

} // verus!
