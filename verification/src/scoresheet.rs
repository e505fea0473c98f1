use vstd::prelude::*;

use crate::names::{name_to_idx, ui_index};
use crate::state::{is_filled, lemma_set_bit};

verus! {

/// The score written in each category of a score sheet; `None` where the
/// category is still open. For the Yahtzee box, `Some(50)` means scored
/// (future Yahtzees earn the bonus) and `Some(0)` means scratched.
pub struct CategoryScores {
    pub ones: Option<u32>,
    pub twos: Option<u32>,
    pub threes: Option<u32>,
    pub fours: Option<u32>,
    pub fives: Option<u32>,
    pub sixes: Option<u32>,
    pub three_of_a_kind: Option<u32>,
    pub four_of_a_kind: Option<u32>,
    pub full_house: Option<u32>,
    pub small_straight: Option<u32>,
    pub large_straight: Option<u32>,
    pub yahtzee: Option<u32>,
    pub chance: Option<u32>,
}

impl CategoryScores {
    /// The thirteen boxes in category order (0 = ones ... 12 = chance).
    pub open spec fn boxes(&self) -> Seq<Option<u32>> {
        seq![
            self.ones,
            self.twos,
            self.threes,
            self.fours,
            self.fives,
            self.sixes,
            self.three_of_a_kind,
            self.four_of_a_kind,
            self.full_house,
            self.small_straight,
            self.large_straight,
            self.yahtzee,
            self.chance,
        ]
    }

    /// Sum of the upper-section boxes, an open box counting as zero.
    pub open spec fn upper_sum(&self) -> int {
        score_or_zero(self.ones) + score_or_zero(self.twos) + score_or_zero(self.threes)
            + score_or_zero(self.fours) + score_or_zero(self.fives) + score_or_zero(self.sixes)
    }
}

/// Sum of the scores in a run of boxes, open boxes counting as zero.
pub open spec fn sum_scores(boxes: Seq<Option<u32>>) -> int
    decreases boxes.len(),
{
    if boxes.len() == 0 {
        0
    } else {
        sum_scores(boxes.drop_last()) + score_or_zero(boxes.last())
    }
}

/// The upper sum counts every one of the six upper boxes (ones to sixes)
/// and no other box.
pub proof fn lemma_upper_sum_counts_upper_boxes(c: &CategoryScores)
    ensures
        c.upper_sum() == sum_scores(c.boxes().subrange(0, 6)),
{
    let b = c.boxes();
    assert(b.subrange(0, 6).drop_last() =~= b.subrange(0, 5));
    assert(b.subrange(0, 5).drop_last() =~= b.subrange(0, 4));
    assert(b.subrange(0, 4).drop_last() =~= b.subrange(0, 3));
    assert(b.subrange(0, 3).drop_last() =~= b.subrange(0, 2));
    assert(b.subrange(0, 2).drop_last() =~= b.subrange(0, 1));
    assert(b.subrange(0, 1).drop_last() =~= b.subrange(0, 0));
    reveal_with_fuel(sum_scores, 7);
}

/// A box's score, or zero while it is open.
pub open spec fn score_or_zero(score: Option<u32>) -> int {
    match score {
        Some(v) => v as int,
        None => 0,
    }
}

/// The upper total as the solver tracks it: capped at 63.
pub open spec fn capped_upper(sum: int) -> int {
    if sum < 63 {
        sum
    } else {
        63
    }
}

fn unwrap_or_zero(score: Option<u32>) -> (v: u32)
    ensures
        v == score_or_zero(score),
{
    match score {
        Some(v) => v,
        None => 0,
    }
}

/// Bitmask of the categories that hold a score.
pub fn to_categories_bitmask(c: &CategoryScores) -> (mask: u16)
    ensures
        mask < 8192,
        forall|k: u8| k < 13 ==> (is_filled(mask, k) <==> c.boxes()[k as int] is Some),
        forall|k: u8| 13 <= k < 16 ==> !is_filled(mask, k),
{
    let filled: [Option<u32>; 13] = [
        c.ones,
        c.twos,
        c.threes,
        c.fours,
        c.fives,
        c.sixes,
        c.three_of_a_kind,
        c.four_of_a_kind,
        c.full_house,
        c.small_straight,
        c.large_straight,
        c.yahtzee,
        c.chance,
    ];
    assert(filled@ =~= c.boxes());
    let mut mask: u16 = 0;
    let mut i: u8 = 0;
    proof {
        assert forall|k: u8| k < 16 implies !is_filled(0u16, k) by {
            assert(k < 16 ==> 0u16 & (1u16 << k) == 0) by (bit_vector);
        }
    }
    while i < 13
        invariant
            i <= 13,
            filled@ == c.boxes(),
            mask < 8192,
            forall|k: u8| k < i ==> (is_filled(mask, k) <==> filled@[k as int] is Some),
            forall|k: u8| i <= k < 16 ==> !is_filled(mask, k),
        decreases 13 - i,
    {
        let ghost before = mask;
        proof {
            lemma_set_bit(mask, i, 0);
        }
        if filled[i as usize].is_some() {
            mask = mask | (1u16 << i);
        }
        assert forall|k: u8| k < 16 implies (k < i + 1 ==> (is_filled(mask, k)
            <==> filled@[k as int] is Some)) && (k >= i + 1 ==> !is_filled(mask, k)) by {
            if filled@[i as int] is Some {
                lemma_set_bit(before, i, k);
            } else {
                assert(mask == before);
            }
        }
        i = i + 1;
    }
    mask
}

/// The upper-section total, capped at 63.
pub fn to_upper_total(c: &CategoryScores) -> (total: u8)
    requires
        c.upper_sum() <= u32::MAX,
    ensures
        total == capped_upper(c.upper_sum()),
        total == capped_upper(sum_scores(c.boxes().subrange(0, 6))),
{
    proof {
        lemma_upper_sum_counts_upper_boxes(c);
    }
    let sum: u32 = unwrap_or_zero(c.ones) + unwrap_or_zero(c.twos) + unwrap_or_zero(c.threes)
        + unwrap_or_zero(c.fours) + unwrap_or_zero(c.fives) + unwrap_or_zero(c.sixes);
    if sum < 63 {
        sum as u8
    } else {
        63
    }
}

/// The Yahtzee bonus is on when the Yahtzee box was scored with 50 (not
/// scratched).
pub fn to_yahtzee_bonus(c: &CategoryScores) -> (bonus: bool)
    ensures
        bonus == (c.yahtzee == Some(50u32)),
{
    match c.yahtzee {
        Some(v) => v == 50,
        None => false,
    }
}


/// What an entry of a front-end score sheet adds to the upper total: its
/// score when it names an upper-section category, else nothing.
pub open spec fn upper_part(name: Seq<char>, score: Option<u32>) -> int {
    match ui_index(name) {
        Some(k) => if k <= 5 {
            score_or_zero(score)
        } else {
            0
        },
        None => 0,
    }
}

/// Sum of the upper-section scores among the first `n` entries.
pub open spec fn entries_upper_sum(entries: Seq<(String, Option<u32>)>, n: int) -> int
    decreases n,
{
    if n <= 0 {
        0
    } else {
        entries_upper_sum(entries, n - 1) + upper_part(entries[n - 1].0@, entries[n - 1].1)
    }
}

/// Some entry names category `k` and holds a score.
pub open spec fn entry_fills(entries: Seq<(String, Option<u32>)>, k: u8) -> bool {
    exists|i: int| 0 <= i < entries.len() && ui_index(entries[i].0@) == Some(k) && entries[i].1 is Some
}

/// Some entry names the Yahtzee category with a score of 50.
pub open spec fn entries_bonus(entries: Seq<(String, Option<u32>)>) -> bool {
    exists|i: int|
        0 <= i < entries.len() && ui_index(entries[i].0@) == Some(11u8) && entries[i].1 == Some(
            50u32,
        )
}

proof fn lemma_entries_upper_sum_monotone(entries: Seq<(String, Option<u32>)>, j: int, n: int)
    requires
        j <= n,
    ensures
        entries_upper_sum(entries, j) <= entries_upper_sum(entries, n),
    decreases n - j,
{
    if j < n {
        lemma_entries_upper_sum_monotone(entries, j, n - 1);
        assert(upper_part(entries[n - 1].0@, entries[n - 1].1) >= 0);
    }
}

/// Read a front-end score sheet, given as (category name, score) entries:
/// the bitmask of filled categories, the capped upper total and the bonus
/// flag. Entries whose name is not a category are ignored.
pub fn parse_categories(entries: &Vec<(String, Option<u32>)>) -> (parsed: (u16, u8, bool))
    requires
        entries_upper_sum(entries@, entries@.len() as int) <= u32::MAX,
    ensures
        parsed.0 < 8192,
        forall|k: u8| k < 13 ==> (is_filled(parsed.0, k) <==> entry_fills(entries@, k)),
        parsed.1 == capped_upper(entries_upper_sum(entries@, entries@.len() as int)),
        parsed.2 == entries_bonus(entries@),
{
    let mut bitmask: u16 = 0;
    let mut upper_sum: u32 = 0;
    let mut yahtzee_bonus: bool = false;
    let mut i: usize = 0;
    proof {
        assert forall|k: u8| k < 16 implies !is_filled(0u16, k) by {
            assert(k < 16 ==> 0u16 & (1u16 << k) == 0) by (bit_vector);
        }
    }
    while i < entries.len()
        invariant
            i <= entries@.len(),
            entries_upper_sum(entries@, entries@.len() as int) <= u32::MAX,
            bitmask < 8192,
            forall|k: u8|
                k < 13 ==> (is_filled(bitmask, k) <==> exists|j: int|
                    0 <= j < i && ui_index(entries@[j].0@) == Some(k) && entries@[j].1 is Some),
            forall|k: u8| 13 <= k < 16 ==> !is_filled(bitmask, k),
            upper_sum == entries_upper_sum(entries@, i as int),
            yahtzee_bonus == exists|j: int|
                0 <= j < i && ui_index(entries@[j].0@) == Some(11u8) && entries@[j].1 == Some(
                    50u32,
                ),
        decreases entries@.len() - i,
    {
        let name: &String = &entries[i].0;
        let score: Option<u32> = entries[i].1;
        let ghost before = bitmask;
        proof {
            lemma_entries_upper_sum_monotone(entries@, i + 1, entries@.len() as int);
        }
        match name_to_idx(name.as_str()) {
            Some(idx) => {
                proof {
                    lemma_set_bit(before, idx, 0);
                }
                if score.is_some() {
                    bitmask = bitmask | (1u16 << idx);
                }
                if idx <= 5 {
                    upper_sum = upper_sum + unwrap_or_zero(score);
                }
                if idx == 11 {
                    match score {
                        Some(v) => {
                            if v == 50 {
                                yahtzee_bonus = true;
                            }
                        },
                        None => {},
                    }
                }
                assert forall|k: u8| k < 16 implies (k < 13 ==> (is_filled(bitmask, k) <==> exists|j: int|
                    0 <= j < i + 1 && ui_index(entries@[j].0@) == Some(k) && entries@[j].1 is Some))
                    && (13 <= k ==> !is_filled(bitmask, k)) by {
                    lemma_set_bit(before, idx, k);
                    if k == idx && score is Some {
                        assert(ui_index(entries@[i as int].0@) == Some(k));
                    }
                }
            },
            None => {},
        }
        i = i + 1;
    }
    let upper_total: u8 = if upper_sum < 63 {
        upper_sum as u8
    } else {
        63
    };
    (bitmask, upper_total, yahtzee_bonus)
}

} // verus!
