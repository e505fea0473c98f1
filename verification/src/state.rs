use vstd::prelude::*;

use crate::rolls::{
    any_count_equal, category_score, face_only, has_count, lemma_upper_score_counts_face_pips,
    pip_total, Roll,
};

verus! {

/// Number of entries in a table indexed by encoded game states:
/// 13 category bits, 6 bits of upper total and one bonus bit.
pub const TABLE_SIZE: usize = 1 << 20;

pub const NUM_CATEGORIES: u8 = 13;

/// Every one of the thirteen categories filled.
pub const FILLED_CATEGORIES: u16 = 0b1_1111_1111_1111;

pub const ONES_CAT: u8 = 0;
pub const TWOS_CAT: u8 = 1;
pub const THREES_CAT: u8 = 2;
pub const SIXES_CAT: u8 = 5;
pub const THREE_OF_A_KIND_CAT: u8 = 6;
pub const FOUR_OF_A_KIND_CAT: u8 = 7;
pub const FULL_HOUSE_CAT: u8 = 8;
pub const SML_STRAIGHT_CAT: u8 = 9;
pub const LRG_STRAIGHT_CAT: u8 = 10;
pub const YAHTZEE_CAT: u8 = 11;
pub const CHANCE_CAT: u8 = 12;


/// The table index of a state whose fields fit their bit ranges:
/// categories in bits 0-12, upper total in bits 13-18, bonus in bit 19.
pub open spec fn state_index(categories: int, upper_total: int, yahtzee_bonus: bool) -> int {
    categories + upper_total * 8192 + if yahtzee_bonus {
        524288int
    } else {
        0int
    }
}

/// What `encode_state` packs: the three fields or-ed at their bit offsets.
pub open spec fn encoded_bits(categories: u16, upper_total: u8, yahtzee_bonus: bool) -> usize {
    (categories as usize) | ((upper_total as usize) << 13usize) | ((if yahtzee_bonus {
        1usize
    } else {
        0usize
    }) << 19usize)
}

/// The fields read back from a table index.
pub open spec fn decoded(idx: usize) -> (u16, u8, bool) {
    ((idx % 8192) as u16, ((idx / 8192) % 64) as u8, (idx / 524288) % 2 == 1)
}

/// A state whose fields fit their bit ranges.
pub open spec fn valid_state(categories: u16, upper_total: u8) -> bool {
    categories < 8192 && upper_total < 64
}

proof fn lemma_table_size()
    ensures
        TABLE_SIZE == 1048576,
{
    assert(1usize << 20usize == 1048576usize) by (bit_vector);
}

/// Pack a game state into one table index.
pub fn encode_state(categories: u16, upper_total: u8, yahtzee: bool) -> (idx: usize)
    ensures
        idx == encoded_bits(categories, upper_total, yahtzee),
        valid_state(categories, upper_total) ==> idx == state_index(
            categories as int,
            upper_total as int,
            yahtzee,
        ) && idx < TABLE_SIZE,
{
    let bonus: usize = if yahtzee {
        1
    } else {
        0
    };
    let c: usize = categories as usize;
    let u: usize = upper_total as usize;
    let idx: usize = c | (u << 13usize) | (bonus << 19usize);
    proof {
        if valid_state(categories, upper_total) {
            assert(c < 8192 && u < 64 && bonus < 2 ==> c | (u << 13usize) | (bonus << 19usize)
                == c + u * 8192 + bonus * 524288) by (bit_vector);
            lemma_table_size();
        }
    }
    idx
}

/// Split a table index into categories bitmask, upper total and bonus flag.
pub fn decode_state(idx: usize) -> (fields: (u16, u8, bool))
    ensures
        fields == decoded(idx),
{
    let categories: u16 = (idx & 0x1FFF) as u16;
    let upper_total: u8 = ((idx >> 13usize) & 0x3F) as u8;
    let yahtzee_bonus: bool = (idx >> 19usize) & 1 == 1;
    proof {
        assert(idx & 0x1FFF == idx % 8192) by (bit_vector);
        assert((idx >> 13usize) & 0x3F == (idx / 8192) % 64) by (bit_vector);
        assert((idx >> 19usize) & 1 == (idx / 524288) % 2) by (bit_vector);
    }
    (categories, upper_total, yahtzee_bonus)
}

/// The state after scoring `roll` in `category`: the category is marked
/// filled, an upper-section score is added to the total (capped at 63), and
/// a Yahtzee scored in its own category turns the bonus on.
pub open spec fn after_scoring(
    categories: u16,
    upper_total: u8,
    yahtzee_bonus: bool,
    roll: Seq<u8>,
    category: u8,
) -> (u16, u8, bool) {
    let new_categories = categories | (1u16 << category);
    let new_upper = if category < 6 {
        let total = upper_total + roll[category as int] * (category + 1);
        if total < 63 {
            total as u8
        } else {
            63u8
        }
    } else {
        upper_total
    };
    let bonus = yahtzee_bonus || (category == 11 && has_count(roll, 5));
    (new_categories, new_upper, bonus)
}

/// Index of the state reached by scoring `roll` in `category`.
pub fn next_state(
    categories: u16,
    upper_total: u8,
    yahtzee_bonus: bool,
    roll: &Roll,
    category: u8,
) -> (idx: usize)
    requires
        category < 16,
    ensures
        ({
            let (c, u, b) = after_scoring(categories, upper_total, yahtzee_bonus, roll@, category);
            idx == encoded_bits(c, u, b)
        }),
        valid_state(categories, upper_total) && category < 13 ==> idx < TABLE_SIZE && decoded(idx)
            == after_scoring(categories, upper_total, yahtzee_bonus, roll@, category),
        valid_state(categories, upper_total) && category < 6 ==> decoded(idx).1 == capped_total(
            upper_total + category_score(roll@, category as int, yahtzee_bonus),
        ),
        valid_state(categories, upper_total) && 6 <= category < 13 ==> decoded(idx).1
            == upper_total,
        valid_state(categories, upper_total) && category < 13 ==> decoded(idx).2 == (yahtzee_bonus
            || (category == YAHTZEE_CAT && category_score(roll@, 11, false) == 50)),
{
    let mut new_categories: u16 = categories;
    let mut new_upper: u8 = upper_total;
    let mut bonus: bool = yahtzee_bonus;
    new_categories = new_categories | (1u16 << category);
    if category < 6 {
        // At most 255 + 255 * 6 fits in u16.
        let count: u16 = roll[category as usize] as u16;
        assert(count * (category + 1) <= 1530) by (nonlinear_arith)
            requires
                count <= 255,
                category < 6,
        ;
        let added: u16 = count * (category as u16 + 1);
        let total: u16 = upper_total as u16 + added;
        new_upper = if total < 63 {
            total as u8
        } else {
            63
        };
    }
    if category == YAHTZEE_CAT && any_count_equal(roll, 5) {
        bonus = true;
    }
    proof {
        if valid_state(categories, upper_total) && category < 13 {
            lemma_scoring_progress(categories, upper_total, yahtzee_bonus, roll@, category);
            lemma_decode_encode(new_categories, new_upper, bonus);
            lemma_upper_scoring_adds_points(categories, upper_total, yahtzee_bonus, roll@, category);
        }
    }
    encode_state(new_categories, new_upper, bonus)
}


/// An upper total as the state keeps it: capped at 63.
pub open spec fn capped_total(total: int) -> int {
    if total < 63 {
        total
    } else {
        63
    }
}

/// Scoring an upper category raises the upper total by the points the roll
/// scores there (the pips on that face), capped at 63; scoring any other
/// category leaves the upper total unchanged.
pub proof fn lemma_upper_scoring_adds_points(
    categories: u16,
    upper_total: u8,
    yahtzee_bonus: bool,
    roll: Seq<u8>,
    category: u8,
)
    requires
        roll.len() == 6,
        upper_total <= 63,
        category < 13,
    ensures
        category < 6 ==> after_scoring(categories, upper_total, yahtzee_bonus, roll, category).1
            == capped_total(upper_total + category_score(roll, category as int, yahtzee_bonus)),
        category < 6 ==> after_scoring(categories, upper_total, yahtzee_bonus, roll, category).1
            == capped_total(upper_total + pip_total(face_only(roll, category as int))),
        category >= 6 ==> after_scoring(categories, upper_total, yahtzee_bonus, roll, category).1
            == upper_total,
        after_scoring(categories, upper_total, yahtzee_bonus, roll, category).2 == (yahtzee_bonus
            || (category == 11 && category_score(roll, 11, false) == 50)),
{
    if category < 6 {
        lemma_upper_score_counts_face_pips(roll, category as int, yahtzee_bonus);
    }
}

/// Whether `category` is marked filled in the bitmask.
pub open spec fn is_filled(categories: u16, category: u8) -> bool {
    categories & (1u16 << category) != 0
}

proof fn lemma_encoded_bits_index(categories: u16, upper_total: u8, yahtzee_bonus: bool)
    requires
        valid_state(categories, upper_total),
    ensures
        encoded_bits(categories, upper_total, yahtzee_bonus) == state_index(
            categories as int,
            upper_total as int,
            yahtzee_bonus,
        ),
{
    let c: usize = categories as usize;
    let u: usize = upper_total as usize;
    let b: usize = if yahtzee_bonus {
        1
    } else {
        0
    };
    assert(c < 8192 && u < 64 && b < 2 ==> c | (u << 13usize) | (b << 19usize) == c + u * 8192
        + b * 524288) by (bit_vector);
}

/// Decoding an encoded state gives back its fields, for every state whose
/// fields fit their bit ranges.
pub proof fn lemma_decode_encode(categories: u16, upper_total: u8, yahtzee_bonus: bool)
    requires
        valid_state(categories, upper_total),
    ensures
        decoded(encoded_bits(categories, upper_total, yahtzee_bonus)) == (
            categories,
            upper_total,
            yahtzee_bonus,
        ),
        encoded_bits(categories, upper_total, yahtzee_bonus) < TABLE_SIZE,
{
    lemma_encoded_bits_index(categories, upper_total, yahtzee_bonus);
    lemma_table_size();
}

/// Every index of the state table is the encoding of the state it decodes to.
pub proof fn lemma_encode_decode(idx: usize)
    requires
        idx < TABLE_SIZE,
    ensures
        valid_state(decoded(idx).0, decoded(idx).1),
        encoded_bits(decoded(idx).0, decoded(idx).1, decoded(idx).2) == idx,
{
    lemma_table_size();
    let (c, u, b) = decoded(idx);
    lemma_encoded_bits_index(c, u, b);
}

/// Setting bit `i` marks category `i` filled and leaves category `k`
/// as it was otherwise; a bitmask of the thirteen categories stays one.
pub(crate) proof fn lemma_set_bit(categories: u16, i: u8, k: u8)
    requires
        i < 16,
        k < 16,
    ensures
        is_filled(categories | (1u16 << i), k) <==> (is_filled(categories, k) || k == i),
        categories < 8192 && i < 13 ==> categories | (1u16 << i) < 8192,
{
    assert(categories < 8192 && i < 13 ==> categories | (1u16 << i) < 8192) by (bit_vector);
    assert(k < 16 && i < 16 ==> ((categories | (1u16 << i)) & (1u16 << k) != 0 <==> (categories
        & (1u16 << k) != 0 || k == i))) by (bit_vector);
}

/// Scoring a roll in an open or filled category from a valid state leads to
/// a valid state in which: that category is filled and no other category
/// changes; the upper total does not decrease and stays at most 63; and a
/// Yahtzee bonus once earned is kept.
pub proof fn lemma_scoring_progress(
    categories: u16,
    upper_total: u8,
    yahtzee_bonus: bool,
    roll: Seq<u8>,
    category: u8,
)
    requires
        valid_state(categories, upper_total),
        category < 13,
    ensures
        ({
            let (c, u, b) = after_scoring(categories, upper_total, yahtzee_bonus, roll, category);
            &&& valid_state(c, u)
            &&& is_filled(c, category)
            &&& forall|k: u8| k < 16 && k != category ==> (is_filled(c, k) <==> is_filled(categories, k))
            &&& upper_total <= u <= 63
            &&& yahtzee_bonus ==> b
        }),
{
    let (c, u, b) = after_scoring(categories, upper_total, yahtzee_bonus, roll, category);
    lemma_set_bit(categories, category, category);
    assert forall|k: u8| k < 16 && k != category implies (is_filled(c, k) <==> is_filled(categories, k)) by {
        lemma_set_bit(categories, category, k);
    }
}

} // verus!
