use vstd::prelude::*;

use crate::rolls::{category_score, dice_count, is_sub_roll, score_roll, Roll};
use crate::state::{
    after_scoring, encode_state, is_filled, lemma_scoring_progress, lemma_set_bit, state_index,
    valid_state, FILLED_CATEGORIES, NUM_CATEGORIES,
};

verus! {

/// What the player should do next: score the roll in a category, or keep
/// these dice and reroll the others.
pub enum Advice {
    FillCategory(u8),
    KeepDice(Roll),
}

/// Whether two rolls show the same counts on every face.
pub fn same_roll(a: &Roll, b: &Roll) -> (same: bool)
    ensures
        same == (*a == *b),
{
    let mut i: usize = 0;
    while i < 6
        invariant
            i <= 6,
            forall|j: int| 0 <= j < i ==> a@[j] == b@[j],
        decreases 6 - i,
    {
        if a[i] != b[i] {
            return false;
        }
        i = i + 1;
    }
    assert(*a =~= *b);
    true
}

/// Position of the first occurrence of `roll` in `all_rolls`, if any.
pub fn roll_index(all_rolls: &Vec<Roll>, roll: &Roll) -> (idx: Option<usize>)
    ensures
        match idx {
            Some(i) => i < all_rolls@.len() && all_rolls@[i as int] == *roll && forall|j: int|
                0 <= j < i ==> all_rolls@[j] != *roll,
            None => !all_rolls@.contains(*roll),
        },
{
    let mut i: usize = 0;
    while i < all_rolls.len()
        invariant
            i <= all_rolls@.len(),
            forall|j: int| 0 <= j < i ==> all_rolls@[j] != *roll,
        decreases all_rolls@.len() - i,
    {
        if same_roll(&all_rolls[i], roll) {
            return Some(i);
        }
        i = i + 1;
    }
    None
}

/// The dice that must come up when the dice outside `keep` are rerolled
/// and `target` results: `Some(target - keep)` face by face, or `None` when
/// `target` does not contain `keep`.
pub open spec fn reroll_outcome(keep: Seq<u8>, target: Seq<u8>) -> Option<Seq<u8>> {
    if is_sub_roll(keep, target) {
        Some(Seq::new(6, |i: int| (target[i] - keep[i]) as u8))
    } else {
        None
    }
}

/// The rerolled dice make up exactly what the target adds to the keep:
/// face by face the keep and the rerolled dice sum to the target (so the
/// dice counts add up too); there is no outcome exactly when some face of
/// the keep shows more dice than the target.
pub proof fn lemma_reroll_outcome_adds_up(keep: Seq<u8>, target: Seq<u8>)
    requires
        keep.len() == 6,
        target.len() == 6,
    ensures
        match reroll_outcome(keep, target) {
            Some(d) => d.len() == 6 && (forall|i: int| 0 <= i < 6 ==> keep[i] + d[i] == #[trigger] target[i])
                && dice_count(keep) + dice_count(d) == dice_count(target),
            None => exists|i: int| 0 <= i < 6 && keep[i] > #[trigger] target[i],
        },
{
    match reroll_outcome(keep, target) {
        Some(d) => {
            assert(forall|i: int| 0 <= i < 6 ==> keep[i] + d[i] == #[trigger] target[i]);
        },
        None => {},
    }
}

/// Face counts the rerolled dice must show to turn `keep` into `target`.
pub fn reroll_counts(keep: &Roll, target: &Roll) -> (diff: Option<Roll>)
    ensures
        match diff {
            Some(d) => reroll_outcome(keep@, target@) == Some(d@),
            None => reroll_outcome(keep@, target@) is None,
        },
        match diff {
            Some(d) => forall|i: int| 0 <= i < 6 ==> keep@[i] + d@[i] == #[trigger] target@[i],
            None => exists|i: int| 0 <= i < 6 && keep@[i] > #[trigger] target@[i],
        },
{
    proof {
        lemma_reroll_outcome_adds_up(keep@, target@);
    }
    let mut diff: Roll = [0, 0, 0, 0, 0, 0];
    let mut i: usize = 0;
    while i < 6
        invariant
            i <= 6,
            forall|j: int| 0 <= j < i ==> keep@[j] <= target@[j],
            forall|j: int| 0 <= j < i ==> diff@[j] == target@[j] - keep@[j],
        decreases 6 - i,
    {
        if target[i] < keep[i] {
            return None;
        }
        let ghost before = diff@;
        diff[i] = target[i] - keep[i];
        assert(diff@ == before.update(i as int, (target@[i as int] - keep@[i as int]) as u8));
        assert forall|j: int| 0 <= j < i + 1 implies diff@[j] == target@[j] - keep@[j] by {
            if j < i {
                assert(diff@[j] == before[j]);
            }
        }
        i = i + 1;
    }
    assert(is_sub_roll(keep@, target@));
    assert(diff@ =~= Seq::new(6, |j: int| (target@[j] - keep@[j]) as u8));
    Some(diff)
}

/// Number of dice in a roll.
pub fn count_dice(roll: &Roll) -> (n: u32)
    ensures
        n == dice_count(roll@),
{
    roll[0] as u32 + roll[1] as u32 + roll[2] as u32 + roll[3] as u32 + roll[4] as u32
        + roll[5] as u32
}

/// Positions, in increasing order, of the rolls in `all_rolls` that can
/// result from rerolling the dice outside `keep`.
pub fn reachable_rolls(keep: &Roll, all_rolls: &Vec<Roll>) -> (targets: Vec<usize>)
    ensures
        forall|a: int, b: int| 0 <= a < b < targets@.len() ==> targets@[a] < targets@[b],
        forall|j: usize| targets@.contains(j) <==> (j < all_rolls@.len() && is_sub_roll(
            keep@,
            all_rolls@[j as int]@,
        )),
{
    let mut targets: Vec<usize> = Vec::new();
    let mut i: usize = 0;
    while i < all_rolls.len()
        invariant
            i <= all_rolls@.len(),
            forall|a: int| 0 <= a < targets@.len() ==> targets@[a] < i,
            forall|a: int, b: int| 0 <= a < b < targets@.len() ==> targets@[a] < targets@[b],
            forall|j: usize| targets@.contains(j) <==> (j < i && is_sub_roll(
                keep@,
                all_rolls@[j as int]@,
            )),
        decreases all_rolls@.len() - i,
    {
        let reachable: bool = match reroll_counts(keep, &all_rolls[i]) {
            Some(_) => true,
            None => false,
        };
        let ghost before = targets@;
        if reachable {
            targets.push(i);
            assert forall|j: usize| targets@.contains(j) <==> (j < i + 1 && is_sub_roll(
                keep@,
                all_rolls@[j as int]@,
            )) by {
                if j == i {
                    assert(targets@[before.len() as int] == i);
                }
                if targets@.contains(j) && j != i {
                    let a = choose|a: int| 0 <= a < targets@.len() && targets@[a] == j;
                    assert(before[a] == j);
                }
                if before.contains(j) {
                    let a = choose|a: int| 0 <= a < before.len() && before[a] == j;
                    assert(targets@[a] == j);
                }
            }
        }
        i = i + 1;
    }
    targets
}


/// Scores of `roll` in each of the thirteen categories.
fn score_row(roll: &Roll, yahtzee_bonus: bool) -> (row: [u32; 13])
    requires
        forall|c: int| 0 <= c < 6 ==> roll@[c] * (c + 1) <= u8::MAX,
    ensures
        forall|c: int| 0 <= c < 13 ==> row@[c] == category_score(roll@, c, yahtzee_bonus),
{
    let mut row: [u32; 13] = [0, 0, 0, 0, 0, 0, 0, 0, 0, 0, 0, 0, 0];
    let mut c: u8 = 0;
    while c < NUM_CATEGORIES
        invariant
            c <= 13,
            forall|j: int| 0 <= j < 6 ==> roll@[j] * (j + 1) <= u8::MAX,
            forall|j: int| 0 <= j < c ==> row@[j] == category_score(roll@, j, yahtzee_bonus),
        decreases 13 - c,
    {
        let score: u32 = score_roll(roll, c, yahtzee_bonus);
        let ghost before = row@;
        row[c as usize] = score;
        assert forall|j: int| 0 <= j < c + 1 implies row@[j] == category_score(
            roll@,
            j,
            yahtzee_bonus,
        ) by {
            if j < c {
                assert(row@[j] == before[j]);
            }
        }
        c = c + 1;
    }
    row
}

/// For every roll, its score in every category without and with the
/// Yahtzee bonus: `table[i][b][c]` scores `all_rolls[i]` in category `c`
/// with the bonus active when `b == 1`.
pub fn score_table(all_rolls: &Vec<Roll>) -> (table: Vec<[[u32; 13]; 2]>)
    requires
        forall|i: int, c: int|
            0 <= i < all_rolls@.len() && 0 <= c < 6 ==> all_rolls@[i]@[c] * (c + 1) <= u8::MAX,
    ensures
        table@.len() == all_rolls@.len(),
        forall|i: int, b: int, c: int|
            0 <= i < table@.len() && 0 <= b < 2 && 0 <= c < 13 ==> table@[i]@[b]@[c]
                == category_score(all_rolls@[i]@, c, b == 1),
{
    let mut table: Vec<[[u32; 13]; 2]> = Vec::new();
    let mut i: usize = 0;
    while i < all_rolls.len()
        invariant
            i <= all_rolls@.len(),
            table@.len() == i,
            forall|k: int, c: int|
                0 <= k < all_rolls@.len() && 0 <= c < 6 ==> all_rolls@[k]@[c] * (c + 1)
                    <= u8::MAX,
            forall|k: int, b: int, c: int|
                0 <= k < i && 0 <= b < 2 && 0 <= c < 13 ==> table@[k]@[b]@[c] == category_score(
                    all_rolls@[k]@,
                    c,
                    b == 1,
                ),
        decreases all_rolls@.len() - i,
    {
        let roll: &Roll = &all_rolls[i];
        let plain: [u32; 13] = score_row(roll, false);
        let bonus: [u32; 13] = score_row(roll, true);
        let entry: [[u32; 13]; 2] = [plain, bonus];
        assert(entry@[0] == plain && entry@[1] == bonus);
        table.push(entry);
        i = i + 1;
    }
    table
}

/// The categories still open in the bitmask, in increasing order.
pub fn open_categories(categories: u16) -> (open: Vec<u8>)
    ensures
        forall|a: int, b: int| 0 <= a < b < open@.len() ==> open@[a] < open@[b],
        forall|c: u8| open@.contains(c) <==> (c < 13 && !is_filled(categories, c)),
{
    let mut open: Vec<u8> = Vec::new();
    let mut c: u8 = 0;
    while c < NUM_CATEGORIES
        invariant
            c <= 13,
            forall|a: int| 0 <= a < open@.len() ==> open@[a] < c,
            forall|a: int, b: int| 0 <= a < b < open@.len() ==> open@[a] < open@[b],
            forall|k: u8| open@.contains(k) <==> (k < c && !is_filled(categories, k)),
        decreases 13 - c,
    {
        let ghost before = open@;
        if categories & (1u16 << c) == 0 {
            open.push(c);
            assert forall|k: u8| open@.contains(k) <==> (k < c + 1 && !is_filled(categories, k)) by {
                if k == c {
                    assert(open@[before.len() as int] == c);
                }
                if open@.contains(k) && k != c {
                    let a = choose|a: int| 0 <= a < open@.len() && open@[a] == k;
                    assert(before[a] == k);
                }
                if before.contains(k) {
                    let a = choose|a: int| 0 <= a < before.len() && before[a] == k;
                    assert(open@[a] == k);
                }
            }
        }
        c = c + 1;
    }
    open
}

/// The bonus earned at the end of the game for an upper-section total:
/// 35 points once the total reaches 63.
pub open spec fn upper_bonus_value(upper_total: int) -> int {
    if upper_total >= 63 {
        35
    } else {
        0
    }
}

/// The upper-section bonus for the capped upper total.
pub fn upper_bonus(upper_total: u8) -> (bonus: u32)
    ensures
        bonus == upper_bonus_value(upper_total as int),
{
    if upper_total >= 63 {
        35
    } else {
        0
    }
}

/// The end-of-game state with every category filled, upper total `u` and
/// bonus flag `y`, paired with what it is worth: the upper-section bonus.
pub open spec fn terminal_entry(u: int, y: bool) -> (usize, u32) {
    (state_index(FILLED_CATEGORIES as int, u, y) as usize, upper_bonus_value(u) as u32)
}

/// Position of the state with upper total `u` and bonus flag `y` in the
/// list of end-of-game states.
pub open spec fn terminal_position(u: int, y: bool) -> int {
    2 * u + if y {
        1int
    } else {
        0int
    }
}

/// The end-of-game states, by upper total and then bonus flag, each with
/// the value it is worth.
pub fn terminal_values() -> (values: Vec<(usize, u32)>)
    ensures
        values@.len() == 128,
        forall|u: int, y: bool|
            0 <= u < 64 ==> values@[terminal_position(u, y)] == #[trigger] terminal_entry(u, y),
{
    let mut values: Vec<(usize, u32)> = Vec::new();
    let mut u: u8 = 0;
    while u <= 63
        invariant
            u <= 64,
            values@.len() == 2 * u,
            forall|v: int, y: bool|
                0 <= v < u ==> values@[terminal_position(v, y)] == #[trigger] terminal_entry(v, y),
        decreases 64 - u,
    {
        let bonus: u32 = upper_bonus(u);
        let plain_idx: usize = encode_state(FILLED_CATEGORIES, u, false);
        let bonus_idx: usize = encode_state(FILLED_CATEGORIES, u, true);
        values.push((plain_idx, bonus));
        values.push((bonus_idx, bonus));
        assert forall|v: int, y: bool| 0 <= v < u + 1 implies values@[terminal_position(v, y)]
            == #[trigger] terminal_entry(v, y) by {
            if v == u {
                assert(terminal_position(v, y) == 2 * u || terminal_position(v, y) == 2 * u + 1);
            }
        }
        u = u + 1;
    }
    values
}


/// Number of categories marked filled among the first `k`.
pub open spec fn filled_among(categories: u16, k: int) -> int
    decreases k,
{
    if k <= 0 {
        0
    } else {
        filled_among(categories, k - 1) + if is_filled(categories, (k - 1) as u8) {
            1int
        } else {
            0int
        }
    }
}

/// Number of bits set in the categories bitmask.
pub fn count_filled(categories: u16) -> (n: u32)
    ensures
        n == filled_among(categories, 16),
{
    let mut n: u32 = 0;
    let mut k: u8 = 0;
    while k < 16
        invariant
            k <= 16,
            n == filled_among(categories, k as int),
            n <= k,
        decreases 16 - k,
    {
        if categories & (1u16 << k) != 0 {
            n = n + 1;
        }
        k = k + 1;
    }
    n
}

/// `a` comes before `b` when states are ordered by categories bitmask, then
/// upper total, then bonus flag (off before on).
pub open spec fn state_before(a: (u16, u8, bool), b: (u16, u8, bool)) -> bool {
    ||| a.0 < b.0
    ||| a.0 == b.0 && a.1 < b.1
    ||| a.0 == b.0 && a.1 == b.1 && !a.2 && b.2
}

/// A state in which exactly `n_filled` of the thirteen categories are filled.
pub open spec fn in_stage(s: (u16, u8, bool), n_filled: int) -> bool {
    s.0 < 8192 && filled_among(s.0, 16) == n_filled && s.1 <= 63
}

proof fn lemma_push_contains<A>(v: Seq<A>, x: A, y: A)
    ensures
        v.push(x).contains(y) <==> v.contains(y) || x == y,
{
    if v.contains(y) {
        let a = choose|a: int| 0 <= a < v.len() && v[a] == y;
        assert(v.push(x)[a] == y);
    }
    if x == y {
        assert(v.push(x)[v.len() as int] == y);
    }
    if v.push(x).contains(y) {
        let a = choose|a: int| 0 <= a < v.push(x).len() && v.push(x)[a] == y;
        if a < v.len() {
            assert(v[a] == y);
        }
    }
}

/// Every state with `n_filled` categories filled, each upper total 0-63
/// and both bonus flags, in `state_before` order.
pub fn stage_states(n_filled: u8) -> (states: Vec<(u16, u8, bool)>)
    ensures
        forall|a: int, b: int|
            0 <= a < b < states@.len() ==> state_before(states@[a], states@[b]),
        forall|s: (u16, u8, bool)| #[trigger] states@.contains(s) <==> in_stage(s, n_filled as int),
{
    let mut states: Vec<(u16, u8, bool)> = Vec::new();
    let mut c: u16 = 0;
    while c < 8192
        invariant
            c <= 8192,
            forall|a: int| 0 <= a < states@.len() ==> states@[a].0 < c,
            forall|a: int, b: int|
                0 <= a < b < states@.len() ==> state_before(states@[a], states@[b]),
            forall|s: (u16, u8, bool)|
                #[trigger] states@.contains(s) <==> (s.0 < c && in_stage(s, n_filled as int)),
        decreases 8192 - c,
    {
        if count_filled(c) == n_filled as u32 {
            let mut u: u8 = 0;
            while u <= 63
                invariant
                    c < 8192,
                    filled_among(c, 16) == n_filled,
                    u <= 64,
                    forall|a: int|
                        0 <= a < states@.len() ==> states@[a].0 < c || (states@[a].0 == c
                            && states@[a].1 < u),
                    forall|a: int, b: int|
                        0 <= a < b < states@.len() ==> state_before(states@[a], states@[b]),
                    forall|s: (u16, u8, bool)|
                        #[trigger] states@.contains(s) <==> ((s.0 < c && in_stage(s, n_filled as int)) || (
                        s.0 == c && s.1 < u)),
                decreases 64 - u,
            {
                let ghost v0 = states@;
                states.push((c, u, false));
                let ghost v1 = states@;
                states.push((c, u, true));
                assert forall|s: (u16, u8, bool)| #[trigger] states@.contains(s) <==> ((s.0 < c && in_stage(
                    s,
                    n_filled as int,
                )) || (s.0 == c && s.1 < u + 1)) by {
                    lemma_push_contains(v0, (c, u, false), s);
                    lemma_push_contains(v1, (c, u, true), s);
                    if s.0 == c && s.1 == u {
                        if s.2 {
                            assert(s == (c, u, true));
                        } else {
                            assert(s == (c, u, false));
                        }
                    }
                }
                u = u + 1;
            }
        }
        c = c + 1;
    }
    states
}


proof fn lemma_filled_among_set(categories: u16, i: u8, k: int)
    requires
        i < 16,
        0 <= k <= 16,
        !is_filled(categories, i),
    ensures
        filled_among(categories | (1u16 << i), k) == filled_among(categories, k) + if i < k {
            1int
        } else {
            0int
        },
    decreases k,
{
    if k > 0 {
        lemma_filled_among_set(categories, i, k - 1);
        lemma_set_bit(categories, i, (k - 1) as u8);
    }
}

/// Scoring a roll in an open category moves the game from one stage to the
/// next: a valid state with `n` categories filled leads to a valid state
/// with `n + 1` filled. The backward pass over stages relies on this.
pub proof fn lemma_scoring_advances_stage(
    categories: u16,
    upper_total: u8,
    yahtzee_bonus: bool,
    roll: Seq<u8>,
    category: u8,
)
    requires
        valid_state(categories, upper_total),
        category < 13,
        !is_filled(categories, category),
    ensures
        in_stage(
            after_scoring(categories, upper_total, yahtzee_bonus, roll, category),
            filled_among(categories, 16) + 1,
        ),
{
    lemma_scoring_progress(categories, upper_total, yahtzee_bonus, roll, category);
    lemma_filled_among_set(categories, category, 16);
}

} // verus!
