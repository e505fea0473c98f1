use vstd::prelude::*;

use crate::state::{
    FOUR_OF_A_KIND_CAT, FULL_HOUSE_CAT, LRG_STRAIGHT_CAT, SML_STRAIGHT_CAT,
    THREE_OF_A_KIND_CAT, YAHTZEE_CAT,
};

verus! {

/// A roll as a multiset of faces: `roll[i]` dice show `i + 1` pips.
pub type Roll = [u8; 6];

/// The number of distinct rolls of five dice, C(10, 5).
pub const NUM_ROLLS: usize = 252;

/// Total number of pips showing: the sum of face value times count.
pub open spec fn pip_total(r: Seq<u8>) -> int {
    r[0] * 1 + r[1] * 2 + r[2] * 3 + r[3] * 4 + r[4] * 5 + r[5] * 6
}

/// Sum of the face values of all dice in the roll.
pub fn sum_dice(roll: &Roll) -> (sum: u32)
    ensures
        sum == pip_total(roll@),
{
    roll[0] as u32 * 1 + roll[1] as u32 * 2 + roll[2] as u32 * 3 + roll[3] as u32 * 4
        + roll[4] as u32 * 5 + roll[5] as u32 * 6
}


/// Faces `start + 1 ..= start + len` all show at least one die: a straight
/// of `len` consecutive faces starting at index `start`.
pub open spec fn run_from(r: Seq<u8>, start: int, len: int) -> bool {
    &&& 0 <= start
    &&& 0 <= len
    &&& start + len <= 6
    &&& forall|k: int| start <= k < start + len ==> r[k] >= 1
}

/// The roll holds a straight of `len` consecutive faces.
pub open spec fn has_run(r: Seq<u8>, len: int) -> bool {
    exists|start: int| run_from(r, start, len)
}

/// `len` is the length of the longest straight in the roll.
pub open spec fn is_longest_run(r: Seq<u8>, len: int) -> bool {
    &&& has_run(r, len)
    &&& forall|start: int, l: int| run_from(r, start, l) ==> l <= len
}

/// Some face shows at least `n` dice.
pub open spec fn has_at_least(r: Seq<u8>, n: int) -> bool {
    exists|i: int| 0 <= i < 6 && r[i] >= n
}

/// Some face shows exactly `n` dice.
pub open spec fn has_count(r: Seq<u8>, n: int) -> bool {
    exists|i: int| 0 <= i < 6 && r[i] == n
}

/// Length of the longest run of consecutive faces that all show at least one die.
pub fn get_straight_length(roll: &Roll) -> (len: usize)
    ensures
        is_longest_run(roll@, len as int),
{
    let mut max_len: usize = 0;
    let mut current_len: usize = 0;
    let mut idx: usize = 0;
    let ghost mut best_start: int = 0;
    while idx < 6
        invariant
            idx <= 6,
            current_len <= idx,
            max_len <= 6,
            run_from(roll@, idx - current_len, current_len as int),
            idx - current_len == 0 || roll@[idx - current_len - 1] == 0,
            run_from(roll@, best_start, max_len as int),
            forall|start: int, l: int|
                run_from(roll@, start, l) && start + l <= idx ==> l <= max_len || l
                    <= current_len,
        decreases 6 - idx,
    {
        if roll[idx] >= 1 {
            assert forall|start: int, l: int|
                run_from(roll@, start, l) && start + l <= idx + 1 implies l <= max_len || l
                    <= current_len + 1 by {
                if start + l == idx + 1 && start < idx - current_len {
                    assert(roll@[idx - current_len - 1] >= 1);
                }
            }
            current_len = current_len + 1;
        } else {
            assert forall|start: int, l: int|
                run_from(roll@, start, l) && start + l <= idx + 1 implies l <= max_len || l
                    <= current_len by {
                if start + l == idx + 1 && l > 0 {
                    assert(roll@[idx as int] >= 1);
                }
            }
            if current_len > max_len {
                proof {
                    best_start = idx - current_len;
                }
                max_len = current_len;
            }
            current_len = 0;
        }
        idx = idx + 1;
    }
    if current_len > max_len {
        current_len
    } else {
        max_len
    }
}

/// Whether some face shows at least `n` dice.
fn any_count_at_least(roll: &Roll, n: u8) -> (found: bool)
    ensures
        found == has_at_least(roll@, n as int),
{
    let mut i: usize = 0;
    while i < 6
        invariant
            i <= 6,
            forall|j: int| 0 <= j < i ==> roll@[j] < n,
        decreases 6 - i,
    {
        if roll[i] >= n {
            return true;
        }
        i = i + 1;
    }
    false
}

/// Whether some face shows exactly `n` dice.
pub(crate) fn any_count_equal(roll: &Roll, n: u8) -> (found: bool)
    ensures
        found == has_count(roll@, n as int),
{
    let mut i: usize = 0;
    while i < 6
        invariant
            i <= 6,
            forall|j: int| 0 <= j < i ==> roll@[j] != n,
        decreases 6 - i,
    {
        if roll[i] == n {
            return true;
        }
        i = i + 1;
    }
    false
}

/// The score the roll earns in `category` (0 = ones ... 12 = chance); a
/// Yahtzee earns 100 rather than 50 once the bonus is active.
pub open spec fn category_score(r: Seq<u8>, category: int, yahtzee_bonus: bool) -> int {
    if 0 <= category <= 5 {
        r[category] * (category + 1)
    } else if category == 6 {
        if has_at_least(r, 3) {
            pip_total(r)
        } else {
            0
        }
    } else if category == 7 {
        if has_at_least(r, 4) {
            pip_total(r)
        } else {
            0
        }
    } else if category == 8 {
        if has_count(r, 2) && has_count(r, 3) {
            25
        } else {
            0
        }
    } else if category == 9 {
        if has_run(r, 4) {
            30
        } else {
            0
        }
    } else if category == 10 {
        if has_run(r, 5) && !has_run(r, 6) {
            40
        } else {
            0
        }
    } else if category == 11 {
        if has_count(r, 5) {
            if yahtzee_bonus {
                100
            } else {
                50
            }
        } else {
            0
        }
    } else {
        pip_total(r)
    }
}

/// A roll whose longest straight has length `len` holds a straight of every
/// length up to `len`, and of no greater length.
proof fn lemma_longest_run(r: Seq<u8>, len: int, l: int)
    requires
        is_longest_run(r, len),
    ensures
        has_run(r, l) <==> 0 <= l <= len,
{
    let start = choose|start: int| run_from(r, start, len);
    if 0 <= l <= len {
        assert(run_from(r, start, l));
    }
}

/// The roll with every face but `face` emptied.
pub open spec fn face_only(r: Seq<u8>, face: int) -> Seq<u8> {
    Seq::new(6, |i: int| if i == face { r[i] } else { 0u8 })
}

/// Some face shows exactly three dice and another face exactly two.
pub open spec fn three_and_two(r: Seq<u8>) -> bool {
    exists|i: int, j: int| 0 <= i < 6 && 0 <= j < 6 && r[i] == 3 && r[j] == 2
}

/// An upper category scores the pips showing on its own face: the dice of
/// that face and no others.
pub proof fn lemma_upper_score_counts_face_pips(r: Seq<u8>, category: int, yahtzee_bonus: bool)
    requires
        r.len() == 6,
        0 <= category < 6,
    ensures
        category_score(r, category, yahtzee_bonus) == pip_total(face_only(r, category)),
{
    let f = face_only(r, category);
    assert(f[category] == r[category]);
    assert(forall|i: int| 0 <= i < 6 && i != category ==> f[i] == 0);
}

/// A full house scores 25 exactly when one face shows three dice and
/// another shows two, and 0 otherwise.
pub proof fn lemma_full_house_needs_three_and_two(r: Seq<u8>, yahtzee_bonus: bool)
    ensures
        category_score(r, 8, yahtzee_bonus) == if three_and_two(r) {
            25int
        } else {
            0int
        },
{
    if has_count(r, 2) && has_count(r, 3) {
        let j = choose|j: int| 0 <= j < 6 && r[j] == 2;
        let i = choose|i: int| 0 <= i < 6 && r[i] == 3;
        assert(r[i] == 3 && r[j] == 2);
    }
    if three_and_two(r) {
        let (i, j) = choose|i: int, j: int| 0 <= i < 6 && 0 <= j < 6 && r[i] == 3 && r[j] == 2;
        assert(r[i] == 3);
        assert(r[j] == 2);
    }
}

/// How the categories' scores relate on any roll: three and four of a kind
/// score either nothing or the chance total; four of a kind implies three
/// of a kind; a Yahtzee is also four of a kind; a full house is also three
/// of a kind; a large straight is also a small straight; a Yahtzee scores
/// 100 with the bonus where it scores 50 without.
pub proof fn lemma_category_relations(r: Seq<u8>, yahtzee_bonus: bool)
    requires
        r.len() == 6,
    ensures
        category_score(r, 12, yahtzee_bonus) == pip_total(r),
        category_score(r, 6, yahtzee_bonus) == 0 || category_score(r, 6, yahtzee_bonus)
            == category_score(r, 12, yahtzee_bonus),
        category_score(r, 7, yahtzee_bonus) == 0 || category_score(r, 7, yahtzee_bonus)
            == category_score(r, 12, yahtzee_bonus),
        category_score(r, 7, yahtzee_bonus) > 0 ==> category_score(r, 6, yahtzee_bonus) > 0,
        category_score(r, 11, yahtzee_bonus) > 0 ==> category_score(r, 7, yahtzee_bonus)
            == category_score(r, 12, yahtzee_bonus),
        category_score(r, 8, yahtzee_bonus) > 0 ==> category_score(r, 6, yahtzee_bonus)
            == category_score(r, 12, yahtzee_bonus),
        category_score(r, 10, yahtzee_bonus) > 0 ==> category_score(r, 9, yahtzee_bonus) == 30,
        category_score(r, 11, true) == 2 * category_score(r, 11, false),
        category_score(r, 11, false) == 0 || category_score(r, 11, false) == 50,
{
    if has_at_least(r, 4) {
        let i = choose|i: int| 0 <= i < 6 && r[i] >= 4;
        assert(r[i] >= 3);
        assert(pip_total(r) > 0) by {
            assert(r[i] * (i + 1) >= 4) by (nonlinear_arith)
                requires
                    r[i] >= 4,
                    0 <= i,
            ;
        }
    }
    if has_count(r, 5) {
        let i = choose|i: int| 0 <= i < 6 && r[i] == 5;
        assert(r[i] >= 4);
    }
    if has_count(r, 2) && has_count(r, 3) {
        let i = choose|i: int| 0 <= i < 6 && r[i] == 3;
        assert(r[i] >= 3);
    }
    if has_run(r, 5) {
        let start = choose|start: int| run_from(r, start, 5);
        assert(run_from(r, start, 4));
    }
}

/// Score of `roll` placed in `category`.
pub fn score_roll(roll: &Roll, category: u8, yahtzee_bonus: bool) -> (score: u32)
    requires
        category < 13,
        category < 6 ==> roll@[category as int] * (category + 1) <= u8::MAX,
    ensures
        score == category_score(roll@, category as int, yahtzee_bonus),
        category < 6 ==> score == pip_total(face_only(roll@, category as int)),
        category == 8 ==> score == if three_and_two(roll@) {
            25int
        } else {
            0int
        },
{
    proof {
        if category < 6 {
            lemma_upper_score_counts_face_pips(roll@, category as int, yahtzee_bonus);
        }
        lemma_full_house_needs_three_and_two(roll@, yahtzee_bonus);
    }
    if category < 6 {
        (roll[category as usize] * (category + 1)) as u32
    } else if category == THREE_OF_A_KIND_CAT {
        if any_count_at_least(roll, 3) {
            sum_dice(roll)
        } else {
            0
        }
    } else if category == FOUR_OF_A_KIND_CAT {
        if any_count_at_least(roll, 4) {
            sum_dice(roll)
        } else {
            0
        }
    } else if category == FULL_HOUSE_CAT {
        if any_count_equal(roll, 2) && any_count_equal(roll, 3) {
            25
        } else {
            0
        }
    } else if category == SML_STRAIGHT_CAT {
        let len: usize = get_straight_length(roll);
        proof {
            lemma_longest_run(roll@, len as int, 4);
        }
        if len >= 4 {
            30
        } else {
            0
        }
    } else if category == LRG_STRAIGHT_CAT {
        let len: usize = get_straight_length(roll);
        proof {
            lemma_longest_run(roll@, len as int, 5);
            lemma_longest_run(roll@, len as int, 6);
        }
        if len == 5 {
            40
        } else {
            0
        }
    } else if category == YAHTZEE_CAT {
        if any_count_equal(roll, 5) {
            if yahtzee_bonus {
                100
            } else {
                50
            }
        } else {
            0
        }
    } else {
        sum_dice(roll)
    }
}


/// A list of rolls viewed as face-count sequences.
pub open spec fn roll_views(v: Seq<Roll>) -> Seq<Seq<u8>> {
    v.map_values(|r: Roll| r@)
}

/// Number of dice in the roll.
pub open spec fn dice_count(r: Seq<u8>) -> int {
    r[0] + r[1] + r[2] + r[3] + r[4] + r[5]
}

/// `a` comes strictly before `b` when face counts are compared from the
/// ones upward.
pub open spec fn lex_less(a: Seq<u8>, b: Seq<u8>) -> bool {
    exists|i: int| 0 <= i < 6 && a[i] < b[i] && forall|j: int| 0 <= j < i ==> a[j] == b[j]
}

/// Each roll comes strictly before the next one in `lex_less` order (so no
/// roll occurs twice).
pub open spec fn strictly_ascending(s: Seq<Seq<u8>>) -> bool {
    forall|i: int, j: int| 0 <= i < j < s.len() ==> lex_less(s[i], s[j])
}

/// Number of multisets of `n` dice over `m` faces (stars and bars: the
/// lowest face takes `0..=n` dice, the other faces the rest).
pub open spec fn multichoose(m: nat, n: nat) -> nat
    decreases m, n + 2,
{
    if m == 0 {
        if n == 0 {
            1
        } else {
            0
        }
    } else {
        multichoose_sum(m, n, n + 1)
    }
}

/// Sum of `multichoose(m - 1, n - j)` for `j` in `0..k`.
pub open spec fn multichoose_sum(m: nat, n: nat, k: nat) -> nat
    decreases m, k,
{
    if m == 0 || k == 0 {
        0
    } else {
        multichoose_sum(m, n, (k - 1) as nat) + multichoose((m - 1) as nat, (n - (k - 1)) as nat)
    }
}

/// `sub` keeps, face by face, no more dice than `roll` shows.
pub open spec fn is_sub_roll(sub: Seq<u8>, roll: Seq<u8>) -> bool {
    forall|i: int| 0 <= i < 6 ==> sub[i] <= roll[i]
}

/// Number of sub-multisets of a roll: each face keeps `0..=roll[i]` dice.
pub open spec fn keep_count(roll: Seq<u8>) -> int {
    (roll[0] + 1) * (roll[1] + 1) * (roll[2] + 1) * (roll[3] + 1) * (roll[4] + 1) * (roll[5] + 1)
}

/// The rolls of `n` more dice over faces `face..6` that extend the counts
/// `cur` already fixed below `face`, lowest face count first.
spec fn rolls_from(n: nat, face: int, cur: Seq<u8>) -> Seq<Seq<u8>>
    decreases 6 - face, n + 2,
{
    if face >= 6 {
        if n == 0 {
            seq![cur]
        } else {
            Seq::empty()
        }
    } else {
        rolls_choices(n, face, cur, n + 1)
    }
}

/// Those of `rolls_from(n, face, cur)` with fewer than `k` dice on `face`.
spec fn rolls_choices(n: nat, face: int, cur: Seq<u8>, k: nat) -> Seq<Seq<u8>>
    decreases 6 - face, k,
{
    if face >= 6 || k == 0 {
        Seq::empty()
    } else {
        rolls_choices(n, face, cur, (k - 1) as nat) + rolls_from(
            (n - (k - 1)) as nat,
            face + 1,
            cur.update(face, (k - 1) as u8),
        )
    }
}

/// Dice on faces `face..6`.
spec fn count_from(s: Seq<u8>, face: int) -> int
    decreases 6 - face,
{
    if face >= 6 {
        0
    } else {
        s[face] + count_from(s, face + 1)
    }
}

spec fn agrees_below(s: Seq<u8>, cur: Seq<u8>, face: int) -> bool {
    forall|i: int| 0 <= i < face ==> s[i] == cur[i]
}

proof fn lemma_count_from_nonneg(s: Seq<u8>, face: int)
    ensures
        count_from(s, face) >= 0,
        face < 6 ==> count_from(s, face) >= s[face],
    decreases 6 - face,
{
    if face < 6 {
        lemma_count_from_nonneg(s, face + 1);
    }
}

proof fn lemma_count_from_zero(s: Seq<u8>)
    ensures
        count_from(s, 0) == dice_count(s),
{
    reveal_with_fuel(count_from, 7);
}

proof fn lemma_concat_contains<A>(a: Seq<A>, b: Seq<A>, x: A)
    ensures
        (a + b).contains(x) <==> a.contains(x) || b.contains(x),
{
    if a.contains(x) {
        let i = choose|i: int| 0 <= i < a.len() && a[i] == x;
        assert((a + b)[i] == x);
    }
    if b.contains(x) {
        let j = choose|j: int| 0 <= j < b.len() && b[j] == x;
        assert((a + b)[a.len() + j] == x);
    }
    if (a + b).contains(x) {
        let i = choose|i: int| 0 <= i < (a + b).len() && (a + b)[i] == x;
        if i < a.len() {
            assert(a[i] == x);
        } else {
            assert(b[i - a.len()] == x);
        }
    }
}

proof fn lemma_rolls_from_contains(n: nat, face: int, cur: Seq<u8>, s: Seq<u8>)
    requires
        n <= 255,
        0 <= face <= 6,
        cur.len() == 6,
    ensures
        rolls_from(n, face, cur).contains(s) <==> (s.len() == 6 && agrees_below(s, cur, face)
            && count_from(s, face) == n),
    decreases 6 - face, n + 2,
{
    if face < 6 {
        lemma_rolls_choices_contains(n, face, cur, n + 1, s);
        lemma_count_from_nonneg(s, face + 1);
    } else {
        if s.len() == 6 && agrees_below(s, cur, face) {
            assert(s =~= cur);
        }
        assert(seq![cur][0] == cur);
    }
}

proof fn lemma_rolls_choices_contains(n: nat, face: int, cur: Seq<u8>, k: nat, s: Seq<u8>)
    requires
        n <= 255,
        0 <= face < 6,
        cur.len() == 6,
        k <= n + 1,
    ensures
        rolls_choices(n, face, cur, k).contains(s) <==> (s.len() == 6 && agrees_below(s, cur, face)
            && count_from(s, face) == n && s[face] < k),
    decreases 6 - face, k,
{
    if k > 0 {
        let j: nat = (k - 1) as nat;
        let cur2 = cur.update(face, j as u8);
        lemma_rolls_choices_contains(n, face, cur, j, s);
        lemma_rolls_from_contains((n - j) as nat, face + 1, cur2, s);
        lemma_concat_contains(
            rolls_choices(n, face, cur, j),
            rolls_from((n - j) as nat, face + 1, cur2),
            s,
        );
        lemma_count_from_nonneg(s, face + 1);
        if s.len() == 6 && agrees_below(s, cur, face) && s[face] == j {
            assert(agrees_below(s, cur2, face + 1));
        }
        if agrees_below(s, cur2, face + 1) {
            assert(s[face] == cur2[face]);
            assert(agrees_below(s, cur, face));
        }
    }
}

proof fn lemma_rolls_from_ascending(n: nat, face: int, cur: Seq<u8>)
    requires
        n <= 255,
        0 <= face <= 6,
        cur.len() == 6,
    ensures
        strictly_ascending(rolls_from(n, face, cur)),
    decreases 6 - face, n + 2,
{
    if face < 6 {
        lemma_rolls_choices_ascending(n, face, cur, n + 1);
    }
}

proof fn lemma_rolls_choices_ascending(n: nat, face: int, cur: Seq<u8>, k: nat)
    requires
        n <= 255,
        0 <= face < 6,
        cur.len() == 6,
        k <= n + 1,
    ensures
        strictly_ascending(rolls_choices(n, face, cur, k)),
    decreases 6 - face, k,
{
    if k > 0 {
        let j: nat = (k - 1) as nat;
        let cur2 = cur.update(face, j as u8);
        let a = rolls_choices(n, face, cur, j);
        let b = rolls_from((n - j) as nat, face + 1, cur2);
        lemma_rolls_choices_ascending(n, face, cur, j);
        lemma_rolls_from_ascending((n - j) as nat, face + 1, cur2);
        assert forall|x: int, y: int| 0 <= x < y < (a + b).len() implies lex_less(
            (a + b)[x],
            (a + b)[y],
        ) by {
            if x < a.len() && y >= a.len() {
                let sa = a[x];
                let sb = b[y - a.len()];
                assert(a.contains(sa));
                assert(b.contains(sb));
                lemma_rolls_choices_contains(n, face, cur, j, sa);
                lemma_rolls_from_contains((n - j) as nat, face + 1, cur2, sb);
                assert(sb[face] == cur2[face]);
                assert(forall|i: int| 0 <= i < face ==> sa[i] == sb[i]);
                assert(sa[face] < sb[face]);
                assert(lex_less(sa, sb));
            } else if x >= a.len() {
                assert(lex_less(b[x - a.len()], b[y - a.len()]));
            } else {
                assert(lex_less(a[x], a[y]));
            }
        }
    }
}

proof fn lemma_rolls_from_len(n: nat, face: int, cur: Seq<u8>)
    requires
        0 <= face <= 6,
    ensures
        rolls_from(n, face, cur).len() == multichoose((6 - face) as nat, n),
    decreases 6 - face, n + 2,
{
    if face < 6 {
        lemma_rolls_choices_len(n, face, cur, n + 1);
    }
}

proof fn lemma_rolls_choices_len(n: nat, face: int, cur: Seq<u8>, k: nat)
    requires
        0 <= face < 6,
    ensures
        rolls_choices(n, face, cur, k).len() == multichoose_sum((6 - face) as nat, n, k),
    decreases 6 - face, k,
{
    if k > 0 {
        let j: nat = (k - 1) as nat;
        lemma_rolls_choices_len(n, face, cur, j);
        lemma_rolls_from_len((n - j) as nat, face + 1, cur.update(face, j as u8));
    }
}

/// Appends to `out` the rolls of `n` more dice over faces `face..6`
/// extending `current`.
fn push_rolls(n: u8, face: usize, current: Roll, out: &mut Vec<Roll>)
    requires
        face <= 6,
    ensures
        roll_views(final(out)@) == roll_views(old(out)@) + rolls_from(
            n as nat,
            face as int,
            current@,
        ),
    decreases 6 - face,
{
    if face == 6 {
        if n == 0 {
            out.push(current);
            assert(roll_views(out@) =~= roll_views(old(out)@) + seq![current@]);
        } else {
            assert(roll_views(out@) =~= roll_views(old(out)@) + Seq::<Seq<u8>>::empty());
        }
        return ;
    }
    let ghost start = roll_views(out@);
    let mut k: u16 = 0;
    assert(roll_views(out@) =~= start + rolls_choices(n as nat, face as int, current@, 0));
    while k <= n as u16
        invariant
            face < 6,
            k <= n + 1,
            roll_views(out@) == start + rolls_choices(n as nat, face as int, current@, k as nat),
        decreases n + 1 - k,
    {
        let mut next: Roll = current;
        next[face] = k as u8;
        let ghost before = roll_views(out@);
        push_rolls(n - k as u8, face + 1, next, out);
        assert(next@ =~= current@.update(face as int, k as u8));
        assert(roll_views(out@) =~= start + rolls_choices(
            n as nat,
            face as int,
            current@,
            (k + 1) as nat,
        ));
        k = k + 1;
    }
}

/// All multisets of `n` dice over faces 1-6, each exactly once, in
/// ascending order of face counts.
pub fn enumerate_rolls(n: u8) -> (rolls: Vec<Roll>)
    ensures
        strictly_ascending(roll_views(rolls@)),
        forall|r: Roll| rolls@.contains(r) <==> dice_count(r@) == n,
        rolls@.len() == multichoose(6, n as nat),
{
    let mut result: Vec<Roll> = Vec::new();
    let zero: Roll = [0, 0, 0, 0, 0, 0];
    push_rolls(n, 0, zero, &mut result);
    proof {
        assert(roll_views(result@) == rolls_from(n as nat, 0, zero@));
        lemma_rolls_from_ascending(n as nat, 0, zero@);
        lemma_rolls_from_len(n as nat, 0, zero@);
        assert forall|r: Roll| result@.contains(r) <==> dice_count(r@) == n by {
            lemma_rolls_from_contains(n as nat, 0, zero@, r@);
            lemma_count_from_zero(r@);
            lemma_views_contains(result@, r);
        }
    }
    result
}

proof fn lemma_multichoose_sum_shift(m: nat, n: nat, k: nat)
    requires
        m >= 1,
        n >= 1,
        k <= n,
    ensures
        multichoose_sum(m, n, k + 1) == multichoose((m - 1) as nat, n) + multichoose_sum(
            m,
            (n - 1) as nat,
            k,
        ),
    decreases k,
{
    assert(multichoose_sum(m, n, k + 1) == multichoose_sum(m, n, k) + multichoose(
        (m - 1) as nat,
        (n - k) as nat,
    ));
    if k > 0 {
        lemma_multichoose_sum_shift(m, n, (k - 1) as nat);
        assert(multichoose_sum(m, (n - 1) as nat, k) == multichoose_sum(
            m,
            (n - 1) as nat,
            (k - 1) as nat,
        ) + multichoose((m - 1) as nat, ((n - 1) - (k - 1)) as nat));
        assert(((n - 1) - (k - 1)) as nat == (n - k) as nat);
    } else {
        assert(multichoose_sum(m, n, 0) == 0);
        assert(multichoose_sum(m, (n - 1) as nat, 0) == 0);
    }
}

/// Stars and bars recurrence: the lowest face holds at least one die, or none.
proof fn lemma_multichoose_step(m: nat, n: nat)
    requires
        m >= 1,
        n >= 1,
    ensures
        multichoose(m, n) == multichoose(m, (n - 1) as nat) + multichoose((m - 1) as nat, n),
{
    lemma_multichoose_sum_shift(m, n, n);
}

/// There are C(10, 5) = 252 distinct rolls of five dice.
pub proof fn lemma_five_dice_roll_count()
    ensures
        multichoose(6, 5) == NUM_ROLLS,
{
    assert(multichoose(0, 0) == 1);
    assert forall|n: nat| 1 <= n <= 5 implies multichoose(0, n) == 0 by {}
    assert forall|m: nat| 1 <= m <= 6 implies #[trigger] multichoose(m, 0) == multichoose((m - 1) as nat, 0) by {
        assert(multichoose(m, 0) == multichoose_sum(m, 0, 1));
        assert(multichoose_sum(m, 0, 1) == multichoose_sum(m, 0, 0) + multichoose(
            (m - 1) as nat,
            0,
        ));
    }
    assert(multichoose(1, 0) == 1);
    assert(multichoose(2, 0) == 1);
    assert(multichoose(3, 0) == 1);
    assert(multichoose(4, 0) == 1);
    assert(multichoose(5, 0) == 1);
    assert(multichoose(6, 0) == 1);
    assert forall|m: nat, n: nat| 1 <= m <= 6 && 1 <= n <= 5 implies #[trigger] multichoose(m, n)
        == multichoose(m, (n - 1) as nat) + multichoose((m - 1) as nat, n) by {
        lemma_multichoose_step(m, n);
    }
    assert(multichoose(1, 1) == 1);
    assert(multichoose(1, 2) == 1);
    assert(multichoose(1, 3) == 1);
    assert(multichoose(1, 4) == 1);
    assert(multichoose(1, 5) == 1);
    assert(multichoose(2, 1) == 2);
    assert(multichoose(2, 2) == 3);
    assert(multichoose(2, 3) == 4);
    assert(multichoose(2, 4) == 5);
    assert(multichoose(2, 5) == 6);
    assert(multichoose(3, 1) == 3);
    assert(multichoose(3, 2) == 6);
    assert(multichoose(3, 3) == 10);
    assert(multichoose(3, 4) == 15);
    assert(multichoose(3, 5) == 21);
    assert(multichoose(4, 1) == 4);
    assert(multichoose(4, 2) == 10);
    assert(multichoose(4, 3) == 20);
    assert(multichoose(4, 4) == 35);
    assert(multichoose(4, 5) == 56);
    assert(multichoose(5, 1) == 5);
    assert(multichoose(5, 2) == 15);
    assert(multichoose(5, 3) == 35);
    assert(multichoose(5, 4) == 70);
    assert(multichoose(5, 5) == 126);
    assert(multichoose(6, 1) == 6);
    assert(multichoose(6, 2) == 21);
    assert(multichoose(6, 3) == 56);
    assert(multichoose(6, 4) == 126);
}

/// The sub-multisets of `roll` over faces `face..6` that extend the counts
/// `cur` fixed below `face`, lowest face count first.
spec fn keeps_from(roll: Seq<u8>, face: int, cur: Seq<u8>) -> Seq<Seq<u8>>
    decreases 6 - face, 257int,
{
    if face >= 6 {
        seq![cur]
    } else {
        keeps_choices(roll, face, cur, (roll[face] + 1) as nat)
    }
}

/// Those of `keeps_from(roll, face, cur)` keeping fewer than `k` dice of `face`.
spec fn keeps_choices(roll: Seq<u8>, face: int, cur: Seq<u8>, k: nat) -> Seq<Seq<u8>>
    decreases 6 - face, k,
{
    if face >= 6 || k == 0 {
        Seq::empty()
    } else {
        keeps_choices(roll, face, cur, (k - 1) as nat) + keeps_from(
            roll,
            face + 1,
            cur.update(face, (k - 1) as u8),
        )
    }
}

spec fn bounded_from(s: Seq<u8>, roll: Seq<u8>, face: int) -> bool {
    forall|i: int| face <= i < 6 ==> s[i] <= roll[i]
}

/// Product of `roll[i] + 1` over faces `face..6`.
spec fn keep_count_from(roll: Seq<u8>, face: int) -> int
    decreases 6 - face,
{
    if face >= 6 {
        1
    } else {
        (roll[face] + 1) * keep_count_from(roll, face + 1)
    }
}

proof fn lemma_keeps_from_contains(roll: Seq<u8>, face: int, cur: Seq<u8>, s: Seq<u8>)
    requires
        0 <= face <= 6,
        cur.len() == 6,
        roll.len() == 6,
    ensures
        keeps_from(roll, face, cur).contains(s) <==> (s.len() == 6 && agrees_below(s, cur, face)
            && bounded_from(s, roll, face)),
    decreases 6 - face, 257int,
{
    if face < 6 {
        lemma_keeps_choices_contains(roll, face, cur, (roll[face] + 1) as nat, s);
    } else {
        if s.len() == 6 && agrees_below(s, cur, face) {
            assert(s =~= cur);
        }
        assert(seq![cur][0] == cur);
    }
}

proof fn lemma_keeps_choices_contains(roll: Seq<u8>, face: int, cur: Seq<u8>, k: nat, s: Seq<u8>)
    requires
        0 <= face < 6,
        cur.len() == 6,
        roll.len() == 6,
        k <= roll[face] + 1,
    ensures
        keeps_choices(roll, face, cur, k).contains(s) <==> (s.len() == 6 && agrees_below(
            s,
            cur,
            face,
        ) && bounded_from(s, roll, face + 1) && s[face] < k),
    decreases 6 - face, k,
{
    if k > 0 {
        let j: nat = (k - 1) as nat;
        let cur2 = cur.update(face, j as u8);
        lemma_keeps_choices_contains(roll, face, cur, j, s);
        lemma_keeps_from_contains(roll, face + 1, cur2, s);
        lemma_concat_contains(
            keeps_choices(roll, face, cur, j),
            keeps_from(roll, face + 1, cur2),
            s,
        );
        if s.len() == 6 && agrees_below(s, cur, face) && s[face] == j {
            assert(agrees_below(s, cur2, face + 1));
        }
        if agrees_below(s, cur2, face + 1) {
            assert(s[face] == cur2[face]);
            assert(agrees_below(s, cur, face));
        }
    }
}

proof fn lemma_keeps_from_ascending(roll: Seq<u8>, face: int, cur: Seq<u8>)
    requires
        0 <= face <= 6,
        cur.len() == 6,
        roll.len() == 6,
    ensures
        strictly_ascending(keeps_from(roll, face, cur)),
    decreases 6 - face, 257int,
{
    if face < 6 {
        lemma_keeps_choices_ascending(roll, face, cur, (roll[face] + 1) as nat);
    }
}

proof fn lemma_keeps_choices_ascending(roll: Seq<u8>, face: int, cur: Seq<u8>, k: nat)
    requires
        0 <= face < 6,
        cur.len() == 6,
        roll.len() == 6,
        k <= roll[face] + 1,
    ensures
        strictly_ascending(keeps_choices(roll, face, cur, k)),
    decreases 6 - face, k,
{
    if k > 0 {
        let j: nat = (k - 1) as nat;
        let cur2 = cur.update(face, j as u8);
        let a = keeps_choices(roll, face, cur, j);
        let b = keeps_from(roll, face + 1, cur2);
        lemma_keeps_choices_ascending(roll, face, cur, j);
        lemma_keeps_from_ascending(roll, face + 1, cur2);
        assert forall|x: int, y: int| 0 <= x < y < (a + b).len() implies lex_less(
            (a + b)[x],
            (a + b)[y],
        ) by {
            if x < a.len() && y >= a.len() {
                let sa = a[x];
                let sb = b[y - a.len()];
                assert(a.contains(sa));
                assert(b.contains(sb));
                lemma_keeps_choices_contains(roll, face, cur, j, sa);
                lemma_keeps_from_contains(roll, face + 1, cur2, sb);
                assert(sb[face] == cur2[face]);
                assert(forall|i: int| 0 <= i < face ==> sa[i] == sb[i]);
                assert(sa[face] < sb[face]);
                assert(lex_less(sa, sb));
            } else if x >= a.len() {
                assert(lex_less(b[x - a.len()], b[y - a.len()]));
            } else {
                assert(lex_less(a[x], a[y]));
            }
        }
    }
}

proof fn lemma_keeps_from_len(roll: Seq<u8>, face: int, cur: Seq<u8>)
    requires
        0 <= face <= 6,
    ensures
        keeps_from(roll, face, cur).len() == keep_count_from(roll, face),
    decreases 6 - face, 257int,
{
    if face < 6 {
        lemma_keeps_choices_len(roll, face, cur, (roll[face] + 1) as nat);
    }
}

proof fn lemma_keeps_choices_len(roll: Seq<u8>, face: int, cur: Seq<u8>, k: nat)
    requires
        0 <= face < 6,
    ensures
        keeps_choices(roll, face, cur, k).len() == k * keep_count_from(roll, face + 1),
    decreases 6 - face, k,
{
    if k > 0 {
        let j: nat = (k - 1) as nat;
        lemma_keeps_choices_len(roll, face, cur, j);
        lemma_keeps_from_len(roll, face + 1, cur.update(face, (k - 1) as u8));
        let p = keep_count_from(roll, face + 1);
        assert(k * p == j * p + p) by (nonlinear_arith)
            requires
                k == j + 1,
        ;
    } else {
        assert(0 * keep_count_from(roll, face + 1) == 0);
    }
}

proof fn lemma_keep_count_from_zero(roll: Seq<u8>)
    ensures
        keep_count_from(roll, 0) == keep_count(roll),
{
    reveal_with_fuel(keep_count_from, 7);
    assert(keep_count_from(roll, 0) == (roll[0] + 1) * ((roll[1] + 1) * ((roll[2] + 1) * ((roll[3]
        + 1) * ((roll[4] + 1) * ((roll[5] + 1) * 1))))));
    assert((roll[0] + 1) * ((roll[1] + 1) * ((roll[2] + 1) * ((roll[3] + 1) * ((roll[4] + 1) * ((
    roll[5] + 1) * 1))))) == keep_count(roll)) by (nonlinear_arith);
}

/// Appends to `out` the sub-multisets of `roll` over faces `face..6`
/// extending `current`.
fn push_keeps(roll: &Roll, face: usize, current: Roll, out: &mut Vec<Roll>)
    requires
        face <= 6,
    ensures
        roll_views(final(out)@) == roll_views(old(out)@) + keeps_from(roll@, face as int, current@),
    decreases 6 - face,
{
    if face == 6 {
        out.push(current);
        assert(roll_views(out@) =~= roll_views(old(out)@) + seq![current@]);
        return ;
    }
    let ghost start = roll_views(out@);
    let mut k: u16 = 0;
    assert(roll_views(out@) =~= start + keeps_choices(roll@, face as int, current@, 0));
    while k <= roll[face] as u16
        invariant
            face < 6,
            k <= roll@[face as int] + 1,
            roll_views(out@) == start + keeps_choices(roll@, face as int, current@, k as nat),
        decreases roll@[face as int] + 1 - k,
    {
        let mut next: Roll = current;
        next[face] = k as u8;
        push_keeps(roll, face + 1, next, out);
        assert(next@ =~= current@.update(face as int, k as u8));
        assert(roll_views(out@) =~= start + keeps_choices(
            roll@,
            face as int,
            current@,
            (k + 1) as nat,
        ));
        k = k + 1;
    }
}

/// All sub-multisets of `roll` (the choices of dice to keep), each exactly
/// once, in ascending order of face counts.
pub fn enumerate_keeps(roll: &Roll) -> (keeps: Vec<Roll>)
    ensures
        strictly_ascending(roll_views(keeps@)),
        forall|k: Roll| keeps@.contains(k) <==> is_sub_roll(k@, roll@),
        keeps@.len() == keep_count(roll@),
{
    let mut result: Vec<Roll> = Vec::new();
    let zero: Roll = [0, 0, 0, 0, 0, 0];
    push_keeps(roll, 0, zero, &mut result);
    proof {
        assert(roll_views(result@) == keeps_from(roll@, 0, zero@));
        lemma_keeps_from_ascending(roll@, 0, zero@);
        lemma_keeps_from_len(roll@, 0, zero@);
        lemma_keep_count_from_zero(roll@);
        assert forall|k: Roll| result@.contains(k) <==> is_sub_roll(k@, roll@) by {
            lemma_keeps_from_contains(roll@, 0, zero@, k@);
            lemma_views_contains(result@, k);
        }
    }
    result
}

/// A roll occurs in a list exactly when its view occurs among the views.
proof fn lemma_views_contains(v: Seq<Roll>, r: Roll)
    ensures
        v.contains(r) <==> roll_views(v).contains(r@),
{
    if v.contains(r) {
        let i = choose|i: int| 0 <= i < v.len() && v[i] == r;
        assert(roll_views(v)[i] == r@);
    }
    if roll_views(v).contains(r@) {
        let i = choose|i: int| 0 <= i < roll_views(v).len() && roll_views(v)[i] == r@;
        assert(v[i]@ == r@);
        assert(v[i] =~= r);
    }
}

} // verus!
