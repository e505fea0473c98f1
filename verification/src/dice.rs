use vstd::prelude::*;

use crate::rolls::{dice_count, is_sub_roll, Roll};

verus! {

/// Every die shows a face from 1 to 6.
pub open spec fn valid_dice(dice: Seq<u8>) -> bool {
    dice.len() == 5 && forall|i: int| 0 <= i < 5 ==> 1 <= #[trigger] dice[i] <= 6
}

/// Number of the first `k` dice that show `face`.
pub open spec fn occurrences(dice: Seq<u8>, face: int, k: int) -> int
    decreases k,
{
    if k <= 0 {
        0
    } else {
        occurrences(dice, face, k - 1) + if dice[k - 1] == face {
            1int
        } else {
            0int
        }
    }
}

/// The roll that five dice showing these faces make.
pub open spec fn roll_of_dice(dice: Seq<u8>) -> Seq<u8> {
    Seq::new(6, |f: int| occurrences(dice, f + 1, dice.len() as int) as u8)
}

proof fn lemma_occurrences_bound(dice: Seq<u8>, face: int, k: int)
    ensures
        0 <= occurrences(dice, face, k) <= if k < 0 {
            0
        } else {
            k
        },
    decreases k,
{
    if k > 0 {
        lemma_occurrences_bound(dice, face, k - 1);
    }
}

/// Count the dice showing each face: `[d1, .., d5]` becomes face counts.
pub fn dice_to_roll(dice: &[u8; 5]) -> (roll: Roll)
    requires
        valid_dice(dice@),
    ensures
        roll@ == roll_of_dice(dice@),
        dice_count(roll@) == 5,
{
    let mut roll: Roll = [0, 0, 0, 0, 0, 0];
    let mut i: usize = 0;
    while i < 5
        invariant
            i <= 5,
            valid_dice(dice@),
            forall|f: int| 0 <= f < 6 ==> #[trigger] roll@[f] == occurrences(dice@, f + 1, i as int),
        decreases 5 - i,
    {
        let d: u8 = dice[i];
        let face: usize = (d - 1) as usize;
        proof {
            lemma_occurrences_bound(dice@, d as int, i as int);
        }
        let ghost before = roll@;
        roll[face] = roll[face] + 1;
        assert forall|f: int| 0 <= f < 6 implies #[trigger] roll@[f] == occurrences(
            dice@,
            f + 1,
            i + 1,
        ) by {
            if f != face {
                assert(roll@[f] == before[f]);
            }
        }
        i = i + 1;
    }
    assert(roll@ =~= roll_of_dice(dice@));
    proof {
        lemma_roll_of_dice_count(dice@, 5);
    }
    roll
}

/// Counting the first `k` dice by face accounts for each of them once.
proof fn lemma_roll_of_dice_count(dice: Seq<u8>, k: int)
    requires
        valid_dice(dice),
        0 <= k <= 5,
    ensures
        occurrences(dice, 1, k) + occurrences(dice, 2, k) + occurrences(dice, 3, k) + occurrences(
            dice,
            4,
            k,
        ) + occurrences(dice, 5, k) + occurrences(dice, 6, k) == k,
    decreases k,
{
    if k > 0 {
        lemma_roll_of_dice_count(dice, k - 1);
        assert(1 <= dice[k - 1] <= 6);
    }
}

/// The faces of a roll listed in increasing order, face by face from
/// `face` upward.
pub open spec fn listed_faces(roll: Seq<u8>, face: int) -> Seq<u8>
    decreases 6 - face,
{
    if face >= 6 {
        Seq::empty()
    } else {
        Seq::new(roll[face] as nat, |_i: int| (face + 1) as u8) + listed_faces(roll, face + 1)
    }
}

/// List the face value of every die in the roll, in increasing order.
pub fn roll_to_dice(roll: &Roll) -> (dice: Vec<u8>)
    ensures
        dice@ == listed_faces(roll@, 0),
{
    let mut dice: Vec<u8> = Vec::new();
    let mut face: usize = 0;
    while face < 6
        invariant
            face <= 6,
            dice@ + listed_faces(roll@, face as int) == listed_faces(roll@, 0),
        decreases 6 - face,
    {
        let ghost start = dice@;
        let mut n: u8 = 0;
        while n < roll[face]
            invariant
                face < 6,
                n <= roll@[face as int],
                dice@ == start + Seq::new(n as nat, |_i: int| (face + 1) as u8),
            decreases roll@[face as int] - n,
        {
            dice.push(face as u8 + 1);
            assert(dice@ =~= start + Seq::new((n + 1) as nat, |_i: int| (face + 1) as u8));
            n = n + 1;
        }
        assert(listed_faces(roll@, face as int) == Seq::new(roll@[face as int] as nat, |_i: int| (
        face + 1) as u8) + listed_faces(roll@, face + 1));
        assert(dice@ + listed_faces(roll@, face + 1) =~= start + listed_faces(roll@, face as int));
        face = face + 1;
    }
    assert(dice@ + listed_faces(roll@, 6) =~= dice@);
    dice
}


proof fn lemma_occurrences_prefix(a: Seq<u8>, b: Seq<u8>, face: int, k: int)
    requires
        k <= a.len(),
    ensures
        occurrences(a + b, face, k) == occurrences(a, face, k),
    decreases k,
{
    if k > 0 {
        lemma_occurrences_prefix(a, b, face, k - 1);
        assert((a + b)[k - 1] == a[k - 1]);
    }
}

proof fn lemma_occurrences_concat(a: Seq<u8>, b: Seq<u8>, face: int, j: int)
    requires
        0 <= j <= b.len(),
    ensures
        occurrences(a + b, face, a.len() + j) == occurrences(a, face, a.len() as int) + occurrences(
            b,
            face,
            j,
        ),
    decreases j,
{
    if j == 0 {
        lemma_occurrences_prefix(a, b, face, a.len() as int);
    } else {
        lemma_occurrences_concat(a, b, face, j - 1);
        assert((a + b)[a.len() + j - 1] == b[j - 1]);
    }
}

proof fn lemma_occurrences_repeat(n: nat, x: u8, face: int, k: int)
    requires
        0 <= k <= n,
    ensures
        occurrences(Seq::new(n, |_i: int| x), face, k) == if x == face {
            k
        } else {
            0
        },
    decreases k,
{
    if k > 0 {
        lemma_occurrences_repeat(n, x, face, k - 1);
    }
}

/// Dice on faces `face..6`.
spec fn dice_from(roll: Seq<u8>, face: int) -> int
    decreases 6 - face,
{
    if face >= 6 {
        0
    } else {
        roll[face] + dice_from(roll, face + 1)
    }
}

proof fn lemma_listed_faces(roll: Seq<u8>, face: int)
    requires
        0 <= face <= 6,
    ensures
        listed_faces(roll, face).len() == dice_from(roll, face),
        forall|i: int|
            0 <= i < listed_faces(roll, face).len() ==> face + 1 <= #[trigger] listed_faces(
                roll,
                face,
            )[i] <= 6,
        forall|f: int|
            0 <= f < 6 ==> #[trigger] occurrences(
                listed_faces(roll, face),
                f + 1,
                listed_faces(roll, face).len() as int,
            ) == if f >= face {
                roll[f] as int
            } else {
                0
            },
    decreases 6 - face,
{
    if face < 6 {
        lemma_listed_faces(roll, face + 1);
        let block = Seq::new(roll[face] as nat, |_i: int| (face + 1) as u8);
        let rest = listed_faces(roll, face + 1);
        assert(listed_faces(roll, face) == block + rest);
        assert forall|i: int| 0 <= i < (block + rest).len() implies face + 1 <= #[trigger] (block
            + rest)[i] <= 6 by {
            if i >= block.len() {
                assert((block + rest)[i] == rest[i - block.len()]);
            }
        }
        assert forall|f: int| 0 <= f < 6 implies #[trigger] occurrences(
            block + rest,
            f + 1,
            (block + rest).len() as int,
        ) == if f >= face {
            roll[f] as int
        } else {
            0
        } by {
            lemma_occurrences_concat(block, rest, f + 1, rest.len() as int);
            lemma_occurrences_repeat(roll[face] as nat, (face + 1) as u8, f + 1, roll[face] as int);
        }
    }
}

/// Listing the faces of a roll of five dice and counting them again gives
/// back the roll.
pub proof fn lemma_roll_dice_round_trip(roll: Seq<u8>)
    requires
        roll.len() == 6,
        dice_count(roll) == 5,
    ensures
        valid_dice(listed_faces(roll, 0)),
        roll_of_dice(listed_faces(roll, 0)) == roll,
{
    lemma_listed_faces(roll, 0);
    reveal_with_fuel(dice_from, 7);
    let listed = listed_faces(roll, 0);
    assert forall|f: int| 0 <= f < 6 implies roll_of_dice(listed)[f] == roll[f] by {
        assert(occurrences(listed, f + 1, listed.len() as int) == roll[f] as int);
    }
    assert(roll_of_dice(listed) =~= roll);
}


/// Counts of `keep` not yet assigned after the greedy pass has looked at
/// the first `k` dice: each die is kept when a die of its face is still
/// wanted.
pub open spec fn greedy_remaining(dice: Seq<u8>, keep: Seq<u8>, k: int) -> Seq<u8>
    decreases k,
{
    if k <= 0 {
        keep
    } else {
        let r = greedy_remaining(dice, keep, k - 1);
        let f = dice[k - 1] - 1;
        if r[f] > 0 {
            r.update(f, (r[f] - 1) as u8)
        } else {
            r
        }
    }
}

/// Whether the greedy pass keeps die `i`.
pub open spec fn greedy_keeps(dice: Seq<u8>, keep: Seq<u8>, i: int) -> bool {
    greedy_remaining(dice, keep, i)[dice[i] - 1] > 0
}

proof fn lemma_greedy_remaining_len(dice: Seq<u8>, keep: Seq<u8>, k: int)
    requires
        valid_dice(dice),
        keep.len() == 6,
        k <= 5,
    ensures
        greedy_remaining(dice, keep, k).len() == 6,
    decreases k,
{
    if k > 0 {
        lemma_greedy_remaining_len(dice, keep, k - 1);
    }
}

/// The marks the greedy pass sets on the five dice.
pub open spec fn greedy_marks(dice: Seq<u8>, keep: Seq<u8>) -> Seq<bool> {
    Seq::new(5, |i: int| greedy_keeps(dice, keep, i))
}

/// Mark which of the dice to keep so that they make up `keep_roll`,
/// assigning kept faces to the earliest dice that show them.
pub fn roll_to_bools(dice: &[u8; 5], keep_roll: &Roll) -> (keep: [bool; 5])
    requires
        valid_dice(dice@),
    ensures
        keep@ == greedy_marks(dice@, keep_roll@),
{
    let mut remaining: Roll = *keep_roll;
    let mut keep: [bool; 5] = [false, false, false, false, false];
    let mut i: usize = 0;
    while i < 5
        invariant
            i <= 5,
            valid_dice(dice@),
            remaining@ == greedy_remaining(dice@, keep_roll@, i as int),
            forall|j: int| 0 <= j < i ==> keep@[j] == greedy_keeps(dice@, keep_roll@, j),
            forall|j: int| i <= j < 5 ==> !keep@[j],
        decreases 5 - i,
    {
        let face: usize = (dice[i] - 1) as usize;
        let ghost kept_before = keep@;
        let ghost rem_before = remaining@;
        if remaining[face] > 0 {
            keep[i] = true;
            remaining[face] = remaining[face] - 1;
        }
        assert forall|j: int| 0 <= j < 5 implies (j < i + 1 ==> keep@[j] == greedy_keeps(
            dice@,
            keep_roll@,
            j,
        )) && (j >= i + 1 ==> !keep@[j]) by {
            if j < i {
                assert(keep@[j] == kept_before[j]);
            } else if j > i {
                assert(keep@[j] == kept_before[j]);
            } else {
                assert(rem_before == greedy_remaining(dice@, keep_roll@, i as int));
                assert(keep@[j] == (rem_before[face as int] > 0));
            }
        }
        i = i + 1;
    }
    assert(keep@ =~= greedy_marks(dice@, keep_roll@));
    keep
}

/// Number of the first `k` dice that are kept and show `face`.
pub open spec fn kept_occurrences(dice: Seq<u8>, keep: Seq<bool>, face: int, k: int) -> int
    decreases k,
{
    if k <= 0 {
        0
    } else {
        kept_occurrences(dice, keep, face, k - 1) + if keep[k - 1] && dice[k - 1] == face {
            1int
        } else {
            0int
        }
    }
}

/// The roll formed by the kept dice.
pub fn bools_to_roll(dice: &[u8; 5], keep: &[bool; 5]) -> (roll: Roll)
    requires
        valid_dice(dice@),
    ensures
        forall|f: int| 0 <= f < 6 ==> #[trigger] roll@[f] == kept_occurrences(dice@, keep@, f + 1, 5),
{
    let mut roll: Roll = [0, 0, 0, 0, 0, 0];
    let mut i: usize = 0;
    while i < 5
        invariant
            i <= 5,
            valid_dice(dice@),
            forall|f: int|
                0 <= f < 6 ==> #[trigger] roll@[f] == kept_occurrences(dice@, keep@, f + 1, i as int),
            forall|f: int| 0 <= f < 6 ==> #[trigger] roll@[f] <= i,
        decreases 5 - i,
    {
        if keep[i] {
            let face: usize = (dice[i] - 1) as usize;
            let ghost before = roll@;
            roll[face] = roll[face] + 1;
            assert forall|f: int| 0 <= f < 6 implies #[trigger] roll@[f] == kept_occurrences(
                dice@,
                keep@,
                f + 1,
                i + 1,
            ) && roll@[f] <= i + 1 by {
                if f != face {
                    assert(roll@[f] == before[f]);
                }
            }
        }
        i = i + 1;
    }
    roll
}

proof fn lemma_occurrences_monotone(dice: Seq<u8>, face: int, j: int, k: int)
    requires
        j <= k,
    ensures
        occurrences(dice, face, j) <= occurrences(dice, face, k),
    decreases k - j,
{
    if j < k {
        lemma_occurrences_monotone(dice, face, j, k - 1);
    }
}

proof fn lemma_greedy_accounts(dice: Seq<u8>, keep: Seq<u8>, k: int)
    requires
        valid_dice(dice),
        keep.len() == 6,
        0 <= k <= 5,
        forall|f: int| 0 <= f < 6 ==> keep[f] <= occurrences(dice, f + 1, 5),
    ensures
        forall|f: int|
            0 <= f < 6 ==> kept_occurrences(
                dice,
                greedy_marks(dice, keep),
                f + 1,
                k,
            ) + #[trigger] greedy_remaining(dice, keep, k)[f] == keep[f] && greedy_remaining(
                dice,
                keep,
                k,
            )[f] <= occurrences(dice, f + 1, 5) - occurrences(dice, f + 1, k),
    decreases k,
{
    if k > 0 {
        lemma_greedy_accounts(dice, keep, k - 1);
        lemma_greedy_remaining_len(dice, keep, k - 1);
        let bools = greedy_marks(dice, keep);
        let r = greedy_remaining(dice, keep, k - 1);
        assert(bools[k - 1] == greedy_keeps(dice, keep, k - 1));
        assert forall|f: int| 0 <= f < 6 implies kept_occurrences(dice, bools, f + 1, k)
            + #[trigger] greedy_remaining(dice, keep, k)[f] == keep[f] && greedy_remaining(
            dice,
            keep,
            k,
        )[f] <= occurrences(dice, f + 1, 5) - occurrences(dice, f + 1, k) by {
            assert(r[f] + kept_occurrences(dice, bools, f + 1, k - 1) == keep[f]);
            lemma_occurrences_monotone(dice, f + 1, k, 5);
            let d = dice[k - 1];
            if d == f + 1 && r[f] > 0 {
                assert(greedy_remaining(dice, keep, k)[f] == r[f] - 1);
            } else if d == f + 1 {
                assert(greedy_remaining(dice, keep, k)[f] == r[f]);
            } else {
                assert(greedy_remaining(dice, keep, k)[f] == r[f]);
            }
        }
    }
}

/// Marking the dice for a keep taken from those dice, and collecting the
/// marked dice again, gives back the keep.
pub proof fn lemma_keep_round_trip(dice: Seq<u8>, keep: Seq<u8>)
    requires
        valid_dice(dice),
        keep.len() == 6,
        is_sub_roll(keep, roll_of_dice(dice)),
    ensures
        forall|f: int|
            0 <= f < 6 ==> #[trigger] kept_occurrences(
                dice,
                greedy_marks(dice, keep),
                f + 1,
                5,
            ) == keep[f],
{
    assert forall|f: int| 0 <= f < 6 implies keep[f] <= occurrences(dice, f + 1, 5) by {
        assert(roll_of_dice(dice)[f] == occurrences(dice, f + 1, 5) as u8);
        lemma_occurrences_bound(dice, f + 1, 5);
    }
    lemma_greedy_accounts(dice, keep, 5);
    lemma_greedy_remaining_len(dice, keep, 5);
    assert forall|f: int| 0 <= f < 6 implies #[trigger] kept_occurrences(
        dice,
        greedy_marks(dice, keep),
        f + 1,
        5,
    ) == keep[f] by {
        assert(greedy_remaining(dice, keep, 5)[f] >= 0);
    }
}

} // verus!
