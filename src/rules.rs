//! The rules of play over the flat board: counting pegs, legal jumps, their
//! effect, and which boards can be won.

use crate::board::{HOLE, PEG};
use vstd::prelude::*;

verus! {

/// Number of pegs on `s`.
pub open spec fn count_pegs(s: Seq<char>) -> nat
    decreases s.len(),
{
    if s.len() == 0 {
        0
    } else {
        count_pegs(s.drop_last()) + if s.last() == PEG {
            1nat
        } else {
            0nat
        }
    }
}

/// A cell that takes part in play.
pub open spec fn playable(c: char) -> bool {
    c == PEG || c == HOLE
}

/// The jump from `pos` over `pos + step` into `pos + 2 * step` is legal on `b`.
pub open spec fn legal(b: Seq<char>, pos: int, step: int) -> bool {
    &&& 0 <= pos < b.len()
    &&& 0 <= pos + step < b.len()
    &&& 0 <= pos + 2 * step < b.len()
    &&& b[pos] == PEG
    &&& b[pos + step] == PEG
    &&& b[pos + 2 * step] == HOLE
}

/// `b` after the jump from `pos` by `step`.
pub open spec fn jumped(b: Seq<char>, pos: int, step: int) -> Seq<char> {
    b.update(pos, HOLE).update(pos + step, HOLE).update(pos + 2 * step, PEG)
}

/// `b` with the jump from `pos` by `step` taken back.
pub open spec fn unjumped(b: Seq<char>, pos: int, step: int) -> Seq<char> {
    b.update(pos, PEG).update(pos + step, PEG).update(pos + 2 * step, HOLE)
}

/// The step of direction `d` on rows of length `row_length`, in scan order:
/// left, up, right, down.
pub open spec fn step_of(d: int, row_length: int) -> int {
    if d == 0 {
        -1
    } else if d == 1 {
        -row_length
    } else if d == 2 {
        1
    } else {
        row_length
    }
}

/// One peg is left, and it stands on the center if there is one.
pub open spec fn is_goal(b: Seq<char>, center: Option<int>) -> bool {
    &&& count_pegs(b) == 1
    &&& match center {
        Some(c) => 0 <= c < b.len() && b[c] == PEG,
        None => true,
    }
}

/// A step of one cell or of one row, either way.
pub open spec fn is_step(step: int, row_length: int) -> bool {
    step == -1 || step == 1 || step == -row_length || step == row_length
}

/// Playing the jumps of `path`, each a start cell and a step, in order from
/// `b` is legal at each jump and ends in a goal.
pub open spec fn wins(
    b: Seq<char>,
    row_length: int,
    center: Option<int>,
    path: Seq<(usize, isize)>,
) -> bool
    decreases path.len(),
{
    if path.len() == 0 {
        is_goal(b, center)
    } else {
        let (pos, step) = path[0];
        &&& is_step(step as int, row_length)
        &&& legal(b, pos as int, step as int)
        &&& wins(jumped(b, pos as int, step as int), row_length, center, path.drop_first())
    }
}

/// Some sequence of legal jumps turns `b` into a goal.
pub open spec fn can_be_won(b: Seq<char>, row_length: int, center: Option<int>) -> bool {
    exists|path: Seq<(usize, isize)>| #[trigger] wins(b, row_length, center, path)
}

/// Every playable cell lies two rows away from both ends of `b`, so that a
/// jump from it in any direction stays inside `b`.
pub open spec fn jumps_in_bounds(b: Seq<char>, row_length: int) -> bool {
    forall|i: int|
        0 <= i < b.len() && playable(#[trigger] b[i]) ==> 2 * row_length <= i && i + 2
            * row_length < b.len()
}

/// Changing one cell changes the count by what left and what came.
pub proof fn lemma_count_update(s: Seq<char>, i: int, c: char)
    requires
        0 <= i < s.len(),
    ensures
        count_pegs(s.update(i, c)) as int == count_pegs(s) as int - (if s[i] == PEG {
            1int
        } else {
            0int
        }) + (if c == PEG {
            1int
        } else {
            0int
        }),
    decreases s.len(),
{
    if i == s.len() - 1 {
        assert(s.update(i, c).drop_last() =~= s.drop_last());
    } else {
        assert(s.update(i, c).drop_last() =~= s.drop_last().update(i, c));
        lemma_count_update(s.drop_last(), i, c);
    }
}

/// The count of a prefix grows by the cell that is added.
pub proof fn lemma_count_prefix(s: Seq<char>, i: int)
    requires
        0 <= i < s.len(),
    ensures
        count_pegs(s.subrange(0, i + 1)) == count_pegs(s.subrange(0, i)) + if s[i] == PEG {
            1nat
        } else {
            0nat
        },
{
    assert(s.subrange(0, i + 1).drop_last() =~= s.subrange(0, i));
}

/// There are no more pegs than cells.
pub proof fn lemma_count_bound(s: Seq<char>)
    ensures
        count_pegs(s) <= s.len(),
    decreases s.len(),
{
    if s.len() > 0 {
        lemma_count_bound(s.drop_last());
    }
}

/// A legal jump needs two pegs and removes one.
pub proof fn lemma_jump_count(b: Seq<char>, pos: int, step: int)
    requires
        legal(b, pos, step),
    ensures
        count_pegs(b) >= 2,
        count_pegs(jumped(b, pos, step)) == count_pegs(b) - 1,
{
    let b1 = b.update(pos, HOLE);
    let b2 = b1.update(pos + step, HOLE);
    lemma_count_update(b, pos, HOLE);
    lemma_count_update(b1, pos + step, HOLE);
    lemma_count_update(b2, pos + 2 * step, PEG);
}

/// A legal jump changes pegs and holes only, and keeps every cell's part in
/// play: unreachable cells and row breaks stay where they are.
pub proof fn lemma_jump_layout(b: Seq<char>, pos: int, step: int, row_length: int)
    requires
        legal(b, pos, step),
    ensures
        jumped(b, pos, step).len() == b.len(),
        forall|i: int|
            0 <= i < b.len() ==> (playable(#[trigger] jumped(b, pos, step)[i]) <==> playable(b[i])),
        forall|i: int|
            0 <= i < b.len() && !playable(b[i]) ==> #[trigger] jumped(b, pos, step)[i] == b[i],
        jumps_in_bounds(b, row_length) ==> jumps_in_bounds(jumped(b, pos, step), row_length),
{
    let j = jumped(b, pos, step);
    assert forall|i: int| 0 <= i < b.len() implies (playable(#[trigger] j[i]) <==> playable(b[i])) by {
    }
    if jumps_in_bounds(b, row_length) {
        assert forall|i: int| 0 <= i < j.len() && playable(#[trigger] j[i]) implies 2 * row_length
            <= i && i + 2 * row_length < j.len() by {
            assert(playable(b[i]));
        }
    }
}

/// Taking back a jump right after making it restores the board cell for
/// cell.
pub proof fn lemma_jump_then_take_back(b: Seq<char>, pos: int, step: int)
    requires
        legal(b, pos, step),
    ensures
        unjumped(jumped(b, pos, step), pos, step) == b,
{
    assert(unjumped(jumped(b, pos, step), pos, step) =~= b);
}

/// A legal jump followed by a winning sequence is a winning sequence.
pub proof fn lemma_win_by_jump(
    b: Seq<char>,
    row_length: int,
    center: Option<int>,
    pos: usize,
    step: isize,
    path: Seq<(usize, isize)>,
)
    requires
        is_step(step as int, row_length),
        legal(b, pos as int, step as int),
        wins(jumped(b, pos as int, step as int), row_length, center, path),
    ensures
        wins(b, row_length, center, seq![(pos, step)] + path),
{
    assert((seq![(pos, step)] + path).drop_first() =~= path);
}

/// Two different cells holding pegs make at least two pegs.
proof fn lemma_two_pegs(b: Seq<char>, i: int, j: int)
    requires
        0 <= i < b.len(),
        0 <= j < b.len(),
        i != j,
        b[i] == PEG,
        b[j] == PEG,
    ensures
        count_pegs(b) >= 2,
{
    let b1 = b.update(i, HOLE);
    lemma_count_update(b, i, HOLE);
    lemma_count_update(b1, j, HOLE);
}

/// On a goal board exactly one cell holds a peg, and when a center is
/// given that cell is the center.
pub proof fn lemma_goal_single_peg(b: Seq<char>, center: Option<int>)
    requires
        is_goal(b, center),
    ensures
        exists|i: int| 0 <= i < b.len() && #[trigger] b[i] == PEG,
        forall|i: int, j: int|
            0 <= i < b.len() && 0 <= j < b.len() && #[trigger] b[i] == PEG && #[trigger] b[j] == PEG
                ==> i == j,
        forall|i: int|
            0 <= i < b.len() && #[trigger] b[i] == PEG ==> match center {
                Some(c) => i == c,
                None => true,
            },
{
    assert forall|i: int, j: int|
        0 <= i < b.len() && 0 <= j < b.len() && #[trigger] b[i] == PEG && #[trigger] b[j]
            == PEG implies i == j by {
        if i != j {
            lemma_two_pegs(b, i, j);
        }
    }
    if forall|i: int| 0 <= i < b.len() ==> b[i] != PEG {
        lemma_no_pegs(b);
    }
}

/// A board without pegs counts none.
proof fn lemma_no_pegs(b: Seq<char>)
    requires
        forall|i: int| 0 <= i < b.len() ==> b[i] != PEG,
    ensures
        count_pegs(b) == 0,
    decreases b.len(),
{
    if b.len() > 0 {
        lemma_no_pegs(b.drop_last());
    }
}

} // verus!
