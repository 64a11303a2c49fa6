//! The solver: decoding a board, the backtracking search and the solution.

use crate::board::{
    count_centers, decoded, direction_step, first_row_break, is_center_marker,
    lemma_centers_prefix, lemma_valid_jumps_in_bounds, plain, row_width, valid_board,
    validate_board, without_returns, GameMove, MoveDirection, CENTER_HOLE, CENTER_PEG, HOLE, PEG,
    ROW_BREAK,
};
use crate::rules::{
    can_be_won, count_pegs, is_goal, is_step, jumped, jumps_in_bounds, lemma_count_bound,
    lemma_count_prefix, lemma_goal_single_peg, lemma_jump_count, lemma_jump_layout, lemma_jump_then_take_back,
    lemma_win_by_jump, legal, step_of, unjumped, wins,
};
use vstd::prelude::*;

verus! {

/// The center as a spec value.
pub open spec fn center_of(center: Option<usize>) -> Option<int> {
    match center {
        Some(c) => Some(c as int),
        None => None,
    }
}

/// `sol` records a win from `start`: it opens on `start`, each step but the
/// last is a legal jump whose result opens the next step, and the last step
/// is the `Still` marker on a goal board.
pub open spec fn records_win(
    sol: Seq<GameMove>,
    start: Seq<char>,
    row_length: int,
    center: Option<int>,
) -> bool {
    &&& sol.len() >= 1
    &&& sol[0].board@ == start
    &&& forall|k: int|
        #![trigger sol[k]]
        0 <= k < sol.len() - 1 ==> {
            let step = direction_step(sol[k].direction, row_length);
            &&& sol[k].direction != MoveDirection::Still
            &&& legal(sol[k].board@, sol[k].start_pos as int, step)
            &&& sol[k + 1].board@ == jumped(sol[k].board@, sol[k].start_pos as int, step)
        }
    &&& sol.last().direction == MoveDirection::Still
    &&& sol.last().start_pos == 0
    &&& is_goal(sol.last().board@, center)
}

/// When a win is recorded, its last board holds exactly one peg, and that
/// peg stands on the center when one was declared.
pub proof fn lemma_solution_ends_on_center(
    sol: Seq<GameMove>,
    start: Seq<char>,
    row_length: int,
    center: Option<int>,
)
    requires
        records_win(sol, start, row_length, center),
    ensures
        count_pegs(sol.last().board@) == 1,
        forall|i: int|
            0 <= i < sol.last().board@.len() && #[trigger] sol.last().board@[i] == PEG ==> match center {
                Some(c) => i == c,
                None => true,
            },
{
    lemma_goal_single_peg(sol.last().board@, center);
}

/// Why a board text was refused.
#[derive(Debug, Clone, Copy, PartialEq, Eq, Structural)]
pub enum SolverError {
    /// A second center marker was found.
    CenterAlreadyDefined,
    /// The board breaks the layout rules, or its rows are not of the given
    /// length.
    InvalidBoard,
    /// The text holds no row break, so no row length can be taken from it.
    MissingRowBreak,
}

/// What decoding the text `s` with rows of `row_length` gives: the
/// duplicate-center error exactly when `s` holds two center markers or
/// more; otherwise the layout error exactly when the decoded board is not
/// well-formed with rows of `row_length`; otherwise a solver on the decoded
/// board, with its pegs counted, its center at the one center marker if
/// any, and no solution yet.
pub open spec fn decodes_to(s: Seq<char>, row_length: int, r: Result<Solver, SolverError>) -> bool {
    &&& (count_centers(s) >= 2 <==> r == Err::<Solver, SolverError>(
        SolverError::CenterAlreadyDefined,
    ))
    &&& (count_centers(s) < 2 && !(valid_board(decoded(s)) && row_width(decoded(s)) == row_length)
        <==> r == Err::<Solver, SolverError>(SolverError::InvalidBoard))
    &&& r != Err::<Solver, SolverError>(SolverError::MissingRowBreak)
    &&& r is Ok ==> {
        let solver = r->Ok_0;
        &&& solver.wf()
        &&& solver.start() == decoded(s)
        &&& solver.row_length() == row_length
        &&& solver.pegs() == count_pegs(decoded(s))
        &&& solver.steps().len() == 0
        &&& match solver.center() {
            Some(c) => 0 <= c < s.len() && is_center_marker(s[c]),
            None => count_centers(s) == 0,
        }
    }
}

/// A peg solitaire solver over one board.
#[derive(Debug)]
pub struct Solver {
    /// Length of a row, the row break included.
    row_length: usize,
    /// The starting board; center markers are stored as plain pegs or holes.
    board: Vec<char>,
    /// Index of the center cell, where the last peg must stand.
    center: Option<usize>,
    /// Number of pegs on the starting board.
    pub peg_count: u32,
    /// The solution found by the last successful [`Solver::solve`].
    pub solution: Vec<GameMove>,
}

impl Solver {
    /// The starting board.
    pub closed spec fn start(&self) -> Seq<char> {
        self.board@
    }

    /// Length of a row, the row break included.
    pub closed spec fn row_length(&self) -> int {
        self.row_length as int
    }

    /// Index of the center cell, if any.
    pub closed spec fn center(&self) -> Option<int> {
        center_of(self.center)
    }

    /// Number of pegs on the starting board, as [`Solver::peg_count`] holds it.
    pub closed spec fn pegs(&self) -> u32 {
        self.peg_count
    }

    /// The steps of the solution, as [`Solver::solution`] holds them.
    pub closed spec fn steps(&self) -> Seq<GameMove> {
        self.solution@
    }

    /// Decodes the board text `chars` with rows of `row_length`: see
    /// [`decodes_to`].
    fn from_chars(chars: &Vec<char>, row_length: usize) -> (r: Result<Solver, SolverError>)
        requires
            chars@.len() <= u32::MAX,
        ensures
            decodes_to(chars@, row_length as int, r),
    {
        let n = chars.len();
        let mut center: Option<usize> = None;
        let mut board: Vec<char> = Vec::new();
        let mut peg_count: u32 = 0;
        let mut i: usize = 0;
        while i < n
            invariant
                n == chars@.len(),
                n <= u32::MAX,
                i <= n,
                board@ == decoded(chars@.subrange(0, i as int)),
                peg_count == count_pegs(board@),
                count_centers(chars@.subrange(0, i as int)) <= 1,
                match center {
                    Some(c) => c < i && is_center_marker(chars@[c as int]) && count_centers(
                        chars@.subrange(0, i as int),
                    ) == 1,
                    None => count_centers(chars@.subrange(0, i as int)) == 0,
                },
            decreases n - i,
        {
            let c = chars[i];
            let ghost prefix = chars@.subrange(0, i as int);
            let ghost next = chars@.subrange(0, i + 1);
            assert(next.drop_last() =~= prefix);
            assert(decoded(next) =~= decoded(prefix).push(plain(c)));
            if c == CENTER_HOLE || c == CENTER_PEG {
                if center.is_some() {
                    proof {
                        lemma_centers_prefix(chars@, i + 1);
                    }
                    return Err(SolverError::CenterAlreadyDefined);
                }
                center = Some(i);
            }
            let p = if c == CENTER_HOLE {
                HOLE
            } else if c == CENTER_PEG {
                PEG
            } else {
                c
            };
            proof {
                assert(board@.push(p).drop_last() =~= board@);
                lemma_count_bound(board@);
            }
            board.push(p);
            if p == PEG {
                peg_count = peg_count + 1;
            }
            i = i + 1;
        }
        assert(chars@.subrange(0, n as int) =~= chars@);
        if !validate_board(&board) {
            return Err(SolverError::InvalidBoard);
        }
        let first = first_row_break(&board);
        if row_length == 0 || first != row_length - 1 {
            return Err(SolverError::InvalidBoard);
        }
        proof {
            lemma_valid_jumps_in_bounds(board@);
        }
        Ok(Solver { row_length, board, center, peg_count, solution: Vec::new() })
    }

    /// The characters of `text`.
    fn chars_of(text: &str) -> (r: Vec<char>)
        ensures
            r@ == text@,
    {
        let n = text.unicode_len();
        let mut r: Vec<char> = Vec::new();
        let mut i: usize = 0;
        while i < n
            invariant
                n == text@.len(),
                i <= n,
                r@ == text@.subrange(0, i as int),
            decreases n - i,
        {
            r.push(text.get_char(i));
            i = i + 1;
            assert(r@ =~= text@.subrange(0, i as int));
        }
        assert(r@ =~= text@);
        r
    }

    /// Builds a solver from the board text `init_board`, whose rows are
    /// `row_length` long, the row break included: see [`decodes_to`].
    pub fn init(init_board: &str, row_length: usize) -> (r: Result<Solver, SolverError>)
        requires
            init_board@.len() <= u32::MAX,
        ensures
            decodes_to(init_board@, row_length as int, r),
    {
        let chars = Self::chars_of(init_board);
        Self::from_chars(&chars, row_length)
    }

    /// Builds a solver from the contents of a board file: carriage returns
    /// are dropped, and the row length is taken from the first row. Without
    /// any row break the contents are refused.
    pub fn init_from_contents(contents: &str) -> (r: Result<Solver, SolverError>)
        requires
            contents@.len() <= u32::MAX,
        ensures
            ({
                let s = without_returns(contents@);
                &&& (forall|j: int| 0 <= j < s.len() ==> s[j] != ROW_BREAK) ==> r == Err::<
                    Solver,
                    SolverError,
                >(SolverError::MissingRowBreak)
                &&& (exists|j: int| 0 <= j < s.len() && s[j] == ROW_BREAK) ==> decodes_to(
                    s,
                    row_width(s),
                    r,
                )
            }),
    {
        let n = contents.unicode_len();
        let mut chars: Vec<char> = Vec::new();
        let mut i: usize = 0;
        while i < n
            invariant
                n == contents@.len(),
                i <= n,
                chars@ == without_returns(contents@.subrange(0, i as int)),
                chars@.len() <= i,
            decreases n - i,
        {
            let c = contents.get_char(i);
            assert(contents@.subrange(0, i + 1).drop_last() =~= contents@.subrange(0, i as int));
            if c != '\r' {
                chars.push(c);
            }
            i = i + 1;
        }
        assert(contents@.subrange(0, n as int) =~= contents@);
        let first = first_row_break(&chars);
        if first == chars.len() {
            return Err(SolverError::MissingRowBreak);
        }
        Self::from_chars(&chars, first + 1)
    }

    /// What the search relies on: rows of a usable length, jumps that stay
    /// inside the board, and a center inside it.
    pub closed spec fn wf(&self) -> bool {
        &&& 2 <= self.row_length < 40
        &&& jumps_in_bounds(self.board@, self.row_length as int)
        &&& match self.center {
            Some(c) => c < self.board@.len(),
            None => true,
        }
    }

    /// `pos` moved by `step`.
    fn shift(pos: usize, step: isize) -> (r: usize)
        requires
            0 <= pos + step <= usize::MAX,
            isize::MIN < step,
        ensures
            r == pos + step,
    {
        if step >= 0 {
            pos + step as usize
        } else {
            pos - (-step) as usize
        }
    }

    /// Makes the jump from `pos` by `step` on `board`: the cells at `pos`
    /// and `pos + step` become holes and the cell at `pos + 2 * step` a peg.
    pub fn make_move(board: &mut Vec<char>, pos: usize, step: isize)
        requires
            pos < old(board)@.len(),
            0 <= pos + step < old(board)@.len(),
            0 <= pos + 2 * step < old(board)@.len(),
            isize::MIN < step,
        ensures
            final(board)@ == jumped(old(board)@, pos as int, step as int),
    {
        let _len = board.len();
        let mid = Self::shift(pos, step);
        let end = Self::shift(mid, step);
        board.set(pos, HOLE);
        board.set(mid, HOLE);
        board.set(end, PEG);
    }

    /// Takes back the jump from `pos` by `step` on `board`: the cells at
    /// `pos` and `pos + step` become pegs and the cell at `pos + 2 * step` a
    /// hole.
    pub fn unmove(board: &mut Vec<char>, pos: usize, step: isize)
        requires
            pos < old(board)@.len(),
            0 <= pos + step < old(board)@.len(),
            0 <= pos + 2 * step < old(board)@.len(),
            isize::MIN < step,
        ensures
            final(board)@ == unjumped(old(board)@, pos as int, step as int),
    {
        let _len = board.len();
        let mid = Self::shift(pos, step);
        let end = Self::shift(mid, step);
        board.set(pos, PEG);
        board.set(mid, PEG);
        board.set(end, HOLE);
    }

    /// Number of pegs on `board`.
    fn count_board_pegs(board: &Vec<char>) -> (n: usize)
        ensures
            n == count_pegs(board@),
    {
        let mut n: usize = 0;
        let mut i: usize = 0;
        while i < board.len()
            invariant
                i <= board@.len(),
                n == count_pegs(board@.subrange(0, i as int)),
            decreases board@.len() - i,
        {
            proof {
                lemma_count_prefix(board@, i as int);
                lemma_count_bound(board@.subrange(0, i as int));
            }
            if board[i] == PEG {
                n = n + 1;
            }
            i = i + 1;
        }
        assert(board@.subrange(0, board@.len() as int) =~= board@);
        n
    }

    /// A copy of `board`.
    fn copy_board(board: &Vec<char>) -> (r: Vec<char>)
        ensures
            r@ == board@,
    {
        let r = board.clone();
        assert(r@ =~= board@);
        r
    }

    /// Depth-first search from `board`: tries the jumps in scan order (cells
    /// ascending, then left, up, right, down), descends into the first legal
    /// one, and on failure takes it back and goes on with the next.
    ///
    /// On success the jumps that win are appended to `moves` and `board` is
    /// left in the final position; otherwise both are as they were.
    fn search(
        board: &mut Vec<char>,
        row_length: usize,
        center: Option<usize>,
        pegs: usize,
        moves: &mut Vec<(usize, isize)>,
    ) -> (found: bool)
        requires
            2 <= row_length < 40,
            jumps_in_bounds(old(board)@, row_length as int),
            pegs == count_pegs(old(board)@),
            match center {
                Some(c) => c < old(board)@.len(),
                None => true,
            },
        ensures
            found == can_be_won(old(board)@, row_length as int, center_of(center)),
            found ==> old(moves)@.len() <= final(moves)@.len() && final(moves)@.subrange(
                0,
                old(moves)@.len() as int,
            ) == old(moves)@ && wins(
                old(board)@,
                row_length as int,
                center_of(center),
                final(moves)@.subrange(old(moves)@.len() as int, final(moves)@.len() as int),
            ),
            !found ==> final(board)@ == old(board)@ && final(moves)@ == old(moves)@,
        decreases pegs,
    {
        let ghost b0 = board@;
        let ghost m0 = moves@;
        let ghost rl = row_length as int;
        let ghost cs = center_of(center);
        let at_center = match center {
            Some(c) => board[c] == PEG,
            None => true,
        };
        if pegs == 1 && at_center {
            assert(wins(b0, rl, cs, Seq::empty()));
            assert(moves@.subrange(0, m0.len() as int) =~= m0);
            assert(moves@.subrange(m0.len() as int, moves@.len() as int) =~= Seq::empty());
            return true;
        }
        let len = board.len();
        let mut pos: usize = 0;
        while pos < len
            invariant
                2 <= row_length < 40,
                rl == row_length,
                cs == center_of(center),
                board@ == b0,
                moves@ == m0,
                b0 == old(board)@,
                m0 == old(moves)@,
                len == b0.len(),
                pegs == count_pegs(b0),
                jumps_in_bounds(b0, rl),
                !is_goal(b0, cs),
                pos <= len,
                match center {
                    Some(c) => c < len,
                    None => true,
                },
                forall|p: int, d: int|
                    0 <= p < pos && 0 <= d < 4 && legal(b0, p, step_of(d, rl)) ==> !can_be_won(
                        #[trigger] jumped(b0, p, step_of(d, rl)),
                        rl,
                        cs,
                    ),
            decreases len - pos,
        {
            if board[pos] == PEG {
                assert(2 * rl <= pos && pos + 2 * rl < len);
                let mut d: usize = 0;
                while d < 4
                    invariant
                        2 <= row_length < 40,
                        rl == row_length,
                        cs == center_of(center),
                        board@ == b0,
                        moves@ == m0,
                        b0 == old(board)@,
                        m0 == old(moves)@,
                        len == b0.len(),
                        pegs == count_pegs(b0),
                        jumps_in_bounds(b0, rl),
                        !is_goal(b0, cs),
                        pos < len,
                        2 * rl <= pos && pos + 2 * rl < len,
                        d <= 4,
                        match center {
                            Some(c) => c < len,
                            None => true,
                        },
                        forall|p: int, e: int|
                            (0 <= p < pos && 0 <= e < 4 || p == pos && 0 <= e < d) && legal(
                                b0,
                                p,
                                step_of(e, rl),
                            ) ==> !can_be_won(#[trigger] jumped(b0, p, step_of(e, rl)), rl, cs),
                    decreases 4 - d,
                {
                    let step: isize = if d == 0 {
                        -1
                    } else if d == 1 {
                        -(row_length as isize)
                    } else if d == 2 {
                        1
                    } else {
                        row_length as isize
                    };
                    assert(step == step_of(d as int, rl));
                    let mid = Self::shift(pos, step);
                    let end = Self::shift(mid, step);
                    if board[pos] == PEG && board[mid] == PEG && board[end] == HOLE {
                        let ghost b1 = jumped(b0, pos as int, step as int);
                        proof {
                            lemma_jump_count(b0, pos as int, step as int);
                            lemma_jump_layout(b0, pos as int, step as int, rl);
                        }
                        Self::make_move(board, pos, step);
                        moves.push((pos, step));
                        let ghost m1 = moves@;
                        if Self::search(board, row_length, center, pegs - 1, moves) {
                            proof {
                                let tail = moves@.subrange(m1.len() as int, moves@.len() as int);
                                let path = moves@.subrange(m0.len() as int, moves@.len() as int);
                                assert(moves@.subrange(0, m1.len() as int)[m0.len() as int]
                                    == m1[m0.len() as int]);
                                assert(path[0] == (pos, step));
                                assert(path.drop_first() =~= tail);
                                assert(moves@.subrange(0, m0.len() as int) =~= m0) by {
                                    assert(m1.subrange(0, m0.len() as int) =~= m0);
                                }
                                lemma_win_by_jump(b0, rl, cs, pos, step, tail);
                                assert(path =~= seq![(pos, step)] + tail);
                                assert(wins(b0, rl, cs, path));
                                assert(can_be_won(b0, rl, cs));
                            }
                            return true;
                        }
                        moves.pop();
                        assert(moves@ =~= m0);
                        Self::unmove(board, pos, step);
                        proof {
                            lemma_jump_then_take_back(b0, pos as int, step as int);
                        }
                    }
                    d = d + 1;
                }
            }
            pos = pos + 1;
        }
        proof {
            assert forall|path: Seq<(usize, isize)>| !#[trigger] wins(b0, rl, cs, path) by {
                if path.len() > 0 {
                    let (p, st) = path[0];
                    if is_step(st as int, rl) && legal(b0, p as int, st as int) {
                        let d: int = if st == -1 {
                            0
                        } else if st == -rl {
                            1
                        } else if st == 1 {
                            2
                        } else {
                            3
                        };
                        assert(step_of(d, rl) == st);
                        assert(!can_be_won(jumped(b0, p as int, step_of(d, rl)), rl, cs));
                        assert(!wins(jumped(b0, p as int, st as int), rl, cs, path.drop_first()));
                    }
                }
            }
        }
        false
    }

    /// Searches for jumps that leave a single peg, on the center if one was
    /// declared, and on success records them in `solution`: each step holds
    /// the board before its jump, and a final `Still` step holds the board
    /// that is left. Returns whether such jumps exist; without them
    /// `solution` is left empty. The starting board is kept.
    pub fn solve(&mut self) -> (r: bool)
        requires
            old(self).wf(),
        ensures
            final(self).wf(),
            final(self).start() == old(self).start(),
            final(self).row_length() == old(self).row_length(),
            final(self).center() == old(self).center(),
            final(self).pegs() == old(self).pegs(),
            r == can_be_won(old(self).start(), old(self).row_length(), old(self).center()),
            r ==> records_win(
                final(self).steps(),
                old(self).start(),
                old(self).row_length(),
                old(self).center(),
            ),
            !r ==> final(self).steps().len() == 0,
    {
        self.solution = Vec::new();
        let pegs = Self::count_board_pegs(&self.board);
        let mut work = Self::copy_board(&self.board);
        let mut moves: Vec<(usize, isize)> = Vec::new();
        if !Self::search(&mut work, self.row_length, self.center, pegs, &mut moves) {
            return false;
        }
        let ghost start = self.board@;
        let ghost rl = self.row_length as int;
        let ghost cs = center_of(self.center);
        assert(moves@.subrange(0, moves@.len() as int) =~= moves@);
        let mut board = Self::copy_board(&self.board);
        let mut i: usize = 0;
        while i < moves.len()
            invariant
                self.wf(),
                self.board@ == start,
                self.row_length == rl,
                center_of(self.center) == cs,
                self.peg_count == old(self).peg_count,
                start == old(self).board@,
                rl == old(self).row_length,
                cs == center_of(old(self).center),
                i <= moves@.len(),
                wins(board@, rl, cs, moves@.subrange(i as int, moves@.len() as int)),
                self.solution@.len() == i,
                i == 0 ==> board@ == start,
                i > 0 ==> self.solution@[0].board@ == start,
                forall|k: int|
                    #![trigger self.solution@[k]]
                    0 <= k < i ==> {
                        let m = self.solution@[k];
                        let step = direction_step(m.direction, rl);
                        &&& m.direction != MoveDirection::Still
                        &&& legal(m.board@, m.start_pos as int, step)
                        &&& jumped(m.board@, m.start_pos as int, step) == if k + 1 < i {
                            self.solution@[k + 1].board@
                        } else {
                            board@
                        }
                    },
            decreases moves@.len() - i,
        {
            let (pos, step) = moves[i];
            let ghost rest = moves@.subrange(i as int, moves@.len() as int);
            assert(rest[0] == (pos, step));
            assert(rest.drop_first() =~= moves@.subrange(i + 1, moves@.len() as int));
            let snapshot = Self::copy_board(&board);
            let direction = MoveDirection::from(step as i32);
            assert(direction_step(direction, rl) == step);
            let ghost before = self.solution@;
            self.solution.push(GameMove { board: snapshot, start_pos: pos, direction });
            assert(self.solution@[i as int].board@ == board@);
            Self::make_move(&mut board, pos, step);
            proof {
                assert forall|k: int| 0 <= k < i implies #[trigger] self.solution@[k] == before[k] by {}
            }
            i = i + 1;
        }
        assert(moves@.subrange(i as int, moves@.len() as int) =~= Seq::<(usize, isize)>::empty());
        let ghost before = self.solution@;
        self.solution.push(GameMove { board, start_pos: 0, direction: MoveDirection::Still });
        proof {
            assert forall|k: int| 0 <= k < i implies #[trigger] self.solution@[k] == before[k] by {}
        }
        true
    }
}

} // verus!
