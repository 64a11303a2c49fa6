//! Board text layout: symbols, the validity rules and the interior view.

use vstd::arithmetic::div_mod::{lemma_fundamental_div_mod, lemma_fundamental_div_mod_converse};
use crate::rules::{jumps_in_bounds, playable};
use vstd::prelude::*;

verus! {

/// A cell that holds a peg (●).
pub const PEG: char = '\u{25CF}';

/// A playable cell without a peg (○).
pub const HOLE: char = '\u{25CB}';

/// The center cell, starting as a hole (◎).
pub const CENTER_HOLE: char = '\u{25CE}';

/// The center cell, starting with a peg (◉).
pub const CENTER_PEG: char = '\u{25C9}';

/// A cell outside of play.
pub const EMPTY: char = '.';

/// The end of a row.
pub const ROW_BREAK: char = '\n';

/// Rows must be shorter than this, the row break included.
pub const MAX_COLUMN_COUNT: usize = 40;

/// Rows must be at least this long, the row break included: two border cells
/// on each side and the row break.
pub const MIN_ROW_LENGTH: usize = 5;

/// A board with the size of its interior.
pub struct GameBoard {
    /// Cells, row by row, each row ended by a row break.
    pub board: Vec<char>,
    /// Number of rows.
    pub row_count: u32,
    /// Number of cells in a row, the row break not included.
    pub column_count: u32,
}

/// Direction of a jump.
#[derive(Debug, Clone, Copy, PartialEq, Eq, Structural)]
pub enum MoveDirection {
    Up,
    Down,
    Left,
    Right,
    /// Marks the end of a solution: no jump.
    Still,
}

/// The direction of a signed step: one cell to the right or left, a row
/// down or up, or none.
pub open spec fn direction_of(value: int) -> MoveDirection {
    if value == 1 {
        MoveDirection::Right
    } else if value == -1 {
        MoveDirection::Left
    } else if value > 1 {
        MoveDirection::Down
    } else if value < -1 {
        MoveDirection::Up
    } else {
        MoveDirection::Still
    }
}

/// The signed step of direction `d` on rows of length `row_length`.
pub open spec fn direction_step(d: MoveDirection, row_length: int) -> int {
    match d {
        MoveDirection::Up => -row_length,
        MoveDirection::Down => row_length,
        MoveDirection::Left => -1,
        MoveDirection::Right => 1,
        MoveDirection::Still => 0,
    }
}

impl From<i32> for MoveDirection {
    fn from(value: i32) -> (r: Self)
        ensures
            r == direction_of(value as int),
    {
        if value == 1 {
            return MoveDirection::Right;
        }
        if value == -1 {
            return MoveDirection::Left;
        }
        if value > 1 {
            return MoveDirection::Down;
        }
        if value < -1 {
            return MoveDirection::Up;
        }
        MoveDirection::Still
    }
}

impl vstd::std_specs::convert::FromSpecImpl<i32> for MoveDirection {
    open spec fn obeys_from_spec() -> bool {
        true
    }

    open spec fn from_spec(v: i32) -> Self {
        direction_of(v as int)
    }
}

/// One step of a solution: the board before the jump, and the jump.
#[derive(Debug)]
pub struct GameMove {
    /// The board before the jump.
    pub board: Vec<char>,
    /// Index of the jumping peg.
    pub start_pos: usize,
    /// Direction of the jump.
    pub direction: MoveDirection,
}

/// One past the index of the first row break at or after `i`, or one past
/// the end when there is none.
pub open spec fn width_from(s: Seq<char>, i: int) -> int
    decreases s.len() - i,
{
    if i < 0 || i >= s.len() || s[i] == ROW_BREAK {
        i + 1
    } else {
        width_from(s, i + 1)
    }
}

/// Length of a row of `s`, its row break included: taken from the first row.
pub open spec fn row_width(s: Seq<char>) -> int {
    width_from(s, 0)
}

/// Number of rows of `s`; the last row carries no row break.
pub open spec fn row_total(s: Seq<char>) -> int {
    (s.len() as int + 1) / row_width(s)
}

/// The cell at `row`, `col` lies in the playable interior: two rows and two
/// columns away from every edge (the row break counts as a column).
pub open spec fn is_interior(row: int, col: int, width: int, rows: int) -> bool {
    &&& 2 <= row
    &&& row + 3 <= rows
    &&& 2 <= col
    &&& col + 4 <= width
}

/// Symbols accepted inside the interior.
pub open spec fn interior_symbol(c: char) -> bool {
    c == EMPTY || c == PEG || c == HOLE || c == CENTER_HOLE || c == CENTER_PEG
}

/// What may stand at `row`, `col` of a board with `rows` rows of `width`.
pub open spec fn cell_fits(c: char, row: int, col: int, width: int, rows: int) -> bool {
    if col == width - 1 {
        c == ROW_BREAK
    } else if is_interior(row, col, width, rows) {
        interior_symbol(c)
    } else {
        c == EMPTY
    }
}

/// A well-formed board: rows of one width between the bounds, row breaks
/// exactly at the end of each row but the last, and only unreachable cells
/// outside the interior.
pub open spec fn valid_board(s: Seq<char>) -> bool {
    let w = row_width(s);
    &&& MIN_ROW_LENGTH <= w < MAX_COLUMN_COUNT
    &&& (s.len() as int + 1) % w == 0
    &&& forall|i: int| 0 <= i < s.len() ==> cell_fits(#[trigger] s[i], i / w, i % w, w, row_total(s))
}

/// Splits `x` by `w` and, at the end of a row, names the next row.
proof fn lemma_split(x: int, w: int)
    requires
        0 <= x,
        0 < w,
    ensures
        x == (x / w) * w + x % w,
        0 <= x % w < w,
        0 <= x / w,
        x % w == w - 1 ==> (x + 1) % w == 0 && (x + 1) / w == x / w + 1,
        x % w < w - 1 ==> (x + 1) % w == x % w + 1 && (x + 1) / w == x / w,
        1 < w && 0 < x ==> x / w < x,
{
    lemma_fundamental_div_mod(x, w);
    let q = x / w;
    assert(w * q == q * w) by (nonlinear_arith);
    assert(0 <= q) by (nonlinear_arith)
        requires
            0 <= x,
            0 < w,
            q == x / w,
    ;
    assert(1 < w && 0 < x ==> q < x) by (nonlinear_arith)
        requires
            x == q * w + x % w,
            0 <= x % w,
            0 <= q,
    ;
    assert((q + 1) * w == q * w + w) by (nonlinear_arith);
    if x % w == w - 1 {
        lemma_fundamental_div_mod_converse(x + 1, w, x / w + 1, 0);
    } else {
        lemma_fundamental_div_mod_converse(x + 1, w, x / w, x % w + 1);
    }
}

/// A cell of the interior lies two rows away from both ends.
proof fn lemma_interior_bounds(i: int, w: int, rows: int, len: int)
    requires
        0 <= i < len,
        0 < w,
        len + 1 == rows * w,
        is_interior(i / w, i % w, w, rows),
    ensures
        2 * w <= i,
        i + 2 * w < len,
{
    lemma_split(i, w);
    let r = i / w;
    let c = i % w;
    assert(2 * w <= r * w) by (nonlinear_arith)
        requires
            2 <= r,
            0 < w,
    ;
    assert((r + 2) * w <= (rows - 1) * w) by (nonlinear_arith)
        requires
            r + 3 <= rows,
            0 < w,
    ;
    assert((r + 2) * w == r * w + 2 * w && (rows - 1) * w == rows * w - w) by (nonlinear_arith);
}

/// On a well-formed board every peg or hole can jump two cells in any
/// direction without leaving the board.
pub proof fn lemma_valid_jumps_in_bounds(s: Seq<char>)
    requires
        valid_board(s),
    ensures
        jumps_in_bounds(s, row_width(s)),
{
    let w = row_width(s);
    let rows = row_total(s);
    lemma_split(s.len() as int + 1, w);
    assert forall|i: int| 0 <= i < s.len() && playable(#[trigger] s[i]) implies 2 * w <= i && i + 2
        * w < s.len() by {
        assert(cell_fits(s[i], i / w, i % w, w, rows));
        lemma_interior_bounds(i, w, rows, s.len() as int);
    }
}

/// Checks that `board` is a well-formed board: see [`valid_board`].
pub fn validate_board(board: &Vec<char>) -> (r: bool)
    ensures
        r == valid_board(board@),
{
    let size = board.len();
    let first = first_row_break(board);
    if first >= MAX_COLUMN_COUNT - 1 || first < MIN_ROW_LENGTH - 1 {
        return false;
    }
    let width = first + 1;
    proof {
        lemma_split(size as int, width as int);
    }
    if size % width != width - 1 {
        return false;
    }
    let rows = size / width + 1;
    let mut row: usize = 0;
    let mut col: usize = 0;
    let mut k: usize = 0;
    while k < size
        invariant
            size == board@.len(),
            width as int == row_width(board@),
            MIN_ROW_LENGTH <= width < MAX_COLUMN_COUNT,
            rows as int == row_total(board@),
            (size as int + 1) % (width as int) == 0,
            k <= size,
            col < width,
            row as int == (k as int) / (width as int),
            col as int == (k as int) % (width as int),
            forall|j: int|
                0 <= j < k ==> cell_fits(
                    #[trigger] board@[j],
                    j / (width as int),
                    j % (width as int),
                    width as int,
                    rows as int,
                ),
        decreases size - k,
    {
        let c = board[k];
        let fits = if col == width - 1 {
            c == ROW_BREAK
        } else if row >= 2 && rows >= 3 && row <= rows - 3 && col >= 2 && col + 4 <= width {
            c == EMPTY || c == PEG || c == HOLE || c == CENTER_HOLE || c == CENTER_PEG
        } else {
            c == EMPTY
        };
        if !fits {
            let ghost (ki, wi) = (k as int, width as int);
            assert(!cell_fits(board@[ki], ki / wi, ki % wi, wi, rows as int));
            return false;
        }
        proof {
            lemma_split(k as int, width as int);
        }
        if col == width - 1 {
            col = 0;
            row = row + 1;
        } else {
            col = col + 1;
        }
        k = k + 1;
    }
    true
}

/// One of the two center markers.
pub open spec fn is_center_marker(c: char) -> bool {
    c == CENTER_HOLE || c == CENTER_PEG
}

/// The plain symbol of `c`: a center marker becomes the hole or peg it
/// starts as.
pub open spec fn plain(c: char) -> char {
    if c == CENTER_HOLE {
        HOLE
    } else if c == CENTER_PEG {
        PEG
    } else {
        c
    }
}

/// The board that the text `s` describes, center markers made plain.
pub open spec fn decoded(s: Seq<char>) -> Seq<char> {
    s.map_values(|c: char| plain(c))
}

/// Number of center markers in `s`.
pub open spec fn count_centers(s: Seq<char>) -> nat
    decreases s.len(),
{
    if s.len() == 0 {
        0
    } else {
        count_centers(s.drop_last()) + if is_center_marker(s.last()) {
            1nat
        } else {
            0nat
        }
    }
}

/// A prefix holds no more center markers than the whole.
pub proof fn lemma_centers_prefix(s: Seq<char>, i: int)
    requires
        0 <= i <= s.len(),
    ensures
        count_centers(s.subrange(0, i)) <= count_centers(s),
    decreases s.len(),
{
    if i < s.len() {
        assert(s.drop_last().subrange(0, i) =~= s.subrange(0, i));
        lemma_centers_prefix(s.drop_last(), i);
    } else {
        assert(s.subrange(0, i) =~= s);
    }
}

/// The text `s` with every carriage return left out.
pub open spec fn without_returns(s: Seq<char>) -> Seq<char>
    decreases s.len(),
{
    if s.len() == 0 {
        s
    } else if s.last() == '\r' {
        without_returns(s.drop_last())
    } else {
        without_returns(s.drop_last()).push(s.last())
    }
}

/// Index of the first row break of `board`, or its length when it has none.
pub fn first_row_break(board: &Vec<char>) -> (i: usize)
    ensures
        i <= board@.len(),
        row_width(board@) == i + 1,
        i == board@.len() || board@[i as int] == ROW_BREAK,
        forall|j: int| 0 <= j < i ==> board@[j] != ROW_BREAK,
{
    let size = board.len();
    let mut first: usize = 0;
    while first < size && board[first] != ROW_BREAK
        invariant
            first <= size,
            size == board@.len(),
            width_from(board@, 0) == width_from(board@, first as int),
            forall|j: int| 0 <= j < first ==> board@[j] != ROW_BREAK,
        decreases size - first,
    {
        first = first + 1;
    }
    first
}

/// The cell at index `i` of a board with `rows` rows of `width` belongs to
/// the interior view: it lies in an interior row, and in an interior column
/// or on the row break.
pub open spec fn kept(i: int, width: int, rows: int) -> bool {
    let (row, col) = (i / width, i % width);
    &&& 2 <= row
    &&& row + 3 <= rows
    &&& (2 <= col && col + 4 <= width || col == width - 1)
}

/// The cells among the first `n` of `s` that the interior view keeps, in
/// order.
pub open spec fn interior_cells(s: Seq<char>, n: int, width: int, rows: int) -> Seq<char>
    decreases n,
{
    if n <= 0 {
        Seq::empty()
    } else if kept(n - 1, width, rows) {
        interior_cells(s, n - 1, width, rows).push(s[n - 1])
    } else {
        interior_cells(s, n - 1, width, rows)
    }
}

/// Strips the two-cell border from a well-formed board: the interior rows,
/// each cut to its interior columns and ended by a row break, with the
/// number of those rows and columns.
pub fn clear_border(board: &Vec<char>) -> (r: GameBoard)
    requires
        valid_board(board@),
        board@.len() <= u32::MAX,
    ensures
        r.board@ == interior_cells(board@, board@.len() as int, row_width(board@), row_total(board@)),
        r.row_count == if row_total(board@) >= 4 {
            row_total(board@) - 4
        } else {
            0
        },
        r.column_count == row_width(board@) - 5,
{
    let size = board.len();
    let width = first_row_break(board) + 1;
    proof {
        lemma_split(size as int, width as int);
    }
    let rows = size / width + 1;
    let mut new_board: Vec<char> = Vec::new();
    let mut row: usize = 0;
    let mut col: usize = 0;
    let mut k: usize = 0;
    while k < size
        invariant
            size == board@.len(),
            width as int == row_width(board@),
            MIN_ROW_LENGTH <= width < MAX_COLUMN_COUNT,
            rows as int == row_total(board@),
            k <= size,
            col < width,
            row as int == (k as int) / (width as int),
            col as int == (k as int) % (width as int),
            new_board@ == interior_cells(board@, k as int, width as int, rows as int),
        decreases size - k,
    {
        if row >= 2 && rows >= 3 && row <= rows - 3 && (col >= 2 && col + 4 <= width || col == width
            - 1) {
            new_board.push(board[k]);
        }
        proof {
            lemma_split(k as int, width as int);
        }
        if col == width - 1 {
            col = 0;
            row = row + 1;
        } else {
            col = col + 1;
        }
        k = k + 1;
    }
    let row_count: u32 = if rows >= 4 {
        (rows - 4) as u32
    } else {
        0
    };
    GameBoard { board: new_board, row_count, column_count: (width - 5) as u32 }
}

/// When the decoded board of `s` is well-formed, every cell outside its
/// interior is unreachable or a row break there, as written in `s`, and
/// decoding leaves every unreachable cell of `s` unreachable.
pub proof fn lemma_border_stays_unreachable(s: Seq<char>)
    requires
        valid_board(decoded(s)),
    ensures
        ({
            let b = decoded(s);
            let w = row_width(b);
            forall|i: int|
                0 <= i < s.len() && !is_interior(i / w, i % w, w, row_total(b)) ==> (#[trigger] b[i]
                    == EMPTY || b[i] == ROW_BREAK) && b[i] == s[i]
        }),
        forall|i: int| 0 <= i < s.len() && s[i] == EMPTY ==> #[trigger] decoded(s)[i] == EMPTY,
{
    let b = decoded(s);
    let w = row_width(b);
    assert forall|i: int|
        0 <= i < s.len() && !is_interior(i / w, i % w, w, row_total(b)) implies (#[trigger] b[i]
        == EMPTY || b[i] == ROW_BREAK) && b[i] == s[i] by {
        assert(cell_fits(b[i], i / w, i % w, w, row_total(b)));
    }
}

} // verus!
