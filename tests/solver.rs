use rust_peg_solver::{
    clear_border, validate_board, MoveDirection, Solver, SolverError, HOLE, PEG,
};

const N: usize = 11 + 1;

const BOARD: &str = "...........
...........
....●●●....
....●●●....
..●●●●●●●..
..●●●◎●●●..
..●●●●●●●..
....●●●....
....●●●....
...........
...........";

const BOARD_NO_CENTER: &str = "...........
...........
....●●●....
....●●●....
..●●●●●●●..
..●●●○●●●..
..●●●●●●●..
....●●●....
....●●●....
...........
...........";

const BOARD_TWO_CENTERS: &str = "...........
...........
....●●●....
....●●●....
..●●●●●●●..
..●●●◎●●●..
..●●●●●●●..
....●◎●....
....●●●....
...........
...........";

const BOARD_FULL_CENTER_PEG: &str = "...........
...........
....●●●....
....●●●....
..●●●●●●●..
..●●●◉●●●..
..●●●●●●●..
....●●●....
....●●●....
...........
...........";

/// Index of the middle cell of the cross.
const MIDDLE: usize = 5 * N + 5;

fn chars(s: &str) -> Vec<char> {
    s.chars().collect()
}

fn count(board: &[char], c: char) -> usize {
    board.iter().filter(|x| **x == c).count()
}

fn step_of(direction: &MoveDirection, row_length: usize) -> isize {
    match direction {
        MoveDirection::Up => -(row_length as isize),
        MoveDirection::Down => row_length as isize,
        MoveDirection::Left => -1,
        MoveDirection::Right => 1,
        MoveDirection::Still => 0,
    }
}

/// Checks that each step of the solution is a legal jump whose result is the
/// next step's board, and that the last step is the end marker.
fn check_solution(solver: &Solver, row_length: usize) {
    let sol = &solver.solution;
    assert!(!sol.is_empty());
    for k in 0..sol.len() - 1 {
        let m = &sol[k];
        assert_ne!(m.direction, MoveDirection::Still);
        let step = step_of(&m.direction, row_length);
        let mid = (m.start_pos as isize + step) as usize;
        let end = (m.start_pos as isize + 2 * step) as usize;
        assert_eq!(m.board[m.start_pos], PEG);
        assert_eq!(m.board[mid], PEG);
        assert_eq!(m.board[end], HOLE);
        let mut next = m.board.clone();
        Solver::make_move(&mut next, m.start_pos, step);
        assert_eq!(next, sol[k + 1].board);
    }
    let last = sol.last().unwrap();
    assert_eq!(last.direction, MoveDirection::Still);
    assert_eq!(last.start_pos, 0);
    assert_eq!(count(&last.board, PEG), 1);
}

#[test]
fn test_board1_valid() {
    let mut board: Vec<char> = Vec::new();
    for ch in BOARD.chars() {
        board.push(ch);
    }
    assert!(validate_board(&board));
}

#[test]
fn test_english_peg_solo_moves() {
    let mut solver = Solver::init(BOARD, N).unwrap();
    solver.solve();
    assert_eq!(solver.solution.len(), 32);
}

#[test]
fn test_english_peg_solo_from_file_moves() {
    let contents = BOARD.replace('\n', "\r\n");
    let mut solver = Solver::init_from_contents(&contents).unwrap();
    solver.solve();
    assert_eq!(solver.solution.len(), 32);
}

#[test]
fn test_english_peg_no_center() {
    let mut solver = Solver::init(BOARD_NO_CENTER, N).unwrap();
    solver.solve();
    assert_eq!(solver.solution.len(), 32);
}

#[test]
fn test_english_peg_2_centers() {
    let r = Solver::init(BOARD_TWO_CENTERS, N);
    assert_eq!(r.err(), Some(SolverError::CenterAlreadyDefined));
}

#[test]
fn english_cross_ends_on_center() {
    let mut solver = Solver::init(BOARD, N).unwrap();
    assert_eq!(solver.peg_count, 32);
    assert!(solver.solve());
    // one jump per peg but the last, then the end marker
    assert_eq!(solver.solution.len(), 31 + 1);
    check_solution(&solver, N);
    let last = &solver.solution.last().unwrap().board;
    assert_eq!(last[MIDDLE], PEG);
    assert_eq!(solver.solution[0].board, chars(BOARD_NO_CENTER));
}

#[test]
fn english_cross_first_jump_in_scan_order() {
    let mut solver = Solver::init(BOARD, N).unwrap();
    assert!(solver.solve());
    // in scan order the first peg with a legal jump stands two rows above
    // the middle and jumps down into it
    let first = &solver.solution[0];
    assert_eq!(first.start_pos, 3 * N + 5);
    assert_eq!(first.direction, MoveDirection::Down);
}

#[test]
fn full_cross_with_center_peg_has_no_jump() {
    let mut solver = Solver::init(BOARD_FULL_CENTER_PEG, N).unwrap();
    assert_eq!(solver.peg_count, 33);
    assert!(!solver.solve());
    assert!(solver.solution.is_empty());
}

#[test]
fn no_center_accepts_any_last_cell() {
    let mut solver = Solver::init(BOARD_NO_CENTER, N).unwrap();
    assert!(solver.solve());
    check_solution(&solver, N);
}

#[test]
fn two_centers_refused_before_layout() {
    // two centers on a board that is also malformed: the center error wins
    let text = ".......\n.......\n..◎◉...\n.......\n...";
    assert_eq!(
        Solver::init(text, 8).err(),
        Some(SolverError::CenterAlreadyDefined)
    );
}

const LINE: &str = ".......\n.......\n..●●○..\n.......\n.......";

#[test]
fn single_jump_without_center() {
    let mut solver = Solver::init(LINE, 8).unwrap();
    assert_eq!(solver.peg_count, 2);
    assert!(solver.solve());
    assert_eq!(solver.solution.len(), 2);
    assert_eq!(solver.solution[0].start_pos, 18);
    assert_eq!(solver.solution[0].direction, MoveDirection::Right);
    assert_eq!(solver.solution[1].board[20], PEG);
    check_solution(&solver, 8);
}

#[test]
fn single_jump_onto_center() {
    let mut solver = Solver::init(".......\n.......\n..●●◎..\n.......\n.......", 8).unwrap();
    assert!(solver.solve());
    assert_eq!(solver.solution.len(), 2);
    check_solution(&solver, 8);
}

#[test]
fn last_peg_off_center_is_no_win() {
    let mut solver = Solver::init(".......\n.......\n..◉●○..\n.......\n.......", 8).unwrap();
    assert!(!solver.solve());
    assert!(solver.solution.is_empty());
}

#[test]
fn single_peg_on_center_is_already_won() {
    let mut solver = Solver::init(".......\n.......\n..○◉○..\n.......\n.......", 8).unwrap();
    assert!(solver.solve());
    assert_eq!(solver.solution.len(), 1);
    assert_eq!(solver.solution[0].direction, MoveDirection::Still);
    assert_eq!(solver.solution[0].start_pos, 0);
}

#[test]
fn board_without_pegs_is_no_win() {
    let mut solver = Solver::init(".......\n.......\n..○○○..\n.......\n.......", 8).unwrap();
    assert_eq!(solver.peg_count, 0);
    assert!(!solver.solve());
}

#[test]
fn vertical_jump_upwards() {
    let text = ".....\n.....\n..○..\n..●..\n..●..\n.....\n.....";
    let mut solver = Solver::init(text, 6).unwrap();
    assert!(solver.solve());
    assert_eq!(solver.solution[0].start_pos, 4 * 6 + 2);
    assert_eq!(solver.solution[0].direction, MoveDirection::Up);
    check_solution(&solver, 6);
}

#[test]
fn wrong_row_length_is_invalid() {
    assert_eq!(Solver::init(BOARD, 11).err(), Some(SolverError::InvalidBoard));
    assert_eq!(Solver::init(BOARD, 0).err(), Some(SolverError::InvalidBoard));
}

#[test]
fn malformed_board_is_invalid() {
    let text = ".......\n.......\n●.●●○..\n.......\n.......";
    assert_eq!(Solver::init(text, 8).err(), Some(SolverError::InvalidBoard));
}

#[test]
fn contents_without_row_break_refused() {
    assert_eq!(
        Solver::init_from_contents("......").err(),
        Some(SolverError::MissingRowBreak)
    );
}

#[test]
fn contents_take_row_length_from_first_row() {
    let mut solver = Solver::init_from_contents(".......\r\n.......\r\n..●●○..\r\n.......\r\n.......").unwrap();
    assert!(solver.solve());
    assert_eq!(solver.solution[0].start_pos, 18);
    check_solution(&solver, 8);
}

#[test]
fn validate_refuses_uneven_rows() {
    assert!(!validate_board(&chars(".......\n......\n.......\n.......\n.......")));
}

#[test]
fn validate_refuses_peg_in_border() {
    assert!(!validate_board(&chars(".......\n..●....\n.......\n.......\n.......")));
    assert!(!validate_board(&chars(".......\n.......\n.●●●○..\n.......\n.......")));
    assert!(!validate_board(&chars(".......\n.......\n..●●○●.\n.......\n.......")));
}

#[test]
fn validate_refuses_unknown_symbol() {
    assert!(!validate_board(&chars(".......\n.......\n..●x○..\n.......\n.......")));
}

#[test]
fn validate_accepts_small_board() {
    assert!(validate_board(&chars(".......\n.......\n..●●○..\n.......\n.......")));
    assert!(validate_board(&chars(".......\n.......\n..◎◉○..\n.......\n.......")));
}

#[test]
fn validate_row_length_bounds() {
    let long_row = ".".repeat(39);
    let wide = format!("{}\n{}", long_row, long_row);
    assert!(!validate_board(&chars(&wide)));
    let row = ".".repeat(38);
    let widest = format!("{}\n{}", row, row);
    assert!(validate_board(&chars(&widest)));
    assert!(!validate_board(&chars("...\n...")));
    assert!(!validate_board(&chars("")));
}

#[test]
fn clear_border_of_cross() {
    let cleared = clear_border(&chars(BOARD_NO_CENTER));
    assert_eq!(cleared.row_count, 7);
    assert_eq!(cleared.column_count, 7);
    let text: String = cleared.board.iter().collect();
    assert_eq!(
        text,
        "..●●●..\n..●●●..\n●●●●●●●\n●●●○●●●\n●●●●●●●\n..●●●..\n..●●●..\n"
    );
}

#[test]
fn clear_border_of_thin_board() {
    let cleared = clear_border(&chars("......\n......\n......"));
    assert_eq!(cleared.row_count, 0);
    assert_eq!(cleared.column_count, 2);
    assert!(cleared.board.is_empty());
}

#[test]
fn direction_from_step() {
    assert_eq!(MoveDirection::from(1), MoveDirection::Right);
    assert_eq!(MoveDirection::from(-1), MoveDirection::Left);
    assert_eq!(MoveDirection::from(12), MoveDirection::Down);
    assert_eq!(MoveDirection::from(-12), MoveDirection::Up);
    assert_eq!(MoveDirection::from(0), MoveDirection::Still);
}

#[test]
fn jump_then_take_back_restores() {
    let before = chars(LINE);
    let mut board = before.clone();
    Solver::make_move(&mut board, 18, 1);
    assert_eq!(board[18], HOLE);
    assert_eq!(board[19], HOLE);
    assert_eq!(board[20], PEG);
    Solver::unmove(&mut board, 18, 1);
    assert_eq!(board, before);
}
