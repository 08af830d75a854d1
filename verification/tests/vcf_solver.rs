use renjulibviewer::vcf::blackforbiddenmove::BlackForbiddenKind as Forbidden;
use renjulibviewer::vcf::model::{BOARD_CELLS, BOARD_SIZE};
use renjulibviewer::vcf::solver::{
    depth_schedule, side_to_move, BitBoard, SearchMode, Signal, SolveOutcome, Solver, BLACK, WHITE,
};
use std::sync::atomic::AtomicBool;
use std::sync::Arc;
use std::time::Duration;

#[test]
fn bitboard_set_replace_and_clear() {
    let cells = [0; BOARD_CELLS];
    let mut board = BitBoard::from_cells(&cells);
    for idx in [0, 63, 64, 127, 128, 191, 224] {
        board.set(idx, BLACK);
        assert_eq!(board.get(idx), BLACK);
        board.set(idx, WHITE);
        assert_eq!(board.get(idx), WHITE);
        board.clear(idx);
        assert!(board.is_empty(idx));
    }
}

#[test]
fn long_depth_schedule_reaches_beyond_fifty_without_every_iteration() {
    let schedule = depth_schedule(61);
    assert_eq!(schedule.last(), Some(&61));
    assert!(schedule.contains(&53));
    assert!(!schedule.contains(&51));
    assert!(schedule.len() < 20);
}

#[test]
fn cancelled_search_stops_before_work() {
    let cancel = Arc::new(AtomicBool::new(true));
    let result = Solver::solve_with_cancel(
        [0; BOARD_CELLS],
        BLACK,
        81,
        Duration::from_secs(10),
        cancel,
        SearchMode::Fast,
    );
    assert!(matches!(result, SolveOutcome::Cancelled));
}

#[test]
fn cached_active_range_restores_after_remove() {
    let mut board = [0; BOARD_CELLS];
    board[7 * BOARD_SIZE + 7] = BLACK;
    let mut solver = Solver::new(board, SearchMode::Fast);
    let original = solver.active_range();
    solver.put(14 * BOARD_SIZE + 14, WHITE);
    assert_eq!(solver.active_range(), (5, 14, 5, 14));
    solver.remove(14 * BOARD_SIZE + 14, WHITE);
    assert_eq!(solver.active_range(), original);
}

#[test]
fn side_to_move_checks_counts() {
    let mut board = [0; BOARD_CELLS];
    assert_eq!(side_to_move(&board).unwrap(), BLACK);
    board[112] = BLACK;
    assert_eq!(side_to_move(&board).unwrap(), WHITE);
    board[113] = BLACK;
    assert!(side_to_move(&board).is_err());
}

#[test]
fn finds_immediate_five() {
    let mut board = [0; BOARD_CELLS];
    for x in 4..8 {
        board[7 * BOARD_SIZE + x] = BLACK;
    }
    let result = Solver::solve(board, BLACK, 1, Duration::from_secs(1), SearchMode::Fast);
    assert!(matches!(result, SolveOutcome::Found(path) if path.len() == 1));
}

#[test]
fn long_mode_keeps_fast_mode_candidate_order_for_basic_win() {
    let mut board = [0; BOARD_CELLS];
    for x in 4..8 {
        board[7 * BOARD_SIZE + x] = BLACK;
    }
    let fast = Solver::solve(board, BLACK, 9, Duration::from_secs(1), SearchMode::Fast);
    let long = Solver::solve(board, BLACK, 9, Duration::from_secs(1), SearchMode::Long);
    assert!(matches!(fast, SolveOutcome::Found(path) if path.len() == 1));
    assert!(matches!(long, SolveOutcome::Found(path) if path.len() == 1));
}

#[test]
fn does_not_ignore_opponents_open_four() {
    let mut board = [0; BOARD_CELLS];
    for x in 3..7 {
        board[3 * BOARD_SIZE + x] = WHITE;
    }
    for x in 4..7 {
        board[10 * BOARD_SIZE + x] = BLACK;
    }
    board[12 * BOARD_SIZE + 12] = BLACK;

    let result = Solver::solve(board, BLACK, 3, Duration::from_secs(1), SearchMode::Fast);
    assert!(matches!(result, SolveOutcome::NotFound));
}

#[test]
fn forbidden_overline_survives_bitboard_conversion() {
    let mut cells = [0; BOARD_CELLS];
    for x in 3..9 {
        cells[7 * BOARD_SIZE + x] = BLACK;
    }
    let mut solver = Solver::new(cells, SearchMode::Fast);
    assert_eq!(solver.forbidden(8, 7, true), Some(Forbidden::Overline));
}

#[test]
fn forbidden_double_four_survives_bitboard_conversion() {
    let mut cells = [0; BOARD_CELLS];
    for x in 4..=7 {
        cells[7 * BOARD_SIZE + x] = BLACK;
    }
    for y in 4..=6 {
        cells[y * BOARD_SIZE + 7] = BLACK;
    }
    let mut solver = Solver::new(cells, SearchMode::Fast);
    assert_eq!(solver.forbidden(7, 7, true), Some(Forbidden::DoubleFour));
}

#[test]
fn forbidden_double_three_survives_bitboard_conversion() {
    let mut cells = [0; BOARD_CELLS];
    for (x, y) in [(6, 7), (7, 7), (8, 7), (7, 6), (7, 8)] {
        cells[y * BOARD_SIZE + x] = BLACK;
    }
    let mut solver = Solver::new(cells, SearchMode::Fast);
    assert_eq!(solver.forbidden(7, 7, true), Some(Forbidden::DoubleThree));
}

#[test]
fn forbidden_points_include_double_three_but_not_exact_five() {
    let mut double_three = [0; BOARD_CELLS];
    for (x, y) in [(6, 7), (8, 7), (7, 6), (7, 8)] {
        double_three[y * BOARD_SIZE + x] = BLACK;
    }
    for (x, y) in [(0, 0), (1, 0), (2, 0), (3, 0)] {
        double_three[y * BOARD_SIZE + x] = WHITE;
    }
    assert!(Solver::black_forbidden_points(double_three).contains(&(7 * BOARD_SIZE + 7)));

    let mut exact_five = [0; BOARD_CELLS];
    for x in 3..7 {
        exact_five[7 * BOARD_SIZE + x] = BLACK;
    }
    exact_five[..4].fill(WHITE);
    assert!(!Solver::black_forbidden_points(exact_five).contains(&(7 * BOARD_SIZE + 7)));
}

#[test]
fn false_double_three_ignores_three_whose_vital_point_is_forbidden() {
    let mut cells = [0; BOARD_CELLS];
    for (x, y) in [
        (6, 7),
        (8, 7),
        (7, 8),
        (7, 10),
        (6, 9),
        (8, 9),
        (6, 8),
        (8, 10),
    ] {
        cells[y * BOARD_SIZE + x] = BLACK;
    }

    let b = 7 * BOARD_SIZE + 7;
    let a = 9 * BOARD_SIZE + 7;

    let mut with_b = cells;
    with_b[b] = BLACK;
    assert_eq!(Solver::is_black_forbidden(with_b, a), Some("double-three"));
    assert_eq!(Solver::is_black_forbidden(cells, b), None);
}

fn row_of_black(xs: std::ops::Range<usize>) -> [u8; BOARD_CELLS] {
    let mut board = [0; BOARD_CELLS];
    for x in xs {
        board[7 * BOARD_SIZE + x] = BLACK;
    }
    board
}

#[test]
fn inspect_move_rejects_bad_moves() {
    let board = row_of_black(4..8);
    assert_eq!(Solver::inspect_move(board, 225, BLACK).err(), Some("invalid move".to_string()));
    assert_eq!(Solver::inspect_move(board, 0, 0).err(), Some("invalid move".to_string()));
    assert_eq!(Solver::inspect_move(board, 7 * BOARD_SIZE + 4, WHITE).err(), Some("occupied".to_string()));
}

#[test]
fn inspect_move_describes_a_winning_move() {
    let board = row_of_black(4..8);
    let snap = Solver::inspect_move(board, 7 * BOARD_SIZE + 8, BLACK).unwrap();
    assert!(snap.wins);
    assert!(snap.makes_four);
    assert_eq!(snap.forbidden, None);
    let three = row_of_black(5..8);
    let snap = Solver::inspect_move(three, 7 * BOARD_SIZE + 8, BLACK).unwrap();
    assert!(!snap.wins);
    assert!(snap.makes_four);
    assert!(snap.straight_four);
    assert!(snap.defenses.contains(&(7 * BOARD_SIZE + 4)));
    assert!(snap.defenses.contains(&(7 * BOARD_SIZE + 9)));
}

#[test]
fn immediate_win_finds_an_end_of_the_four() {
    let board = row_of_black(4..8);
    let w = Solver::immediate_win(board, BLACK).unwrap();
    assert!(w == 7 * BOARD_SIZE + 3 || w == 7 * BOARD_SIZE + 8);
    assert_eq!(Solver::immediate_win(board, WHITE), None);
}

#[test]
fn attacks_and_defenses_of_a_three() {
    let board = row_of_black(7..10);
    let attacks = Solver::vcf_attacks_for(board, BLACK);
    assert!(attacks.contains(&(7 * BOARD_SIZE + 6)));
    assert!(attacks.contains(&(7 * BOARD_SIZE + 10)));
    let four = row_of_black(7..11);
    let defenses = Solver::vcf_defenses_for(four, BLACK, 7 * BOARD_SIZE + 10);
    assert!(defenses.contains(&(7 * BOARD_SIZE + 6)));
    assert!(defenses.contains(&(7 * BOARD_SIZE + 11)));
    assert_eq!(defenses.len(), 2);
}

#[test]
fn shortest_search_finds_the_five() {
    let board = row_of_black(4..8);
    let result = Solver::solve_shortest(board, BLACK, 5, Duration::from_secs(1));
    assert!(matches!(result, SolveOutcome::Found(path) if path.len() == 1 && path[0].color == BLACK));
}

#[test]
fn search_never_stopped_finds_the_five() {
    let mut board = [0; BOARD_CELLS];
    for x in 4..8 {
        board[7 * BOARD_SIZE + x] = BLACK;
    }
    let go = || Signal::Go;
    let result = Solver::solve_with_stop(board, BLACK, 9, SearchMode::Fast, &go);
    assert!(matches!(result, SolveOutcome::Found(path) if path.len() == 1));
    let shortest = Solver::solve_shortest_with_stop(board, BLACK, 9, &go);
    assert!(matches!(shortest, SolveOutcome::Found(path) if path.len() == 1));
}

#[test]
fn search_never_stopped_answers_not_found() {
    let mut board = [0; BOARD_CELLS];
    for x in 3..7 {
        board[3 * BOARD_SIZE + x] = WHITE;
    }
    for x in 4..7 {
        board[10 * BOARD_SIZE + x] = BLACK;
    }
    board[12 * BOARD_SIZE + 12] = BLACK;
    let go = || Signal::Go;
    let result = Solver::solve_with_stop(board, BLACK, 3, SearchMode::Fast, &go);
    assert!(matches!(result, SolveOutcome::NotFound));
}

#[test]
fn search_told_to_stop_at_once() {
    let mut board = [0; BOARD_CELLS];
    for x in 4..8 {
        board[7 * BOARD_SIZE + x] = BLACK;
    }
    let cancel = || Signal::Cancel;
    let time_up = || Signal::TimeUp;
    assert!(matches!(Solver::solve_with_stop(board, BLACK, 9, SearchMode::Long, &cancel), SolveOutcome::Cancelled));
    assert!(matches!(Solver::solve_with_stop(board, BLACK, 9, SearchMode::Fast, &time_up), SolveOutcome::Timeout));
    assert!(matches!(Solver::solve_shortest_with_stop(board, BLACK, 9, &cancel), SolveOutcome::Cancelled));
}
