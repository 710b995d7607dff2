use minesweeper::board::Board;
use minesweeper::cells::{CellValue, GameResult};
use minesweeper::input::arguments::Parameters;
use minesweeper::random::RandomSource;

/// The script that grows the safe area of a 3x3 board with one mine from
/// (0, 0) over every cell but (2, 2): seven growth steps, each a picked cell
/// index and a direction (0 row+1, 1 column+1, 2 row-1, 3 column-1). The one
/// mine then has a single candidate cell left, so no further value is needed.
fn script_3x3() -> Vec<u64> {
    vec![0, 0, 1, 0, 0, 1, 1, 1, 2, 1, 3, 1, 4, 1]
}

fn built_3x3() -> Board {
    let params = Parameters::new(3, 3, 1);
    let mut board = Board::new(&params);
    let mut random = RandomSource::scripted(script_3x3());
    board.build((0, 0), &mut random);
    board
}

/// A serpentine walk over a 7x7 board: all of rows 0 to 4, then (5,6) down to
/// (5,2) — the forty cells the safe area aims for.
fn serpentine_path() -> Vec<(u8, u8)> {
    let mut path = Vec::new();
    for r in 0..5u8 {
        if r % 2 == 0 {
            for c in 0..7u8 {
                path.push((r, c));
            }
        } else {
            for c in (0..7u8).rev() {
                path.push((r, c));
            }
        }
    }
    for c in (2..7u8).rev() {
        path.push((5, c));
    }
    assert_eq!(path.len(), 40);
    path
}

/// The script for a 7x7 board with two mines: the serpentine walk, always
/// extending the newest cell, then the candidate positions of the mines. The
/// cells left outside the safe area are, in row-major order,
/// (5,0) (5,1) (6,0) (6,1) (6,2) (6,3) (6,4) (6,5) (6,6); picking candidate 1
/// and then candidate 3 (after the swap-removal moved (6,6) into slot 1)
/// puts the mines on (5,1) and (6,1).
fn script_7x7() -> Vec<u64> {
    let path = serpentine_path();
    let mut script = Vec::new();
    for k in 1..path.len() {
        let (pr, pc) = path[k - 1];
        let (r, c) = path[k];
        let dir: u64 = if r == pr + 1 {
            0
        } else if c == pc + 1 {
            1
        } else if r + 1 == pr {
            2
        } else {
            3
        };
        script.push((k - 1) as u64);
        script.push(dir);
    }
    script.push(1);
    script.push(3);
    script
}

const MINES_7X7: [(u8, u8); 2] = [(5, 1), (6, 1)];

fn built_7x7() -> Board {
    let params = Parameters::new(7, 7, 2);
    let mut board = Board::new(&params);
    let mut random = RandomSource::scripted(script_7x7());
    board.build((0, 0), &mut random);
    board
}

fn adjacency(mines: &[(u8, u8)], r: u8, c: u8) -> u8 {
    let mut n = 0;
    for &(mr, mc) in mines {
        let dr = (mr as i32 - r as i32).abs();
        let dc = (mc as i32 - c as i32).abs();
        if dr <= 1 && dc <= 1 && !(dr == 0 && dc == 0) {
            n += 1;
        }
    }
    n
}

#[test]
fn new_board_is_fresh() {
    let params = Parameters::new(3, 4, 0);
    let board = Board::new(&params);
    assert_eq!(board.rows(), 3);
    assert_eq!(board.columns(), 4);
    assert_eq!(board.remaining_safe_cells(), 12);
    assert!(board.deadly_mine().is_none());
    for r in 0..3 {
        for c in 0..4 {
            let cell = board.cell((r, c));
            assert!(!cell.dug);
            assert!(!cell.marked);
            assert_eq!(cell.value, CellValue::Empty);
        }
    }
}

#[test]
fn build_places_exactly_the_requested_mines() {
    let board = built_3x3();
    let mut mines = 0;
    for r in 0..3 {
        for c in 0..3 {
            if board.cell((r, c)).value == CellValue::Mine {
                mines += 1;
            }
        }
    }
    assert_eq!(mines, 1);
    assert_eq!(board.cell((2, 2)).value, CellValue::Mine);

    let board = built_7x7();
    let mut mines = 0;
    for r in 0..7 {
        for c in 0..7 {
            if board.cell((r, c)).value == CellValue::Mine {
                mines += 1;
            }
        }
    }
    assert_eq!(mines, 2);
}

#[test]
fn build_opens_the_starting_cell_and_keeps_it_mine_free() {
    let board = built_3x3();
    let start = board.cell((0, 0));
    assert!(start.dug);
    assert_ne!(start.value, CellValue::Mine);

    let board = built_7x7();
    let start = board.cell((0, 0));
    assert!(start.dug);
    assert_ne!(start.value, CellValue::Mine);
}

#[test]
fn build_numbers_equal_adjacent_mine_counts() {
    let board = built_7x7();
    for r in 0..7 {
        for c in 0..7 {
            let cell = board.cell((r, c));
            if MINES_7X7.contains(&(r, c)) {
                assert_eq!(cell.value, CellValue::Mine);
            } else {
                let n = adjacency(&MINES_7X7, r, c);
                let expected = if n == 0 {
                    CellValue::Empty
                } else {
                    CellValue::Number(n)
                };
                assert_eq!(cell.value, expected, "cell ({}, {})", r, c);
            }
        }
    }
}

#[test]
fn build_reveals_exactly_the_flood_region() {
    // The two mines and the two numbered cells in the corner they enclose
    // have no empty neighbor, so the opening flood fill reveals every cell
    // but those four: empty cells reached over 8-neighbors, plus the ring of
    // numbers around them, and nothing across that boundary.
    let board = built_7x7();
    let hidden = [(5, 0), (5, 1), (6, 0), (6, 1)];
    for r in 0..7 {
        for c in 0..7 {
            let cell = board.cell((r, c));
            assert_eq!(!cell.dug, hidden.contains(&(r, c)), "cell ({}, {})", r, c);
        }
    }
    assert_eq!(board.remaining_safe_cells(), 2);
}

#[test]
fn dig_decrements_remaining_by_one_and_wins_at_zero() {
    let mut board = built_7x7();
    assert_eq!(board.remaining_safe_cells(), 2);
    let result = board.dig((6, 0));
    assert_eq!(board.remaining_safe_cells(), 1);
    assert!(matches!(result, GameResult::Continue));
    let result = board.dig((5, 0));
    assert_eq!(board.remaining_safe_cells(), 0);
    assert!(matches!(result, GameResult::Won));
    // the win marks every mine for the closing display
    assert!(board.cell((5, 1)).marked);
    assert!(board.cell((6, 1)).marked);
}

#[test]
fn dig_on_a_mine_loses_and_records_it() {
    let mut board = built_7x7();
    board.mark((6, 0));
    let result = board.dig((5, 1));
    assert!(matches!(result, GameResult::Lost));
    assert_eq!(board.deadly_mine(), Some((5, 1)));
    assert_eq!(board.remaining_safe_cells(), 2);
}

#[test]
fn three_by_three_forced_mine_scenario() {
    let mut board = built_3x3();
    assert_eq!(board.cell((1, 1)).value, CellValue::Number(1));
    assert_eq!(board.cell((1, 2)).value, CellValue::Number(1));
    assert_eq!(board.cell((2, 1)).value, CellValue::Number(1));
    let result = board.dig((2, 2));
    assert!(matches!(result, GameResult::Lost));
    assert_eq!(board.deadly_mine(), Some((2, 2)));
}

#[test]
fn zero_mines_any_dig_wins_immediately() {
    let params = Parameters::new(5, 5, 0);
    let mut board = Board::new(&params);
    let mut random = RandomSource::system();
    board.build((2, 2), &mut random);
    for r in 0..5 {
        for c in 0..5 {
            assert!(board.cell((r, c)).dug);
        }
    }
    assert_eq!(board.remaining_safe_cells(), 0);
    let result = board.dig((0, 0));
    assert!(matches!(result, GameResult::Won));
}

#[test]
fn mark_then_unmark_restores_the_cell() {
    let mut board = built_7x7();
    let before = board.cell((6, 0));
    assert!(!before.marked);
    board.mark((6, 0));
    assert!(board.cell((6, 0)).marked);
    board.unmark((6, 0));
    assert_eq!(board.cell((6, 0)), before);
}

#[test]
fn marking_a_dug_cell_changes_nothing() {
    let mut board = built_7x7();
    let before = board.cell((0, 0));
    assert!(before.dug);
    board.mark((0, 0));
    assert_eq!(board.cell((0, 0)), before);
}

#[test]
fn marking_is_idempotent() {
    let mut board = built_7x7();
    board.mark((6, 0));
    let marked = board.cell((6, 0));
    board.mark((6, 0));
    assert_eq!(board.cell((6, 0)), marked);
    board.unmark((6, 0));
    let unmarked = board.cell((6, 0));
    board.unmark((6, 0));
    assert_eq!(board.cell((6, 0)), unmarked);
}

#[test]
fn digging_a_marked_cell_is_a_no_op() {
    let mut board = built_7x7();
    board.mark((6, 0));
    let result = board.dig((6, 0));
    assert!(matches!(result, GameResult::Continue));
    let cell = board.cell((6, 0));
    assert!(cell.marked);
    assert!(!cell.dug);
    assert_eq!(board.remaining_safe_cells(), 2);
}

#[test]
fn digging_an_already_dug_cell_is_a_no_op() {
    let mut board = built_7x7();
    let result = board.dig((0, 0));
    assert!(matches!(result, GameResult::Continue));
    assert_eq!(board.remaining_safe_cells(), 2);
}

#[test]
fn cell_value_reports_numbers() {
    assert!(CellValue::Number(3).is_number());
    assert!(!CellValue::Empty.is_number());
    assert!(!CellValue::Mine.is_number());
}
