use flood_it::{BoardError, Cell, Color, FloodBoard};

const R: Color = Color::Red;
const G: Color = Color::Green;
const B: Color = Color::Blue;

fn flooded_set(board: &FloodBoard) -> Vec<usize> {
    (0..board.len()).filter(|&i| board.is_flooded(i).unwrap()).collect()
}

fn colors(board: &FloodBoard) -> Vec<Color> {
    (0..board.len()).map(|i| board.color_at(i).unwrap()).collect()
}

fn neighbors(board: &FloodBoard, i: usize) -> Vec<usize> {
    let (col, row) = board.idx_to_pos(i);
    let mut out = Vec::new();
    if col > 0 {
        out.push(board.pos_to_idx(col - 1, row));
    }
    if row > 0 {
        out.push(board.pos_to_idx(col, row - 1));
    }
    if col + 1 < board.width() {
        out.push(board.pos_to_idx(col + 1, row));
    }
    if row + 1 < board.height() {
        out.push(board.pos_to_idx(col, row + 1));
    }
    out
}

/// Cells reachable from the flooded region through cells of color `c`,
/// recomputed by repeated sweeps until nothing changes.
fn brute_force_region(board: &FloodBoard, c: Color) -> Vec<bool> {
    let mut region: Vec<bool> = (0..board.len()).map(|i| board.is_flooded(i).unwrap()).collect();
    loop {
        let mut changed = false;
        for i in 0..board.len() {
            if !region[i] && board.color_at(i).unwrap() == c {
                if neighbors(board, i).iter().any(|&n| region[n]) {
                    region[i] = true;
                    changed = true;
                }
            }
        }
        if !changed {
            return region;
        }
    }
}

fn sample_board() -> FloodBoard {
    FloodBoard::from_colors(3, 3, vec![R, G, R, G, G, B, R, B, R]).unwrap()
}

#[test]
fn new_board_has_one_flooded_cell() {
    for (w, h) in [(1, 1), (3, 5), (12, 12), (40, 2)] {
        let board = FloodBoard::new(w, h).unwrap();
        assert_eq!(board.len(), w * h);
        assert_eq!(board.width(), w);
        assert_eq!(board.height(), h);
        assert_eq!(flooded_set(&board), vec![0]);
    }
}

#[test]
fn new_board_rejects_zero_sides() {
    assert_eq!(FloodBoard::new(0, 4).err(), Some(BoardError::InvalidDimensions));
    assert_eq!(FloodBoard::new(4, 0).err(), Some(BoardError::InvalidDimensions));
    assert_eq!(FloodBoard::new(0, 0).err(), Some(BoardError::InvalidDimensions));
}

#[test]
fn new_board_draws_varied_colors() {
    let board = FloodBoard::new(20, 20).unwrap();
    let cs = colors(&board);
    assert!(cs.iter().any(|&c| c != cs[0]));
    assert!(cs.iter().any(|&c| c != Color::Yellow));
}

#[test]
fn from_colors_lays_out_rows() {
    let board = sample_board();
    assert_eq!(colors(&board), vec![R, G, R, G, G, B, R, B, R]);
    assert_eq!(flooded_set(&board), vec![0]);
    assert_eq!(board.color_at(board.pos_to_idx(2, 1)), Ok(B));
}

#[test]
fn from_colors_rejects_bad_dimensions() {
    assert_eq!(
        FloodBoard::from_colors(2, 2, vec![R, G, B]).err(),
        Some(BoardError::InvalidDimensions)
    );
    assert_eq!(FloodBoard::from_colors(0, 2, vec![]).err(), Some(BoardError::InvalidDimensions));
    assert_eq!(
        FloodBoard::from_colors(usize::MAX, 2, vec![R]).err(),
        Some(BoardError::InvalidDimensions)
    );
}

#[test]
fn accessors_reject_out_of_bounds_index() {
    let board = sample_board();
    assert_eq!(board.color_at(9), Err(BoardError::IndexOutOfBounds));
    assert_eq!(board.is_flooded(9), Err(BoardError::IndexOutOfBounds));
    assert_eq!(board.color_at(8), Ok(R));
    assert_eq!(board.is_flooded(0), Ok(true));
}

#[test]
fn coordinates_round_trip() {
    let board = FloodBoard::from_colors(4, 3, vec![B; 12]).unwrap();
    assert_eq!(board.pos_to_idx(3, 2), 11);
    assert_eq!(board.pos_to_idx(1, 2), 9);
    assert_eq!(board.idx_to_pos(7), (3, 1));
    for i in 0..12 {
        let (col, row) = board.idx_to_pos(i);
        assert_eq!(board.pos_to_idx(col, row), i);
    }
}

#[test]
fn end_to_end_first_move() {
    let mut board = sample_board();
    board.change_color(G);
    assert_eq!(flooded_set(&board), vec![0, 1, 3, 4]);
    assert_eq!(colors(&board), vec![G, G, R, G, G, B, R, B, R]);
}

#[test]
fn end_to_end_second_move() {
    let mut board = sample_board();
    board.change_color(G);
    board.change_color(B);
    // (2,1) and (1,2) both touch (1,1); the corners keep red and stay out.
    assert_eq!(flooded_set(&board), vec![0, 1, 3, 4, 5, 7]);
    assert_eq!(colors(&board), vec![B, B, R, B, B, B, R, B, R]);
}

#[test]
fn matching_cell_out_of_reach_stays_unflooded() {
    let mut board = FloodBoard::from_colors(3, 1, vec![R, B, G]).unwrap();
    board.change_color(G);
    assert_eq!(flooded_set(&board), vec![0]);
    assert_eq!(colors(&board), vec![G, B, G]);
}

#[test]
fn flooding_never_shrinks() {
    let mut board = FloodBoard::new(10, 8).unwrap();
    let moves = [R, G, B, Color::Purple, Color::White, Color::Yellow, G, R, B];
    let mut before = flooded_set(&board);
    for c in moves {
        board.change_color(c);
        let after = flooded_set(&board);
        assert!(before.iter().all(|i| after.contains(i)));
        before = after;
    }
}

#[test]
fn region_is_closed_and_matches_brute_force() {
    for seed_move in [R, G, B, Color::Purple, Color::White, Color::Yellow] {
        let mut board = FloodBoard::new(9, 7).unwrap();
        for c in [seed_move, G, R, B] {
            let expected = brute_force_region(&board, c);
            board.change_color(c);
            for i in 0..board.len() {
                assert_eq!(board.is_flooded(i).unwrap(), expected[i]);
                if board.is_flooded(i).unwrap() {
                    assert_eq!(board.color_at(i), Ok(c));
                    for n in neighbors(&board, i) {
                        if !board.is_flooded(n).unwrap() {
                            assert_ne!(board.color_at(n), Ok(c));
                        }
                    }
                }
            }
        }
    }
}

#[test]
fn repeating_a_move_changes_nothing() {
    let mut board = FloodBoard::new(8, 8).unwrap();
    board.change_color(Color::Purple);
    let flooded = flooded_set(&board);
    let cs = colors(&board);
    board.change_color(Color::Purple);
    assert_eq!(flooded_set(&board), flooded);
    assert_eq!(colors(&board), cs);
}

#[test]
fn saturated_board_is_left_alone() {
    let mut board = FloodBoard::from_colors(2, 2, vec![G, B, B, R]).unwrap();
    board.change_color(G);
    assert_eq!(flooded_set(&board), vec![0]);
    assert_eq!(colors(&board), vec![G, B, B, R]);
}

#[test]
fn single_color_board_floods_entirely() {
    let mut board = FloodBoard::from_colors(300, 200, vec![Color::White; 60000]).unwrap();
    board.change_color(Color::White);
    assert_eq!(flooded_set(&board).len(), 60000);
}

#[test]
fn one_by_one_board() {
    let mut board = FloodBoard::from_colors(1, 1, vec![Color::Yellow]).unwrap();
    board.change_color(B);
    assert_eq!(flooded_set(&board), vec![0]);
    assert_eq!(colors(&board), vec![B]);
}

#[test]
fn palette_index_maps_to_colors() {
    assert_eq!(Color::from_index(0), Color::Blue);
    assert_eq!(Color::from_index(1), Color::Green);
    assert_eq!(Color::from_index(2), Color::Purple);
    assert_eq!(Color::from_index(3), Color::Red);
    assert_eq!(Color::from_index(4), Color::White);
    assert_eq!(Color::from_index(5), Color::Yellow);
    assert_eq!(Color::from_index(200), Color::Yellow);
}

#[test]
fn input_lines_select_moves() {
    assert_eq!(Color::from_line("b\n"), Some(Color::Blue));
    assert_eq!(Color::from_line("g\n"), Some(Color::Green));
    assert_eq!(Color::from_line("p\n"), Some(Color::Purple));
    assert_eq!(Color::from_line("r\n"), Some(Color::Red));
    assert_eq!(Color::from_line("w\n"), Some(Color::White));
    assert_eq!(Color::from_line("y\n"), Some(Color::Yellow));
    assert_eq!(Color::from_line("x\n"), None);
    assert_eq!(Color::from_line("b"), None);
    assert_eq!(Color::from_line("bg\n"), None);
    assert_eq!(Color::from_line("B\n"), None);
    assert_eq!(Color::from_line(""), None);
}

#[test]
fn default_cell_is_unflooded() {
    let cell = Cell::default();
    assert!(!cell.is_flooded);
    assert_eq!(cell.color, Color::Blue);
}
