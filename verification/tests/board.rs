use connect_four::board::{Board, Cell, HEIGHT, WIDTH};

#[test]
fn new_board_is_empty_ongoing_without_winner() {
    let b = Board::new();
    assert!(b.game_ongoing());
    assert_eq!(b.get_winner(), Cell::Empty);
    for x in 0..WIDTH {
        for y in 0..HEIGHT {
            assert_eq!(b.get_cell(x, y), Cell::Empty);
        }
    }
}

#[test]
fn insert_lands_on_bottom_row_then_strictly_higher() {
    let mut b = Board::new();
    assert!(b.insert(Cell::Player1, 2));
    assert_eq!(b.get_cell(2, HEIGHT - 1), Cell::Player1);
    assert!(b.insert(Cell::Player2, 2));
    assert_eq!(b.get_cell(2, HEIGHT - 2), Cell::Player2);
    assert!(b.insert(Cell::Player1, 2));
    assert_eq!(b.get_cell(2, HEIGHT - 3), Cell::Player1);
    assert_eq!(b.get_cell(2, HEIGHT - 4), Cell::Empty);
}

#[test]
fn insert_empty_cell_fails_and_changes_nothing() {
    let mut b = Board::new();
    assert!(!b.insert(Cell::Empty, 0));
    assert!(b.game_ongoing());
    assert_eq!(b.get_winner(), Cell::Empty);
    for x in 0..WIDTH {
        for y in 0..HEIGHT {
            assert_eq!(b.get_cell(x, y), Cell::Empty);
        }
    }
}

#[test]
fn insert_out_of_range_column_fails_and_changes_nothing() {
    let mut b = Board::new();
    assert!(b.insert(Cell::Player1, 0));
    assert!(!b.insert(Cell::Player2, WIDTH));
    assert!(!b.insert(Cell::Player2, 100));
    assert!(b.game_ongoing());
    assert_eq!(b.get_winner(), Cell::Empty);
    assert_eq!(b.get_cell(0, HEIGHT - 1), Cell::Player1);
    for x in 1..WIDTH {
        for y in 0..HEIGHT {
            assert_eq!(b.get_cell(x, y), Cell::Empty);
        }
    }
}

#[test]
fn insert_into_full_column_fails_and_changes_nothing() {
    let mut b = Board::new();
    // Alternate owners up the column so that no vertical run forms.
    let owners = [
        Cell::Player1,
        Cell::Player2,
        Cell::Player1,
        Cell::Player2,
        Cell::Player1,
        Cell::Player2,
        Cell::Player1,
    ];
    for c in owners {
        assert!(b.insert(c, 0));
    }
    assert!(b.game_ongoing());
    // The eighth insert hits a full column.
    assert!(!b.insert(Cell::Player2, 0));
    assert!(b.game_ongoing());
    assert_eq!(b.get_winner(), Cell::Empty);
    for (i, c) in owners.iter().enumerate() {
        assert_eq!(b.get_cell(0, HEIGHT - 1 - i), *c);
    }
    for x in 1..WIDTH {
        for y in 0..HEIGHT {
            assert_eq!(b.get_cell(x, y), Cell::Empty);
        }
    }
}

#[test]
fn horizontal_four_wins_on_fourth_placement_not_before() {
    let mut b = Board::new();
    for x in 0..3 {
        assert!(b.insert(Cell::Player1, x));
        assert!(b.game_ongoing());
        assert_eq!(b.get_winner(), Cell::Empty);
    }
    assert!(b.insert(Cell::Player1, 3));
    assert!(!b.game_ongoing());
    assert_eq!(b.get_winner(), Cell::Player1);
}

#[test]
fn vertical_four_wins_on_fourth_placement_not_before() {
    let mut b = Board::new();
    for _ in 0..3 {
        assert!(b.insert(Cell::Player1, 0));
        assert!(b.game_ongoing());
        assert_eq!(b.get_winner(), Cell::Empty);
    }
    assert!(b.insert(Cell::Player1, 0));
    assert!(!b.game_ongoing());
    assert_eq!(b.get_winner(), Cell::Player1);
}

#[test]
fn rising_diagonal_four_wins() {
    let mut b = Board::new();
    // Filler pieces so that the four diagonal cells (0,6), (1,5), (2,4),
    // (3,3) are the landing rows of columns 0..=3.
    for x in [1, 2, 2, 3, 3, 3] {
        assert!(b.insert(Cell::Player2, x));
        assert!(b.game_ongoing());
    }
    for x in 0..3 {
        assert!(b.insert(Cell::Player1, x));
        assert!(b.game_ongoing());
        assert_eq!(b.get_winner(), Cell::Empty);
    }
    assert!(b.insert(Cell::Player1, 3));
    assert!(!b.game_ongoing());
    assert_eq!(b.get_winner(), Cell::Player1);
    assert_eq!(b.get_cell(0, 6), Cell::Player1);
    assert_eq!(b.get_cell(1, 5), Cell::Player1);
    assert_eq!(b.get_cell(2, 4), Cell::Player1);
    assert_eq!(b.get_cell(3, 3), Cell::Player1);
}

#[test]
fn falling_diagonal_four_wins() {
    let mut b = Board::new();
    // Landing rows for the line (0,3), (1,4), (2,5), (3,6).
    for x in [0, 0, 0, 1, 1, 2] {
        assert!(b.insert(Cell::Player2, x));
        assert!(b.game_ongoing());
    }
    for x in [3, 2, 1] {
        assert!(b.insert(Cell::Player1, x));
        assert!(b.game_ongoing());
        assert_eq!(b.get_winner(), Cell::Empty);
    }
    assert!(b.insert(Cell::Player1, 0));
    assert!(!b.game_ongoing());
    assert_eq!(b.get_winner(), Cell::Player1);
}

#[test]
fn three_colinear_cells_do_not_win() {
    let mut b = Board::new();
    assert!(b.insert(Cell::Player2, 1));
    assert!(b.insert(Cell::Player2, 2));
    assert!(b.insert(Cell::Player2, 3));
    assert!(b.game_ongoing());
    assert_eq!(b.get_winner(), Cell::Empty);
}

#[test]
fn second_player_can_win() {
    let mut b = Board::new();
    for _ in 0..3 {
        assert!(b.insert(Cell::Player2, 4));
        assert!(b.insert(Cell::Player1, 5));
    }
    assert!(b.game_ongoing());
    assert!(b.insert(Cell::Player2, 4));
    assert!(!b.game_ongoing());
    assert_eq!(b.get_winner(), Cell::Player2);
}

#[test]
fn render_of_new_board_shows_header_and_empty_rows() {
    let b = Board::new();
    let expected = "0 1 2 3 4 5 \n- - - - - - \n- - - - - - \n- - - - - - \n- - - - - - \n- - - - - - \n- - - - - - \n- - - - - - \n\n";
    assert_eq!(b.render(), expected);
}

#[test]
fn render_shows_inserted_pieces_in_place() {
    let mut b = Board::new();
    assert!(b.insert(Cell::Player1, 0));
    assert!(b.insert(Cell::Player2, 0));
    assert!(b.insert(Cell::Player1, 3));
    let expected = "0 1 2 3 4 5 \n- - - - - - \n- - - - - - \n- - - - - - \n- - - - - - \n- - - - - - \nO - - - - - \nX - - X - - \n\n";
    assert_eq!(b.render(), expected);
}

#[test]
fn interrupted_line_does_not_win() {
    let mut b = Board::new();
    // Bottom row: X X O X X - ; no run of four for either player.
    assert!(b.insert(Cell::Player1, 0));
    assert!(b.insert(Cell::Player1, 1));
    assert!(b.insert(Cell::Player2, 2));
    assert!(b.insert(Cell::Player1, 3));
    assert!(b.insert(Cell::Player1, 4));
    assert!(b.game_ongoing());
    assert_eq!(b.get_winner(), Cell::Empty);
}
