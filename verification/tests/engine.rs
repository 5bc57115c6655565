use tictactoe::control::{
    construct_board, get_board_status, get_line_draw, get_line_winner, place_symbol,
};
use tictactoe::model::{Field, Status};

/// Build a 4x4 content vector with the given cells set.
fn content_4x4(filled: &[(usize, usize, char)]) -> Vec<Field> {
    let mut content: Vec<Field> = vec![None; 16];
    for &(row, col, symbol) in filled {
        content[row * 4 + col] = Some(symbol);
    }
    content
}

#[test]
fn empty_board() {
    let board = construct_board(4, None);
    let is_empty = board.cells.iter().all(|field| field.is_none());
    if !is_empty {
        panic!("board is not empty");
    }
    assert_eq!(get_board_status(&board), Status::StillPlaying);
}

#[test]
fn place_symbol_test() {
    let mut board = construct_board(4, None);
    place_symbol(&mut board, 2, 'X');
    assert_eq!(board.cells[1], Some('X'));
    assert_eq!(get_board_status(&board), Status::StillPlaying);
}

#[test]
fn multiple_winners() {
    let mut content: Vec<Field> = vec![None; 16];
    for col in 0..4 {
        content[col] = Some('X');
        content[4 + col] = Some('X');
    }
    let board = construct_board(4, Some(content));
    assert_eq!(get_board_status(&board), Status::SomeoneWon('X'));
}

#[test]
fn winner_in_rows() {
    for winner_row in 0..4 {
        let mut content: Vec<Field> = vec![None; 16];
        for col in 0..4 {
            content[winner_row * 4 + col] = Some('X');
        }
        let board = construct_board(4, Some(content));
        assert_eq!(get_board_status(&board), Status::SomeoneWon('X'));
    }
}

#[test]
fn winner_in_cols() {
    for winner_col in 0..4 {
        let mut content: Vec<Field> = vec![None; 16];
        for row in 0..4 {
            content[row * 4 + winner_col] = Some('X');
        }
        let board = construct_board(4, Some(content));
        assert_eq!(get_board_status(&board), Status::SomeoneWon('X'));
    }
}

#[test]
fn winner_in_diagonals() {
    for diagonal_factor in [0usize, 3] {
        let mut content: Vec<Field> = vec![None; 16];
        for line in 0..4usize {
            content[line * 4 + line.abs_diff(diagonal_factor)] = Some('X');
        }
        let board = construct_board(4, Some(content));
        assert_eq!(get_board_status(&board), Status::SomeoneWon('X'));
    }
}

#[test]
fn first_row_winner_takes_precedence() {
    // rows 1 and 2 hold different winning symbols: the earlier row wins
    let mut content: Vec<Field> = vec![None; 16];
    for col in 0..4 {
        content[4 + col] = Some('A');
        content[8 + col] = Some('B');
    }
    let board = construct_board(4, Some(content));
    assert_eq!(get_board_status(&board), Status::SomeoneWon('A'));
}

#[test]
fn place_on_occupied_field_rejected() {
    let mut board = construct_board(4, Some(content_4x4(&[(0, 1, 'X')])));
    let cells_before = board.cells.clone();
    let status_before = get_board_status(&board);
    let placed = place_symbol(&mut board, 2, 'O');
    assert!(!placed);
    assert_eq!(board.cells, cells_before);
    assert_eq!(get_board_status(&board), status_before);
}

#[test]
fn place_on_empty_field_succeeds() {
    let mut board = construct_board(4, None);
    assert!(place_symbol(&mut board, 1, 'X'));
    assert!(place_symbol(&mut board, 16, 'O'));
    assert_eq!(board.cells[0], Some('X'));
    assert_eq!(board.cells[15], Some('O'));
}

#[test]
fn construct_reproduces_row_major_layout() {
    let mut content: Vec<Field> = vec![None; 9];
    content[0] = Some('X');
    content[4] = Some('O');
    content[8] = Some('X');
    let board = construct_board(3, Some(content.clone()));
    assert_eq!(board.size, 3);
    assert_eq!(board.cells, content);
}

#[test]
fn construct_with_wrong_length_gives_empty_board() {
    let content: Vec<Field> = vec![Some('X'); 8];
    let board = construct_board(3, Some(content));
    assert_eq!(board.size, 3);
    assert!(board.cells.iter().all(|field| field.is_none()));
    assert_eq!(board.cells.len(), 9);
}

#[test]
fn full_top_row_wins_3x3() {
    // [[X,X,X],[_,_,_],[_,_,_]]
    let mut content: Vec<Field> = vec![None; 9];
    content[0] = Some('X');
    content[1] = Some('X');
    content[2] = Some('X');
    let board = construct_board(3, Some(content));
    assert_eq!(get_board_status(&board), Status::SomeoneWon('X'));
}

#[test]
fn fully_mixed_board_is_draw_3x3() {
    // [[X,O,X],[O,X,O],[O,X,O]]: no full line, every line mixed
    let content: Vec<Field> = "XOXOXOOXO".chars().map(Some).collect();
    let board = construct_board(3, Some(content));
    assert_eq!(get_board_status(&board), Status::Draw);
}

#[test]
fn sparse_board_still_playing_3x3() {
    // [[X,O,_],[_,_,_],[_,_,_]]
    let mut content: Vec<Field> = vec![None; 9];
    content[0] = Some('X');
    content[1] = Some('O');
    let board = construct_board(3, Some(content));
    assert_eq!(get_board_status(&board), Status::StillPlaying);
}

#[test]
fn line_winner_found_on_uniform_line() {
    let line: Vec<Field> = vec![Some('X'), Some('X'), Some('X')];
    assert_eq!(get_line_winner(&line), Some('X'));
}

#[test]
fn line_winner_absent_on_mixed_or_empty_line() {
    assert_eq!(get_line_winner(&vec![Some('X'), Some('O'), Some('X')]), None);
    assert_eq!(get_line_winner(&vec![None, None, None]), None);
    assert_eq!(get_line_winner(&vec![Some('X'), Some('X'), None]), None);
}

#[test]
fn line_draw_needs_two_distinct_symbols() {
    assert!(get_line_draw(&vec![Some('X'), Some('O'), None]));
    assert!(get_line_draw(&vec![Some('X'), Some('X'), Some('O')]));
    assert!(!get_line_draw(&vec![Some('X'), Some('X'), None]));
    assert!(!get_line_draw(&vec![None, None, None]));
    assert!(!get_line_draw(&vec![Some('X'), Some('X'), Some('X')]));
}

#[test]
fn empty_board_still_playing_for_several_sizes() {
    for size in 3..=15u8 {
        let board = construct_board(size, None);
        assert_eq!(get_board_status(&board), Status::StillPlaying);
    }
}
