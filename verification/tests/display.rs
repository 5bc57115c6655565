use tictactoe::control::construct_board;
use tictactoe::model::{Field, Status};
use tictactoe::output::{print_board, print_board_template, status_message};

#[test]
fn status_messages() {
    assert_eq!(
        status_message(&Status::Draw),
        "its a draw! no player can win anymore."
    );
    assert_eq!(
        status_message(&Status::StillPlaying),
        "the game is still going..."
    );
    assert_eq!(status_message(&Status::SomeoneWon('X')), "X won!");
    assert_eq!(status_message(&Status::SomeoneWon('#')), "# won!");
}

#[test]
fn template_3x3() {
    let expected = "| 1  2  3 |\n| 4  5  6 |\n| 7  8  9 |\n---v-v-v---\n";
    assert_eq!(print_board_template(3), expected);
}

#[test]
fn template_4x4() {
    let expected = "\
|  1   2   3   4 |\n\
|  5   6   7   8 |\n\
|  9  10  11  12 |\n\
| 13  14  15  16 |\n\
------v-v-v-------\n";
    assert_eq!(print_board_template(4), expected);
}

#[test]
fn board_text_3x3() {
    let mut content: Vec<Field> = vec![None; 9];
    content[0] = Some('X');
    content[1] = Some('O');
    content[4] = Some('X');
    let board = construct_board(3, Some(content));
    let expected = "| X  O    |\n|    X    |\n|         |\n";
    assert_eq!(print_board(&board), expected);
}

#[test]
fn board_text_empty_4x4() {
    let board = construct_board(4, None);
    let expected = "\
|                |\n\
|                |\n\
|                |\n\
|                |\n";
    assert_eq!(print_board(&board), expected);
}
