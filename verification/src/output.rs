//! Text rendering for terminal display: the board grid, the field-index
//! template above it, and the message for each game status.

use vstd::prelude::*;

use crate::control::lemma_cell_index_bounds;
use crate::model::{Board, Status, MAX_BOARD_SIZE, MIN_BOARD_SIZE};
use vstd::string::StringExecFns;

verus! {

/// Relies on std's `String::push`: it appends the character to the string.
pub assume_specification[ String::push ](s: &mut String, ch: char)
    ensures
        final(s)@ == old(s)@.push(ch),
;

/// The character for one decimal digit.
pub open spec fn digit_char(d: int) -> char {
    if d == 0 {
        '0'
    } else if d == 1 {
        '1'
    } else if d == 2 {
        '2'
    } else if d == 3 {
        '3'
    } else if d == 4 {
        '4'
    } else if d == 5 {
        '5'
    } else if d == 6 {
        '6'
    } else if d == 7 {
        '7'
    } else if d == 8 {
        '8'
    } else {
        '9'
    }
}

/// The decimal digits of `v`, most significant first.
pub open spec fn dec_rep(v: int) -> Seq<char>
    decreases v,
{
    if v < 10 {
        seq![digit_char(v)]
    } else {
        dec_rep(v / 10).push(digit_char(v % 10))
    }
}

/// `k` copies of one character.
pub open spec fn repeat_char(ch: char, k: int) -> Seq<char>
    decreases k,
{
    if k <= 0 {
        Seq::empty()
    } else {
        repeat_char(ch, k - 1).push(ch)
    }
}

/// `text` right-aligned to width `w` with spaces.
pub open spec fn pad_left(text: Seq<char>, w: int) -> Seq<char> {
    if text.len() >= w {
        text
    } else {
        repeat_char(' ', w - text.len()) + text
    }
}

/// The first `col` cells of one grid row: each cell text right-aligned
/// to width `w`, with two spaces between neighbouring cells.
pub open spec fn row_cells_text(
    content: Seq<Seq<char>>,
    n: int,
    w: int,
    row: int,
    col: int,
) -> Seq<char>
    decreases col,
{
    if col <= 0 {
        Seq::empty()
    } else {
        row_cells_text(content, n, w, row, col - 1) + pad_left(content[row * n + (col - 1)], w)
            + (if col - 1 != n - 1 {
            seq![' ', ' ']
        } else {
            Seq::empty()
        })
    }
}

/// One full grid row: the cells between a left and a right border.
pub open spec fn grid_row_text(content: Seq<Seq<char>>, n: int, w: int, row: int) -> Seq<char> {
    seq!['|', ' '] + row_cells_text(content, n, w, row, n) + seq![' ', '|', '\n']
}

/// The first `rows` rows of the grid.
pub open spec fn grid_rows_text(content: Seq<Seq<char>>, n: int, w: int, rows: int) -> Seq<char>
    decreases rows,
{
    if rows <= 0 {
        Seq::empty()
    } else {
        grid_rows_text(content, n, w, rows - 1) + grid_row_text(content, n, w, rows - 1)
    }
}

/// An arrow pointing downwards, centred with dashes to width `len`
/// (the extra dash of an odd padding goes to the right).
pub open spec fn arrow_line_text(len: int) -> Seq<char> {
    let arrow = seq!['v', '-', 'v', '-', 'v'];
    if len <= 5 {
        arrow + seq!['\n']
    } else {
        repeat_char('-', (len - 5) / 2) + arrow + repeat_char('-', len - 5 - (len - 5) / 2)
            + seq!['\n']
    }
}

/// The display width of one field: the number of digits of the
/// largest field index.
pub open spec fn field_width(n: int) -> int {
    dec_rep(n * n).len() as int
}

/// The text of one board cell: its symbol, or a space when empty.
pub open spec fn board_cell_texts(b: Board) -> Seq<Seq<char>> {
    Seq::new(
        b.cells@.len(),
        |i: int|
            match b.cells@[i] {
                Some(s) => seq![s],
                None => seq![' '],
            },
    )
}

/// The rendered board: its symbols in a bordered grid.
pub open spec fn board_text(b: Board) -> Seq<char> {
    grid_rows_text(board_cell_texts(b), b.size as int, field_width(b.size as int), b.size as int)
}

/// The rendered template: the one-based field indices in a bordered
/// grid, with an arrow line underneath.
pub open spec fn template_text(n: int) -> Seq<char> {
    let w = field_width(n);
    grid_rows_text(Seq::new((n * n) as nat, |i: int| dec_rep(i + 1)), n, w, n) + arrow_line_text(
        w * n + 2 * n + 2,
    )
}

/// The message shown for a status: a fixed sentence for a draw and for
/// a running game, and the winner's symbol followed by " won!".
pub open spec fn status_message_spec(s: Status) -> Seq<char> {
    match s {
        Status::Draw => "its a draw! no player can win anymore."@,
        Status::StillPlaying => "the game is still going..."@,
        Status::SomeoneWon(winner) => seq![winner] + " won!"@,
    }
}

/// The decimal representation of `v` has as many digits as `v` needs.
proof fn lemma_dec_rep_len(v: int)
    requires
        0 <= v < 1000,
    ensures
        v < 10 ==> dec_rep(v).len() == 1,
        10 <= v < 100 ==> dec_rep(v).len() == 2,
        100 <= v ==> dec_rep(v).len() == 3,
    decreases v,
{
    if v >= 10 {
        lemma_dec_rep_len(v / 10);
    }
}

/// Format the status as a message on display.
pub fn status_message(status: &Status) -> (r: String)
    ensures
        r@ == status_message_spec(*status),
{
    match status {
        Status::Draw => "its a draw! no player can win anymore.".to_owned(),
        Status::StillPlaying => "the game is still going...".to_owned(),
        Status::SomeoneWon(winner) => {
            let mut message = String::new();
            message.push(*winner);
            message.append(" won!");
            proof {
                assert(message@ =~= seq![*winner] + " won!"@);
            }
            message
        },
    }
}

/// Append `k` copies of a character.
fn push_repeat(out: &mut String, ch: char, k: usize)
    ensures
        final(out)@ == old(out)@ + repeat_char(ch, k as int),
{
    let mut i: usize = 0;
    while i < k
        invariant
            0 <= i <= k,
            out@ == old(out)@ + repeat_char(ch, i as int),
        decreases k - i,
    {
        out.push(ch);
        i = i + 1;
    }
    proof {
        assert(out@ =~= old(out)@ + repeat_char(ch, k as int));
    }
}

/// Render `v` in decimal.
fn u8_to_string(v: u8) -> (r: String)
    ensures
        r@ == dec_rep(v as int),
{
    let mut s = String::new();
    if v >= 100 {
        s.push(digit_to_char(v / 100));
    }
    if v >= 10 {
        s.push(digit_to_char((v / 10) % 10));
    }
    s.push(digit_to_char(v % 10));
    proof {
        if v < 10 {
            assert(s@ =~= dec_rep(v as int));
        } else if v < 100 {
            assert(dec_rep(v as int) == dec_rep(v as int / 10).push(digit_char(v as int % 10)));
            assert(s@ =~= dec_rep(v as int));
        } else {
            assert(dec_rep(v as int) == dec_rep(v as int / 10).push(digit_char(v as int % 10)));
            assert(dec_rep(v as int / 10) == dec_rep(v as int / 10 / 10).push(
                digit_char(v as int / 10 % 10),
            ));
            assert(v as int / 10 / 10 == v as int / 100);
            assert(s@ =~= dec_rep(v as int));
        }
    }
    s
}

/// The display width of one field, computed from the board size.
fn compute_field_width(size: u8) -> (w: usize)
    requires
        MIN_BOARD_SIZE <= size <= MAX_BOARD_SIZE,
    ensures
        w as int == field_width(size as int),
        1 <= w <= 3,
{
    let n = size as usize;
    proof {
        lemma_cell_index_bounds(n as int, 0, 0);
    }
    let field_count = n * n;
    proof {
        lemma_dec_rep_len(field_count as int);
    }
    if field_count >= 100 {
        3
    } else if field_count >= 10 {
        2
    } else {
        1
    }
}

/// Render the board: each field's symbol (a blank for an empty field)
/// in a bordered grid.
pub fn print_board(board: &Board) -> (r: String)
    requires
        board.wf(),
    ensures
        r@ == board_text(*board),
{
    let n = board.size as usize;
    let w = compute_field_width(board.size);
    let ghost content = board_cell_texts(*board);
    let mut out = String::new();
    let mut row: usize = 0;
    while row < n
        invariant
            board.wf(),
            n == board.size as int,
            w as int == field_width(n as int),
            1 <= w <= 3,
            content == board_cell_texts(*board),
            0 <= row <= n,
            out@ == grid_rows_text(content, n as int, w as int, row as int),
        decreases n - row,
    {
        let ghost row_base = out@;
        out.push('|');
        out.push(' ');
        proof {
            assert(out@ =~= row_base + seq!['|', ' ']);
        }
        let ghost cells_base = out@;
        let mut col: usize = 0;
        while col < n
            invariant
                board.wf(),
                n == board.size as int,
                w as int == field_width(n as int),
                1 <= w <= 3,
                content == board_cell_texts(*board),
                0 <= row < n,
                0 <= col <= n,
                out@ == cells_base + row_cells_text(content, n as int, w as int, row as int, col as int),
            decreases n - col,
        {
            proof {
                lemma_cell_index_bounds(n as int, row as int, col as int);
            }
            let ghost before = out@;
            let index = row * n + col;
            let ch = match board.cells[index] {
                Some(symbol) => symbol,
                None => ' ',
            };
            push_repeat(&mut out, ' ', w - 1);
            out.push(ch);
            proof {
                assert(content[index as int] =~= seq![ch]);
                assert(pad_left(content[index as int], w as int) =~= repeat_char(
                    ' ',
                    w as int - 1,
                ).push(ch));
                assert(out@ =~= before + pad_left(content[index as int], w as int));
            }
            if col != n - 1 {
                out.push(' ');
                out.push(' ');
                proof {
                    assert(out@ =~= before + pad_left(content[index as int], w as int)
                        + seq![' ', ' ']);
                }
            }
            proof {
                assert(out@ =~= cells_base + row_cells_text(
                    content,
                    n as int,
                    w as int,
                    row as int,
                    col as int + 1,
                ));
            }
            col = col + 1;
        }
        out.push(' ');
        out.push('|');
        out.push('\n');
        proof {
            assert(out@ =~= row_base + grid_row_text(content, n as int, w as int, row as int));
            assert(out@ =~= grid_rows_text(content, n as int, w as int, row as int + 1));
        }
        row = row + 1;
    }
    out
}

/// Render the template: the one-based index of every field in a
/// bordered grid, with an arrow pointing downwards underneath.
pub fn print_board_template(size: u8) -> (r: String)
    requires
        MIN_BOARD_SIZE <= size <= MAX_BOARD_SIZE,
    ensures
        r@ == template_text(size as int),
{
    let n = size as usize;
    let w = compute_field_width(size);
    let ghost content = Seq::new(((size as int) * (size as int)) as nat, |i: int| dec_rep(i + 1));
    let mut out = String::new();
    let mut row: usize = 0;
    while row < n
        invariant
            MIN_BOARD_SIZE <= size <= MAX_BOARD_SIZE,
            n == size as int,
            w as int == field_width(n as int),
            1 <= w <= 3,
            content == Seq::new(((size as int) * (size as int)) as nat, |i: int| dec_rep(i + 1)),
            0 <= row <= n,
            out@ == grid_rows_text(content, n as int, w as int, row as int),
        decreases n - row,
    {
        let ghost row_base = out@;
        out.push('|');
        out.push(' ');
        proof {
            assert(out@ =~= row_base + seq!['|', ' ']);
        }
        let ghost cells_base = out@;
        let mut col: usize = 0;
        while col < n
            invariant
                MIN_BOARD_SIZE <= size <= MAX_BOARD_SIZE,
                n == size as int,
                w as int == field_width(n as int),
                1 <= w <= 3,
                content == Seq::new(
                    ((size as int) * (size as int)) as nat,
                    |i: int| dec_rep(i + 1),
                ),
                0 <= row < n,
                0 <= col <= n,
                out@ == cells_base + row_cells_text(content, n as int, w as int, row as int, col as int),
            decreases n - col,
        {
            proof {
                lemma_cell_index_bounds(n as int, row as int, col as int);
            }
            let ghost before = out@;
            let index = row * n + col;
            let number = (index + 1) as u8;
            let digits: usize = if number >= 100 {
                3
            } else if number >= 10 {
                2
            } else {
                1
            };
            proof {
                lemma_dec_rep_len(number as int);
                lemma_dec_rep_len((n as int) * (n as int));
                assert(digits <= w);
            }
            push_repeat(&mut out, ' ', w - digits);
            let number_text = u8_to_string(number);
            out.append(number_text.as_str());
            proof {
                assert(content[index as int] == dec_rep(index as int + 1));
                assert(pad_left(content[index as int], w as int) =~= repeat_char(
                    ' ',
                    w as int - digits as int,
                ) + dec_rep(index as int + 1));
                assert(out@ =~= before + pad_left(content[index as int], w as int));
            }
            if col != n - 1 {
                out.push(' ');
                out.push(' ');
                proof {
                    assert(out@ =~= before + pad_left(content[index as int], w as int)
                        + seq![' ', ' ']);
                }
            }
            proof {
                assert(out@ =~= cells_base + row_cells_text(
                    content,
                    n as int,
                    w as int,
                    row as int,
                    col as int + 1,
                ));
            }
            col = col + 1;
        }
        out.push(' ');
        out.push('|');
        out.push('\n');
        proof {
            assert(out@ =~= row_base + grid_row_text(content, n as int, w as int, row as int));
            assert(out@ =~= grid_rows_text(content, n as int, w as int, row as int + 1));
        }
        row = row + 1;
    }
    proof {
        assert(w * n <= 45) by (nonlinear_arith)
            requires
                1 <= w <= 3,
                3 <= n <= 15,
        ;
    }
    let line_length = w * n + 2 * n + 2;
    let ghost grid = out@;
    if line_length > 5 {
        let pad = line_length - 5;
        push_repeat(&mut out, '-', pad / 2);
        out.push('v');
        out.push('-');
        out.push('v');
        out.push('-');
        out.push('v');
        push_repeat(&mut out, '-', pad - pad / 2);
    } else {
        out.push('v');
        out.push('-');
        out.push('v');
        out.push('-');
        out.push('v');
    }
    out.push('\n');
    proof {
        assert(out@ =~= grid + arrow_line_text(line_length as int));
        assert(out@ =~= template_text(size as int));
    }
    out
}

/// The character for one decimal digit.
fn digit_to_char(d: u8) -> (r: char)
    requires
        d < 10,
    ensures
        r == digit_char(d as int),
{
    match d {
        0 => '0',
        1 => '1',
        2 => '2',
        3 => '3',
        4 => '4',
        5 => '5',
        6 => '6',
        7 => '7',
        8 => '8',
        _ => '9',
    }
}

} // verus!
