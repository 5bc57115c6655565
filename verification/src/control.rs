//! The board evaluation engine: construction, placement, and the
//! classification of a board as still playing, won, or drawn.

use vstd::prelude::*;

use crate::model::{Board, Field, Line, Status, MAX_BOARD_SIZE, MIN_BOARD_SIZE};
use itertools::Itertools;

verus! {

/// A line is won when it is non-empty and every field holds
/// the same symbol (an all-empty line never wins).
pub open spec fn line_won(line: Seq<Field>) -> bool {
    &&& line.len() > 0
    &&& line[0] is Some
    &&& forall|i: int| 0 <= i < line.len() ==> #[trigger] line[i] == line[0]
}

/// The symbol that won a line, if any.
pub open spec fn line_winner_spec(line: Seq<Field>) -> Field {
    if line_won(line) {
        line[0]
    } else {
        None
    }
}

/// A line is dead (can never be won by anyone anymore) once it holds
/// two distinct non-empty symbols.
pub open spec fn line_dead(line: Seq<Field>) -> bool {
    exists|i: int, j: int|
        0 <= i < line.len() && 0 <= j < line.len() && line[i] is Some && line[j] is Some
            && line[i] != line[j]
}

/// The fields of row `r`, in column order.
pub open spec fn row_seq(b: Board, r: int) -> Seq<Field> {
    Seq::new(b.size as nat, |c: int| b.at(r, c))
}

/// The fields of column `c`, in row order.
pub open spec fn col_seq(b: Board, c: int) -> Seq<Field> {
    Seq::new(b.size as nat, |r: int| b.at(r, c))
}

/// The main diagonal, from the top-left corner down.
pub open spec fn main_diag_seq(b: Board) -> Seq<Field> {
    Seq::new(b.size as nat, |i: int| b.at(i, i))
}

/// The anti-diagonal, from the top-right corner down.
pub open spec fn anti_diag_seq(b: Board) -> Seq<Field> {
    Seq::new(b.size as nat, |i: int| b.at(i, b.size - 1 - i))
}

/// All lines of a board in evaluation order: the rows, then the
/// columns, then the two diagonals.
pub open spec fn board_lines_seq(b: Board) -> Seq<Seq<Field>> {
    Seq::new(b.size as nat, |r: int| row_seq(b, r)) + Seq::new(
        b.size as nat,
        |c: int| col_seq(b, c),
    ) + seq![main_diag_seq(b), anti_diag_seq(b)]
}

/// The winning symbol of the first won line, in enumeration order.
pub open spec fn first_winner_spec(lines: Seq<Seq<Field>>) -> Field
    decreases lines.len(),
{
    if lines.len() <= 0 {
        None
    } else if line_won(lines[0]) {
        lines[0][0]
    } else {
        first_winner_spec(lines.drop_first())
    }
}

/// A set of lines is a draw when there is at least one line and
/// every line is dead.
pub open spec fn board_draw_spec(lines: Seq<Seq<Field>>) -> bool {
    &&& lines.len() > 0
    &&& forall|i: int| 0 <= i < lines.len() ==> line_dead(#[trigger] lines[i])
}

/// The status determined by a set of lines: a win takes precedence
/// over a draw, and anything else is still playing.
pub open spec fn status_of_lines(lines: Seq<Seq<Field>>) -> Status {
    match first_winner_spec(lines) {
        Some(winner) => Status::SomeoneWon(winner),
        None => if board_draw_spec(lines) {
            Status::Draw
        } else {
            Status::StillPlaying
        },
    }
}

/// The status of a board, derived from all of its lines.
pub open spec fn board_status_spec(b: Board) -> Status {
    status_of_lines(board_lines_seq(b))
}

/// If none of the first `i` lines is won, the first winner of all
/// lines is the first winner of the lines from `i` on.
proof fn lemma_first_winner_skip(lines: Seq<Seq<Field>>, i: int)
    requires
        0 <= i <= lines.len(),
        forall|k: int| 0 <= k < i ==> !line_won(#[trigger] lines[k]),
    ensures
        first_winner_spec(lines) == first_winner_spec(lines.skip(i)),
    decreases i,
{
    if i == 0 {
        assert(lines.skip(0) =~= lines);
    } else {
        lemma_first_winner_skip(lines, i - 1);
        assert(lines.skip(i - 1).drop_first() =~= lines.skip(i));
        assert(lines.skip(i - 1)[0] == lines[i - 1]);
    }
}

/// A row and column inside an `n x n` grid name a cell inside the
/// row-major field vector.
pub proof fn lemma_cell_index_bounds(n: int, r: int, c: int)
    requires
        0 <= r < n,
        0 <= c < n,
        n <= 15,
    ensures
        0 <= r * n + c < n * n,
        n * n <= 225,
{
    assert(0 <= r * n + c < n * n && n * n <= 225) by (nonlinear_arith)
        requires
            0 <= r < n,
            0 <= c < n,
            n <= 15,
    ;
}

/// Relies on itertools' `Itertools::all_equal_value`: it returns `Ok` with the
/// first element exactly when the iterator is non-empty and all elements are
/// equal, and `Err` otherwise. The `Err` payload (whether the iterator was
/// empty or which unequal pair was found) is dropped here.
#[verifier::external_body]
fn all_equal_value_of(line: &Line) -> (r: Option<Field>)
    ensures
        r is Some <==> (line@.len() > 0 && (forall|i: int|
            0 <= i < line@.len() ==> #[trigger] line@[i] == line@[0])),
        r matches Some(v) ==> v == line@[0],
{
    match line.iter().all_equal_value() {
        Ok(v) => Some(*v),
        Err(_) => None,
    }
}

/// Relies on itertools' `Itertools::unique`: it yields each distinct element
/// of the iterator exactly once (duplicates detected through `Eq` and `Hash`,
/// which are structural on `Option<char>`). The call also keeps the order of
/// first occurrence, which no caller here needs.
#[verifier::external_body]
fn unique_fields(line: &Line) -> (r: Vec<Field>)
    ensures
        r@.no_duplicates(),
        forall|x: Field| #[trigger] r@.contains(x) <==> line@.contains(x),
{
    line.iter().copied().unique().collect()
}

/// Return the field that won a line (row/column/diagonal), if present.
pub fn get_line_winner(line: &Line) -> (r: Field)
    ensures
        r == line_winner_spec(line@),
{
    let only_field_in_line = all_equal_value_of(line);
    if let Some(Some(winner)) = only_field_in_line {
        return Some(winner);
    }
    None
}

/// Check whether a line cannot be won by anyone anymore (a dead line):
/// it must hold at least two distinct non-empty symbols.
pub fn get_line_draw(line: &Line) -> (r: bool)
    ensures
        r == line_dead(line@),
{
    let distinct = unique_fields(line);
    let mut seen: Option<char> = None;
    let mut dead = false;
    let mut i: usize = 0;
    while i < distinct.len()
        invariant
            0 <= i <= distinct@.len(),
            distinct@.no_duplicates(),
            forall|x: Field| #[trigger] distinct@.contains(x) <==> line@.contains(x),
            seen matches Some(t) ==> exists|k: int| 0 <= k < i && distinct@[k] == Some(t),
            seen is None ==> forall|k: int| 0 <= k < i ==> distinct@[k] is None,
            !dead ==> forall|k: int|
                0 <= k < i && #[trigger] distinct@[k] is Some ==> distinct@[k] == seen,
            dead ==> line_dead(line@),
        decreases distinct@.len() - i,
    {
        if let Some(s) = distinct[i] {
            match seen {
                None => {
                    seen = Some(s);
                },
                Some(t) => {
                    proof {
                        let k = choose|k: int| 0 <= k < i && distinct@[k] == Some(t);
                        assert(distinct@[k] != distinct@[i as int]);
                        assert(distinct@.contains(distinct@[k]));
                        assert(distinct@.contains(distinct@[i as int]));
                        assert(line@.contains(distinct@[k]));
                        assert(line@.contains(distinct@[i as int]));
                        let p = choose|p: int| 0 <= p < line@.len() && line@[p] == Some(t);
                        let q = choose|q: int| 0 <= q < line@.len() && line@[q] == Some(s);
                        assert(line@[p] is Some && line@[q] is Some && line@[p] != line@[q]);
                    }
                    dead = true;
                },
            }
        }
        i = i + 1;
    }
    proof {
        if !dead && line_dead(line@) {
            let (p, q) = choose|p: int, q: int|
                0 <= p < line@.len() && 0 <= q < line@.len() && line@[p] is Some
                    && line@[q] is Some && line@[p] != line@[q];
            assert(distinct@.contains(line@[p]));
            assert(distinct@.contains(line@[q]));
            let kp = choose|kp: int| 0 <= kp < distinct@.len() && distinct@[kp] == line@[p];
            let kq = choose|kq: int| 0 <= kq < distinct@.len() && distinct@[kq] == line@[q];
            assert(distinct@[kp] == seen && distinct@[kq] == seen);
            assert(false);
        }
    }
    dead
}

/// Return the rows of a board, top to bottom.
pub fn get_rows(board: &Board) -> (r: Vec<Line>)
    requires
        board.wf(),
    ensures
        r@.len() == board.size as int,
        forall|i: int| 0 <= i < r@.len() ==> #[trigger] r@[i]@ == row_seq(*board, i),
{
    let n = board.size as usize;
    let mut rows: Vec<Line> = Vec::new();
    let mut row_i: usize = 0;
    while row_i < n
        invariant
            board.wf(),
            n == board.size as int,
            0 <= row_i <= n,
            rows@.len() == row_i as int,
            forall|i: int| 0 <= i < row_i ==> #[trigger] rows@[i]@ == row_seq(*board, i),
        decreases n - row_i,
    {
        let mut row: Line = Vec::new();
        let mut col_i: usize = 0;
        while col_i < n
            invariant
                board.wf(),
                n == board.size as int,
                0 <= row_i < n,
                0 <= col_i <= n,
                row@.len() == col_i as int,
                forall|j: int| 0 <= j < col_i ==> row@[j] == board.at(row_i as int, j),
            decreases n - col_i,
        {
            proof {
                lemma_cell_index_bounds(n as int, row_i as int, col_i as int);
            }
            row.push(board.cells[row_i * n + col_i]);
            col_i = col_i + 1;
        }
        proof {
            assert(row@ =~= row_seq(*board, row_i as int));
        }
        rows.push(row);
        row_i = row_i + 1;
    }
    rows
}

/// Return the columns of a board, left to right.
pub fn get_columns(board: &Board) -> (r: Vec<Line>)
    requires
        board.wf(),
    ensures
        r@.len() == board.size as int,
        forall|i: int| 0 <= i < r@.len() ==> #[trigger] r@[i]@ == col_seq(*board, i),
{
    let n = board.size as usize;
    let mut columns: Vec<Line> = Vec::new();
    let mut col_i: usize = 0;
    while col_i < n
        invariant
            board.wf(),
            n == board.size as int,
            0 <= col_i <= n,
            columns@.len() == col_i as int,
            forall|i: int| 0 <= i < col_i ==> #[trigger] columns@[i]@ == col_seq(*board, i),
        decreases n - col_i,
    {
        let mut column: Line = Vec::new();
        let mut row_i: usize = 0;
        while row_i < n
            invariant
                board.wf(),
                n == board.size as int,
                0 <= col_i < n,
                0 <= row_i <= n,
                column@.len() == row_i as int,
                forall|j: int| 0 <= j < row_i ==> column@[j] == board.at(j, col_i as int),
            decreases n - row_i,
        {
            proof {
                lemma_cell_index_bounds(n as int, row_i as int, col_i as int);
            }
            column.push(board.cells[row_i * n + col_i]);
            row_i = row_i + 1;
        }
        proof {
            assert(column@ =~= col_seq(*board, col_i as int));
        }
        columns.push(column);
        col_i = col_i + 1;
    }
    columns
}

/// Return the two diagonals of a board: the main diagonal first,
/// then the anti-diagonal.
pub fn get_diagonals(board: &Board) -> (r: Vec<Line>)
    requires
        board.wf(),
    ensures
        r@.len() == 2,
        r@[0]@ == main_diag_seq(*board),
        r@[1]@ == anti_diag_seq(*board),
{
    let n = board.size as usize;
    let mut diagonals: Vec<Line> = Vec::new();

    let mut major: Line = Vec::new();
    let mut i: usize = 0;
    while i < n
        invariant
            board.wf(),
            n == board.size as int,
            0 <= i <= n,
            major@.len() == i as int,
            forall|j: int| 0 <= j < i ==> major@[j] == board.at(j, j),
        decreases n - i,
    {
        proof {
            lemma_cell_index_bounds(n as int, i as int, i as int);
        }
        major.push(board.cells[i * n + i]);
        i = i + 1;
    }
    proof {
        assert(major@ =~= main_diag_seq(*board));
    }
    diagonals.push(major);

    let mut minor: Line = Vec::new();
    let mut k: usize = 0;
    while k < n
        invariant
            board.wf(),
            n == board.size as int,
            0 <= k <= n,
            minor@.len() == k as int,
            forall|j: int| 0 <= j < k ==> minor@[j] == board.at(j, n - 1 - j),
        decreases n - k,
    {
        proof {
            lemma_cell_index_bounds(n as int, k as int, (n - 1 - k) as int);
        }
        minor.push(board.cells[k * n + (n - 1 - k)]);
        k = k + 1;
    }
    proof {
        assert(minor@ =~= anti_diag_seq(*board));
    }
    diagonals.push(minor);

    diagonals
}

/// Return all lines of the board: rows, columns and diagonals,
/// in evaluation order.
pub fn get_board_lines(board: &Board) -> (r: Vec<Line>)
    requires
        board.wf(),
    ensures
        r@.len() == 2 * (board.size as int) + 2,
        r@.len() == board_lines_seq(*board).len(),
        forall|i: int| 0 <= i < r@.len() ==> #[trigger] r@[i]@ == board_lines_seq(*board)[i],
{
    let mut lines = get_rows(board);
    let mut columns = get_columns(board);
    let mut diagonals = get_diagonals(board);
    lines.append(&mut columns);
    lines.append(&mut diagonals);
    proof {
        let n = board.size as int;
        let all = board_lines_seq(*board);
        assert forall|i: int| 0 <= i < lines@.len() implies #[trigger] lines@[i]@ == all[i] by {
            if i < n {
                assert(lines@[i]@ == row_seq(*board, i));
            } else if i < 2 * n {
                assert(lines@[i]@ == col_seq(*board, i - n));
            } else if i == 2 * n {
                assert(lines@[i]@ == main_diag_seq(*board));
            } else {
                assert(lines@[i]@ == anti_diag_seq(*board));
            }
        }
    }
    lines
}

/// Return the winning symbol of the first won line, if any.
pub fn get_board_winner(board_lines: &Vec<Line>) -> (r: Field)
    ensures
        r == first_winner_spec(board_lines@.map_values(|line: Vec<Field>| line@)),
{
    let ghost all = board_lines@.map_values(|line: Vec<Field>| line@);
    let mut i: usize = 0;
    while i < board_lines.len()
        invariant
            0 <= i <= board_lines@.len(),
            all == board_lines@.map_values(|line: Vec<Field>| line@),
            forall|k: int| 0 <= k < i ==> !line_won(#[trigger] all[k]),
        decreases board_lines@.len() - i,
    {
        let winner = get_line_winner(&board_lines[i]);
        if let Some(symbol) = winner {
            proof {
                lemma_first_winner_skip(all, i as int);
                assert(all.skip(i as int)[0] == all[i as int]);
            }
            return Some(symbol);
        }
        i = i + 1;
    }
    proof {
        lemma_first_winner_skip(all, all.len() as int);
        assert(all.skip(all.len() as int) =~= Seq::<Seq<Field>>::empty());
    }
    None
}

/// Check whether a set of board lines is a draw: there must be at
/// least one line, and every line must be dead.
pub fn get_board_draw(board_lines: &Vec<Line>) -> (r: bool)
    ensures
        r == board_draw_spec(board_lines@.map_values(|line: Vec<Field>| line@)),
{
    let ghost all = board_lines@.map_values(|line: Vec<Field>| line@);
    if board_lines.len() == 0 {
        return false;
    }
    let mut i: usize = 0;
    while i < board_lines.len()
        invariant
            0 <= i <= board_lines@.len(),
            all == board_lines@.map_values(|line: Vec<Field>| line@),
            forall|k: int| 0 <= k < i ==> line_dead(#[trigger] all[k]),
        decreases board_lines@.len() - i,
    {
        if !get_line_draw(&board_lines[i]) {
            proof {
                assert(all[i as int] == board_lines@[i as int]@);
                assert(!line_dead(all[i as int]));
            }
            return false;
        }
        i = i + 1;
    }
    true
}

/// Return the current status of a board.
pub fn get_board_status(board: &Board) -> (r: Status)
    requires
        board.wf(),
    ensures
        r == board_status_spec(*board),
{
    let board_lines = get_board_lines(board);
    proof {
        assert(board_lines@.map_values(|line: Vec<Field>| line@) =~= board_lines_seq(*board));
    }

    if let Some(field) = get_board_winner(&board_lines) {
        return Status::SomeoneWon(field);
    }

    if get_board_draw(&board_lines) {
        return Status::Draw;
    }

    // the game is still going if neither a winner nor a draw could be determined
    Status::StillPlaying
}

/// Construct a board of the given size. If `content` is `Some` it must
/// be a vector with exactly `size * size` fields, consumed in row-major
/// order; on a length mismatch the board falls back to all-empty.
pub fn construct_board(size: u8, content: Option<Vec<Field>>) -> (r: Board)
    requires
        MIN_BOARD_SIZE <= size <= MAX_BOARD_SIZE,
    ensures
        r.wf(),
        r.size == size,
        content matches Some(v) ==> (v@.len() == (size as int) * (size as int) ==> r.cells@
            == v@),
        content matches Some(v) ==> (v@.len() != (size as int) * (size as int)
            ==> r.all_empty()),
        content is None ==> r.all_empty(),
{
    let n = size as usize;
    proof {
        lemma_cell_index_bounds(n as int, 0, 0);
    }
    let field_count = n * n;

    let mut cells: Vec<Field> = Vec::new();
    let mut i: usize = 0;
    while i < field_count
        invariant
            0 <= i <= field_count,
            cells@.len() == i as int,
            forall|k: int| 0 <= k < i ==> cells@[k] is None,
        decreases field_count - i,
    {
        cells.push(None);
        i = i + 1;
    }

    let mut board = Board { size, cells };

    let content = match content {
        Some(value) => value,
        None => {
            return board;
        },
    };

    if content.len() == field_count {
        let mut index: usize = 0;
        while index < field_count
            invariant
                0 <= index <= field_count,
                content@.len() == field_count as int,
                board.size == size,
                board.cells@.len() == field_count as int,
                forall|k: int| 0 <= k < index ==> board.cells@[k] == content@[k],
            decreases field_count - index,
        {
            board.cells.set(index, content[index]);
            index = index + 1;
        }
        proof {
            assert(board.cells@ =~= content@);
        }
    }

    board
}

/// Place a symbol on the board. `index` is one-based and must name a
/// field of the board. Return `false`, and leave the board unchanged,
/// if the field of `index` is not empty and the symbol wasn't placed.
pub fn place_symbol(board: &mut Board, index: u8, symbol: char) -> (r: bool)
    requires
        old(board).wf(),
        1 <= index <= (old(board).size as int) * (old(board).size as int),
    ensures
        final(board).wf(),
        final(board).size == old(board).size,
        r == (old(board).cells@[index - 1] is None),
        r ==> final(board).cells@ == old(board).cells@.update(index - 1, Some(symbol)),
        r ==> final(board).at(
            (index - 1) as int / (old(board).size as int),
            (index - 1) as int % (old(board).size as int),
        ) == Some(symbol),
        !r ==> *final(board) == *old(board),
{
    let position = (index - 1) as usize;

    if board.cells[position].is_some() {
        return false;
    }

    board.cells.set(position, Some(symbol));
    proof {
        let n = board.size as int;
        let row = (index - 1) as int / n;
        let col = (index - 1) as int % n;
        vstd::arithmetic::div_mod::lemma_fundamental_div_mod((index - 1) as int, n);
        assert(row * n + col == index - 1);
    }
    true
}

/// A dead line is never a won line: two distinct non-empty symbols
/// rule out a uniform non-empty line.
proof fn lemma_dead_line_not_won(line: Seq<Field>)
    ensures
        line_dead(line) ==> !line_won(line),
{
    if line_dead(line) && line_won(line) {
        let (i, j) = choose|i: int, j: int|
            0 <= i < line.len() && 0 <= j < line.len() && line[i] is Some && line[j] is Some
                && line[i] != line[j];
        assert(line[i] == line[0] && line[j] == line[0]);
    }
}

/// If no line is won, no winner is found.
proof fn lemma_no_winner(lines: Seq<Seq<Field>>)
    requires
        forall|k: int| 0 <= k < lines.len() ==> !line_won(#[trigger] lines[k]),
    ensures
        first_winner_spec(lines) is None,
    decreases lines.len(),
{
    if lines.len() > 0 {
        assert forall|k: int| 0 <= k < lines.drop_first().len() implies !line_won(
            #[trigger] lines.drop_first()[k],
        ) by {
            assert(lines.drop_first()[k] == lines[k + 1]);
        }
        lemma_no_winner(lines.drop_first());
    }
}

/// The winner that is found is the winner of the first won line in
/// enumeration order.
proof fn lemma_first_winner_at(lines: Seq<Seq<Field>>, i: int)
    requires
        0 <= i < lines.len(),
        line_won(lines[i]),
        forall|k: int| 0 <= k < i ==> !line_won(#[trigger] lines[k]),
    ensures
        first_winner_spec(lines) == lines[i][0],
{
    lemma_first_winner_skip(lines, i);
    assert(lines.skip(i)[0] == lines[i]);
}

/// An all-empty well-formed board, of any supported size, evaluates
/// to still playing.
pub proof fn lemma_empty_board_still_playing(b: Board)
    requires
        b.wf(),
        b.all_empty(),
    ensures
        board_status_spec(b) == Status::StillPlaying,
{
    let n = b.size as int;
    let lines = board_lines_seq(b);
    assert forall|r: int, c: int| 0 <= r < n && 0 <= c < n implies #[trigger] b.at(r, c)
        is None by {
        lemma_cell_index_bounds(n, r, c);
    }
    assert forall|k: int| 0 <= k < lines.len() implies !line_won(#[trigger] lines[k]) by {
        assert(lines[k][0] is None);
    }
    lemma_no_winner(lines);
    assert(!line_dead(lines[0]));
    assert(!board_draw_spec(lines));
}

/// Filling one row entirely with one symbol, leaving the rest of the
/// board empty, makes that symbol the winner.
pub proof fn lemma_full_row_wins(b: Board, r: int, s: char)
    requires
        b.wf(),
        0 <= r < b.size,
        forall|c: int| 0 <= c < b.size ==> b.at(r, c) == Some(s),
        forall|r2: int, c: int|
            0 <= r2 < b.size && 0 <= c < b.size && r2 != r ==> #[trigger] b.at(r2, c)
                is None,
    ensures
        board_status_spec(b) == Status::SomeoneWon(s),
{
    let n = b.size as int;
    let lines = board_lines_seq(b);
    assert(line_won(lines[r])) by {
        assert forall|i: int| 0 <= i < row_seq(b, r).len() implies #[trigger] row_seq(b, r)[i]
            == row_seq(b, r)[0] by {
            assert(b.at(r, i) == Some(s));
            assert(b.at(r, 0) == Some(s));
        }
        assert(row_seq(b, r)[0] == Some(s));
    }
    assert forall|k: int| 0 <= k < r implies !line_won(#[trigger] lines[k]) by {
        assert(lines[k][0] == b.at(k, 0));
    }
    lemma_first_winner_at(lines, r);
    assert(lines[r][0] == b.at(r, 0));
}

/// Filling one column entirely with one symbol, leaving the rest of
/// the board empty, makes that symbol the winner.
pub proof fn lemma_full_column_wins(b: Board, c: int, s: char)
    requires
        b.wf(),
        0 <= c < b.size,
        forall|r: int| 0 <= r < b.size ==> b.at(r, c) == Some(s),
        forall|r: int, c2: int|
            0 <= r < b.size && 0 <= c2 < b.size && c2 != c ==> #[trigger] b.at(r, c2)
                is None,
    ensures
        board_status_spec(b) == Status::SomeoneWon(s),
{
    let n = b.size as int;
    let lines = board_lines_seq(b);
    // no row is won: every row holds an empty field off column `c`
    assert forall|k: int| 0 <= k < n implies !line_won(#[trigger] lines[k]) by {
        let c2: int = if c == 0 { 1 } else { 0 };
        assert(lines[k] == row_seq(b, k));
        assert(row_seq(b, k)[c2] == b.at(k, c2));
        assert(b.at(k, c2) is None);
        if line_won(lines[k]) {
            assert(row_seq(b, k)[c2] == row_seq(b, k)[0]);
        }
    }
    // the columns left of `c` are entirely empty
    assert forall|k: int| n <= k < n + c implies !line_won(#[trigger] lines[k]) by {
        assert(lines[k] == col_seq(b, k - n));
        assert(col_seq(b, k - n)[0] == b.at(0, k - n));
    }
    assert(line_won(lines[n + c])) by {
        assert(lines[n + c] == col_seq(b, c));
        assert forall|i: int| 0 <= i < col_seq(b, c).len() implies #[trigger] col_seq(b, c)[i]
            == col_seq(b, c)[0] by {
            assert(b.at(i, c) == Some(s));
            assert(b.at(0, c) == Some(s));
        }
        assert(col_seq(b, c)[0] == Some(s));
    }
    lemma_first_winner_at(lines, n + c);
    assert(lines[n + c][0] == b.at(0, c));
}

/// Filling the main diagonal entirely with one symbol, leaving the
/// rest of the board empty, makes that symbol the winner.
pub proof fn lemma_full_main_diagonal_wins(b: Board, s: char)
    requires
        b.wf(),
        forall|i: int| 0 <= i < b.size ==> b.at(i, i) == Some(s),
        forall|r: int, c: int|
            0 <= r < b.size && 0 <= c < b.size && r != c ==> #[trigger] b.at(r, c) is None,
    ensures
        board_status_spec(b) == Status::SomeoneWon(s),
{
    let n = b.size as int;
    let lines = board_lines_seq(b);
    assert forall|k: int| 0 <= k < n implies !line_won(#[trigger] lines[k]) by {
        let c2: int = if k == 0 { 1 } else { 0 };
        assert(lines[k] == row_seq(b, k));
        assert(row_seq(b, k)[c2] == b.at(k, c2));
        assert(b.at(k, c2) is None);
        if line_won(lines[k]) {
            assert(row_seq(b, k)[c2] == row_seq(b, k)[0]);
        }
    }
    assert forall|k: int| n <= k < 2 * n implies !line_won(#[trigger] lines[k]) by {
        let col = k - n;
        let r2: int = if col == 0 { 1 } else { 0 };
        assert(lines[k] == col_seq(b, col));
        assert(col_seq(b, col)[r2] == b.at(r2, col));
        assert(b.at(r2, col) is None);
        if line_won(lines[k]) {
            assert(col_seq(b, col)[r2] == col_seq(b, col)[0]);
        }
    }
    assert(line_won(lines[2 * n])) by {
        assert(lines[2 * n] == main_diag_seq(b));
        assert forall|i: int| 0 <= i < main_diag_seq(b).len() implies #[trigger] main_diag_seq(
            b,
        )[i] == main_diag_seq(b)[0] by {
            assert(b.at(i, i) == Some(s));
            assert(b.at(0, 0) == Some(s));
        }
        assert(main_diag_seq(b)[0] == Some(s));
    }
    lemma_first_winner_at(lines, 2 * n);
    assert(lines[2 * n][0] == b.at(0, 0));
}

/// Filling the anti-diagonal entirely with one symbol, leaving the
/// rest of the board empty, makes that symbol the winner.
pub proof fn lemma_full_anti_diagonal_wins(b: Board, s: char)
    requires
        b.wf(),
        forall|i: int| 0 <= i < b.size ==> #[trigger] b.at(i, b.size - 1 - i) == Some(s),
        forall|r: int, c: int|
            0 <= r < b.size && 0 <= c < b.size && c != b.size - 1 - r ==> #[trigger] b.at(r, c)
                is None,
    ensures
        board_status_spec(b) == Status::SomeoneWon(s),
{
    let n = b.size as int;
    let lines = board_lines_seq(b);
    assert forall|k: int| 0 <= k < n implies !line_won(#[trigger] lines[k]) by {
        let c2: int = if n - 1 - k == 0 { 1 } else { 0 };
        assert(lines[k] == row_seq(b, k));
        assert(row_seq(b, k)[c2] == b.at(k, c2));
        assert(b.at(k, c2) is None);
        if line_won(lines[k]) {
            assert(row_seq(b, k)[c2] == row_seq(b, k)[0]);
        }
    }
    assert forall|k: int| n <= k < 2 * n implies !line_won(#[trigger] lines[k]) by {
        let col = k - n;
        let r2: int = if n - 1 - col == 0 { 1 } else { 0 };
        assert(lines[k] == col_seq(b, col));
        assert(col_seq(b, col)[r2] == b.at(r2, col));
        assert(b.at(r2, col) is None);
        if line_won(lines[k]) {
            assert(col_seq(b, col)[r2] == col_seq(b, col)[0]);
        }
    }
    assert(!line_won(lines[2 * n])) by {
        assert(lines[2 * n] == main_diag_seq(b));
        assert(main_diag_seq(b)[0] == b.at(0, 0));
        assert(b.at(0, 0) is None);
    }
    assert(line_won(lines[2 * n + 1])) by {
        assert(lines[2 * n + 1] == anti_diag_seq(b));
        assert forall|i: int| 0 <= i < anti_diag_seq(b).len() implies #[trigger] anti_diag_seq(
            b,
        )[i] == anti_diag_seq(b)[0] by {
            assert(b.at(i, b.size - 1 - i) == Some(s));
            assert(b.at(0, b.size - 1 - 0) == Some(s));
        }
        assert(anti_diag_seq(b)[0] == Some(s));
    }
    lemma_first_winner_at(lines, 2 * n + 1);
    assert(lines[2 * n + 1][0] == b.at(0, n - 1));
}

/// When two different rows are each filled with different winning
/// symbols, the reported winner is the one from the row with the
/// lower index.
pub proof fn lemma_earlier_row_winner_reported(b: Board, r1: int, r2: int, s1: char, s2: char)
    requires
        b.wf(),
        0 <= r1 < r2 < b.size,
        s1 != s2,
        forall|c: int| 0 <= c < b.size ==> b.at(r1, c) == Some(s1),
        forall|c: int| 0 <= c < b.size ==> b.at(r2, c) == Some(s2),
        forall|r: int, c: int|
            0 <= r < b.size && 0 <= c < b.size && r != r1 && r != r2 ==> #[trigger] b.at(r, c)
                is None,
    ensures
        board_status_spec(b) == Status::SomeoneWon(s1),
{
    let n = b.size as int;
    let lines = board_lines_seq(b);
    assert(line_won(lines[r1])) by {
        assert forall|i: int| 0 <= i < row_seq(b, r1).len() implies #[trigger] row_seq(b, r1)[i]
            == row_seq(b, r1)[0] by {
            assert(b.at(r1, i) == Some(s1));
            assert(b.at(r1, 0) == Some(s1));
        }
        assert(row_seq(b, r1)[0] == Some(s1));
    }
    assert forall|k: int| 0 <= k < r1 implies !line_won(#[trigger] lines[k]) by {
        assert(lines[k][0] == b.at(k, 0));
    }
    lemma_first_winner_at(lines, r1);
    assert(lines[r1][0] == b.at(r1, 0));
}

/// A board on which every line is dead evaluates to a draw.
pub proof fn lemma_all_lines_dead_is_draw(b: Board)
    requires
        b.wf(),
        forall|i: int|
            0 <= i < board_lines_seq(b).len() ==> line_dead(#[trigger] board_lines_seq(b)[i]),
    ensures
        board_status_spec(b) == Status::Draw,
{
    let lines = board_lines_seq(b);
    assert forall|k: int| 0 <= k < lines.len() implies !line_won(#[trigger] lines[k]) by {
        lemma_dead_line_not_won(lines[k]);
    }
    lemma_no_winner(lines);
    assert(board_draw_spec(lines));
}

} // verus!
