use vstd::prelude::*;
use vstd::string::StringExecFns;

verus! {

/// A board: three rows of three cells. `0` is the empty cell, `1..=8` are tiles.
pub type Grid = [[u8; 3]; 3];

/// Whether `(r, c)` names a cell of the board.
pub open spec fn in_grid(r: int, c: int) -> bool {
    0 <= r < 3 && 0 <= c < 3
}

/// The value in row `r`, column `c`.
pub open spec fn cell(p: Grid, r: int, c: int) -> u8 {
    p[r][c]
}

/// The cells in row-major order.
pub open spec fn cells(p: Grid) -> Seq<u8> {
    seq![
        p[0][0], p[0][1], p[0][2],
        p[1][0], p[1][1], p[1][2],
        p[2][0], p[2][1], p[2][2],
    ]
}

/// The row-major index of the cell `(r, c)`.
pub open spec fn index_of(r: int, c: int) -> int {
    3 * r + c
}

/// A well-formed board: the values are `0..=8`, no value repeats, and the
/// empty cell is present.
pub open spec fn is_board(s: Seq<u8>) -> bool {
    &&& s.len() == 9
    &&& forall|i: int| 0 <= i < 9 ==> #[trigger] s[i] <= 8
    &&& forall|i: int, j: int| 0 <= i < 9 && 0 <= j < 9 && i != j ==> #[trigger] s[i] != #[trigger] s[j]
    &&& exists|i: int| 0 <= i < 9 && #[trigger] s[i] == 0
}

/// The solved arrangement: tiles `1..=8` in row-major order, empty cell last.
pub open spec fn solved() -> Seq<u8> {
    seq![1u8, 2, 3, 4, 5, 6, 7, 8, 0]
}

/// The row-major index at which `v` stands on a well-formed board.
pub open spec fn position_of(s: Seq<u8>, v: u8) -> int {
    choose|i: int| 0 <= i < 9 && s[i] == v
}

/// Each cell stands in `cells` at its row-major index.
pub proof fn lemma_cells_all(p: Grid)
    ensures
        forall|i: int| 0 <= i < 9 ==> #[trigger] cells(p)[i] == cell(p, i / 3, i % 3),
{
    assert forall|i: int| 0 <= i < 9 implies #[trigger] cells(p)[i] == cell(p, i / 3, i % 3) by {
        if i == 0 {} else if i == 1 {} else if i == 2 {} else if i == 3 {} else if i == 4 {}
        else if i == 5 {} else if i == 6 {} else if i == 7 {} else {}
    }
}

/// On a well-formed board, the index at which a value stands is `position_of`.
pub proof fn lemma_position(s: Seq<u8>, v: u8, i: int)
    requires
        is_board(s),
        0 <= i < 9,
        s[i] == v,
    ensures
        position_of(s, v) == i,
{
    let j = position_of(s, v);
    assert(0 <= j < 9 && s[j] == v);
}

/// On a well-formed board the empty cell has a position.
pub proof fn lemma_empty_position(s: Seq<u8>)
    requires
        is_board(s),
    ensures
        0 <= position_of(s, 0) < 9,
        s[position_of(s, 0)] == 0,
{
    let i = choose|i: int| 0 <= i < 9 && s[i] == 0;
    assert(s[i] == 0);
}

/// The cell `(row, col)` holding `value`.
pub fn find_position(puzzle: &Grid, value: u8) -> (r: (usize, usize))
    requires
        is_board(cells(*puzzle)),
        cells(*puzzle).contains(value),
    ensures
        in_grid(r.0 as int, r.1 as int),
        cell(*puzzle, r.0 as int, r.1 as int) == value,
{
    let mut row: usize = 0;
    while row < 3
        invariant
            0 <= row <= 3,
            cells(*puzzle).contains(value),
            forall|r: int, c: int| 0 <= r < row && 0 <= c < 3 ==> cell(*puzzle, r, c) != value,
        decreases 3 - row,
    {
        let mut col: usize = 0;
        while col < 3
            invariant
                0 <= row < 3,
                0 <= col <= 3,
                forall|r: int, c: int| 0 <= r < row && 0 <= c < 3 ==> cell(*puzzle, r, c) != value,
                forall|c: int| 0 <= c < col ==> cell(*puzzle, row as int, c) != value,
            decreases 3 - col,
        {
            if puzzle[row][col] == value {
                return (row, col);
            }
            col += 1;
        }
        row += 1;
    }
    proof {
        lemma_cells_all(*puzzle);
        let i = choose|i: int| 0 <= i < 9 && cells(*puzzle)[i] == value;
        assert(cell(*puzzle, i / 3, i % 3) == value);
    }
    (0, 0)
}

/// The cell `(row, col)` of the empty cell.
pub fn find_empty_position(puzzle: &Grid) -> (r: (usize, usize))
    requires
        is_board(cells(*puzzle)),
    ensures
        in_grid(r.0 as int, r.1 as int),
        cell(*puzzle, r.0 as int, r.1 as int) == 0,
        index_of(r.0 as int, r.1 as int) == position_of(cells(*puzzle), 0),
{
    let r = find_position(puzzle, 0);
    proof {
        let s = cells(*puzzle);
        let i = choose|i: int| 0 <= i < 9 && s[i] == 0;
        assert(s[i] == 0);
        assert(s.contains(0u8));
    }
    r
}

/// The value that the solved arrangement holds at row-major index `i`.
pub open spec fn solved_at(i: int) -> u8 {
    if i < 8 { (i + 1) as u8 } else { 0 }
}

/// The solved arrangement holds `solved_at(i)` at each index `i`.
pub proof fn lemma_solved_cells()
    ensures
        forall|i: int| 0 <= i < 9 ==> #[trigger] solved()[i] == solved_at(i),
{
    assert forall|i: int| 0 <= i < 9 implies #[trigger] solved()[i] == solved_at(i) by {
        if i == 0 {} else if i == 1 {} else if i == 2 {} else if i == 3 {} else if i == 4 {}
        else if i == 5 {} else if i == 6 {} else if i == 7 {} else {}
    }
}

/// Whether the board reads `1..=8` in row-major order with the empty cell last.
pub fn is_success(puzzle: &Grid) -> (r: bool)
    ensures
        r == (cells(*puzzle) == solved()),
{
    proof {
        lemma_cells_all(*puzzle);
        lemma_solved_cells();
    }
    let mut success = true;
    let mut prev: u8 = 0;
    let mut row: usize = 0;
    while row < 3
        invariant
            0 <= row <= 3,
            prev == 3 * row,
            forall|i: int| 0 <= i < 9 ==> #[trigger] cells(*puzzle)[i] == cell(*puzzle, i / 3, i % 3),
            forall|i: int| 0 <= i < 9 ==> #[trigger] solved()[i] == solved_at(i),
            success == (forall|i: int| 0 <= i < 3 * row ==> #[trigger] cells(*puzzle)[i] == solved_at(i)),
        decreases 3 - row,
    {
        let mut col: usize = 0;
        while col < 3
            invariant
                0 <= row < 3,
                0 <= col <= 3,
                prev == 3 * row + col,
                forall|i: int| 0 <= i < 9 ==> #[trigger] cells(*puzzle)[i] == cell(*puzzle, i / 3, i % 3),
                success == (forall|i: int| 0 <= i < 3 * row + col ==> #[trigger] cells(*puzzle)[i] == solved_at(i)),
            decreases 3 - col,
        {
            let value = puzzle[row][col];
            let expected: u8 = if prev < 8 { prev + 1 } else { 0 };
            proof {
                let k = 3 * row + col;
                assert(cells(*puzzle)[k] == value);
                assert(expected == solved_at(k));
            }
            if value != expected {
                success = false;
            }
            prev += 1;
            col += 1;
        }
        row += 1;
    }
    proof {
        if success {
            assert(cells(*puzzle) =~= solved());
        }
    }
    success
}

/// Whether the board is well-formed: values `0..=8`, none repeated, the
/// empty cell present.
pub fn is_well_formed(puzzle: &Grid) -> (r: bool)
    ensures
        r == is_board(cells(*puzzle)),
{
    proof {
        lemma_cells_all(*puzzle);
    }
    let ghost s = cells(*puzzle);
    let mut has_empty = false;
    let mut i: usize = 0;
    while i < 9
        invariant
            0 <= i <= 9,
            s == cells(*puzzle),
            s.len() == 9,
            forall|k: int| 0 <= k < 9 ==> #[trigger] s[k] == cell(*puzzle, k / 3, k % 3),
            forall|a: int| 0 <= a < i ==> #[trigger] s[a] <= 8,
            forall|a: int, b: int| 0 <= a < i && a < b < 9 ==> #[trigger] s[a] != #[trigger] s[b],
            has_empty == exists|a: int| 0 <= a < i && #[trigger] s[a] == 0,
        decreases 9 - i,
    {
        let v = puzzle[i / 3][i % 3];
        assert(s[i as int] == v);
        if v > 8 {
            return false;
        }
        if v == 0 {
            has_empty = true;
        }
        let mut j: usize = i + 1;
        while j < 9
            invariant
                0 <= i < 9,
                i < j <= 9,
                s[i as int] == v,
                forall|k: int| 0 <= k < 9 ==> #[trigger] s[k] == cell(*puzzle, k / 3, k % 3),
                forall|b: int| i < b < j ==> #[trigger] s[b] != v,
            decreases 9 - j,
        {
            if puzzle[j / 3][j % 3] == v {
                assert(s[j as int] == v);
                return false;
            }
            j += 1;
        }
        i += 1;
    }
    proof {
        assert forall|a: int, b: int| 0 <= a < 9 && 0 <= b < 9 && a != b implies #[trigger] s[a] != #[trigger] s[b] by {
            if a > b {
                assert(s[b] != s[a]);
            }
        }
    }
    has_empty
}

/// A new board in the solved arrangement.
pub fn new_puzzle() -> (p: Grid)
    ensures
        cells(p) == solved(),
{
    let p: Grid = [[1, 2, 3], [4, 5, 6], [7, 8, 0]];
    assert(cells(p) =~= solved());
    p
}

/// The glyph of a cell: `_` for the empty cell, the digit of a tile otherwise.
pub open spec fn glyph(v: u8) -> char {
    if v == 0 { '_' }
    else if v == 1 { '1' } else if v == 2 { '2' } else if v == 3 { '3' } else if v == 4 { '4' }
    else if v == 5 { '5' } else if v == 6 { '6' } else if v == 7 { '7' } else { '8' }
}

/// A cell as text: its glyph, padded to a width of three.
pub open spec fn cell_text(v: u8) -> Seq<char> {
    seq![glyph(v), ' ', ' ']
}

/// A row as text: its three cells and a line break.
pub open spec fn row_text(p: Grid, r: int) -> Seq<char> {
    cell_text(p[r][0]) + cell_text(p[r][1]) + cell_text(p[r][2]) + seq!['\n']
}

/// The board as text, one line per row.
pub open spec fn render(p: Grid) -> Seq<char> {
    row_text(p, 0) + row_text(p, 1) + row_text(p, 2)
}

fn cell_str(v: u8) -> (r: &'static str)
    requires
        v <= 8,
    ensures
        r@ == cell_text(v),
{
    proof {
        reveal_strlit("_  ");
        reveal_strlit("1  ");
        reveal_strlit("2  ");
        reveal_strlit("3  ");
        reveal_strlit("4  ");
        reveal_strlit("5  ");
        reveal_strlit("6  ");
        reveal_strlit("7  ");
        reveal_strlit("8  ");
    }
    match v {
        0 => "_  ",
        1 => "1  ",
        2 => "2  ",
        3 => "3  ",
        4 => "4  ",
        5 => "5  ",
        6 => "6  ",
        7 => "7  ",
        _ => "8  ",
    }
}

/// The board as text: each tile left-aligned in a field of three, the empty
/// cell shown as `_`, one line per row.
pub fn format_puzzle(puzzle: &Grid) -> (r: String)
    requires
        is_board(cells(*puzzle)),
    ensures
        r@ == render(*puzzle),
{
    proof {
        lemma_cells_all(*puzzle);
    }
    let mut out = String::new();
    let mut row: usize = 0;
    while row < 3
        invariant
            0 <= row <= 3,
            is_board(cells(*puzzle)),
            forall|i: int| 0 <= i < 9 ==> #[trigger] cells(*puzzle)[i] == cell(*puzzle, i / 3, i % 3),
            out@ == (if row == 0 { seq![] } else if row == 1 { row_text(*puzzle, 0) } else if row == 2 {
                row_text(*puzzle, 0) + row_text(*puzzle, 1)
            } else {
                render(*puzzle)
            }),
        decreases 3 - row,
    {
        let ghost start = out@;
        let mut col: usize = 0;
        while col < 3
            invariant
                0 <= row < 3,
                0 <= col <= 3,
                is_board(cells(*puzzle)),
                forall|i: int| 0 <= i < 9 ==> #[trigger] cells(*puzzle)[i] == cell(*puzzle, i / 3, i % 3),
                out@ == start + (if col == 0 { seq![] } else if col == 1 { cell_text(puzzle[row as int][0]) }
                    else if col == 2 { cell_text(puzzle[row as int][0]) + cell_text(puzzle[row as int][1]) }
                    else { cell_text(puzzle[row as int][0]) + cell_text(puzzle[row as int][1]) + cell_text(puzzle[row as int][2]) }),
            decreases 3 - col,
        {
            assert(cells(*puzzle)[3 * row + col] <= 8);
            out.append(cell_str(puzzle[row][col]));
            proof {
                if col == 0 {
                    assert(out@ =~= start + cell_text(puzzle[row as int][0]));
                } else if col == 1 {
                    assert(out@ =~= start + (cell_text(puzzle[row as int][0]) + cell_text(puzzle[row as int][1])));
                } else {
                    assert(out@ =~= start + (cell_text(puzzle[row as int][0]) + cell_text(puzzle[row as int][1]) + cell_text(puzzle[row as int][2])));
                }
            }
            col += 1;
        }
        out.append("\n");
        proof {
            reveal_strlit("\n");
            assert(out@ =~= start + row_text(*puzzle, row as int));
            if row == 0 {
                assert(out@ =~= row_text(*puzzle, 0));
            } else if row == 1 {
                assert(out@ =~= row_text(*puzzle, 0) + row_text(*puzzle, 1));
            }
        }
        row += 1;
    }
    out
}

/// Exchanging the contents of any two different cells of the solved board
/// gives a board that is not solved.
pub proof fn lemma_transposition_unsolved(i: int, j: int)
    requires
        0 <= i < 9,
        0 <= j < 9,
        i != j,
    ensures
        solved().update(i, solved()[j]).update(j, solved()[i]) != solved(),
{
    lemma_solved_cells();
    let t = solved().update(i, solved()[j]).update(j, solved()[i]);
    assert(t[j] != solved()[j]);
}

} // verus!
