use vstd::prelude::*;
use crate::direction::Direction;
use crate::puzzle::{Grid, cells, lemma_empty_position, lemma_position, find_empty_position, in_grid, index_of, is_board, position_of};

verus! {

/// One slide: the tile `piece` at `from` moves into the empty cell at `to`.
#[derive(Debug, Clone, Copy)]
pub struct Move {
    pub direction: Direction,
    pub from: (usize, usize),
    pub to: (usize, usize),
    pub piece: u8,
}

/// Two moves are the same move when they share direction and tile.
impl PartialEq for Move {
    fn eq(&self, other: &Move) -> (r: bool) {
        self.direction == other.direction && self.piece == other.piece
    }
}

impl vstd::std_specs::cmp::PartialEqSpecImpl for Move {
    open spec fn obeys_eq_spec() -> bool {
        true
    }

    open spec fn eq_spec(&self, other: &Move) -> bool {
        self.direction == other.direction && self.piece == other.piece
    }
}

/// The move that slides the tile at `(fr, fc)` of `s` into the empty cell at `(er, ec)`.
pub open spec fn slide(s: Seq<u8>, d: Direction, fr: int, fc: int, er: int, ec: int) -> Move {
    Move {
        direction: d,
        from: (fr as usize, fc as usize),
        to: (er as usize, ec as usize),
        piece: s[index_of(fr, fc)],
    }
}

/// The legal moves of `s` when its empty cell is at `(er, ec)`, in the order:
/// the tile above, the tile below, the tile to the right (labelled `Left`),
/// the tile to the left (labelled `Right`).
pub open spec fn moves_at(s: Seq<u8>, er: int, ec: int) -> Seq<Move> {
    (if er != 0 { seq![slide(s, Direction::Down, er - 1, ec, er, ec)] } else { seq![] })
    + (if er < 2 { seq![slide(s, Direction::Up, er + 1, ec, er, ec)] } else { seq![] })
    + (if ec < 2 { seq![slide(s, Direction::Left, er, ec + 1, er, ec)] } else { seq![] })
    + (if ec != 0 { seq![slide(s, Direction::Right, er, ec - 1, er, ec)] } else { seq![] })
}

/// The legal moves of a well-formed board.
pub open spec fn valid_moves(s: Seq<u8>) -> Seq<Move> {
    let i = position_of(s, 0);
    moves_at(s, i / 3, i % 3)
}

/// The board after `m`: its source becomes empty and its destination takes its tile.
pub open spec fn apply(s: Seq<u8>, m: Move) -> Seq<u8> {
    s.update(index_of(m.from.0 as int, m.from.1 as int), 0).update(
        index_of(m.to.0 as int, m.to.1 as int),
        m.piece,
    )
}

/// The legal moves of the board, as described by `valid_moves`.
pub fn get_valid_moves(puzzle: &Grid) -> (r: Vec<Move>)
    requires
        is_board(cells(*puzzle)),
    ensures
        r@ == valid_moves(cells(*puzzle)),
{
    let empty_position = find_empty_position(puzzle);
    let ghost s = cells(*puzzle);
    let ghost er = empty_position.0 as int;
    let ghost ec = empty_position.1 as int;
    proof {
        let i = position_of(s, 0);
        assert(i / 3 == er && i % 3 == ec);
    }
    let mut valid_moves = Vec::new();
    // the tile above slides down
    if empty_position.0 != 0 {
        valid_moves.push(Move {
            direction: Direction::Down,
            from: (empty_position.0 - 1, empty_position.1),
            to: empty_position,
            piece: puzzle[empty_position.0 - 1][empty_position.1],
        });
    }
    // the tile below slides up
    if empty_position.0 < 2 {
        valid_moves.push(Move {
            direction: Direction::Up,
            from: (empty_position.0 + 1, empty_position.1),
            to: empty_position,
            piece: puzzle[empty_position.0 + 1][empty_position.1],
        });
    }
    // the tile to the right slides left
    if empty_position.1 < 2 {
        valid_moves.push(Move {
            direction: Direction::Left,
            from: (empty_position.0, empty_position.1 + 1),
            to: empty_position,
            piece: puzzle[empty_position.0][empty_position.1 + 1],
        });
    }
    // the tile to the left slides right
    if empty_position.1 != 0 {
        valid_moves.push(Move {
            direction: Direction::Right,
            from: (empty_position.0, empty_position.1 - 1),
            to: empty_position,
            piece: puzzle[empty_position.0][empty_position.1 - 1],
        });
    }
    proof {
        crate::puzzle::lemma_cells_all(*puzzle);
        assert(valid_moves@ =~= moves_at(s, er, ec));
    }
    valid_moves
}

/// Slides the move's tile into the empty cell.
pub fn apply_move(puzzle: &mut Grid, m: &Move)
    requires
        in_grid(m.from.0 as int, m.from.1 as int),
        in_grid(m.to.0 as int, m.to.1 as int),
    ensures
        cells(*final(puzzle)) == apply(cells(*old(puzzle)), *m),
{
    puzzle[m.from.0][m.from.1] = 0;
    puzzle[m.to.0][m.to.1] = m.piece;
    proof {
        crate::puzzle::lemma_cells_all(*old(puzzle));
        crate::puzzle::lemma_cells_all(*puzzle);
        assert(cells(*puzzle) =~= apply(cells(*old(puzzle)), *m));
    }
}

/// The direction that undoes a slide in direction `d`.
pub open spec fn reverse_direction(d: Direction) -> Direction {
    match d {
        Direction::Left => Direction::Right,
        Direction::Right => Direction::Left,
        Direction::Up => Direction::Down,
        Direction::Down => Direction::Up,
    }
}

/// The move that slides the tile of `m` back where it came from.
pub open spec fn reverse(m: Move) -> Move {
    Move { direction: reverse_direction(m.direction), from: m.to, to: m.from, piece: m.piece }
}

/// A well-formed board has two legal moves with its empty cell in a corner,
/// three with it on an edge and four with it in the centre.
pub proof fn lemma_move_count(s: Seq<u8>)
    requires
        is_board(s),
    ensures
        ({
            let i = position_of(s, 0);
            valid_moves(s).len() == 2 + (if i / 3 == 1 { 1int } else { 0 }) + (if i % 3 == 1 { 1int } else { 0 })
        }),
        2 <= valid_moves(s).len() <= 4,
{
    lemma_empty_position(s);
}

/// `m` is one of the slides into the empty cell at `(er, ec)` of `s`.
pub open spec fn is_slide_at(s: Seq<u8>, er: int, ec: int, m: Move) -> bool {
    ||| er != 0 && m == slide(s, Direction::Down, er - 1, ec, er, ec)
    ||| er < 2 && m == slide(s, Direction::Up, er + 1, ec, er, ec)
    ||| ec < 2 && m == slide(s, Direction::Left, er, ec + 1, er, ec)
    ||| ec != 0 && m == slide(s, Direction::Right, er, ec - 1, er, ec)
}

proof fn lemma_moves_at_contains(s: Seq<u8>, er: int, ec: int, m: Move)
    requires
        in_grid(er, ec),
    ensures
        moves_at(s, er, ec).contains(m) <==> is_slide_at(s, er, ec, m),
{
    let a: Seq<Move> = if er != 0 { seq![slide(s, Direction::Down, er - 1, ec, er, ec)] } else { seq![] };
    let b: Seq<Move> = if er < 2 { seq![slide(s, Direction::Up, er + 1, ec, er, ec)] } else { seq![] };
    let c: Seq<Move> = if ec < 2 { seq![slide(s, Direction::Left, er, ec + 1, er, ec)] } else { seq![] };
    let d: Seq<Move> = if ec != 0 { seq![slide(s, Direction::Right, er, ec - 1, er, ec)] } else { seq![] };
    let ms = moves_at(s, er, ec);
    assert(ms == a + b + c + d);
    if ms.contains(m) {
        let k = choose|k: int| 0 <= k < ms.len() && ms[k] == m;
        assert(ms[k] == m);
    }
    if is_slide_at(s, er, ec, m) {
        if er != 0 && m == a[0] {
            assert(ms[0] == m);
        } else if er < 2 && m == b[0] {
            assert(ms[a.len() as int] == m);
        } else if ec < 2 && m == c[0] {
            assert(ms[(a.len() + b.len()) as int] == m);
        } else {
            assert(ms[(a.len() + b.len() + c.len()) as int] == m);
        }
    }
}

/// A legal move keeps the board well-formed; the board after it offers the
/// reverse move (opposite direction, same tile), which restores the board.
pub proof fn lemma_move_undo(s: Seq<u8>, m: Move)
    requires
        is_board(s),
        valid_moves(s).contains(m),
    ensures
        is_board(apply(s, m)),
        valid_moves(apply(s, m)).contains(reverse(m)),
        apply(apply(s, m), reverse(m)) == s,
{
    lemma_empty_position(s);
    let e = position_of(s, 0);
    let er = e / 3;
    let ec = e % 3;
    lemma_moves_at_contains(s, er, ec, m);
    let fr = m.from.0 as int;
    let fc = m.from.1 as int;
    let a = index_of(fr, fc);
    assert(in_grid(fr, fc));
    assert(m.to.0 as int == er && m.to.1 as int == ec);
    assert(index_of(er, ec) == e);
    assert(0 <= a < 9 && a != e);
    assert(m.piece == s[a]);
    let t = apply(s, m);
    assert(t[a] == 0 && t[e] == s[a]);
    assert forall|i: int, j: int| 0 <= i < 9 && 0 <= j < 9 && i != j implies #[trigger] t[i] != #[trigger] t[j] by {
        assert(s[i] != s[j]);
    }
    assert(forall|i: int| 0 <= i < 9 ==> #[trigger] t[i] <= 8);
    assert(is_board(t));
    lemma_position(t, 0, a);
    assert(a / 3 == fr && a % 3 == fc);
    let rm = reverse(m);
    lemma_moves_at_contains(t, fr, fc, rm);
    assert(t[index_of(er, ec)] == m.piece);
    assert(is_slide_at(t, fr, fc, rm));
    assert(apply(t, rm) =~= s);
}

} // verus!
