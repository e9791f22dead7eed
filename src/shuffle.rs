use rand::rngs::StdRng;
use rand::Rng;
use vstd::prelude::*;
use crate::direction::{Direction, direction_of_char};
use crate::moves::{Move, apply, reverse, apply_move, get_valid_moves, lemma_move_count, lemma_move_undo, valid_moves};
use crate::puzzle::{Grid, cells, is_board, solved};

verus! {

#[verifier::external_type_specification]
#[verifier::external_body]
pub struct ExStdRng(StdRng);

/// Relies on rand's `Rng::gen_range`: a value drawn uniformly from `0..4`
/// (the range is not empty, so the call does not panic).
#[verifier::external_body]
fn draw_index(rng: &mut StdRng) -> (r: usize)
    ensures
        r < 4,
{
    rng.gen_range(0..4)
}

/// The direction that a draw from `0..4` selects: `L`, `R`, `U`, `D` in turn.
pub open spec fn drawn_direction(i: int) -> Direction {
    if i == 0 {
        Direction::Left
    } else if i == 1 {
        Direction::Right
    } else if i == 2 {
        Direction::Up
    } else {
        Direction::Down
    }
}

/// Whether `s` has a legal move in direction `d`.
pub open spec fn has_move_in(s: Seq<u8>, d: Direction) -> bool {
    exists|k: int| 0 <= k < valid_moves(s).len() && #[trigger] valid_moves(s)[k].direction == d
}

/// The legal move of `s` in direction `d`, when there is one.
pub open spec fn move_in(s: Seq<u8>, d: Direction) -> Move {
    valid_moves(s)[choose|k: int| 0 <= k < valid_moves(s).len() && #[trigger] valid_moves(s)[k].direction == d]
}

/// The board after one shuffle attempt with draw `i`: the legal move in the
/// drawn direction is made, if there is one; otherwise the board stays.
pub open spec fn step(s: Seq<u8>, i: int) -> Seq<u8> {
    let d = drawn_direction(i);
    if has_move_in(s, d) { apply(s, move_in(s, d)) } else { s }
}

/// The board and the number of accepted slides after replaying `draws` on `s`
/// until `n` slides have been accepted or the draws run out.
pub open spec fn shuffled(s: Seq<u8>, draws: Seq<usize>, n: nat) -> (Seq<u8>, nat)
    decreases draws.len(),
{
    if n == 0 || draws.len() == 0 {
        (s, 0)
    } else if has_move_in(s, drawn_direction(draws[0] as int)) {
        let r = shuffled(step(s, draws[0] as int), draws.drop_first(), (n - 1) as nat);
        (r.0, r.1 + 1)
    } else {
        shuffled(s, draws.drop_first(), n)
    }
}

/// `s` is reached from the solved board by `n` legal slides.
pub open spec fn reachable_in(s: Seq<u8>, n: nat) -> bool
    decreases n,
{
    if n == 0 {
        s == solved()
    } else {
        exists|t: Seq<u8>, m: Move|
            reachable_in(t, (n - 1) as nat) && valid_moves(t).contains(m) && s == #[trigger] apply(t, m)
    }
}

/// `s` is reached from the solved board by legal slides.
pub open spec fn reachable(s: Seq<u8>) -> bool {
    exists|n: nat| reachable_in(s, n)
}

/// The directions of the legal moves are pairwise different.
proof fn lemma_directions_unique(s: Seq<u8>, k1: int, k2: int)
    requires
        is_board(s),
        0 <= k1 < valid_moves(s).len(),
        0 <= k2 < valid_moves(s).len(),
        valid_moves(s)[k1].direction == valid_moves(s)[k2].direction,
    ensures
        k1 == k2,
{
    crate::puzzle::lemma_empty_position(s);
}

/// Every board reached from the solved board by legal slides is well-formed.
pub proof fn lemma_reachable_is_board(s: Seq<u8>, n: nat)
    requires
        reachable_in(s, n),
    ensures
        is_board(s),
    decreases n,
{
    if n == 0 {
        crate::puzzle::lemma_solved_cells();
        assert(solved()[8] == 0);
    } else {
        let (t, m) = choose|t: Seq<u8>, m: Move|
            reachable_in(t, (n - 1) as nat) && valid_moves(t).contains(m) && s == #[trigger] apply(t, m);
        lemma_reachable_is_board(t, (n - 1) as nat);
        lemma_move_undo(t, m);
    }
}

/// A legal slide from a reachable board gives a reachable board.
pub proof fn lemma_slide_keeps_reachable(s: Seq<u8>, m: Move)
    requires
        reachable(s),
        valid_moves(s).contains(m),
    ensures
        reachable(apply(s, m)),
{
    let n = choose|n: nat| reachable_in(s, n);
    assert(reachable_in(apply(s, m), n + 1));
}

/// The solved board is reachable: by no slide at all.
pub proof fn lemma_solved_reachable()
    ensures
        reachable(solved()),
{
    assert(reachable_in(solved(), 0));
}

/// Every board reached from the solved board has two, three or four legal moves.
pub proof fn lemma_reachable_move_count(s: Seq<u8>)
    requires
        reachable(s),
    ensures
        2 <= valid_moves(s).len() <= 4,
{
    let n = choose|n: nat| reachable_in(s, n);
    lemma_reachable_is_board(s, n);
    lemma_move_count(s);
}

/// One shuffle attempt keeps a board well-formed.
proof fn lemma_step_keeps_board(s: Seq<u8>, i: int)
    requires
        is_board(s),
    ensures
        is_board(step(s, i)),
{
    let d = drawn_direction(i);
    if has_move_in(s, d) {
        let k = choose|k: int| 0 <= k < valid_moves(s).len() && #[trigger] valid_moves(s)[k].direction == d;
        assert(valid_moves(s)[k] == move_in(s, d));
        lemma_move_undo(s, move_in(s, d));
    }
}

/// One shuffle attempt keeps a reachable board reachable.
pub proof fn lemma_step_keeps_reachable(s: Seq<u8>, i: int)
    requires
        reachable(s),
    ensures
        reachable(step(s, i)),
        is_board(step(s, i)),
{
    let d = drawn_direction(i);
    if has_move_in(s, d) {
        let k = choose|k: int| 0 <= k < valid_moves(s).len() && #[trigger] valid_moves(s)[k].direction == d;
        assert(valid_moves(s)[k] == move_in(s, d));
        lemma_slide_keeps_reachable(s, move_in(s, d));
    }
    let n = choose|n: nat| reachable_in(step(s, i), n);
    lemma_reachable_is_board(step(s, i), n);
}

/// One shuffle attempt with the draw `draw` (from `0..4`): the direction it
/// selects is looked up among the legal moves, and the move is made if it is
/// there. Returns whether a move was made.
pub fn shuffle_step(puzzle: &mut Grid, draw: usize) -> (accepted: bool)
    requires
        is_board(cells(*old(puzzle))),
        draw < 4,
    ensures
        accepted == has_move_in(cells(*old(puzzle)), drawn_direction(draw as int)),
        cells(*final(puzzle)) == step(cells(*old(puzzle)), draw as int),
{
    let directions: [char; 4] = ['L', 'R', 'U', 'D'];
    let direction = match Direction::from_char(directions[draw]) {
        Ok(d) => d,
        Err(_) => {
            return false;
        },
    };
    assert(direction == drawn_direction(draw as int));
    let ghost s = cells(*puzzle);
    let valid_moves = get_valid_moves(puzzle);
    let mut k: usize = 0;
    while k < valid_moves.len()
        invariant
            0 <= k <= valid_moves@.len(),
            valid_moves@ == crate::moves::valid_moves(s),
            s == cells(*puzzle),
            *puzzle == *old(puzzle),
            is_board(s),
            draw < 4,
            direction == drawn_direction(draw as int),
            forall|j: int| 0 <= j < k ==> #[trigger] valid_moves@[j].direction != direction,
        decreases valid_moves@.len() - k,
    {
        if valid_moves[k].direction == direction {
            let m: Move = valid_moves[k];
            proof {
                assert(crate::moves::valid_moves(s)[k as int].direction == drawn_direction(draw as int));
                assert(has_move_in(s, drawn_direction(draw as int)));
                let c = choose|c: int| 0 <= c < valid_moves@.len() && #[trigger] valid_moves@[c].direction == direction;
                lemma_directions_unique(s, c, k as int);
                crate::puzzle::lemma_empty_position(s);
                assert(move_in(s, drawn_direction(draw as int)) == m);
            }
            assert(crate::moves::valid_moves(s).contains(m));
            apply_move(puzzle, &m);
            return true;
        }
        k += 1;
    }
    false
}

/// One shuffle attempt with a fresh draw from `rng`. Returns whether a move was
/// made; whatever was drawn, the board is the result of one attempt.
pub fn shuffle_attempt(puzzle: &mut Grid, rng: &mut StdRng) -> (accepted: bool)
    requires
        is_board(cells(*old(puzzle))),
    ensures
        exists|i: int| 0 <= i < 4 && {
            &&& accepted == has_move_in(cells(*old(puzzle)), drawn_direction(i))
            &&& cells(*final(puzzle)) == step(cells(*old(puzzle)), i)
        },
        slides(cells(*old(puzzle)), cells(*final(puzzle)), if accepted { 1 } else { 0 }),
        is_board(cells(*final(puzzle))),
        reachable(cells(*old(puzzle))) ==> reachable(cells(*final(puzzle))),
{
    let draw = draw_index(rng);
    let accepted = shuffle_step(puzzle, draw);
    proof {
        let s = cells(*old(puzzle));
        lemma_step_keeps_board(s, draw as int);
        if accepted {
            let d = drawn_direction(draw as int);
            let k = choose|k: int| 0 <= k < valid_moves(s).len() && #[trigger] valid_moves(s)[k].direction == d;
            assert(valid_moves(s)[k] == move_in(s, d));
            assert(valid_moves(s).contains(move_in(s, d)));
            assert(slides(cells(*puzzle), cells(*puzzle), 0));
            lemma_slides_prepend(s, move_in(s, d), cells(*puzzle), 0);
        }
        if reachable(cells(*old(puzzle))) {
            lemma_step_keeps_reachable(cells(*old(puzzle)), draw as int);
        }
    }
    accepted
}

/// Shuffling keeps a reachable board reachable: whatever the draws, the board
/// that comes out is reached from the solved board by legal slides, and no
/// more slides than asked for are made.
pub proof fn lemma_shuffle_keeps_reachable(s: Seq<u8>, draws: Seq<usize>, n: nat)
    requires
        reachable(s),
    ensures
        reachable(shuffled(s, draws, n).0),
        is_board(shuffled(s, draws, n).0),
        shuffled(s, draws, n).1 <= n,
    decreases draws.len(),
{
    let m = choose|m: nat| reachable_in(s, m);
    lemma_reachable_is_board(s, m);
    if n == 0 || draws.len() == 0 {
    } else if has_move_in(s, drawn_direction(draws[0] as int)) {
        lemma_step_keeps_reachable(s, draws[0] as int);
        lemma_shuffle_keeps_reachable(step(s, draws[0] as int), draws.drop_first(), (n - 1) as nat);
    } else {
        lemma_shuffle_keeps_reachable(s, draws.drop_first(), n);
    }
}

/// `b` is reached from `a` by exactly `k` legal slides.
pub open spec fn slides(a: Seq<u8>, b: Seq<u8>, k: nat) -> bool
    decreases k,
{
    if k == 0 {
        b == a
    } else {
        exists|t: Seq<u8>, m: Move|
            slides(a, t, (k - 1) as nat) && valid_moves(t).contains(m) && b == #[trigger] apply(t, m)
    }
}

/// `s` is brought to the solved board by `n` legal slides, each chosen among
/// the moves offered at the time.
pub open spec fn solvable_in(s: Seq<u8>, n: nat) -> bool
    decreases n,
{
    if n == 0 {
        s == solved()
    } else {
        exists|m: Move| valid_moves(s).contains(m) && solvable_in(#[trigger] apply(s, m), (n - 1) as nat)
    }
}

proof fn lemma_slides_prepend(a: Seq<u8>, m: Move, b: Seq<u8>, k: nat)
    requires
        valid_moves(a).contains(m),
        slides(apply(a, m), b, k),
    ensures
        slides(a, b, k + 1),
    decreases k,
{
    assert(slides(a, a, 0));
    if k == 0 {
        assert(slides(a, apply(a, m), 1));
    } else {
        let (t, m2) = choose|t: Seq<u8>, m2: Move|
            slides(apply(a, m), t, (k - 1) as nat) && valid_moves(t).contains(m2) && b == #[trigger] apply(t, m2);
        lemma_slides_prepend(a, m, t, (k - 1) as nat);
        assert(slides(a, b, k + 1));
    }
}

/// Shuffling makes legal slides only, as many as it accepts: the board that
/// comes out is reached from the board that went in by exactly the number of
/// accepted slides, which is at most the number asked for.
pub proof fn lemma_shuffle_slides(s: Seq<u8>, draws: Seq<usize>, n: nat)
    requires
        is_board(s),
    ensures
        slides(s, shuffled(s, draws, n).0, shuffled(s, draws, n).1),
        shuffled(s, draws, n).1 <= n,
    decreases draws.len(),
{
    if n == 0 || draws.len() == 0 {
    } else {
        let d = drawn_direction(draws[0] as int);
        if has_move_in(s, d) {
            let k = choose|k: int| 0 <= k < valid_moves(s).len() && #[trigger] valid_moves(s)[k].direction == d;
            assert(valid_moves(s)[k] == move_in(s, d));
            assert(valid_moves(s).contains(move_in(s, d)));
            lemma_step_keeps_board(s, draws[0] as int);
            let t = step(s, draws[0] as int);
            lemma_shuffle_slides(t, draws.drop_first(), (n - 1) as nat);
            let r = shuffled(t, draws.drop_first(), (n - 1) as nat);
            lemma_slides_prepend(s, move_in(s, d), r.0, r.1);
        } else {
            lemma_shuffle_slides(s, draws.drop_first(), n);
        }
    }
}

/// Every board reached from the solved board by `n` legal slides is brought
/// back to it by `n` legal slides: undoing them in reverse order.
pub proof fn lemma_reachable_solvable(s: Seq<u8>, n: nat)
    requires
        reachable_in(s, n),
    ensures
        solvable_in(s, n),
    decreases n,
{
    if n > 0 {
        let (t, m) = choose|t: Seq<u8>, m: Move|
            reachable_in(t, (n - 1) as nat) && valid_moves(t).contains(m) && s == #[trigger] apply(t, m);
        lemma_reachable_is_board(t, (n - 1) as nat);
        lemma_move_undo(t, m);
        lemma_reachable_solvable(t, (n - 1) as nat);
        assert(apply(s, reverse(m)) == t);
        assert(valid_moves(s).contains(reverse(m)) && solvable_in(apply(s, reverse(m)), (n - 1) as nat));
    }
}

/// Replays recorded draws (each from `0..4`) as shuffle attempts, in order,
/// until `nr_moves` slides have been accepted or the draws run out. Returns
/// the number of accepted slides.
pub fn shuffle_with_draws(puzzle: &mut Grid, draws: &Vec<usize>, nr_moves: usize) -> (accepted: usize)
    requires
        is_board(cells(*old(puzzle))),
        forall|i: int| 0 <= i < draws@.len() ==> #[trigger] draws@[i] < 4,
    ensures
        (cells(*final(puzzle)), accepted as nat) == shuffled(cells(*old(puzzle)), draws@, nr_moves as nat),
        slides(cells(*old(puzzle)), cells(*final(puzzle)), accepted as nat),
        accepted <= nr_moves,
        is_board(cells(*final(puzzle))),
        reachable(cells(*old(puzzle))) ==> reachable(cells(*final(puzzle))),
{
    let ghost total = shuffled(cells(*puzzle), draws@, nr_moves as nat);
    assert(draws@.subrange(0, draws@.len() as int) =~= draws@);
    let mut counter: usize = 0;
    let mut i: usize = 0;
    while counter != nr_moves && i < draws.len()
        invariant
            0 <= i <= draws@.len(),
            counter <= nr_moves,
            forall|j: int| 0 <= j < draws@.len() ==> #[trigger] draws@[j] < 4,
            is_board(cells(*puzzle)),
            reachable(cells(*old(puzzle))) ==> reachable(cells(*puzzle)),
            total == shuffled(cells(*old(puzzle)), draws@, nr_moves as nat),
            ({
                let r = shuffled(cells(*puzzle), draws@.subrange(i as int, draws@.len() as int), (nr_moves - counter) as nat);
                r.0 == total.0 && r.1 + counter == total.1
            }),
        decreases draws@.len() - i,
    {
        let ghost before = cells(*puzzle);
        let ghost rest = draws@.subrange(i as int, draws@.len() as int);
        assert(rest.drop_first() =~= draws@.subrange(i + 1, draws@.len() as int));
        let accepted_now = shuffle_step(puzzle, draws[i]);
        proof {
            lemma_step_keeps_board(before, draws@[i as int] as int);
            if reachable(cells(*old(puzzle))) {
                lemma_step_keeps_reachable(before, draws@[i as int] as int);
            }
            if !accepted_now {
                assert(cells(*puzzle) == before);
            }
        }
        if accepted_now {
            counter += 1;
        }
        i += 1;
    }
    proof {
        let rest = draws@.subrange(i as int, draws@.len() as int);
        assert(rest.len() == 0 || counter == nr_moves);
        lemma_shuffle_slides(cells(*old(puzzle)), draws@, nr_moves as nat);
    }
    counter
}

} // verus!
