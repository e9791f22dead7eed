use eight_puzzle::direction::Direction;
use eight_puzzle::moves::{apply_move, get_valid_moves, Move};
use eight_puzzle::puzzle::{
    find_empty_position, find_position, format_puzzle, is_success, is_well_formed, new_puzzle, Grid,
};
use eight_puzzle::shuffle::{shuffle_attempt, shuffle_step, shuffle_with_draws};
use rand::rngs::StdRng;
use rand::SeedableRng;

fn reverse(d: Direction) -> Direction {
    match d {
        Direction::Left => Direction::Right,
        Direction::Right => Direction::Left,
        Direction::Up => Direction::Down,
        Direction::Down => Direction::Up,
    }
}

fn is_permutation(p: &Grid) -> bool {
    let mut seen = [false; 9];
    for row in p.iter() {
        for &v in row.iter() {
            if v > 8 || seen[v as usize] {
                return false;
            }
            seen[v as usize] = true;
        }
    }
    true
}

#[test]
fn solved_board_has_two_moves() {
    let mut p = new_puzzle();
    let moves = get_valid_moves(&p);
    assert_eq!(moves.len(), 2);
    assert_eq!(moves[0].direction, Direction::Down);
    assert_eq!(moves[0].piece, 6);
    assert_eq!(moves[0].from, (1, 2));
    assert_eq!(moves[0].to, (2, 2));
    assert_eq!(moves[1].direction, Direction::Right);
    assert_eq!(moves[1].piece, 8);
    assert_eq!(moves[1].from, (2, 1));
    let six = moves.iter().find(|m| m.piece == 6).unwrap();
    apply_move(&mut p, six);
    assert_eq!(p, [[1, 2, 3], [4, 5, 0], [7, 8, 6]]);
    assert!(!is_success(&p));
}

#[test]
fn edge_board_has_three_moves() {
    let p: Grid = [[1, 2, 3], [4, 5, 6], [7, 0, 8]];
    let moves = get_valid_moves(&p);
    assert_eq!(moves.len(), 3);
    assert_eq!((moves[0].direction, moves[0].piece), (Direction::Down, 5));
    assert_eq!((moves[1].direction, moves[1].piece), (Direction::Left, 8));
    assert_eq!((moves[2].direction, moves[2].piece), (Direction::Right, 7));
    for m in moves.iter() {
        assert_eq!(m.to, (2, 1));
    }
}

#[test]
fn centre_board_has_four_moves() {
    let p: Grid = [[1, 2, 3], [4, 0, 5], [6, 7, 8]];
    let moves = get_valid_moves(&p);
    let got: Vec<(Direction, u8, (usize, usize))> =
        moves.iter().map(|m| (m.direction, m.piece, m.from)).collect();
    assert_eq!(
        got,
        vec![
            (Direction::Down, 2, (0, 1)),
            (Direction::Up, 7, (2, 1)),
            (Direction::Left, 5, (1, 2)),
            (Direction::Right, 4, (1, 0)),
        ]
    );
}

#[test]
fn corner_board_top_left_has_two_moves() {
    let p: Grid = [[0, 1, 2], [3, 4, 5], [6, 7, 8]];
    let moves = get_valid_moves(&p);
    assert_eq!(moves.len(), 2);
    assert_eq!((moves[0].direction, moves[0].piece), (Direction::Up, 3));
    assert_eq!((moves[1].direction, moves[1].piece), (Direction::Left, 1));
}

#[test]
fn every_move_is_undone_by_its_reverse() {
    let boards: [Grid; 3] = [
        [[1, 2, 3], [4, 5, 6], [7, 8, 0]],
        [[1, 2, 3], [4, 0, 5], [6, 7, 8]],
        [[1, 2, 3], [4, 5, 6], [7, 0, 8]],
    ];
    for start in boards.iter() {
        for m in get_valid_moves(start).iter() {
            let mut p = *start;
            apply_move(&mut p, m);
            assert_ne!(p, *start);
            let back = Move { direction: reverse(m.direction), from: m.to, to: m.from, piece: m.piece };
            let again = get_valid_moves(&p);
            let r = again.iter().find(|x| **x == back).unwrap();
            apply_move(&mut p, r);
            assert_eq!(p, *start);
        }
    }
}

#[test]
fn solved_only_for_the_exact_arrangement() {
    assert!(is_success(&new_puzzle()));
    assert!(!is_success(&[[1, 2, 3], [4, 5, 6], [7, 0, 8]]));
    assert!(!is_success(&[[1, 2, 3], [4, 5, 0], [6, 7, 8]]));
    assert!(!is_success(&[[1, 2, 0], [3, 4, 5], [6, 7, 8]]));
    assert!(!is_success(&[[0, 1, 2], [3, 4, 5], [6, 7, 8]]));
}

#[test]
fn any_transposition_of_solved_is_not_solved() {
    let solved = new_puzzle();
    for i in 0..9 {
        for j in (i + 1)..9 {
            let mut p = solved;
            let a = p[i / 3][i % 3];
            p[i / 3][i % 3] = p[j / 3][j % 3];
            p[j / 3][j % 3] = a;
            assert!(!is_success(&p), "swap {} {}", i, j);
        }
    }
}

#[test]
fn locates_the_empty_cell_and_tiles() {
    let p: Grid = [[1, 2, 3], [4, 5, 6], [7, 0, 8]];
    assert_eq!(find_empty_position(&p), (2, 1));
    assert_eq!(find_position(&p, 0), (2, 1));
    assert_eq!(find_position(&p, 5), (1, 1));
    assert_eq!(find_position(&p, 8), (2, 2));
    assert_eq!(find_empty_position(&new_puzzle()), (2, 2));
}

#[test]
fn direction_codes() {
    assert_eq!(Direction::from_char('L'), Ok(Direction::Left));
    assert_eq!(Direction::from_char('r'), Ok(Direction::Right));
    assert_eq!(Direction::from_char('U'), Ok(Direction::Up));
    assert_eq!(Direction::from_char('d'), Ok(Direction::Down));
    assert_eq!(Direction::from_char('x'), Err("Invalid direction character"));
    for d in [Direction::Left, Direction::Right, Direction::Up, Direction::Down] {
        assert_eq!(Direction::from_char(d.to_char()), Ok(d));
    }
    assert_eq!(Direction::Left.to_string(), "Left");
    assert_eq!(Direction::Right.to_string(), "Right");
    assert_eq!(Direction::Up.to_string(), "Up");
    assert_eq!(Direction::Down.to_string(), "Down");
    assert_eq!(Direction::Down.to_char(), 'D');
}

#[test]
fn moves_compare_by_direction_and_tile() {
    let a = Move { direction: Direction::Up, from: (1, 0), to: (0, 0), piece: 4 };
    let b = Move { direction: Direction::Up, from: (2, 2), to: (1, 2), piece: 4 };
    let c = Move { direction: Direction::Down, from: (1, 0), to: (0, 0), piece: 4 };
    let d = Move { direction: Direction::Up, from: (1, 0), to: (0, 0), piece: 5 };
    assert!(a == b);
    assert!(a != c);
    assert!(a != d);
}

#[test]
fn renders_the_board() {
    assert_eq!(format_puzzle(&new_puzzle()), "1  2  3  \n4  5  6  \n7  8  _  \n");
    assert_eq!(
        format_puzzle(&[[0, 8, 7], [6, 5, 4], [3, 2, 1]]),
        "_  8  7  \n6  5  4  \n3  2  1  \n"
    );
}

#[test]
fn shuffle_step_rejects_illegal_directions() {
    let mut p = new_puzzle();
    assert!(!shuffle_step(&mut p, 0));
    assert!(!shuffle_step(&mut p, 2));
    assert_eq!(p, new_puzzle());
    assert!(shuffle_step(&mut p, 3));
    assert_eq!(p, [[1, 2, 3], [4, 5, 0], [7, 8, 6]]);
    assert!(shuffle_step(&mut p, 1));
    assert_eq!(p, [[1, 2, 3], [4, 0, 5], [7, 8, 6]]);
}

#[test]
fn shuffle_with_draws_stops_after_the_asked_number() {
    let mut p = new_puzzle();
    assert_eq!(shuffle_with_draws(&mut p, &vec![2, 2, 0, 3, 3, 1], 1), 1);
    assert_eq!(p, [[1, 2, 3], [4, 5, 0], [7, 8, 6]]);
}

#[test]
fn shuffle_with_draws_runs_out_of_draws() {
    let mut p = new_puzzle();
    assert_eq!(shuffle_with_draws(&mut p, &vec![3, 3, 1], 5), 3);
    assert_eq!(p, [[1, 0, 2], [4, 5, 3], [7, 8, 6]]);
    let mut q = new_puzzle();
    assert_eq!(shuffle_with_draws(&mut q, &vec![3, 1], 0), 0);
    assert_eq!(q, new_puzzle());
}

#[test]
fn shuffled_board_replays_back_to_solved() {
    let mut rng = StdRng::seed_from_u64(7);
    let mut p = new_puzzle();
    let mut history: Vec<Move> = Vec::new();
    let mut counter = 0;
    while counter != 25 {
        let before = p;
        if shuffle_attempt(&mut p, &mut rng) {
            let m = get_valid_moves(&before)
                .into_iter()
                .find(|m| {
                    let mut q = before;
                    apply_move(&mut q, m);
                    q == p
                })
                .unwrap();
            history.push(m);
            counter += 1;
        } else {
            assert_eq!(p, before);
        }
        assert!(is_permutation(&p));
        let n = get_valid_moves(&p).len();
        assert!((2..=4).contains(&n));
    }
    while let Some(m) = history.pop() {
        let back = Move { direction: reverse(m.direction), from: m.to, to: m.from, piece: m.piece };
        let r = get_valid_moves(&p).into_iter().find(|x| *x == back).unwrap();
        apply_move(&mut p, &r);
    }
    assert!(is_success(&p));
}

#[test]
fn recognises_well_formed_boards() {
    assert!(is_well_formed(&new_puzzle()));
    assert!(is_well_formed(&[[0, 8, 7], [6, 5, 4], [3, 2, 1]]));
    assert!(!is_well_formed(&[[1, 2, 3], [4, 5, 6], [7, 8, 8]]));
    assert!(!is_well_formed(&[[1, 2, 3], [4, 5, 6], [7, 8, 9]]));
    assert!(!is_well_formed(&[[0, 2, 3], [4, 5, 6], [7, 8, 0]]));
}
