use vstd::prelude::*;

verus! {

/// The label of a move: the way its tile slides. `Down` moves the tile above
/// the empty cell, `Up` the one below, `Left` the one to its right and `Right`
/// the one to its left.
#[derive(Debug, Clone, Copy, PartialEq, Eq, Structural)]
pub enum Direction {
    Left,
    Right,
    Up,
    Down,
}

/// The direction that a character code names, if any (either case).
pub open spec fn direction_of_char(c: char) -> Option<Direction> {
    if c == 'L' || c == 'l' {
        Some(Direction::Left)
    } else if c == 'R' || c == 'r' {
        Some(Direction::Right)
    } else if c == 'U' || c == 'u' {
        Some(Direction::Up)
    } else if c == 'D' || c == 'd' {
        Some(Direction::Down)
    } else {
        None
    }
}

/// The canonical one-letter code of a direction.
pub open spec fn char_of_direction(d: Direction) -> char {
    match d {
        Direction::Left => 'L',
        Direction::Right => 'R',
        Direction::Up => 'U',
        Direction::Down => 'D',
    }
}

/// The display name of a direction.
pub open spec fn name_of_direction(d: Direction) -> Seq<char> {
    match d {
        Direction::Left => seq!['L', 'e', 'f', 't'],
        Direction::Right => seq!['R', 'i', 'g', 'h', 't'],
        Direction::Up => seq!['U', 'p'],
        Direction::Down => seq!['D', 'o', 'w', 'n'],
    }
}

impl Direction {
    /// Parses a one-letter direction code, in either case.
    pub fn from_char(c: char) -> (r: Result<Direction, &'static str>)
        ensures
            direction_of_char(c) matches Some(d) ==> r == Ok::<Direction, &'static str>(d),
            direction_of_char(c) is None ==> r == Err::<Direction, &'static str>("Invalid direction character"),
    {
        match c {
            'L' | 'l' => Ok(Direction::Left),
            'R' | 'r' => Ok(Direction::Right),
            'U' | 'u' => Ok(Direction::Up),
            'D' | 'd' => Ok(Direction::Down),
            _ => Err("Invalid direction character"),
        }
    }

    /// The display name of the direction.
    pub fn to_string(&self) -> (r: String)
        ensures
            r@ == name_of_direction(*self),
    {
        proof {
            reveal_strlit("Left");
            reveal_strlit("Right");
            reveal_strlit("Up");
            reveal_strlit("Down");
        }
        match self {
            Direction::Left => "Left".to_owned(),
            Direction::Right => "Right".to_owned(),
            Direction::Up => "Up".to_owned(),
            Direction::Down => "Down".to_owned(),
        }
    }

    /// The one-letter code of the direction.
    pub fn to_char(&self) -> (r: char)
        ensures
            r == char_of_direction(*self),
    {
        match self {
            Direction::Left => 'L',
            Direction::Right => 'R',
            Direction::Up => 'U',
            Direction::Down => 'D',
        }
    }
}

/// Reading back the code of a direction gives that direction.
pub proof fn lemma_char_round_trip(d: Direction)
    ensures
        direction_of_char(char_of_direction(d)) == Some(d),
{
}

} // verus!
