//! The closed piece and colour vocabulary of the game.

use vstd::prelude::*;

verus! {

/// A side, white or black.
#[derive(Copy, Clone, Debug, PartialEq, Eq, Structural)]
pub enum Color {
    White,
    Black,
}

/// The colour on the other side of the board.
pub open spec fn opp(c: Color) -> Color {
    match c {
        Color::White => Color::Black,
        Color::Black => Color::White,
    }
}

/// The index of a colour's bitboard in a per-player array.
pub open spec fn color_index(c: Color) -> int {
    match c {
        Color::White => 0,
        Color::Black => 1,
    }
}

impl Color {
    /// The opposing colour.
    pub fn opposite(&self) -> (r: Color)
        ensures
            r == opp(*self),
    {
        match self {
            Color::White => Color::Black,
            Color::Black => Color::White,
        }
    }

    /// The colour a lower-case letter of the text encoding names.
    pub fn from_letter(c: char) -> (r: Option<Self>)
        ensures
            r == (if c == 'w' {
                Some(Color::White)
            } else if c == 'b' {
                Some(Color::Black)
            } else {
                None::<Color>
            }),
    {
        match c {
            'w' => Some(Color::White),
            'b' => Some(Color::Black),
            _ => None,
        }
    }

    /// This colour's index in a per-player array.
    pub fn index(&self) -> (r: usize)
        ensures
            r == color_index(*self),
    {
        match self {
            Color::White => 0,
            Color::Black => 1,
        }
    }
}

/// A piece kind.
#[derive(Copy, Clone, Debug, PartialEq, Eq, Structural)]
pub enum Piece {
    Pawn,
    Bishop,
    King,
    Queen,
    Rook,
    Knight,
}

/// The index of a piece kind's bitboard in a per-kind array.
pub open spec fn piece_index(p: Piece) -> int {
    match p {
        Piece::Pawn => 0,
        Piece::Bishop => 1,
        Piece::King => 2,
        Piece::Queen => 3,
        Piece::Rook => 4,
        Piece::Knight => 5,
    }
}

/// The glyph a piece renders as, per colour.
pub open spec fn glyph(p: Piece, color: Color) -> char {
    match color {
        Color::White => match p {
            Piece::King => '\u{2654}',
            Piece::Queen => '\u{2655}',
            Piece::Rook => '\u{2656}',
            Piece::Bishop => '\u{2657}',
            Piece::Knight => '\u{2658}',
            Piece::Pawn => '\u{2659}',
        },
        Color::Black => match p {
            Piece::King => '\u{265A}',
            Piece::Queen => '\u{265B}',
            Piece::Rook => '\u{265C}',
            Piece::Bishop => '\u{265D}',
            Piece::Knight => '\u{265E}',
            Piece::Pawn => '\u{265F}',
        },
    }
}

impl Piece {
    /// The six piece kinds, in bitboard-index order.
    pub fn kinds() -> (r: Vec<Piece>)
        ensures
            r@.len() == 6,
            forall|i: int| 0 <= i < 6 ==> piece_index(#[trigger] r@[i]) == i,
    {
        let mut r: Vec<Piece> = Vec::new();
        r.push(Piece::Pawn);
        r.push(Piece::Bishop);
        r.push(Piece::King);
        r.push(Piece::Queen);
        r.push(Piece::Rook);
        r.push(Piece::Knight);
        r
    }

    /// The piece kind a lower-case letter of the text encoding names.
    pub fn from_letter(c: char) -> (r: Option<Self>)
        ensures
            r == (if c == 'k' {
                Some(Piece::King)
            } else if c == 'q' {
                Some(Piece::Queen)
            } else if c == 'n' {
                Some(Piece::Knight)
            } else if c == 'p' {
                Some(Piece::Pawn)
            } else if c == 'b' {
                Some(Piece::Bishop)
            } else if c == 'r' {
                Some(Piece::Rook)
            } else {
                None::<Piece>
            }),
    {
        match c {
            'k' => Some(Piece::King),
            'q' => Some(Piece::Queen),
            'n' => Some(Piece::Knight),
            'p' => Some(Piece::Pawn),
            'b' => Some(Piece::Bishop),
            'r' => Some(Piece::Rook),
            _ => None,
        }
    }

    /// The board glyph for this piece in the given colour.
    pub fn render(&self, color: Color) -> (r: char)
        ensures
            r == glyph(*self, color),
    {
        match color {
            Color::White => match self {
                Piece::King => '\u{2654}',
                Piece::Queen => '\u{2655}',
                Piece::Rook => '\u{2656}',
                Piece::Bishop => '\u{2657}',
                Piece::Knight => '\u{2658}',
                Piece::Pawn => '\u{2659}',
            },
            Color::Black => match self {
                Piece::King => '\u{265A}',
                Piece::Queen => '\u{265B}',
                Piece::Rook => '\u{265C}',
                Piece::Bishop => '\u{265D}',
                Piece::Knight => '\u{265E}',
                Piece::Pawn => '\u{265F}',
            },
        }
    }

    /// This piece kind's index in a per-kind array.
    pub fn index(&self) -> (r: usize)
        ensures
            r == piece_index(*self),
    {
        match self {
            Piece::Pawn => 0,
            Piece::Bishop => 1,
            Piece::King => 2,
            Piece::Queen => 3,
            Piece::Rook => 4,
            Piece::Knight => 5,
        }
    }
}

} // verus!
