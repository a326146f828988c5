//! Squares, colors, piece kinds and castling-right bits.
use vstd::prelude::*;
use crate::strutil::push_char;
use vstd::string::StringSliceAdditionalSpecFns;

pub mod squares;

verus! {

/// Square indices: A1 = 0, B1 = 1, ..., H8 = 63.
pub type Square = u32;

#[derive(Clone, Copy, PartialEq, Eq, Debug, Structural)]
pub enum Color {
    White,
    Black,
}

impl Color {
    /// The numeric index of a color: White = 0, Black = 1.
    pub open spec fn idx(self) -> int {
        match self {
            Color::White => 0,
            Color::Black => 1,
        }
    }

    pub open spec fn opp(self) -> Color {
        match self {
            Color::White => Color::Black,
            Color::Black => Color::White,
        }
    }

    pub fn flip(self) -> (r: Color)
        ensures
            r == self.opp(),
            r != self,
    {
        match self {
            Color::White => Color::Black,
            Color::Black => Color::White,
        }
    }

    pub fn index(self) -> (r: usize)
        ensures
            r == self.idx(),
            r < 2,
    {
        match self {
            Color::White => 0,
            Color::Black => 1,
        }
    }
}

/// The color with a given index (0 = White, anything else = Black).
pub open spec fn color_of_idx(i: int) -> Color {
    if i == 0 { Color::White } else { Color::Black }
}

/// Flipping a color twice gives the color back.
pub proof fn lemma_flip_involutive(c: Color)
    ensures
        c.opp().opp() == c,
        c.opp() != c,
        color_of_idx(c.idx()) == c,
        c.opp().idx() == 1 - c.idx(),
{
}

#[derive(Clone, Copy, PartialEq, Eq, Debug, Structural)]
pub enum Piece {
    Pawn,
    Knight,
    Bishop,
    Rook,
    Queen,
    King,
}

/// The piece kind with a given index (0 = Pawn, ..., 5 = King).
pub open spec fn piece_of_idx(i: int) -> Piece {
    if i == 0 {
        Piece::Pawn
    } else if i == 1 {
        Piece::Knight
    } else if i == 2 {
        Piece::Bishop
    } else if i == 3 {
        Piece::Rook
    } else if i == 4 {
        Piece::Queen
    } else {
        Piece::King
    }
}

impl Piece {
    /// The numeric index of a piece kind: Pawn = 0, ..., King = 5.
    pub open spec fn idx(self) -> int {
        match self {
            Piece::Pawn => 0,
            Piece::Knight => 1,
            Piece::Bishop => 2,
            Piece::Rook => 3,
            Piece::Queen => 4,
            Piece::King => 5,
        }
    }

    pub fn index(self) -> (r: usize)
        ensures
            r == self.idx(),
            r < 6,
    {
        match self {
            Piece::Pawn => 0,
            Piece::Knight => 1,
            Piece::Bishop => 2,
            Piece::Rook => 3,
            Piece::Queen => 4,
            Piece::King => 5,
        }
    }

    pub fn from_u8(v: u8) -> (r: Option<Piece>)
        ensures
            v < 6 ==> r == Some(piece_of_idx(v as int)),
            v >= 6 ==> r.is_none(),
    {
        match v {
            0 => Some(Piece::Pawn),
            1 => Some(Piece::Knight),
            2 => Some(Piece::Bishop),
            3 => Some(Piece::Rook),
            4 => Some(Piece::Queen),
            5 => Some(Piece::King),
            _ => None,
        }
    }

    pub fn from_index(i: usize) -> (r: Piece)
        ensures
            r == piece_of_idx(i as int),
    {
        match i {
            0 => Piece::Pawn,
            1 => Piece::Knight,
            2 => Piece::Bishop,
            3 => Piece::Rook,
            4 => Piece::Queen,
            _ => Piece::King,
        }
    }
}

/// A piece kind's index maps back to the same piece kind.
pub proof fn lemma_piece_idx_roundtrip(p: Piece)
    ensures
        piece_of_idx(p.idx()) == p,
        0 <= p.idx() < 6,
{
}

/// Castling rights bitmask: WK = 1, WQ = 2, BK = 4, BQ = 8.
pub const CASTLE_WK: u8 = 1;
pub const CASTLE_WQ: u8 = 2;
pub const CASTLE_BK: u8 = 4;
pub const CASTLE_BQ: u8 = 8;

/// A square number splits into its rank (high bits) and file (low three bits).
pub proof fn lemma_sq_split(sq: u32)
    ensures
        sq >> 3 == sq / 8,
        sq & 7 == sq % 8,
{
    assert(sq >> 3 == sq / 8 && sq & 7 == sq % 8) by (bit_vector);
}

pub fn rank_of(sq: Square) -> (r: u32)
    ensures
        r == sq / 8,
{
    proof {
        lemma_sq_split(sq);
    }
    sq >> 3
}

pub fn file_of(sq: Square) -> (r: u32)
    ensures
        r == sq % 8,
{
    proof {
        lemma_sq_split(sq);
    }
    sq & 7
}

pub fn make_square(rank: u32, file: u32) -> (r: Square)
    requires
        rank * 8 + file <= u32::MAX,
    ensures
        r == rank * 8 + file,
{
    rank * 8 + file
}

/// The two-character name of a square: file letter then rank digit.
pub open spec fn sq_name_spec(sq: int) -> Seq<char> {
    seq![(('a' as int) + sq % 8) as char, (('1' as int) + sq / 8) as char]
}

pub fn file_char(f: u32) -> (c: char)
    requires
        f < 8,
    ensures
        c == (('a' as int) + f) as char,
{
    match f {
        0 => 'a',
        1 => 'b',
        2 => 'c',
        3 => 'd',
        4 => 'e',
        5 => 'f',
        6 => 'g',
        _ => 'h',
    }
}

pub fn rank_char(r: u32) -> (c: char)
    requires
        r < 8,
    ensures
        c == (('1' as int) + r) as char,
{
    match r {
        0 => '1',
        1 => '2',
        2 => '3',
        3 => '4',
        4 => '5',
        5 => '6',
        6 => '7',
        _ => '8',
    }
}

pub fn sq_name(sq: Square) -> (s: String)
    requires
        sq < 64,
    ensures
        s@ == sq_name_spec(sq as int),
{
    let mut s = String::new();
    push_char(&mut s, file_char(file_of(sq)));
    push_char(&mut s, rank_char(rank_of(sq)));
    s
}

/// The square named by the first two bytes of a text, if they name one.
pub open spec fn parse_sq_spec(b: Seq<u8>) -> Option<Square> {
    if b.len() < 2 {
        None
    } else if b[0] < 97 || b[0] > 104 || b[1] < 49 || b[1] > 56 {
        None
    } else {
        Some(((b[1] - 49) * 8 + (b[0] - 97)) as Square)
    }
}

/// Parses a square name such as "e4" from the first two bytes of `s`.
pub fn parse_sq(s: &str) -> (r: Option<Square>)
    ensures
        r == parse_sq_spec(s.spec_bytes()),
{
    let bytes = s.as_bytes();
    parse_sq_bytes(bytes)
}

pub fn parse_sq_bytes(bytes: &[u8]) -> (r: Option<Square>)
    ensures
        r == parse_sq_spec(bytes@),
        r matches Some(sq) ==> sq < 64,
{
    if bytes.len() < 2 {
        return None;
    }
    let file = bytes[0].wrapping_sub(97) as u32;
    let rank = bytes[1].wrapping_sub(49) as u32;
    if file > 7 || rank > 7 {
        return None;
    }
    Some(make_square(rank, file))
}

/// Parsing the name of a square gives the square back.
pub proof fn lemma_parse_sq_name(sq: int)
    requires
        0 <= sq < 64,
    ensures
        parse_sq_spec(Seq::new(2, |i: int| sq_name_spec(sq)[i] as u8)) == Some(sq as Square),
{
}

} // verus!
