//! 16-bit move encoding and a fixed-capacity move list.
use vstd::prelude::*;
use super::types::{sq_name_spec, Square, file_char, rank_char, file_of, rank_of};
use crate::strutil::push_char;

verus! {

/// 16-bit move encoding:
/// bits 0-5:   from square
/// bits 6-11:  to square
/// bits 12-15: flags
#[derive(Clone, Copy, PartialEq, Eq, Debug, Structural)]
pub struct Move(pub u16);

pub const FLAG_QUIET: u16 = 0;
pub const FLAG_DOUBLE_PUSH: u16 = 1;
pub const FLAG_CASTLE_KS: u16 = 2;
pub const FLAG_CASTLE_QS: u16 = 3;
pub const FLAG_CAPTURE: u16 = 4;
pub const FLAG_EP: u16 = 5;
// Promotions: 8-15 (bit 3 = promo flag, bit 2 = capture flag, bits 0-1 = promo piece)
pub const FLAG_PROMO_N: u16 = 8;
pub const FLAG_PROMO_B: u16 = 9;
pub const FLAG_PROMO_R: u16 = 10;
pub const FLAG_PROMO_Q: u16 = 11;
pub const FLAG_PROMO_CAPTURE_N: u16 = 12;
pub const FLAG_PROMO_CAPTURE_B: u16 = 13;
pub const FLAG_PROMO_CAPTURE_R: u16 = 14;
pub const FLAG_PROMO_CAPTURE_Q: u16 = 15;


/// The code of a move from `from` to `to` with `flags` (all in range).
pub open spec fn encode(from: int, to: int, flags: int) -> int {
    from + 64 * to + 4096 * flags
}

impl Default for Move {
    fn default() -> (m: Move)
        ensures
            m.0 == 0,
    {
        Move(0)
    }
}

impl Move {
    pub open spec fn from_spec(self) -> int {
        self.0 as int % 64
    }

    pub open spec fn to_spec(self) -> int {
        (self.0 as int / 64) % 64
    }

    pub open spec fn flags_spec(self) -> int {
        self.0 as int / 4096
    }

    pub open spec fn is_capture_spec(self) -> bool {
        self.flags_spec() % 8 >= 4
    }

    pub open spec fn is_promotion_spec(self) -> bool {
        self.flags_spec() >= 8
    }

    pub fn new(from: Square, to: Square, flags: u16) -> (m: Move)
        ensures
            m.0 == ((from as u16) | (((to as u16) << 6u16) as u16) | ((flags << 12u16) as u16)),
            from < 64 && to < 64 && flags < 16 ==> m.0 == encode(from as int, to as int, flags as int),
            from < 64 && to < 64 && flags < 16 ==> m.from_spec() == from && m.to_spec() == to
                && m.flags_spec() == flags,
    {
        let f = from as u16;
        let t = to as u16;
        let r = f | (t << 6) | (flags << 12);
        proof {
            if from < 64 && to < 64 && flags < 16 {
                assert(f < 64 && t < 64 && flags < 16 ==> (f | ((t << 6u16) as u16) | ((flags << 12u16) as u16)) == f + 64 * t + 4096 * flags) by (bit_vector);
            }
        }
        Move(r)
    }

    pub fn from(self) -> (r: Square)
        ensures
            r == self.from_spec(),
            r < 64,
    {
        let x = self.0;
        assert(x & 0x3F == x % 64) by (bit_vector);
        (x & 0x3F) as Square
    }

    pub fn to(self) -> (r: Square)
        ensures
            r == self.to_spec(),
            r < 64,
    {
        let x = self.0;
        assert((x >> 6u16) & 0x3F == (x / 64) % 64) by (bit_vector);
        ((x >> 6) & 0x3F) as Square
    }

    pub fn flags(self) -> (r: u16)
        ensures
            r == self.flags_spec(),
            r < 16,
    {
        let x = self.0;
        assert(x >> 12u16 == x / 4096) by (bit_vector);
        x >> 12
    }

    pub fn is_capture(self) -> (r: bool)
        ensures
            r == self.is_capture_spec(),
    {
        let f = self.flags();
        assert(f < 16 ==> ((f & 4 != 0) == (f % 8 >= 4))) by (bit_vector);
        f & 4 != 0
    }

    pub fn is_ep(self) -> (r: bool)
        ensures
            r == (self.flags_spec() == FLAG_EP),
    {
        self.flags() == FLAG_EP
    }

    pub fn is_castle(self) -> (r: bool)
        ensures
            r == (self.flags_spec() == FLAG_CASTLE_KS || self.flags_spec() == FLAG_CASTLE_QS),
    {
        self.flags() == FLAG_CASTLE_KS || self.flags() == FLAG_CASTLE_QS
    }

    pub fn is_promotion(self) -> (r: bool)
        ensures
            r == self.is_promotion_spec(),
    {
        let f = self.flags();
        assert(f < 16 ==> ((f & 8 != 0) == (f >= 8))) by (bit_vector);
        f & 8 != 0
    }

    pub fn is_double_push(self) -> (r: bool)
        ensures
            r == (self.flags_spec() == FLAG_DOUBLE_PUSH),
    {
        self.flags() == FLAG_DOUBLE_PUSH
    }

    /// Promotion piece type: 0 = N, 1 = B, 2 = R, 3 = Q (meaningful only for promotions).
    pub fn promo_piece(self) -> (r: u8)
        ensures
            r == self.flags_spec() % 4,
    {
        let f = self.flags();
        assert(f & 3 == f % 4) by (bit_vector);
        (f & 3) as u8
    }

    pub fn is_null(self) -> (r: bool)
        ensures
            r == (self.0 == 0),
    {
        self.0 == 0
    }

    /// The long algebraic (UCI) text of a move.
    pub open spec fn uci_spec(self) -> Seq<char> {
        if self.0 == 0 {
            seq!['0', '0', '0', '0']
        } else {
            let base = sq_name_spec(self.from_spec()) + sq_name_spec(self.to_spec());
            if self.is_promotion_spec() {
                base.push(promo_char_spec(self.flags_spec() % 4))
            } else {
                base
            }
        }
    }

    pub fn to_uci(self) -> (s: String)
        ensures
            s@ == self.uci_spec(),
    {
        let mut s = String::new();
        if self.is_null() {
            push_char(&mut s, '0');
            push_char(&mut s, '0');
            push_char(&mut s, '0');
            push_char(&mut s, '0');
            assert(s@ =~= seq!['0', '0', '0', '0']);
            return s;
        }
        let from = self.from();
        let to = self.to();
        push_char(&mut s, file_char(file_of(from)));
        push_char(&mut s, rank_char(rank_of(from)));
        push_char(&mut s, file_char(file_of(to)));
        push_char(&mut s, rank_char(rank_of(to)));
        assert(s@ =~= sq_name_spec(self.from_spec()) + sq_name_spec(self.to_spec()));
        if self.is_promotion() {
            let p = match self.promo_piece() {
                0 => 'n',
                1 => 'b',
                2 => 'r',
                _ => 'q',
            };
            push_char(&mut s, p);
        }
        s
    }
}

/// Stack-allocated move list (capacity 256).
pub struct MoveList {
    pub moves: [Move; 256],
    pub len: usize,
}

impl MoveList {
    /// The moves held, in the order they were pushed.
    pub open spec fn view(&self) -> Seq<Move> {
        self.moves@.take(self.len as int)
    }

    pub open spec fn wf(&self) -> bool {
        self.len <= 256
    }

    pub fn new() -> (l: Self)
        ensures
            l.wf(),
            l.len == 0,
            l.view() == Seq::<Move>::empty(),
    {
        let l = MoveList { moves: [Move(0); 256], len: 0 };
        assert(l.view() =~= Seq::<Move>::empty());
        l
    }

    pub fn push(&mut self, m: Move)
        requires
            old(self).len < 256,
        ensures
            final(self).len == old(self).len + 1,
            final(self).view() == old(self).view().push(m),
    {
        let ghost before = self.view();
        self.moves[self.len] = m;
        self.len += 1;
        assert(self.view() =~= before.push(m));
    }

    /// The moves held, in order, as a vector.
    pub fn iter(&self) -> (v: Vec<Move>)
        requires
            self.wf(),
        ensures
            v@ == self.view(),
    {
        let mut v: Vec<Move> = Vec::new();
        let mut i: usize = 0;
        while i < self.len
            invariant
                self.wf(),
                i <= self.len,
                v@ == self.moves@.take(i as int),
            decreases self.len - i,
        {
            v.push(self.moves[i]);
            i += 1;
            assert(v@ =~= self.moves@.take(i as int));
        }
        v
    }
}

impl Default for MoveList {
    fn default() -> (l: Self)
        ensures
            l.wf(),
            l.view() == Seq::<Move>::empty(),
    {
        Self::new()
    }
}

/// The letter of a promotion piece code.
pub open spec fn promo_char_spec(p: int) -> char {
    if p == 0 {
        'n'
    } else if p == 1 {
        'b'
    } else if p == 2 {
        'r'
    } else {
        'q'
    }
}

/// Decoding an encoded move gives back its parts.
pub proof fn lemma_move_roundtrip(from: int, to: int, flags: int)
    requires
        0 <= from < 64,
        0 <= to < 64,
        0 <= flags < 16,
    ensures
        Move(encode(from, to, flags) as u16).from_spec() == from,
        Move(encode(from, to, flags) as u16).to_spec() == to,
        Move(encode(from, to, flags) as u16).flags_spec() == flags,
{
}

/// Encoding the parts of a move gives the move back.
pub proof fn lemma_move_reencode(m: Move)
    ensures
        encode(m.from_spec(), m.to_spec(), m.flags_spec()) == m.0,
{
}

} // verus!
