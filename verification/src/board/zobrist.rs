//! Zobrist hashing keys, produced by splitmix64 from a fixed seed.
use vstd::prelude::*;
use vstd::wrapping::u64_specs::{wrapping_add, wrapping_mul};
use super::types::{Color, Piece, Square};

verus! {

pub const SEED: u64 = 0xDEADBEEFCAFEBABE;
pub const GAMMA: u64 = 0x9e3779b97f4a7c15;
pub const MIX1: u64 = 0xbf58476d1ce4e5b9;
pub const MIX2: u64 = 0x94d049bb133111eb;

/// The output stage of splitmix64 applied to a state.
pub open spec fn mix_spec(s: u64) -> u64 {
    let z1 = wrapping_mul(s ^ (s >> 30u64), MIX1);
    let z2 = wrapping_mul(z1 ^ (z1 >> 27u64), MIX2);
    z2 ^ (z2 >> 31u64)
}

/// The generator state after `n` draws.
pub open spec fn state_after(n: nat) -> u64 {
    ((SEED as nat + n * (GAMMA as nat)) % 0x1_0000_0000_0000_0000nat) as u64
}

/// The `k`-th number drawn (counting from 0).
pub open spec fn draw(k: nat) -> u64 {
    mix_spec(state_after(k + 1))
}

/// Key of a piece of color `c` and kind `p` on square `s`.
pub open spec fn piece_key_spec(c: Color, p: Piece, s: int) -> u64 {
    draw(((c.idx() * 6 + p.idx()) * 64 + s) as nat)
}

/// Key of a set of castling rights (0..16).
pub open spec fn castling_key_spec(r: int) -> u64 {
    draw((768 + r) as nat)
}

/// Key of an en-passant file (0..8).
pub open spec fn ep_key_spec(f: int) -> u64 {
    draw((784 + f) as nat)
}

/// Key of black to move.
pub open spec fn side_key_spec() -> u64 {
    draw(792)
}

fn mix(s: u64) -> (r: u64)
    ensures
        r == mix_spec(s),
{
    let mut z = s;
    z = (z ^ (z >> 30)).wrapping_mul(MIX1);
    z = (z ^ (z >> 27)).wrapping_mul(MIX2);
    z ^ (z >> 31)
}

proof fn lemma_state_step(n: nat)
    ensures
        wrapping_add(state_after(n), GAMMA) == state_after(n + 1),
{
    let m = 0x1_0000_0000_0000_0000nat;
    let a = SEED as nat + n * (GAMMA as nat);
    vstd::arithmetic::div_mod::lemma_add_mod_noop(a as int, GAMMA as int, m as int);
    vstd::arithmetic::div_mod::lemma_mod_twice(a as int, m as int);
    vstd::arithmetic::div_mod::lemma_small_mod(GAMMA as nat, m);
    assert(a + GAMMA as nat == SEED as nat + (n + 1) * (GAMMA as nat)) by (nonlinear_arith)
        requires
            a == SEED as nat + n * (GAMMA as nat),
    ;
}

fn splitmix64(state: &mut u64) -> (r: u64)
    ensures
        *final(state) == wrapping_add(*old(state), GAMMA),
        r == mix_spec(*final(state)),
{
    *state = state.wrapping_add(GAMMA);
    mix(*state)
}

/// The `k`-th number drawn, computed directly from the counter.
pub fn draw_at(k: u64) -> (r: u64)
    requires
        k < 1000,
    ensures
        r == draw(k as nat),
{
    let s = SEED.wrapping_add((k + 1).wrapping_mul(GAMMA));
    proof {
        let m = 0x1_0000_0000_0000_0000nat;
        let p = ((k + 1) as nat) * (GAMMA as nat);
        assert(wrapping_mul((k + 1) as u64, GAMMA) == (p % m) as u64);
        vstd::arithmetic::div_mod::lemma_add_mod_noop_right(SEED as int, p as int, m as int);
    }
    mix(s)
}

pub struct ZobristKeys {
    pub pieces: [[[u64; 64]; 6]; 2],  // [color][piece][square]
    pub castling: [u64; 16],
    pub ep: [u64; 8],  // by file
    pub side: u64,
}

impl ZobristKeys {
    pub open spec fn wf(&self) -> bool {
        &&& forall|c: int, p: int, s: int|
            0 <= c < 2 && 0 <= p < 6 && 0 <= s < 64 ==> #[trigger] self.pieces[c][p][s] == draw(
                ((c * 6 + p) * 64 + s) as nat,
            )
        &&& forall|i: int| 0 <= i < 16 ==> #[trigger] self.castling[i] == castling_key_spec(i)
        &&& forall|i: int| 0 <= i < 8 ==> #[trigger] self.ep[i] == ep_key_spec(i)
        &&& self.side == side_key_spec()
    }

    /// Draws all keys in order: pieces (by color, kind, square), then
    /// castling rights, en-passant files and side to move.
    pub fn new() -> (k: Self)
        ensures
            k.wf(),
    {
        let mut seed: u64 = SEED;
        let mut pieces = [[[0u64; 64]; 6]; 2];
        let mut castling = [0u64; 16];
        let mut ep = [0u64; 8];
        assert(seed == state_after(0)) by {
            vstd::arithmetic::div_mod::lemma_small_mod(SEED as nat, 0x1_0000_0000_0000_0000nat);
        }
        let mut k: usize = 0;
        while k < 768
            invariant
                k <= 768,
                seed == state_after(k as nat),
                forall|c: int, p: int, s: int|
                    0 <= c < 2 && 0 <= p < 6 && 0 <= s < 64 && (c * 6 + p) * 64 + s < k
                        ==> #[trigger] pieces[c][p][s] == draw(((c * 6 + p) * 64 + s) as nat),
            decreases 768 - k,
        {
            let c = k / 384;
            let p = (k / 64) % 6;
            let sq = k % 64;
            assert((c * 6 + p) * 64 + sq == k) by (nonlinear_arith)
                requires
                    c == k / 384,
                    p == (k / 64) % 6,
                    sq == k % 64,
                    k < 768,
            ;
            proof {
                lemma_state_step(k as nat);
            }
            let v = splitmix64(&mut seed);
            pieces[c][p][sq] = v;
            k += 1;
            assert forall|c2: int, p2: int, s2: int|
                0 <= c2 < 2 && 0 <= p2 < 6 && 0 <= s2 < 64 && (c2 * 6 + p2) * 64 + s2 < k
                    implies #[trigger] pieces[c2][p2][s2] == draw(((c2 * 6 + p2) * 64 + s2) as nat) by {
                if (c2 * 6 + p2) * 64 + s2 == k - 1 {
                    assert(c2 == c && p2 == p && s2 == sq) by (nonlinear_arith)
                        requires
                            (c2 * 6 + p2) * 64 + s2 == (c * 6 + p) * 64 + sq,
                            0 <= c2 < 2, 0 <= p2 < 6, 0 <= s2 < 64,
                            0 <= c < 2, 0 <= p < 6, 0 <= sq < 64,
                    ;
                } else {
                    assert(!(c2 == c && p2 == p && s2 == sq));
                }
            }
        }
        let mut i: usize = 0;
        while i < 16
            invariant
                i <= 16,
                seed == state_after((768 + i) as nat),
                forall|j: int| 0 <= j < i ==> #[trigger] castling[j] == castling_key_spec(j),
            decreases 16 - i,
        {
            proof {
                lemma_state_step((768 + i) as nat);
            }
            castling[i] = splitmix64(&mut seed);
            i += 1;
        }
        let mut i: usize = 0;
        while i < 8
            invariant
                i <= 8,
                seed == state_after((784 + i) as nat),
                forall|j: int| 0 <= j < i ==> #[trigger] ep[j] == ep_key_spec(j),
            decreases 8 - i,
        {
            proof {
                lemma_state_step((784 + i) as nat);
            }
            ep[i] = splitmix64(&mut seed);
            i += 1;
        }
        proof {
            lemma_state_step(792);
        }
        let side = splitmix64(&mut seed);
        ZobristKeys { pieces, castling, ep, side }
    }

    pub fn piece_key(&self, color: Color, piece: Piece, sq: Square) -> (r: u64)
        requires
            self.wf(),
            sq < 64,
        ensures
            r == piece_key_spec(color, piece, sq as int),
    {
        self.pieces[color.index()][piece.index()][sq as usize]
    }

    pub fn castling_key(&self, rights: u8) -> (r: u64)
        requires
            self.wf(),
            rights < 16,
        ensures
            r == castling_key_spec(rights as int),
    {
        self.castling[rights as usize]
    }

    pub fn ep_key(&self, file: u32) -> (r: u64)
        requires
            self.wf(),
            file < 8,
        ensures
            r == ep_key_spec(file as int),
    {
        self.ep[file as usize]
    }
}

/// The full key table (built from the fixed seed on each call).
pub fn keys() -> (k: ZobristKeys)
    ensures
        k.wf(),
{
    ZobristKeys::new()
}

/// Key of a piece on a square, computed directly from its draw number.
pub fn piece_key(color: Color, piece: Piece, sq: Square) -> (r: u64)
    requires
        sq < 64,
    ensures
        r == piece_key_spec(color, piece, sq as int),
{
    let k = ((color.index() * 6 + piece.index()) * 64 + sq as usize) as u64;
    draw_at(k)
}

/// Key of a set of castling rights, computed directly.
pub fn castling_key(rights: u8) -> (r: u64)
    requires
        rights < 16,
    ensures
        r == castling_key_spec(rights as int),
{
    draw_at(768 + rights as u64)
}

/// Key of an en-passant file, computed directly.
pub fn ep_key(file: u32) -> (r: u64)
    requires
        file < 8,
    ensures
        r == ep_key_spec(file as int),
{
    draw_at(784 + file as u64)
}

/// Key of black to move, computed directly.
pub fn side_key() -> (r: u64)
    ensures
        r == side_key_spec(),
{
    draw_at(792)
}

} // verus!

