//! Move-path enumeration (perft) and the text side of the UCI protocol:
//! reading moves and the arguments of the `go` and `position` commands.
use vstd::prelude::*;
use crate::board::moves::{Move, MoveList};
use crate::board::position::{Position, PosView, castle_rook, lemma_make_unmake};
use crate::movegen::generate_legal_moves;
use crate::board::validate::lemma_consistent_valid;
use crate::board::types::parse_sq_spec;
use crate::board::fen::{next_word, word_bounds, word, has_word, parse_sq_at, parse_uint, digits_val, lemma_digits_prefix, lemma_digits_nonneg};
use vstd::string::StringSliceAdditionalSpecFns;

verus! {

/// A generated move can be made and then taken back.
pub open spec fn move_sound(v: PosView, m: Move) -> bool {
    &&& v.move_ok(m)
    &&& (m.flags_spec() == 2 || m.flags_spec() == 3) ==> castle_rook(v.side, m.flags_spec() == 2).1 != m.from_spec()
}

/// Moves can be generated in this position (our king is on the board, at
/// most 256 moves, consistent content).
pub open spec fn playable(v: PosView) -> bool {
    &&& v.wf()
    &&& v.king_of(v.us()) < 64
    &&& v.gen_moves().len() <= 256
}

/// Every position reached within `depth` moves from `v` by generated moves
/// is playable, and each generated move on the way can be made and undone.
pub open spec fn perft_ok(v: PosView, depth: nat) -> bool
    decreases depth,
{
    depth == 0 || (playable(v) && (depth == 1 || forall|i: int|
        0 <= i < v.gen_moves().len() ==> move_sound(v, #[trigger] v.gen_moves()[i]) && perft_ok(
            v.make_view(v.gen_moves()[i]),
            (depth - 1) as nat,
        )))
}

/// Number of move paths of length `depth` from `v`.
pub open spec fn perft_spec(v: PosView, depth: nat) -> nat
    decreases depth, v.gen_moves().len() + 1,
{
    if depth == 0 {
        1
    } else if depth == 1 {
        v.gen_moves().len()
    } else {
        perft_sum(v, depth, v.gen_moves().len())
    }
}

/// Paths of length `depth` that start with one of the first `n` moves.
pub open spec fn perft_sum(v: PosView, depth: nat, n: nat) -> nat
    decreases depth, n,
{
    if depth == 0 || n == 0 || n > v.gen_moves().len() {
        0
    } else {
        perft_sum(v, depth, (n - 1) as nat) + perft_spec(v.make_view(v.gen_moves()[n - 1]), (depth - 1) as nat)
    }
}

pub proof fn lemma_perft_sum_mono(v: PosView, depth: nat, n: nat, m: nat)
    requires
        n <= m <= v.gen_moves().len(),
    ensures
        perft_sum(v, depth, n) <= perft_sum(v, depth, m),
    decreases m,
{
    if n < m {
        lemma_perft_sum_mono(v, depth, n, (m - 1) as nat);
    }
}

/// Counts the leaves of the move tree of depth `depth`.
pub fn perft(pos: &mut Position, depth: u32) -> (nodes: u64)
    requires
        old(pos).wf(),
        perft_ok(old(pos)@, depth as nat),
        perft_spec(old(pos)@, depth as nat) <= u64::MAX,
    ensures
        nodes == perft_spec(old(pos)@, depth as nat),
        final(pos).wf(),
        final(pos)@ == old(pos)@,
    decreases depth,
{
    if depth == 0 {
        return 1;
    }
    let ghost v = pos@;
    proof {
        pos.lemma_bitboards();
    }
    let moves = generate_legal_moves(pos);
    if depth == 1 {
        return moves.len as u64;
    }
    let ms = moves.iter();
    let mut nodes = 0u64;
    let mut i: usize = 0;
    while i < ms.len()
        invariant
            depth >= 2,
            ms@ == v.gen_moves(),
            pos.wf(),
            pos@ == v,
            perft_ok(v, depth as nat),
            perft_spec(v, depth as nat) <= u64::MAX,
            i <= ms@.len(),
            nodes == perft_sum(v, depth as nat, i as nat),
        decreases ms@.len() - i,
    {
        let m = ms[i];
        proof {
            assert(move_sound(v, v.gen_moves()[i as int]));
            lemma_make_unmake(v, m);
            lemma_perft_sum_mono(v, depth as nat, (i + 1) as nat, ms@.len());
        }
        pos.make_move(m);
        let n = perft(pos, depth - 1);
        pos.unmake_move(m);
        nodes = nodes + n;
        i += 1;
    }
    nodes
}

/// Number of moves among the first `n` of `ms` with flags `f`.
pub open spec fn flag_count(ms: Seq<Move>, f: int, n: int) -> nat
    decreases n,
{
    if n <= 0 {
        0
    } else {
        flag_count(ms, f, n - 1) + if ms[n - 1].flags_spec() == f { 1nat } else { 0nat }
    }
}

/// Number of last moves with flags `f` over all move paths of length
/// `depth` from `v`.
pub open spec fn leaf_flags(v: PosView, depth: nat, f: int) -> nat
    decreases depth, v.gen_moves().len() + 1,
{
    if depth == 0 {
        0
    } else if depth == 1 {
        flag_count(v.gen_moves(), f, v.gen_moves().len() as int)
    } else {
        leaf_flags_sum(v, depth, f, v.gen_moves().len())
    }
}

/// The same count over paths starting with one of the first `n` moves.
pub open spec fn leaf_flags_sum(v: PosView, depth: nat, f: int, n: nat) -> nat
    decreases depth, n,
{
    if depth == 0 || n == 0 || n > v.gen_moves().len() {
        0
    } else {
        leaf_flags_sum(v, depth, f, (n - 1) as nat) + leaf_flags(v.make_view(v.gen_moves()[n - 1]), (depth - 1) as nat, f)
    }
}

proof fn lemma_leaf_flags_sum_mono(v: PosView, depth: nat, f: int, n: nat, m: nat)
    requires
        n <= m <= v.gen_moves().len(),
    ensures
        leaf_flags_sum(v, depth, f, n) <= leaf_flags_sum(v, depth, f, m),
    decreases m,
{
    if n < m {
        lemma_leaf_flags_sum_mono(v, depth, f, n, (m - 1) as nat);
    }
}

/// Adds to `counts[f]`, for each flag value `f`, the number of last moves
/// with flags `f` over all move paths of length `depth`.
pub fn count_move_types(pos: &mut Position, depth: u32, counts: &mut [u64; 16])
    requires
        old(pos).wf(),
        perft_ok(old(pos)@, depth as nat),
        forall|f: int| 0 <= f < 16 ==> old(counts)[f] + leaf_flags(old(pos)@, depth as nat, f) <= u64::MAX,
    ensures
        forall|f: int| 0 <= f < 16 ==> #[trigger] final(counts)[f] == old(counts)[f] + leaf_flags(old(pos)@, depth as nat, f),
        final(pos).wf(),
        final(pos)@ == old(pos)@,
    decreases depth,
{
    if depth == 0 {
        return;
    }
    let ghost v = pos@;
    let ghost c0 = *counts;
    proof {
        pos.lemma_bitboards();
    }
    let moves = generate_legal_moves(pos);
    let ms = moves.iter();
    if depth == 1 {
        let mut i: usize = 0;
        while i < ms.len()
            invariant
                ms@ == v.gen_moves(),
                i <= ms@.len(),
                forall|f: int| 0 <= f < 16 ==> c0[f] + leaf_flags(v, 1, f) <= u64::MAX,
                forall|f: int| 0 <= f < 16 ==> #[trigger] counts[f] == c0[f] + flag_count(ms@, f, i as int),
            decreases ms@.len() - i,
        {
            let fl = ms[i].flags() as usize;
            proof {
                lemma_flag_count_mono(ms@, fl as int, i as int + 1, ms@.len() as int);
            }
            counts[fl] = counts[fl] + 1;
            i += 1;
        }
        return;
    }
    let mut i: usize = 0;
    while i < ms.len()
        invariant
            depth >= 2,
            ms@ == v.gen_moves(),
            pos.wf(),
            pos@ == v,
            perft_ok(v, depth as nat),
            forall|f: int| 0 <= f < 16 ==> c0[f] + leaf_flags(v, depth as nat, f) <= u64::MAX,
            i <= ms@.len(),
            forall|f: int| 0 <= f < 16 ==> #[trigger] counts[f] == c0[f] + leaf_flags_sum(v, depth as nat, f, i as nat),
        decreases ms@.len() - i,
    {
        let m = ms[i];
        proof {
            assert(move_sound(v, v.gen_moves()[i as int]));
            lemma_make_unmake(v, m);
            assert forall|f: int| 0 <= f < 16 implies counts[f] + leaf_flags(v.make_view(m), (depth - 1) as nat, f) <= u64::MAX by {
                lemma_leaf_flags_sum_mono(v, depth as nat, f, (i + 1) as nat, ms@.len());
            }
        }
        pos.make_move(m);
        count_move_types(pos, depth - 1, counts);
        pos.unmake_move(m);
        i += 1;
    }
}

proof fn lemma_flag_count_mono(ms: Seq<Move>, f: int, n: int, m: int)
    requires
        n <= m,
    ensures
        flag_count(ms, f, n) <= flag_count(ms, f, m),
    decreases m - n,
{
    if n < m {
        lemma_flag_count_mono(ms, f, n, m - 1);
    }
}

/// Byte `i` starts a character (or is the end) of UTF-8 text `b`.
pub open spec fn char_boundary(b: Seq<u8>, i: int) -> bool {
    i == b.len() || (0 <= i < b.len() && (b[i] & 0xC0) != 0x80)
}

/// The promotion piece a move text names after its two squares, if any:
/// `n`, `b`, `r`, anything else a queen.
pub open spec fn uci_promo(b: Seq<u8>) -> Option<u8> {
    if b.len() > 4 {
        Some(if b[4] == 110 { 0u8 } else if b[4] == 98 { 1u8 } else if b[4] == 114 { 2u8 } else { 3u8 })
    } else {
        None
    }
}

/// Move `m` goes from `from` to `to` and promotes as `promo` says
/// (a text without a promotion piece only matches non-promotions).
pub open spec fn uci_matches(m: Move, from: int, to: int, promo: Option<u8>) -> bool {
    &&& m.from_spec() == from
    &&& m.to_spec() == to
    &&& match promo {
        Some(pp) => m.is_promotion_spec() && m.flags_spec() % 4 == pp,
        None => !m.is_promotion_spec(),
    }
}

/// The first move of `ms` from index `i` on that matches.
pub open spec fn first_match(ms: Seq<Move>, from: int, to: int, promo: Option<u8>, i: int) -> Option<Move>
    decreases ms.len() - i,
{
    if i < 0 || i >= ms.len() {
        None
    } else if uci_matches(ms[i], from, to, promo) {
        Some(ms[i])
    } else {
        first_match(ms, from, to, promo, i + 1)
    }
}

/// The legal move a text in UCI notation (such as `e2e4` or `e7e8q`) names.
pub open spec fn parse_uci_spec(v: PosView, b: Seq<u8>) -> Option<Move> {
    if b.len() < 4 {
        None
    } else {
        match (parse_sq_spec(b.subrange(0, 2)), parse_sq_spec(b.subrange(2, 4))) {
            (Some(f), Some(t)) => first_match(v.gen_moves(), f as int, t as int, uci_promo(b), 0),
            _ => None,
        }
    }
}

/// The legal move named by `s` in UCI notation, if there is one.
pub fn parse_uci_move(pos: &Position, s: &str) -> (r: Option<Move>)
    requires
        pos.wf(),
        playable(pos@),
        s.spec_bytes().len() >= 4 ==> char_boundary(s.spec_bytes(), 2),
        s.spec_bytes().len() >= 4 && parse_sq_spec(s.spec_bytes().subrange(0, 2)) is Some ==> char_boundary(s.spec_bytes(), 4),
    ensures
        r == parse_uci_spec(pos@, s.spec_bytes()),
{
    let b = s.as_bytes();
    if b.len() < 4 {
        return None;
    }
    let from = match parse_sq_at(b, 0, 2) {
        Some(sq) => sq,
        None => {
            return None;
        },
    };
    let to = match parse_sq_at(b, 2, 4) {
        Some(sq) => sq,
        None => {
            return None;
        },
    };
    let promo: Option<u8> = if b.len() > 4 {
        Some(if b[4] == 110 { 0 } else if b[4] == 98 { 1 } else if b[4] == 114 { 2 } else { 3 })
    } else {
        None
    };
    proof {
        pos.lemma_bitboards();
    }
    let moves = generate_legal_moves(pos);
    let ms = moves.iter();
    let ghost target = first_match(ms@, from as int, to as int, promo, 0);
    assert(promo == uci_promo(b@));
    assert(target == parse_uci_spec(pos@, s.spec_bytes()));
    let mut i: usize = 0;
    while i < ms.len()
        invariant
            i <= ms@.len(),
            target == parse_uci_spec(pos@, s.spec_bytes()),
            first_match(ms@, from as int, to as int, promo, i as int) == target,
            target == first_match(ms@, from as int, to as int, promo, 0),
        decreases ms@.len() - i,
    {
        let m = ms[i];
        if m.from() == from && m.to() == to {
            match promo {
                Some(pp) => {
                    if m.is_promotion() {
                        if m.promo_piece() == pp {
                            return Some(m);
                        }
                    }
                },
                None => {
                    if !m.is_promotion() {
                        return Some(m);
                    }
                },
            }
        }
        i += 1;
    }
    None
}

/// Two byte strings are equal.
pub fn bytes_eq(a: &[u8], b: &[u8]) -> (r: bool)
    ensures
        r == (a@ == b@),
{
    if a.len() != b.len() {
        return false;
    }
    let mut i: usize = 0;
    while i < a.len()
        invariant
            a@.len() == b@.len(),
            i <= a@.len(),
            forall|j: int| 0 <= j < i ==> a@[j] == b@[j],
        decreases a@.len() - i,
    {
        if a[i] != b[i] {
            return false;
        }
        i += 1;
    }
    assert(a@ =~= b@);
    true
}

proof fn lemma_digits_step(ds: Seq<u8>, i: int, v: int, c: u8)
    requires
        0 <= i < ds.len(),
        ds[i] == c,
        48 <= c <= 57,
        i == 0 ==> v == 0,
        i > 0 ==> digits_val(ds.take(i)) == Some(v),
    ensures
        digits_val(ds.take(i + 1)) == Some(v * 10 + (c - 48)),
{
    assert(ds.take(i + 1).last() == c);
    assert(ds.take(i + 1).drop_last() =~= ds.take(i));
}

proof fn lemma_over(v: int, dg: int, max: int)
    by (nonlinear_arith)
    requires
        0 <= dg <= max,
        v > (max - dg) / 10,
    ensures
        v * 10 + dg > max,
{
}

proof fn lemma_under(v: int, dg: int, max: int)
    by (nonlinear_arith)
    requires
        0 <= dg <= max,
        0 <= v <= (max - dg) / 10,
    ensures
        v * 10 + dg <= max,
{
}

/// Reads an unsigned decimal number (optional `+`) from `b` that is at most
/// `max`.
pub fn parse_u64(b: &[u8], max: u64) -> (r: Option<u64>)
    ensures
        match parse_uint(b@, max as int) {
            Some(v) => 0 <= v <= max && r == Some(v as u64),
            None => r is None,
        },
{
    let ghost d = b@;
    let mut k: usize = 0;
    if k < b.len() && b[k] == 43 {
        k += 1;
    }
    let k0 = k;
    let ghost ds = b@.subrange(k0 as int, b@.len() as int);
    assert(ds =~= (if d.len() > 0 && d[0] == 43 { d.drop_first() } else { d }));
    if k == b.len() {
        assert(ds.len() == 0);
        return None;
    }
    let mut v: u64 = 0;
    while k < b.len()
        invariant
            k0 <= k <= b@.len(),
            k0 < b@.len(),
            d == b@,
            ds == b@.subrange(k0 as int, b@.len() as int),
            ds == (if d.len() > 0 && d[0] == 43 { d.drop_first() } else { d }),
            v <= max,
            k == k0 ==> v == 0,
            k > k0 ==> digits_val(ds.take(k - k0)) == Some(v as int),
        decreases b@.len() - k,
    {
        let c = b[k];
        let ghost i = k - k0;
        if c < 48 || c > 57 {
            proof {
                assert(ds.take(i + 1).last() == c);
                assert(digits_val(ds.take(i + 1)) is None);
                lemma_digits_prefix(ds, i + 1);
            }
            return None;
        }
        let dg = (c - 48) as u64;
        proof {
            lemma_digits_step(ds, i, v as int, c);
        }
        if dg > max || v > (max - dg) / 10 {
            proof {
                if dg <= max {
                    lemma_over(v as int, dg as int, max as int);
                }
                lemma_digits_prefix(ds, i + 1);
            }
            return None;
        }
        proof {
            lemma_under(v as int, dg as int, max as int);
        }
        v = v * 10 + dg;
        k += 1;
    }
    assert(ds.take(b@.len() - k0) =~= ds);
    proof {
        lemma_digits_nonneg(ds);
    }
    Some(v)
}

/// The arguments of a `go` command.
#[derive(Clone, Copy, Debug)]
pub struct GoOptions {
    pub wtime: Option<u64>,
    pub btime: Option<u64>,
    pub winc: u64,
    pub binc: u64,
    pub movestogo: u64,
    pub movetime: Option<u64>,
    pub depth: Option<u32>,
    pub nodes: Option<u64>,
}

/// The options before any argument is read.
pub open spec fn go_default() -> GoOptions {
    GoOptions { wtime: None, btime: None, winc: 0, binc: 0, movestogo: 20, movetime: None, depth: None, nodes: None }
}

/// The number in the token after index `i`, if there is one.
pub open spec fn arg_u64(ts: Seq<Seq<u8>>, i: int, max: int) -> Option<int> {
    if i + 1 < ts.len() { parse_uint(ts[i + 1], max) } else { None }
}

/// The options after reading the tokens from index `i` on.
pub open spec fn go_from(ts: Seq<Seq<u8>>, i: int, g: GoOptions) -> GoOptions
    decreases ts.len() + 1 - i,
{
    if i < 0 || i >= ts.len() {
        g
    } else {
        let t = ts[i];
        let n = arg_u64(ts, i, u64::MAX as int);
        if t == "wtime".spec_bytes() {
            go_from(ts, i + 2, GoOptions { wtime: match n { Some(x) => Some(x as u64), None => None }, ..g })
        } else if t == "btime".spec_bytes() {
            go_from(ts, i + 2, GoOptions { btime: match n { Some(x) => Some(x as u64), None => None }, ..g })
        } else if t == "winc".spec_bytes() {
            go_from(ts, i + 2, GoOptions { winc: match n { Some(x) => x as u64, None => 0 }, ..g })
        } else if t == "binc".spec_bytes() {
            go_from(ts, i + 2, GoOptions { binc: match n { Some(x) => x as u64, None => 0 }, ..g })
        } else if t == "movestogo".spec_bytes() {
            go_from(ts, i + 2, GoOptions { movestogo: match n { Some(x) => x as u64, None => 20 }, ..g })
        } else if t == "movetime".spec_bytes() {
            go_from(ts, i + 2, GoOptions { movetime: match n { Some(x) => Some(x as u64), None => None }, ..g })
        } else if t == "depth".spec_bytes() {
            go_from(ts, i + 2, GoOptions { depth: match arg_u64(ts, i, u32::MAX as int) { Some(x) => Some(x as u32), None => None }, ..g })
        } else if t == "nodes".spec_bytes() {
            go_from(ts, i + 2, GoOptions { nodes: match n { Some(x) => Some(x as u64), None => None }, ..g })
        } else if t == "infinite".spec_bytes() {
            go_from(ts, i + 1, GoOptions { depth: Some(64), ..g })
        } else {
            go_from(ts, i + 1, g)
        }
    }
}

/// The bytes of each token.
pub open spec fn token_bytes(tokens: Seq<&str>) -> Seq<Seq<u8>> {
    tokens.map_values(|t: &str| t.spec_bytes())
}

fn arg_at(tokens: &[&str], i: usize, max: u64) -> (r: Option<u64>)
    requires
        i < tokens.len(),
    ensures
        match arg_u64(token_bytes(tokens@), i as int, max as int) {
            Some(v) => 0 <= v <= max && r == Some(v as u64),
            None => r is None,
        },
{
    if i < tokens.len() - 1 {
        parse_u64(tokens[i + 1].as_bytes(), max)
    } else {
        None
    }
}

/// Reads the token at index `i` (and its argument): the options after it
/// and the index of the next token to read.
fn go_step(tokens: &[&str], i: usize, g: GoOptions) -> (r: (GoOptions, usize))
    requires
        i < tokens@.len(),
    ensures
        i < r.1 <= tokens@.len(),
        go_from(token_bytes(tokens@), r.1 as int, r.0) == go_from(token_bytes(tokens@), i as int, g),
{
    let ghost ts = token_bytes(tokens@);
    let t = tokens[i].as_bytes();
    assert(ts[i as int] == t@);
    let next = if i < tokens.len() - 1 { i + 2 } else { tokens.len() };
    assert(go_from(ts, next as int, g) == go_from(ts, i + 2, g));
    let g0 = g;
    let mut g = g;
    if bytes_eq(t, "wtime".as_bytes()) {
        g.wtime = arg_at(tokens, i, u64::MAX);
        assert(g == GoOptions { wtime: match arg_u64(ts, i as int, u64::MAX as int) { Some(x) => Some(x as u64), None => None }, ..g0 });
        assert(go_from(ts, i as int, g0) == go_from(ts, i + 2, g));
        (g, next)
    } else if bytes_eq(t, "btime".as_bytes()) {
        g.btime = arg_at(tokens, i, u64::MAX);
        (g, next)
    } else if bytes_eq(t, "winc".as_bytes()) {
        g.winc = match arg_at(tokens, i, u64::MAX) { Some(x) => x, None => 0 };
        (g, next)
    } else if bytes_eq(t, "binc".as_bytes()) {
        g.binc = match arg_at(tokens, i, u64::MAX) { Some(x) => x, None => 0 };
        (g, next)
    } else if bytes_eq(t, "movestogo".as_bytes()) {
        g.movestogo = match arg_at(tokens, i, u64::MAX) { Some(x) => x, None => 20 };
        (g, next)
    } else if bytes_eq(t, "movetime".as_bytes()) {
        g.movetime = arg_at(tokens, i, u64::MAX);
        (g, next)
    } else if bytes_eq(t, "depth".as_bytes()) {
        g.depth = match arg_at(tokens, i, 0xFFFF_FFFF) { Some(x) => Some(x as u32), None => None };
        (g, next)
    } else if bytes_eq(t, "nodes".as_bytes()) {
        g.nodes = arg_at(tokens, i, u64::MAX);
        (g, next)
    } else if bytes_eq(t, "infinite".as_bytes()) {
        g.depth = Some(64);
        (g, i + 1)
    } else {
        (g, i + 1)
    }
}

/// Reads the arguments of a `go` command (unknown tokens are skipped, a
/// missing or unreadable number leaves the option unset or at its default).
pub fn parse_go_options(tokens: &[&str]) -> (g: GoOptions)
    ensures
        g == go_from(token_bytes(tokens@), 0, go_default()),
{
    let ghost ts = token_bytes(tokens@);
    let mut g = GoOptions { wtime: None, btime: None, winc: 0, binc: 0, movestogo: 20, movetime: None, depth: None, nodes: None };
    let mut i: usize = 0;
    while i < tokens.len()
        invariant
            i <= tokens@.len(),
            ts == token_bytes(tokens@),
            go_from(ts, i as int, g) == go_from(ts, 0, go_default()),
        decreases tokens@.len() - i,
    {
        let (g2, next) = go_step(tokens, i, g);
        g = g2;
        i = next;
    }
    g
}

/// Time, depth and node limits of a search.
#[derive(Clone, Copy, Debug)]
pub struct Limits {
    pub soft_limit: Option<u64>,
    pub hard_limit: Option<u64>,
    pub depth_limit: Option<u32>,
    pub node_limit: Option<u64>,
}

/// The smaller of two numbers.
pub open spec fn min_int(a: int, b: int) -> int {
    if a < b { a } else { b }
}

/// The limits a `go` command sets for the side to move: a fixed move time
/// (95% of it as the soft limit), or a share of the remaining clock, or
/// depth and node limits alone (depth 64 by default).
pub open spec fn limits_spec(g: GoOptions, white: bool) -> Limits {
    match g.movetime {
        Some(mt) => Limits { soft_limit: Some((mt * 95 / 100) as u64), hard_limit: Some(mt), depth_limit: g.depth, node_limit: g.nodes },
        None => {
            let t = if white { g.wtime } else { g.btime };
            let inc = if white { g.winc } else { g.binc };
            match t {
                Some(t) => {
                    let alloc = min_int(t / g.movestogo + inc / 2, t * 9 / 10);
                    Limits {
                        soft_limit: Some(alloc as u64),
                        hard_limit: Some(min_int(alloc * 3, t * 9 / 10) as u64),
                        depth_limit: g.depth,
                        node_limit: g.nodes,
                    }
                },
                None => Limits {
                    soft_limit: None,
                    hard_limit: None,
                    depth_limit: match g.depth { Some(d) => Some(d), None => Some(64) },
                    node_limit: g.nodes,
                },
            }
        },
    }
}

/// The arithmetic of `limits_spec` fits in 64 bits and divides by a
/// nonzero number of moves.
pub open spec fn limits_fit(g: GoOptions, white: bool) -> bool {
    match g.movetime {
        Some(mt) => mt * 95 <= u64::MAX,
        None => {
            let t = if white { g.wtime } else { g.btime };
            let inc = if white { g.winc } else { g.binc };
            match t {
                Some(t) => g.movestogo != 0 && t / g.movestogo + inc / 2 <= u64::MAX && t * 9 <= u64::MAX
                    && min_int(t / g.movestogo + inc / 2, t * 9 / 10) * 3 <= u64::MAX,
                None => true,
            }
        },
    }
}

/// The search limits of a `go` command for the side to move.
pub fn time_limits(g: &GoOptions, white: bool) -> (l: Limits)
    requires
        limits_fit(*g, white),
    ensures
        l == limits_spec(*g, white),
{
    if let Some(mt) = g.movetime {
        // Fixed time per move: 95% as the soft limit
        return Limits { soft_limit: Some(mt * 95 / 100), hard_limit: Some(mt), depth_limit: g.depth, node_limit: g.nodes };
    }
    let (our_time, our_inc) = if white { (g.wtime, g.winc) } else { (g.btime, g.binc) };
    if let Some(t) = our_time {
        // Remaining / movestogo + increment/2, capped at 90% of remaining
        let a = t / g.movestogo + our_inc / 2;
        let cap = t * 9 / 10;
        let alloc = if a < cap { a } else { cap };
        let h = alloc * 3;
        let hard = if h < cap { h } else { cap };
        return Limits { soft_limit: Some(alloc), hard_limit: Some(hard), depth_limit: g.depth, node_limit: g.nodes };
    }
    Limits {
        soft_limit: None,
        hard_limit: None,
        depth_limit: match g.depth { Some(d) => Some(d), None => Some(64) },
        node_limit: g.nodes,
    }
}

/// Time for a move from the clock: with a clock `t` for the side to move
/// and no fixed move time, the soft limit is `t` split over the moves to go
/// that the go command named, plus half the increment, and never more than
/// 90% of `t`; the hard limit is three times the soft limit under the same
/// cap. So the soft limit times the moves to go never exceeds `t` plus
/// the increments.
pub proof fn lemma_clock_allocation(g: GoOptions, white: bool)
    requires
        g.movetime is None,
        (if white { g.wtime } else { g.btime }) is Some,
        limits_fit(g, white),
    ensures
        ({
            let t = (if white { g.wtime } else { g.btime })->Some_0 as int;
            let inc = (if white { g.winc } else { g.binc }) as int;
            let cap = t * 9 / 10;
            let share = t / (g.movestogo as int) + inc / 2;
            let soft = if share < cap { share } else { cap };
            let l = limits_spec(g, white);
            &&& l.soft_limit == Some(soft as u64)
            &&& l.hard_limit == Some((if 3 * soft < cap { 3 * soft } else { cap }) as u64)
            &&& (l.soft_limit->Some_0 as int) * (g.movestogo as int) <= t + (g.movestogo as int) * (inc / 2)
        }),
{
    let t = (if white { g.wtime } else { g.btime })->Some_0 as int;
    let inc = (if white { g.winc } else { g.binc }) as int;
    let m = g.movestogo as int;
    let cap = t * 9 / 10;
    let share = t / m + inc / 2;
    let soft = if share < cap { share } else { cap };
    assert(m > 0);
    assert((t / m) * m <= t) by (nonlinear_arith)
        requires m > 0, t >= 0;
    assert(soft * m <= share * m) by (nonlinear_arith)
        requires soft <= share, m > 0;
    assert(share * m == (t / m) * m + m * (inc / 2)) by (nonlinear_arith)
        requires share == t / m + inc / 2;
    assert(0 <= soft);
}

/// Fewer moves to go never give less time: two go commands that differ
/// only in the moves to go, `g1` naming at most as many as `g2`, give
/// `g1` a soft limit at least that of `g2`.
pub proof fn lemma_fewer_moves_more_time(g1: GoOptions, g2: GoOptions, white: bool)
    requires
        g1.movetime is None,
        (if white { g1.wtime } else { g1.btime }) is Some,
        limits_fit(g1, white),
        limits_fit(g2, white),
        g2 == (GoOptions { movestogo: g2.movestogo, ..g1 }),
        g1.movestogo <= g2.movestogo,
    ensures
        limits_spec(g1, white).soft_limit->Some_0 >= limits_spec(g2, white).soft_limit->Some_0,
{
    let t = (if white { g1.wtime } else { g1.btime })->Some_0 as int;
    vstd::arithmetic::div_mod::lemma_div_is_ordered_by_denominator(t, g1.movestogo as int, g2.movestogo as int);
    lemma_clock_allocation(g1, white);
    lemma_clock_allocation(g2, white);
}

/// The bytes `b[s..e]` are `lit`.
fn word_is(b: &[u8], s: usize, e: usize, lit: &[u8]) -> (r: bool)
    requires
        s <= e <= b@.len(),
    ensures
        r == (b@.subrange(s as int, e as int) == lit@),
{
    if e - s != lit.len() {
        return false;
    }
    let mut i: usize = 0;
    while i < lit.len()
        invariant
            s <= e <= b@.len(),
            e - s == lit@.len(),
            i <= lit@.len(),
            forall|j: int| 0 <= j < i ==> b@[s + j] == lit@[j],
        decreases lit@.len() - i,
    {
        if b[s + i] != lit[i] {
            assert(b@.subrange(s as int, e as int)[i as int] != lit@[i as int]);
            return false;
        }
        i += 1;
    }
    assert(b@.subrange(s as int, e as int) =~= lit@);
    true
}

/// Past the end of the words, there is no further word.
proof fn lemma_no_more_words(b: Seq<u8>, k: nat, j: nat)
    requires
        !has_word(b, k),
        k <= j,
    ensures
        !has_word(b, j),
    decreases j - k,
{
    if k < j {
        lemma_no_more_words(b, k, (j - 1) as nat);
        assert(word_bounds(b, (j - 1) as nat).1 >= b.len());
    }
}

/// What a `position` command asks for: the byte range of the FEN record
/// (when it gives one) and the byte index after the word `moves` (when the
/// move list follows).
#[derive(Clone, Copy, Debug)]
pub struct PositionCmd {
    pub fen: Option<(usize, usize)>,
    pub moves_from: Option<usize>,
}

/// Number of FEN words after `fen` (at most six).
pub open spec fn fen_words(b: Seq<u8>) -> nat {
    if has_word(b, 6) { 6 } else if has_word(b, 5) { 5 } else if has_word(b, 4) { 4 }
    else if has_word(b, 3) { 3 } else if has_word(b, 2) { 2 } else if has_word(b, 1) { 1 } else { 0 }
}

/// The reading of the arguments `b` of a `position` command: `startpos`,
/// or `fen` and up to six words of a record, then optionally `moves` and
/// the moves.
pub open spec fn position_spec(b: Seq<u8>) -> (Option<(int, int)>, Option<int>) {
    if !has_word(b, 0) {
        (None, None)
    } else {
        let first = word(b, 0);
        let is_fen = first == "fen".spec_bytes();
        let n = if is_fen { fen_words(b) } else { 0 };
        let fen = if is_fen {
            if n > 0 { Some((word_bounds(b, 1).0, word_bounds(b, n).1)) } else { Some((b.len() as int, b.len() as int)) }
        } else {
            None
        };
        let k = (1 + n) as nat;
        let moves = if has_word(b, k) && word(b, k) == "moves".spec_bytes() { Some(word_bounds(b, k).1) } else { None };
        (fen, moves)
    }
}

/// Reads the arguments of a `position` command.
pub fn parse_position_args(rest: &str) -> (c: PositionCmd)
    ensures
        ({
            let (fen, moves) = position_spec(rest.spec_bytes());
            &&& fen == match c.fen { Some((s, e)) => Some((s as int, e as int)), None => None::<(int, int)> }
            &&& moves == match c.moves_from { Some(m) => Some(m as int), None => None::<int> }
        }),
{
    let b = rest.as_bytes();
    let ghost bs = b@;
    let (s0, e0) = next_word(b, 0);
    assert((s0 as int, e0 as int) == word_bounds(bs, 0));
    if s0 >= b.len() {
        return PositionCmd { fen: None, moves_from: None };
    }
    assert(word(bs, 0) == b@.subrange(s0 as int, e0 as int));
    let is_fen = word_is(b, s0, e0, "fen".as_bytes());
    let mut bounds: Vec<(usize, usize)> = Vec::new();
    bounds.push((s0, e0));
    let mut k: usize = 1;
    let mut n: usize = 0;
    let mut fen: Option<(usize, usize)> = None;
    if is_fen {
        let mut last_end = e0;
        let mut first_start = b.len();
        let mut stop = false;
        while k <= 6 && !stop
            invariant
                1 <= k <= 7,
                bounds@.len() == k,
                forall|j: nat| j < k ==> (bounds@[j as int].0 as int, bounds@[j as int].1 as int) == #[trigger] word_bounds(bs, j),
                !stop ==> n == k - 1,
                stop ==> n == k - 1 && !has_word(bs, k as nat),
                forall|j: nat| 1 <= j < k ==> #[trigger] has_word(bs, j),
                n > 0 ==> first_start == word_bounds(bs, 1).0,
                last_end == word_bounds(bs, (k - 1) as nat).1,
                bs == b@,
                last_end <= b@.len(),
            decreases 7 - k + (if stop { 0int } else { 1int }),
        {
            let (s, e) = next_word(b, last_end);
            assert((s as int, e as int) == word_bounds(bs, k as nat));
            if s >= b.len() {
                stop = true;
            } else {
                if k == 1 {
                    first_start = s;
                }
                bounds.push((s, e));
                last_end = e;
                n = k;
                k += 1;
            }
        }
        assert(n == fen_words(bs)) by {
            if stop {
                assert forall|j: nat| j > n implies !has_word(bs, j) by {
                    lemma_no_more_words(bs, (n + 1) as nat, j);
                }
            }
        }
        fen = if n > 0 { Some((first_start, last_end)) } else { Some((b.len(), b.len())) };
    }
    proof {
        assert(n == if is_fen { fen_words(bs) } else { 0 });
    }
    let last_end = bounds[n].1;
    let (s, e) = next_word(b, last_end);
    assert((s as int, e as int) == word_bounds(bs, (n + 1) as nat));
    let moves_from = if s < b.len() && word_is(b, s, e, "moves".as_bytes()) { Some(e) } else { None };
    PositionCmd { fen, moves_from }
}

/// Perft that checks the consistency of the board at every node and after
/// every move taken back (the check never fails: see
/// `lemma_consistent_valid`).
pub fn perft_validating(pos: &mut Position, depth: u32) -> (nodes: u64)
    requires
        old(pos).wf(),
        perft_ok(old(pos)@, depth as nat),
        perft_spec(old(pos)@, depth as nat) <= u64::MAX,
    ensures
        nodes == perft_spec(old(pos)@, depth as nat),
        final(pos).wf(),
        final(pos)@ == old(pos)@,
    decreases depth,
{
    let err = pos.validate();
    proof {
        lemma_consistent_valid(pos);
    }
    assert(err is None);
    if depth == 0 {
        return 1;
    }
    let ghost v = pos@;
    proof {
        pos.lemma_bitboards();
    }
    let moves = generate_legal_moves(pos);
    if depth == 1 {
        return moves.len as u64;
    }
    let ms = moves.iter();
    let mut nodes = 0u64;
    let mut i: usize = 0;
    while i < ms.len()
        invariant
            depth >= 2,
            ms@ == v.gen_moves(),
            pos.wf(),
            pos@ == v,
            perft_ok(v, depth as nat),
            perft_spec(v, depth as nat) <= u64::MAX,
            i <= ms@.len(),
            nodes == perft_sum(v, depth as nat, i as nat),
        decreases ms@.len() - i,
    {
        let m = ms[i];
        proof {
            assert(move_sound(v, v.gen_moves()[i as int]));
            lemma_make_unmake(v, m);
            lemma_perft_sum_mono(v, depth as nat, (i + 1) as nat, ms@.len());
        }
        pos.make_move(m);
        let n = perft_validating(pos, depth - 1);
        pos.unmake_move(m);
        let err = pos.validate();
        proof {
            lemma_consistent_valid(pos);
        }
        assert(err is None);
        nodes = nodes + n;
        i += 1;
    }
    nodes
}

/// The counts of last moves over flags `f < k`, for paths of length `d`.
pub open spec fn flags_total(v: PosView, d: nat, k: int) -> nat
    decreases k,
{
    if k <= 0 { 0 } else { flags_total(v, d, k - 1) + leaf_flags(v, d, k - 1) }
}

spec fn fc_total(ms: Seq<Move>, n: int, k: int) -> nat
    decreases k,
{
    if k <= 0 { 0 } else { fc_total(ms, n, k - 1) + flag_count(ms, k - 1, n) }
}

spec fn lfs_total(v: PosView, d: nat, n: nat, k: int) -> nat
    decreases k,
{
    if k <= 0 { 0 } else { lfs_total(v, d, n, k - 1) + leaf_flags_sum(v, d, k - 1, n) }
}

proof fn lemma_fc_step(ms: Seq<Move>, n: int, k: int)
    requires
        1 <= n,
    ensures
        fc_total(ms, n, k) == fc_total(ms, n - 1, k) + (if 0 <= ms[n - 1].flags_spec() < k { 1nat } else { 0nat }),
    decreases k,
{
    if k > 0 {
        lemma_fc_step(ms, n, k - 1);
    }
}

proof fn lemma_fc_zero(ms: Seq<Move>, k: int)
    ensures
        fc_total(ms, 0, k) == 0,
    decreases k,
{
    if k > 0 {
        lemma_fc_zero(ms, k - 1);
    }
}

proof fn lemma_fc_all(ms: Seq<Move>, n: int)
    requires
        0 <= n <= ms.len(),
    ensures
        fc_total(ms, n, 16) == n,
    decreases n,
{
    if n == 0 {
        lemma_fc_zero(ms, 16);
    } else {
        lemma_fc_all(ms, n - 1);
        lemma_fc_step(ms, n, 16);
        assert(0 <= ms[n - 1].flags_spec() < 16);
    }
}

proof fn lemma_total_one(v: PosView, k: int)
    ensures
        flags_total(v, 1, k) == fc_total(v.gen_moves(), v.gen_moves().len() as int, k),
    decreases k,
{
    if k > 0 {
        lemma_total_one(v, k - 1);
    }
}

proof fn lemma_total_many(v: PosView, d: nat, k: int)
    requires
        d >= 2,
    ensures
        flags_total(v, d, k) == lfs_total(v, d, v.gen_moves().len(), k),
    decreases k,
{
    if k > 0 {
        lemma_total_many(v, d, k - 1);
    }
}

proof fn lemma_lfs_step(v: PosView, d: nat, n: nat, k: int)
    requires
        d >= 1,
        1 <= n <= v.gen_moves().len(),
    ensures
        lfs_total(v, d, n, k) == lfs_total(v, d, (n - 1) as nat, k)
            + flags_total(v.make_view(v.gen_moves()[n - 1]), (d - 1) as nat, k),
    decreases k,
{
    if k > 0 {
        lemma_lfs_step(v, d, n, k - 1);
    }
}

proof fn lemma_lfs_zero(v: PosView, d: nat, k: int)
    ensures
        lfs_total(v, d, 0, k) == 0,
    decreases k,
{
    if k > 0 {
        lemma_lfs_zero(v, d, k - 1);
    }
}

proof fn lemma_lfs_perft(v: PosView, d: nat, n: nat)
    requires
        d >= 2,
        n <= v.gen_moves().len(),
    ensures
        lfs_total(v, d, n, 16) == perft_sum(v, d, n),
    decreases d, n,
{
    if n == 0 {
        lemma_lfs_zero(v, d, 16);
    } else {
        lemma_lfs_perft(v, d, (n - 1) as nat);
        lemma_lfs_step(v, d, n, 16);
        lemma_move_types_sum(v.make_view(v.gen_moves()[n - 1]), (d - 1) as nat);
    }
}

/// The move-type counts add up to perft: over all flag values, the last
/// moves of the paths of length `d >= 1` number `perft_spec(v, d)`.
pub proof fn lemma_move_types_sum(v: PosView, d: nat)
    requires
        d >= 1,
    ensures
        flags_total(v, d, 16) == perft_spec(v, d),
    decreases d, v.gen_moves().len() + 1,
{
    if d == 1 {
        lemma_total_one(v, 16);
        lemma_fc_all(v.gen_moves(), v.gen_moves().len() as int);
    } else {
        lemma_total_many(v, d, 16);
        lemma_lfs_perft(v, d, v.gen_moves().len());
    }
}

} // verus!
