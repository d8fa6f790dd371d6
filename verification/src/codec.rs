//! The persistence format of one chain.
//!
//! A chain is a byte sequence: the order, the row count, then each row as
//! its context symbols, its successor count, and its successor entries.
//! Multi-byte integers are little-endian; a symbol is a tag byte, a word
//! adding its character count and its characters as code points. The
//! decoder accepts exactly what the encoder emits: decoding an encoding
//! gives back the very rows that went in.

use vstd::prelude::*;

use crate::chain::{Row, RowV, SuccEntry, row_deep, rows_deep, succs_deep};
use crate::token::{Sym, Tok, toks_view};

verus! {

// ---------------------------------------------------------------------------
// Encoding
// ---------------------------------------------------------------------------
pub open spec fn enc_u64(x: u64) -> Seq<u8> {
    seq![
        (x & 0xff) as u8,
        ((x >> 8) & 0xff) as u8,
        ((x >> 16) & 0xff) as u8,
        ((x >> 24) & 0xff) as u8,
        ((x >> 32) & 0xff) as u8,
        ((x >> 40) & 0xff) as u8,
        ((x >> 48) & 0xff) as u8,
        ((x >> 56) & 0xff) as u8,
    ]
}

pub open spec fn enc_u32(x: u32) -> Seq<u8> {
    seq![(x & 0xff) as u8, ((x >> 8) & 0xff) as u8, ((x >> 16) & 0xff) as u8, ((x >> 24)
        & 0xff) as u8]
}

pub open spec fn enc_chars(w: Seq<char>) -> Seq<u8>
    decreases w.len(),
{
    if w.len() == 0 {
        Seq::empty()
    } else {
        enc_chars(w.drop_last()) + enc_u32(w.last() as u32)
    }
}

pub open spec fn enc_sym(s: Sym) -> Seq<u8> {
    match s {
        Sym::Start => seq![0u8],
        Sym::End => seq![1u8],
        Sym::Word(w) => seq![2u8] + enc_u64(w.len() as u64) + enc_chars(w),
    }
}

pub open spec fn enc_ctx(c: Seq<Sym>) -> Seq<u8>
    decreases c.len(),
{
    if c.len() == 0 {
        Seq::empty()
    } else {
        enc_ctx(c.drop_last()) + enc_sym(c.last())
    }
}

pub open spec fn enc_succs(ss: Seq<(Sym, nat)>) -> Seq<u8>
    decreases ss.len(),
{
    if ss.len() == 0 {
        Seq::empty()
    } else {
        enc_succs(ss.drop_last()) + enc_sym(ss.last().0) + enc_u64(ss.last().1 as u64)
    }
}

pub open spec fn enc_row(r: RowV) -> Seq<u8> {
    enc_ctx(r.ctx) + enc_u64(r.succs.len() as u64) + enc_succs(r.succs)
}

pub open spec fn enc_rows(rs: Seq<RowV>) -> Seq<u8>
    decreases rs.len(),
{
    if rs.len() == 0 {
        Seq::empty()
    } else {
        enc_rows(rs.drop_last()) + enc_row(rs.last())
    }
}

/// The whole persisted image of a chain of order `k` with rows `rs`.
pub open spec fn spec_encode(k: nat, rs: Seq<RowV>) -> Seq<u8> {
    enc_u64(k as u64) + enc_u64(rs.len() as u64) + enc_rows(rs)
}

// ---------------------------------------------------------------------------
// Decoding
// ---------------------------------------------------------------------------
pub open spec fn dec_u64(b: Seq<u8>, p: int) -> Option<(u64, int)> {
    if 0 <= p && p + 8 <= b.len() {
        Some(
            (
                (b[p] as u64) | ((b[p + 1] as u64) << 8) | ((b[p + 2] as u64) << 16) | ((b[p
                    + 3] as u64) << 24) | ((b[p + 4] as u64) << 32) | ((b[p + 5] as u64) << 40) | ((
                b[p + 6] as u64) << 48) | ((b[p + 7] as u64) << 56),
                p + 8,
            ),
        )
    } else {
        None
    }
}

pub open spec fn dec_u32(b: Seq<u8>, p: int) -> Option<(u32, int)> {
    if 0 <= p && p + 4 <= b.len() {
        Some(
            (
                (b[p] as u32) | ((b[p + 1] as u32) << 8) | ((b[p + 2] as u32) << 16) | ((b[p
                    + 3] as u32) << 24),
                p + 4,
            ),
        )
    } else {
        None
    }
}

/// The code points that are characters.
pub open spec fn valid_scalar(v: u32) -> bool {
    v < 0xD800 || (0xE000 <= v && v <= 0x10FFFF)
}

pub open spec fn dec_char(b: Seq<u8>, p: int) -> Option<(char, int)> {
    match dec_u32(b, p) {
        None => None,
        Some((v, p2)) => if valid_scalar(v) {
            Some((v as char, p2))
        } else {
            None
        },
    }
}

pub open spec fn dec_chars(b: Seq<u8>, p: int, n: nat, acc: Seq<char>) -> Option<(Seq<char>, int)>
    decreases n,
{
    if n == 0 {
        Some((acc, p))
    } else {
        match dec_char(b, p) {
            None => None,
            Some((c, p2)) => dec_chars(b, p2, (n - 1) as nat, acc.push(c)),
        }
    }
}

pub open spec fn dec_sym(b: Seq<u8>, p: int) -> Option<(Sym, int)> {
    if !(0 <= p && p + 1 <= b.len()) {
        None
    } else if b[p] == 0 {
        Some((Sym::Start, p + 1))
    } else if b[p] == 1 {
        Some((Sym::End, p + 1))
    } else if b[p] == 2 {
        match dec_u64(b, p + 1) {
            None => None,
            Some((n, p2)) => match dec_chars(b, p2, n as nat, Seq::empty()) {
                None => None,
                Some((w, p3)) => Some((Sym::Word(w), p3)),
            },
        }
    } else {
        None
    }
}

pub open spec fn dec_ctx(b: Seq<u8>, p: int, n: nat, acc: Seq<Sym>) -> Option<(Seq<Sym>, int)>
    decreases n,
{
    if n == 0 {
        Some((acc, p))
    } else {
        match dec_sym(b, p) {
            None => None,
            Some((s, p2)) => if s is End {
                None
            } else {
                dec_ctx(b, p2, (n - 1) as nat, acc.push(s))
            },
        }
    }
}

pub open spec fn dec_succs(b: Seq<u8>, p: int, n: nat, acc: Seq<(Sym, nat)>) -> Option<
    (Seq<(Sym, nat)>, int),
>
    decreases n,
{
    if n == 0 {
        Some((acc, p))
    } else {
        match dec_sym(b, p) {
            None => None,
            Some((s, p2)) => if s is Start {
                None
            } else {
                match dec_u64(b, p2) {
                    None => None,
                    Some((c, p3)) => if c == 0 {
                        None
                    } else {
                        dec_succs(b, p3, (n - 1) as nat, acc.push((s, c as nat)))
                    },
                }
            },
        }
    }
}

pub open spec fn dec_row(b: Seq<u8>, p: int, k: nat) -> Option<(RowV, int)> {
    match dec_ctx(b, p, k, Seq::empty()) {
        None => None,
        Some((c, p2)) => match dec_u64(b, p2) {
            None => None,
            Some((m, p3)) => if m == 0 {
                None
            } else {
                match dec_succs(b, p3, m as nat, Seq::empty()) {
                    None => None,
                    Some((ss, p4)) => Some((RowV { ctx: c, succs: ss }, p4)),
                }
            },
        },
    }
}

pub open spec fn dec_rows(b: Seq<u8>, p: int, k: nat, n: nat, acc: Seq<RowV>) -> Option<
    (Seq<RowV>, int),
>
    decreases n,
{
    if n == 0 {
        Some((acc, p))
    } else {
        match dec_row(b, p, k) {
            None => None,
            Some((r, p2)) => dec_rows(b, p2, k, (n - 1) as nat, acc.push(r)),
        }
    }
}

// ---------------------------------------------------------------------------
// The decoder inverts the encoder
// ---------------------------------------------------------------------------
/// What the encoder can write faithfully: every stored length and count
/// fits its field, sentinels sit only where the format allows them, and
/// every successor count is positive.
pub open spec fn encodable_sym(s: Sym) -> bool {
    s matches Sym::Word(w) ==> w.len() <= u64::MAX
}

pub open spec fn encodable_row(r: RowV, k: nat) -> bool {
    &&& r.ctx.len() == k
    &&& forall|i: int|
        0 <= i < r.ctx.len() ==> !((#[trigger] r.ctx[i]) is End) && encodable_sym(r.ctx[i])
    &&& 1 <= r.succs.len() <= u64::MAX
    &&& forall|i: int|
        0 <= i < r.succs.len() ==> !((#[trigger] r.succs[i]).0 is Start) && encodable_sym(
            r.succs[i].0,
        ) && 1 <= r.succs[i].1 <= u64::MAX
}

pub open spec fn encodable(k: nat, rs: Seq<RowV>) -> bool {
    &&& 1 <= k <= u64::MAX
    &&& rs.len() <= u64::MAX
    &&& forall|i: int| 0 <= i < rs.len() ==> encodable_row(#[trigger] rs[i], k)
}

proof fn lemma_u64_bytes(x: u64, b0: u8, b1: u8, b2: u8, b3: u8, b4: u8, b5: u8, b6: u8, b7: u8)
    requires
        b0 == (x & 0xff) as u8,
        b1 == ((x >> 8) & 0xff) as u8,
        b2 == ((x >> 16) & 0xff) as u8,
        b3 == ((x >> 24) & 0xff) as u8,
        b4 == ((x >> 32) & 0xff) as u8,
        b5 == ((x >> 40) & 0xff) as u8,
        b6 == ((x >> 48) & 0xff) as u8,
        b7 == ((x >> 56) & 0xff) as u8,
    ensures
        (b0 as u64) | ((b1 as u64) << 8) | ((b2 as u64) << 16) | ((b3 as u64) << 24) | ((
        b4 as u64) << 32) | ((b5 as u64) << 40) | ((b6 as u64) << 48) | ((b7 as u64) << 56) == x,
{
    assert((b0 as u64) | ((b1 as u64) << 8) | ((b2 as u64) << 16) | ((b3 as u64) << 24) | ((
    b4 as u64) << 32) | ((b5 as u64) << 40) | ((b6 as u64) << 48) | ((b7 as u64) << 56) == x)
        by (bit_vector)
        requires
            b0 == (x & 0xff) as u8,
            b1 == ((x >> 8) & 0xff) as u8,
            b2 == ((x >> 16) & 0xff) as u8,
            b3 == ((x >> 24) & 0xff) as u8,
            b4 == ((x >> 32) & 0xff) as u8,
            b5 == ((x >> 40) & 0xff) as u8,
            b6 == ((x >> 48) & 0xff) as u8,
            b7 == ((x >> 56) & 0xff) as u8,
    ;
}

proof fn lemma_u32_bytes(x: u32, b0: u8, b1: u8, b2: u8, b3: u8)
    requires
        b0 == (x & 0xff) as u8,
        b1 == ((x >> 8) & 0xff) as u8,
        b2 == ((x >> 16) & 0xff) as u8,
        b3 == ((x >> 24) & 0xff) as u8,
    ensures
        (b0 as u32) | ((b1 as u32) << 8) | ((b2 as u32) << 16) | ((b3 as u32) << 24) == x,
{
    assert((b0 as u32) | ((b1 as u32) << 8) | ((b2 as u32) << 16) | ((b3 as u32) << 24) == x)
        by (bit_vector)
        requires
            b0 == (x & 0xff) as u8,
            b1 == ((x >> 8) & 0xff) as u8,
            b2 == ((x >> 16) & 0xff) as u8,
            b3 == ((x >> 24) & 0xff) as u8,
    ;
}

proof fn lemma_dec_u64_enc(b: Seq<u8>, p: int, x: u64)
    requires
        0 <= p,
        p + 8 <= b.len(),
        b.subrange(p, p + 8) == enc_u64(x),
    ensures
        dec_u64(b, p) == Some((x, p + 8)),
{
    let e = enc_u64(x);
    assert forall|i: int| 0 <= i < 8 implies b[p + i] == e[i] by {
        assert(b.subrange(p, p + 8)[i] == b[p + i]);
    }
    lemma_u64_bytes(x, b[p], b[p + 1], b[p + 2], b[p + 3], b[p + 4], b[p + 5], b[p + 6], b[p + 7]);
}

proof fn lemma_dec_u32_enc(b: Seq<u8>, p: int, x: u32)
    requires
        0 <= p,
        p + 4 <= b.len(),
        b.subrange(p, p + 4) == enc_u32(x),
    ensures
        dec_u32(b, p) == Some((x, p + 4)),
{
    let e = enc_u32(x);
    assert forall|i: int| 0 <= i < 4 implies b[p + i] == e[i] by {
        assert(b.subrange(p, p + 4)[i] == b[p + i]);
    }
    lemma_u32_bytes(x, b[p], b[p + 1], b[p + 2], b[p + 3]);
}

proof fn lemma_dec_char_enc(b: Seq<u8>, p: int, c: char)
    requires
        0 <= p,
        p + 4 <= b.len(),
        b.subrange(p, p + 4) == enc_u32(c as u32),
    ensures
        dec_char(b, p) == Some((c, p + 4)),
{
    lemma_dec_u32_enc(b, p, c as u32);
    assert(valid_scalar(c as u32));
    assert((c as u32) as char == c);
}

proof fn lemma_enc_chars_front(w: Seq<char>)
    requires
        w.len() > 0,
    ensures
        enc_chars(w) == enc_u32(w[0] as u32) + enc_chars(w.skip(1)),
    decreases w.len(),
{
    if w.len() == 1 {
        assert(w.drop_last() =~= Seq::<char>::empty());
        assert(w.skip(1) =~= Seq::<char>::empty());
        assert(enc_chars(w) =~= enc_u32(w[0] as u32) + enc_chars(w.skip(1)));
    } else {
        let dl = w.drop_last();
        lemma_enc_chars_front(dl);
        assert(dl[0] == w[0]);
        assert(w.skip(1).drop_last() =~= dl.skip(1));
        assert(w.skip(1).last() == w.last());
        assert(enc_chars(w.skip(1)) == enc_chars(dl.skip(1)) + enc_u32(w.last() as u32));
        assert(enc_chars(w) =~= enc_u32(w[0] as u32) + enc_chars(w.skip(1)));
    }
}

/// Splitting a parsed region: when a stretch of the input equals a
/// concatenation, each part equals its own stretch.
proof fn lemma_split_parse(b: Seq<u8>, p: int, e1: Seq<u8>, e2: Seq<u8>)
    requires
        0 <= p,
        p + e1.len() + e2.len() <= b.len(),
        b.subrange(p, p + e1.len() + e2.len()) == e1 + e2,
    ensures
        b.subrange(p, p + e1.len()) == e1,
        b.subrange(p + e1.len(), p + e1.len() + e2.len()) == e2,
{
    let l1 = e1.len() as int;
    let l2 = e2.len() as int;
    assert forall|i: int| 0 <= i < l1 implies b.subrange(p, p + l1)[i] == e1[i] by {
        assert(b.subrange(p, p + l1 + l2)[i] == b[p + i]);
        assert((e1 + e2)[i] == e1[i]);
        assert(b.subrange(p, p + l1)[i] == b[p + i]);
    }
    assert(b.subrange(p, p + l1) =~= e1);
    assert forall|i: int| 0 <= i < l2 implies b.subrange(p + l1, p + l1 + l2)[i] == e2[i] by {
        assert(b.subrange(p, p + l1 + l2)[l1 + i] == b[p + l1 + i]);
        assert((e1 + e2)[l1 + i] == e2[i]);
        assert(b.subrange(p + l1, p + l1 + l2)[i] == b[p + l1 + i]);
    }
    assert(b.subrange(p + l1, p + l1 + l2) =~= e2);
}

proof fn lemma_dec_chars_enc(b: Seq<u8>, p: int, w: Seq<char>, acc: Seq<char>)
    requires
        0 <= p,
        p + enc_chars(w).len() <= b.len(),
        b.subrange(p, p + enc_chars(w).len()) == enc_chars(w),
    ensures
        dec_chars(b, p, w.len() as nat, acc) == Some((acc + w, p + enc_chars(w).len())),
    decreases w.len(),
{
    if w.len() == 0 {
        assert(acc + w =~= acc);
    } else {
        lemma_enc_chars_front(w);
        let tail = w.skip(1);
        let e1 = enc_u32(w[0] as u32);
        let e2 = enc_chars(tail);
        lemma_split_parse(b, p, e1, e2);
        lemma_dec_char_enc(b, p, w[0]);
        lemma_dec_chars_enc(b, p + 4, tail, acc.push(w[0]));
        assert(acc.push(w[0]) + tail =~= acc + w);
    }
}

proof fn lemma_dec_sym_enc(b: Seq<u8>, p: int, s: Sym)
    requires
        0 <= p,
        encodable_sym(s),
        p + enc_sym(s).len() <= b.len(),
        b.subrange(p, p + enc_sym(s).len()) == enc_sym(s),
    ensures
        dec_sym(b, p) == Some((s, p + enc_sym(s).len())),
{
    match s {
        Sym::Start => {
            assert(b.subrange(p, p + 1)[0] == b[p]);
            assert(b[p] == 0);
        },
        Sym::End => {
            assert(b.subrange(p, p + 1)[0] == b[p]);
            assert(b[p] == 1);
        },
        Sym::Word(w) => {
            let n = w.len() as u64;
            let hd: Seq<u8> = seq![2u8] + enc_u64(n);
            let e2 = enc_chars(w);
            assert(enc_sym(s) == hd + e2);
            lemma_split_parse(b, p, hd, e2);
            lemma_split_parse(b, p, seq![2u8], enc_u64(n));
            assert(b.subrange(p, p + 1)[0] == b[p]);
            assert(b[p] == 2);
            lemma_dec_u64_enc(b, p + 1, n);
            lemma_dec_chars_enc(b, p + 9, w, Seq::empty());
            assert(Seq::<char>::empty() + w =~= w);
            assert(n as nat == w.len());
        },
    }
}

proof fn lemma_enc_ctx_front(c: Seq<Sym>)
    requires
        c.len() > 0,
    ensures
        enc_ctx(c) == enc_sym(c[0]) + enc_ctx(c.skip(1)),
    decreases c.len(),
{
    if c.len() == 1 {
        assert(c.drop_last() =~= Seq::<Sym>::empty());
        assert(c.skip(1) =~= Seq::<Sym>::empty());
        assert(enc_ctx(c) =~= enc_sym(c[0]) + enc_ctx(c.skip(1)));
    } else {
        let dl = c.drop_last();
        lemma_enc_ctx_front(dl);
        assert(dl[0] == c[0]);
        assert(c.skip(1).drop_last() =~= dl.skip(1));
        assert(c.skip(1).last() == c.last());
        assert(enc_ctx(c.skip(1)) == enc_ctx(dl.skip(1)) + enc_sym(c.last()));
        assert(enc_ctx(c) =~= enc_sym(c[0]) + enc_ctx(c.skip(1)));
    }
}

proof fn lemma_dec_ctx_enc(b: Seq<u8>, p: int, c: Seq<Sym>, acc: Seq<Sym>)
    requires
        0 <= p,
        forall|i: int| 0 <= i < c.len() ==> !((#[trigger] c[i]) is End) && encodable_sym(c[i]),
        p + enc_ctx(c).len() <= b.len(),
        b.subrange(p, p + enc_ctx(c).len()) == enc_ctx(c),
    ensures
        dec_ctx(b, p, c.len() as nat, acc) == Some((acc + c, p + enc_ctx(c).len())),
    decreases c.len(),
{
    if c.len() == 0 {
        assert(acc + c =~= acc);
    } else {
        lemma_enc_ctx_front(c);
        let tail = c.skip(1);
        let ls = enc_sym(c[0]).len() as int;
        lemma_split_parse(b, p, enc_sym(c[0]), enc_ctx(tail));
        lemma_dec_sym_enc(b, p, c[0]);
        lemma_dec_ctx_enc(b, p + ls, tail, acc.push(c[0]));
        assert(acc.push(c[0]) + tail =~= acc + c);
    }
}

proof fn lemma_enc_succs_front(ss: Seq<(Sym, nat)>)
    requires
        ss.len() > 0,
    ensures
        enc_succs(ss) == enc_sym(ss[0].0) + enc_u64(ss[0].1 as u64) + enc_succs(ss.skip(1)),
    decreases ss.len(),
{
    if ss.len() == 1 {
        assert(ss.drop_last() =~= Seq::<(Sym, nat)>::empty());
        assert(ss.skip(1) =~= Seq::<(Sym, nat)>::empty());
        assert(enc_succs(ss) =~= enc_sym(ss[0].0) + enc_u64(ss[0].1 as u64) + enc_succs(
            ss.skip(1),
        ));
    } else {
        let dl = ss.drop_last();
        lemma_enc_succs_front(dl);
        assert(dl[0] == ss[0]);
        assert(ss.skip(1).drop_last() =~= dl.skip(1));
        assert(ss.skip(1).last() == ss.last());
        assert(enc_succs(ss.skip(1)) == enc_succs(dl.skip(1)) + enc_sym(ss.last().0) + enc_u64(
            ss.last().1 as u64,
        ));
        assert(enc_succs(ss) =~= enc_sym(ss[0].0) + enc_u64(ss[0].1 as u64) + enc_succs(
            ss.skip(1),
        ));
    }
}

proof fn lemma_dec_succs_enc(b: Seq<u8>, p: int, ss: Seq<(Sym, nat)>, acc: Seq<(Sym, nat)>)
    requires
        0 <= p,
        forall|i: int|
            0 <= i < ss.len() ==> !((#[trigger] ss[i]).0 is Start) && encodable_sym(ss[i].0) && 1
                <= ss[i].1 <= u64::MAX,
        p + enc_succs(ss).len() <= b.len(),
        b.subrange(p, p + enc_succs(ss).len()) == enc_succs(ss),
    ensures
        dec_succs(b, p, ss.len() as nat, acc) == Some((acc + ss, p + enc_succs(ss).len())),
    decreases ss.len(),
{
    if ss.len() == 0 {
        assert(acc + ss =~= acc);
    } else {
        lemma_enc_succs_front(ss);
        let tail = ss.skip(1);
        let cx = ss[0].1 as u64;
        let hd = enc_sym(ss[0].0) + enc_u64(cx);
        let ls = enc_sym(ss[0].0).len() as int;
        assert(enc_succs(ss) == hd + enc_succs(tail));
        lemma_split_parse(b, p, hd, enc_succs(tail));
        lemma_split_parse(b, p, enc_sym(ss[0].0), enc_u64(cx));
        lemma_dec_sym_enc(b, p, ss[0].0);
        lemma_dec_u64_enc(b, p + ls, cx);
        assert(cx != 0);
        assert(cx as nat == ss[0].1);
        lemma_dec_succs_enc(b, p + ls + 8, tail, acc.push(ss[0]));
        assert(acc.push(ss[0]) + tail =~= acc + ss);
    }
}

proof fn lemma_dec_row_enc(b: Seq<u8>, p: int, r: RowV, k: nat)
    requires
        0 <= p,
        encodable_row(r, k),
        p + enc_row(r).len() <= b.len(),
        b.subrange(p, p + enc_row(r).len()) == enc_row(r),
    ensures
        dec_row(b, p, k) == Some((r, p + enc_row(r).len())),
{
    let lc = enc_ctx(r.ctx).len() as int;
    let m = r.succs.len() as u64;
    let hd = enc_ctx(r.ctx) + enc_u64(m);
    assert(enc_row(r) == hd + enc_succs(r.succs));
    lemma_split_parse(b, p, hd, enc_succs(r.succs));
    lemma_split_parse(b, p, enc_ctx(r.ctx), enc_u64(m));
    lemma_dec_ctx_enc(b, p, r.ctx, Seq::empty());
    assert(Seq::<Sym>::empty() + r.ctx =~= r.ctx);
    lemma_dec_u64_enc(b, p + lc, m);
    assert(m != 0);
    assert(m as nat == r.succs.len());
    lemma_dec_succs_enc(b, p + lc + 8, r.succs, Seq::empty());
    assert(Seq::<(Sym, nat)>::empty() + r.succs =~= r.succs);
}

proof fn lemma_enc_rows_front(rs: Seq<RowV>)
    requires
        rs.len() > 0,
    ensures
        enc_rows(rs) == enc_row(rs[0]) + enc_rows(rs.skip(1)),
    decreases rs.len(),
{
    if rs.len() == 1 {
        assert(rs.drop_last() =~= Seq::<RowV>::empty());
        assert(rs.skip(1) =~= Seq::<RowV>::empty());
        assert(enc_rows(rs) =~= enc_row(rs[0]) + enc_rows(rs.skip(1)));
    } else {
        let dl = rs.drop_last();
        lemma_enc_rows_front(dl);
        assert(dl[0] == rs[0]);
        assert(rs.skip(1).drop_last() =~= dl.skip(1));
        assert(rs.skip(1).last() == rs.last());
        assert(enc_rows(rs.skip(1)) == enc_rows(dl.skip(1)) + enc_row(rs.last()));
        assert(enc_rows(rs) =~= enc_row(rs[0]) + enc_rows(rs.skip(1)));
    }
}

proof fn lemma_dec_rows_enc(b: Seq<u8>, p: int, rs: Seq<RowV>, k: nat, acc: Seq<RowV>)
    requires
        0 <= p,
        forall|i: int| 0 <= i < rs.len() ==> encodable_row(#[trigger] rs[i], k),
        p + enc_rows(rs).len() <= b.len(),
        b.subrange(p, p + enc_rows(rs).len()) == enc_rows(rs),
    ensures
        dec_rows(b, p, k, rs.len() as nat, acc) == Some((acc + rs, p + enc_rows(rs).len())),
    decreases rs.len(),
{
    if rs.len() == 0 {
        assert(acc + rs =~= acc);
    } else {
        lemma_enc_rows_front(rs);
        let tail = rs.skip(1);
        let lr = enc_row(rs[0]).len() as int;
        lemma_split_parse(b, p, enc_row(rs[0]), enc_rows(tail));
        lemma_dec_row_enc(b, p, rs[0], k);
        lemma_dec_rows_enc(b, p + lr, tail, k, acc.push(rs[0]));
        assert(acc.push(rs[0]) + tail =~= acc + rs);
    }
}

/// Decoding an encoded chain gives back exactly the order and rows that
/// were encoded.
pub proof fn lemma_codec_roundtrip(k: nat, rs: Seq<RowV>)
    requires
        encodable(k, rs),
    ensures
        spec_decode(spec_encode(k, rs)) == Some((k, rs)),
{
    let b = spec_encode(k, rs);
    let ku = k as u64;
    let nu = rs.len() as u64;
    let lr = enc_rows(rs).len() as int;
    let hd = enc_u64(ku) + enc_u64(nu);
    assert(b.len() == 16 + lr);
    assert(b.subrange(0, 16 + lr) =~= b);
    assert(b == hd + enc_rows(rs));
    lemma_split_parse(b, 0, hd, enc_rows(rs));
    lemma_split_parse(b, 0, enc_u64(ku), enc_u64(nu));
    lemma_dec_u64_enc(b, 0, ku);
    assert(ku != 0);
    lemma_dec_u64_enc(b, 8, nu);
    lemma_dec_rows_enc(b, 16, rs, k, Seq::empty());
    assert(Seq::<RowV>::empty() + rs =~= rs);
    assert(ku as nat == k);
    assert(nu as nat == rs.len());
}

/// What a persisted image means, when it is understood at all: the order
/// and the rows, with nothing left over.
pub open spec fn spec_decode(b: Seq<u8>) -> Option<(nat, Seq<RowV>)> {
    match dec_u64(b, 0) {
        None => None,
        Some((k, p1)) => if k == 0 {
            None
        } else {
            match dec_u64(b, p1) {
                None => None,
                Some((n, p2)) => match dec_rows(b, p2, k as nat, n as nat, Seq::empty()) {
                    None => None,
                    Some((rs, p3)) => if p3 == b.len() {
                        Some((k as nat, rs))
                    } else {
                        None
                    },
                },
            }
        },
    }
}

// ---------------------------------------------------------------------------
// The executable encoder
// ---------------------------------------------------------------------------
#[verifier::loop_isolation(false)]
fn write_u64(out: &mut Vec<u8>, x: u64)
    ensures
        final(out)@ == old(out)@ + enc_u64(x),
{
    out.push((x & 0xff) as u8);
    out.push(((x >> 8) & 0xff) as u8);
    out.push(((x >> 16) & 0xff) as u8);
    out.push(((x >> 24) & 0xff) as u8);
    out.push(((x >> 32) & 0xff) as u8);
    out.push(((x >> 40) & 0xff) as u8);
    out.push(((x >> 48) & 0xff) as u8);
    out.push(((x >> 56) & 0xff) as u8);
    proof {
        assert(out@ =~= old(out)@ + enc_u64(x));
    }
}

#[verifier::loop_isolation(false)]
fn write_u32(out: &mut Vec<u8>, x: u32)
    ensures
        final(out)@ == old(out)@ + enc_u32(x),
{
    out.push((x & 0xff) as u8);
    out.push(((x >> 8) & 0xff) as u8);
    out.push(((x >> 16) & 0xff) as u8);
    out.push(((x >> 24) & 0xff) as u8);
    proof {
        assert(out@ =~= old(out)@ + enc_u32(x));
    }
}

#[verifier::loop_isolation(false)]
fn write_word(out: &mut Vec<u8>, s: &String)
    ensures
        final(out)@ == old(out)@ + enc_chars(s@),
{
    let n = s.as_str().unicode_len();
    let mut i: usize = 0;
    while i < n
        invariant
            i <= n,
            n == s@.len(),
            out@ == old(out)@ + enc_chars(s@.take(i as int)),
        decreases n - i,
    {
        let c = s.as_str().get_char(i);
        write_u32(out, c as u32);
        proof {
            let pre = s@.take(i as int);
            let cur = s@.take(i + 1 as int);
            assert(cur.drop_last() =~= pre);
            assert(cur.last() == s@[i as int]);
            assert(out@ =~= old(out)@ + enc_chars(cur));
        }
        i = i + 1;
    }
    proof {
        assert(s@.take(n as int) =~= s@);
    }
}

#[verifier::loop_isolation(false)]
fn write_sym(out: &mut Vec<u8>, t: &Tok)
    ensures
        final(out)@ == old(out)@ + enc_sym(t@),
{
    match t {
        Tok::Start => {
            out.push(0u8);
            proof {
                assert(out@ =~= old(out)@ + enc_sym(t@));
            }
        },
        Tok::End => {
            out.push(1u8);
            proof {
                assert(out@ =~= old(out)@ + enc_sym(t@));
            }
        },
        Tok::Word(s) => {
            out.push(2u8);
            let n = s.as_str().unicode_len();
            write_u64(out, n as u64);
            write_word(out, s);
            proof {
                assert((n as u64) == (s@.len() as u64));
                assert(out@ =~= old(out)@ + enc_sym(t@));
            }
        },
    }
}

#[verifier::loop_isolation(false)]
fn write_row(out: &mut Vec<u8>, row: &Row)
    ensures
        final(out)@ == old(out)@ + enc_row(row_deep(*row)),
{
    let ghost cv = toks_view(row.ctx@);
    let k = row.ctx.len();
    let mut i: usize = 0;
    while i < k
        invariant
            i <= k,
            k == row.ctx@.len(),
            cv == toks_view(row.ctx@),
            out@ == old(out)@ + enc_ctx(cv.take(i as int)),
        decreases k - i,
    {
        write_sym(out, &row.ctx[i]);
        proof {
            let pre = cv.take(i as int);
            let cur = cv.take(i + 1 as int);
            assert(cur.drop_last() =~= pre);
            assert(cur.last() == cv[i as int]);
            assert(out@ =~= old(out)@ + enc_ctx(cur));
        }
        i = i + 1;
    }
    proof {
        assert(cv.take(k as int) =~= cv);
    }
    let m = row.succs.len();
    write_u64(out, m as u64);
    let ghost sv = succs_deep(row.succs@);
    let ghost base = out@;
    let mut j: usize = 0;
    while j < m
        invariant
            j <= m,
            m == row.succs@.len(),
            sv == succs_deep(row.succs@),
            out@ == base + enc_succs(sv.take(j as int)),
        decreases m - j,
    {
        write_sym(out, &row.succs[j].tok);
        write_u64(out, row.succs[j].count);
        proof {
            let pre = sv.take(j as int);
            let cur = sv.take(j + 1 as int);
            assert(cur.drop_last() =~= pre);
            assert(cur.last() == sv[j as int]);
            assert(sv[j as int].0 == row.succs@[j as int].tok@);
            assert((sv[j as int].1 as u64) == row.succs@[j as int].count);
            assert(out@ =~= base + enc_succs(cur));
        }
        j = j + 1;
    }
    proof {
        assert(sv.take(m as int) =~= sv);
        assert((sv.len() as u64) == (m as u64));
        assert(out@ =~= old(out)@ + enc_row(row_deep(*row)));
    }
}

/// The persisted image of a chain of order `k` with the given rows.
#[verifier::loop_isolation(false)]
pub(crate) fn encode_chain_bytes(k: u64, rows: &Vec<Row>) -> (r: Vec<u8>)
    requires
        k >= 1,
    ensures
        r@ == spec_encode(k as nat, rows_deep(rows@)),
{
    let ghost rsd = rows_deep(rows@);
    let mut out: Vec<u8> = Vec::new();
    write_u64(&mut out, k);
    write_u64(&mut out, rows.len() as u64);
    let ghost base = out@;
    proof {
        assert(base =~= enc_u64(k) + enc_u64(rows.len() as u64));
    }
    let n = rows.len();
    let mut i: usize = 0;
    while i < n
        invariant
            i <= n,
            n == rows@.len(),
            rsd == rows_deep(rows@),
            out@ == base + enc_rows(rsd.take(i as int)),
        decreases n - i,
    {
        write_row(&mut out, &rows[i]);
        proof {
            let pre = rsd.take(i as int);
            let cur = rsd.take(i + 1 as int);
            assert(cur.drop_last() =~= pre);
            assert(cur.last() == rsd[i as int]);
            assert(rsd[i as int] == row_deep(rows@[i as int]));
            assert(out@ =~= base + enc_rows(cur));
        }
        i = i + 1;
    }
    proof {
        assert(rsd.take(n as int) =~= rsd);
        assert((rsd.len() as u64) == (n as u64));
        assert(out@ =~= spec_encode(k as nat, rsd));
    }
    out
}

// ---------------------------------------------------------------------------
// The executable decoder
// ---------------------------------------------------------------------------
/// Relies on char::from_u32: `Some` exactly for the Unicode scalar values,
/// and the character returned has the given code point.
#[verifier::external_body]
fn char_from_u32(v: u32) -> (r: Option<char>)
    ensures
        r is Some <==> valid_scalar(v),
        r matches Some(c) ==> c as u32 == v,
{
    char::from_u32(v)
}

/// Relies on String::push, which appends the character at the end.
#[verifier::external_body]
fn push_char(s: &mut String, c: char)
    ensures
        final(s)@ == old(s)@.push(c),
{
    s.push(c);
}

#[verifier::loop_isolation(false)]
fn read_u64(b: &Vec<u8>, p: usize) -> (r: Option<(u64, usize)>)
    ensures
        match r {
            Some((x, q)) => dec_u64(b@, p as int) == Some((x, q as int)),
            None => dec_u64(b@, p as int) is None,
        },
{
    if b.len() >= 8 && p <= b.len() - 8 {
        let x = (b[p] as u64) | ((b[p + 1] as u64) << 8u64) | ((b[p + 2] as u64) << 16u64) | ((b[p
            + 3] as u64) << 24u64) | ((b[p + 4] as u64) << 32u64) | ((b[p + 5] as u64) << 40u64)
            | ((b[p + 6] as u64) << 48u64) | ((b[p + 7] as u64) << 56u64);
        Some((x, p + 8))
    } else {
        None
    }
}

#[verifier::loop_isolation(false)]
fn read_u32(b: &Vec<u8>, p: usize) -> (r: Option<(u32, usize)>)
    ensures
        match r {
            Some((x, q)) => dec_u32(b@, p as int) == Some((x, q as int)),
            None => dec_u32(b@, p as int) is None,
        },
{
    if b.len() >= 4 && p <= b.len() - 4 {
        let x = (b[p] as u32) | ((b[p + 1] as u32) << 8u32) | ((b[p + 2] as u32) << 16u32) | ((b[p
            + 3] as u32) << 24u32);
        Some((x, p + 4))
    } else {
        None
    }
}

fn read_char(b: &Vec<u8>, p: usize) -> (r: Option<(char, usize)>)
    ensures
        match r {
            Some((c, q)) => dec_char(b@, p as int) == Some((c, q as int)),
            None => dec_char(b@, p as int) is None,
        },
{
    match read_u32(b, p) {
        None => None,
        Some((v, q)) => match char_from_u32(v) {
            Some(c) => {
                proof {
                    assert(valid_scalar(v));
                    vstd::utf8::char_u32_cast(c, v);
                    assert((v as char) == c);
                }
                Some((c, q))
            },
            None => None,
        },
    }
}

#[verifier::loop_isolation(false)]
fn read_word(b: &Vec<u8>, p: usize, n: u64) -> (r: Option<(String, usize)>)
    ensures
        match r {
            Some((s, q)) => dec_chars(b@, p as int, n as nat, Seq::empty()) == Some(
                (s@, q as int),
            ),
            None => dec_chars(b@, p as int, n as nat, Seq::empty()) is None,
        },
{
    let mut s = String::new();
    let mut pc: usize = p;
    let mut i: u64 = 0;
    while i < n
        invariant
            i <= n,
            dec_chars(b@, p as int, n as nat, Seq::empty()) == dec_chars(
                b@,
                pc as int,
                (n - i) as nat,
                s@,
            ),
        decreases n - i,
    {
        match read_char(b, pc) {
            None => {
                return None;
            },
            Some((c, q)) => {
                push_char(&mut s, c);
                pc = q;
                i = i + 1;
            },
        }
    }
    Some((s, pc))
}

#[verifier::loop_isolation(false)]
fn read_sym(b: &Vec<u8>, p: usize) -> (r: Option<(Tok, usize)>)
    ensures
        match r {
            Some((t, q)) => dec_sym(b@, p as int) == Some((t@, q as int)),
            None => dec_sym(b@, p as int) is None,
        },
{
    if p < b.len() {
        let tag = b[p];
        if tag == 0 {
            Some((Tok::Start, p + 1))
        } else if tag == 1 {
            Some((Tok::End, p + 1))
        } else if tag == 2 {
            match read_u64(b, p + 1) {
                None => None,
                Some((n, p2)) => match read_word(b, p2, n) {
                    None => None,
                    Some((s, p3)) => Some((Tok::Word(s), p3)),
                },
            }
        } else {
            None
        }
    } else {
        None
    }
}

#[verifier::loop_isolation(false)]
fn read_ctx(b: &Vec<u8>, p: usize, k: usize) -> (r: Option<(Vec<Tok>, usize)>)
    ensures
        match r {
            Some((c, q)) => dec_ctx(b@, p as int, k as nat, Seq::empty()) == Some(
                (toks_view(c@), q as int),
            ) && c@.len() == k,
            None => dec_ctx(b@, p as int, k as nat, Seq::empty()) is None,
        },
{
    let mut acc: Vec<Tok> = Vec::new();
    let mut pc: usize = p;
    let mut i: usize = 0;
    proof {
        assert(toks_view(acc@) =~= Seq::<Sym>::empty());
    }
    while i < k
        invariant
            i <= k,
            acc@.len() == i,
            dec_ctx(b@, p as int, k as nat, Seq::empty()) == dec_ctx(
                b@,
                pc as int,
                (k - i) as nat,
                toks_view(acc@),
            ),
        decreases k - i,
    {
        match read_sym(b, pc) {
            None => {
                return None;
            },
            Some((t, q)) => {
                match &t {
                    Tok::End => {
                        return None;
                    },
                    _ => {},
                }
                let ghost a0 = toks_view(acc@);
                acc.push(t);
                proof {
                    assert(toks_view(acc@) =~= a0.push(acc@.last()@));
                }
                pc = q;
                i = i + 1;
            },
        }
    }
    Some((acc, pc))
}

#[verifier::loop_isolation(false)]
fn read_succs(b: &Vec<u8>, p: usize, m: u64) -> (r: Option<(Vec<SuccEntry>, usize)>)
    ensures
        match r {
            Some((ss, q)) => dec_succs(b@, p as int, m as nat, Seq::empty()) == Some(
                (succs_deep(ss@), q as int),
            ) && ss@.len() == m,
            None => dec_succs(b@, p as int, m as nat, Seq::empty()) is None,
        },
{
    let mut acc: Vec<SuccEntry> = Vec::new();
    let mut pc: usize = p;
    let mut i: u64 = 0;
    proof {
        assert(succs_deep(acc@) =~= Seq::<(Sym, nat)>::empty());
    }
    while i < m
        invariant
            i <= m,
            acc@.len() == i,
            dec_succs(b@, p as int, m as nat, Seq::empty()) == dec_succs(
                b@,
                pc as int,
                (m - i) as nat,
                succs_deep(acc@),
            ),
        decreases m - i,
    {
        match read_sym(b, pc) {
            None => {
                return None;
            },
            Some((t, q)) => {
                match &t {
                    Tok::Start => {
                        return None;
                    },
                    _ => {},
                }
                match read_u64(b, q) {
                    None => {
                        return None;
                    },
                    Some((c, q2)) => {
                        if c == 0 {
                            return None;
                        }
                        let ghost a0 = succs_deep(acc@);
                        acc.push(SuccEntry { tok: t, count: c });
                        proof {
                            let e = acc@.last();
                            assert(succs_deep(acc@) =~= a0.push((e.tok@, e.count as nat)));
                        }
                        pc = q2;
                        i = i + 1;
                    },
                }
            },
        }
    }
    Some((acc, pc))
}

#[verifier::loop_isolation(false)]
fn read_row(b: &Vec<u8>, p: usize, k: usize) -> (r: Option<(Row, usize)>)
    ensures
        match r {
            Some((row, q)) => dec_row(b@, p as int, k as nat) == Some((row_deep(row), q as int)),
            None => dec_row(b@, p as int, k as nat) is None,
        },
{
    match read_ctx(b, p, k) {
        None => None,
        Some((ctx, p2)) => match read_u64(b, p2) {
            None => None,
            Some((m, p3)) => {
                if m == 0 {
                    return None;
                }
                match read_succs(b, p3, m) {
                    None => None,
                    Some((succs, p4)) => {
                        let row = Row { ctx, succs };
                        proof {
                            assert(row_deep(row) == RowV {
                                ctx: toks_view(row.ctx@),
                                succs: succs_deep(row.succs@),
                            });
                        }
                        Some((row, p4))
                    },
                }
            },
        },
    }
}

/// Reads back a persisted chain image: the order and the rows, exactly as
/// `spec_decode` understands the bytes, refused when the order cannot be
/// represented.
#[verifier::loop_isolation(false)]
pub(crate) fn decode_chain_bytes(b: &Vec<u8>) -> (r: Option<(usize, Vec<Row>)>)
    ensures
        match r {
            Some((k, rows)) => spec_decode(b@) == Some((k as nat, rows_deep(rows@))) && k >= 1,
            None => match spec_decode(b@) {
                Some((k2, rs2)) => k2 > usize::MAX,
                None => true,
            },
        },
{
    match read_u64(b, 0) {
        None => None,
        Some((ku, p1)) => {
            if ku == 0 {
                return None;
            }
            if ku > usize::MAX as u64 {
                return None;
            }
            let k = ku as usize;
            match read_u64(b, p1) {
                None => None,
                Some((n, p2)) => {
                    let ghost acc0 = Seq::<RowV>::empty();
                    let mut rows: Vec<Row> = Vec::new();
                    let mut pc: usize = p2;
                    let mut i: u64 = 0;
                    proof {
                        assert(rows_deep(rows@) =~= acc0);
                    }
                    while i < n
                        invariant
                            i <= n,
                            k == ku,
                            ku != 0,
                            dec_u64(b@, 0) == Some((ku, p1 as int)),
                            dec_u64(b@, p1 as int) == Some((n, p2 as int)),
                            dec_rows(b@, p2 as int, ku as nat, n as nat, Seq::empty())
                                == dec_rows(
                                b@,
                                pc as int,
                                ku as nat,
                                (n - i) as nat,
                                rows_deep(rows@),
                            ),
                        decreases n - i,
                    {
                        match read_row(b, pc, k) {
                            None => {
                                return None;
                            },
                            Some((row, q)) => {
                                let ghost r0 = rows_deep(rows@);
                                rows.push(row);
                                proof {
                                    assert(rows_deep(rows@) =~= r0.push(
                                        row_deep(rows@.last()),
                                    ));
                                }
                                pc = q;
                                i = i + 1;
                            },
                        }
                    }
                    if pc == b.len() {
                        Some((k, rows))
                    } else {
                        None
                    }
                },
            }
        },
    }
}

} // verus!
