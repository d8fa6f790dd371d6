//! Laws of the model, stated and proved over the abstract state.
//!
//! Feeding is count-additive: training on a text raises each touched
//! transition count by exactly the number of times that transition occurs
//! in one pass over the text, so feeding the same text twice adds twice
//! that number. And every context reachable from the start context keeps a
//! recorded successor: feeding preserves the closure of the table.

use vstd::prelude::*;

use crate::chain::{
    ChainV, TableV, bump, count_of, feed_windows, spec_feed, start_ctx, syms_of,
};
use crate::token::Sym;

verus! {

/// How often the transition context `c` to successor `s` occurs among the
/// windows of `syms` from position `i` on.
pub open spec fn occ_from(syms: Seq<Sym>, k: nat, c: Seq<Sym>, s: Sym, i: nat) -> nat
    decreases syms.len() - i - k,
{
    if i + k >= syms.len() {
        0
    } else {
        (if syms.subrange(i as int, (i + k) as int) == c && syms[(i + k) as int] == s {
            1nat
        } else {
            0nat
        }) + occ_from(syms, k, c, s, (i + 1) as nat)
    }
}

/// How often one pass of feeding the words `ws` into an order-`k` model
/// observes successor `s` after context `c`.
pub open spec fn occurrences(ws: Seq<Seq<char>>, k: nat, c: Seq<Sym>, s: Sym) -> nat {
    if ws.len() == 0 {
        0
    } else {
        occ_from(syms_of(ws, k), k, c, s, 0)
    }
}

proof fn lemma_bump_count(t: TableV, w: Seq<Sym>, x: Sym, c: Seq<Sym>, s: Sym)
    requires
        w == c && x == s ==> count_of(t, c, s) < u64::MAX,
    ensures
        count_of(bump(t, w, x), c, s) == count_of(t, c, s) + (if w == c && x == s {
            1nat
        } else {
            0nat
        }),
{
    if w == c {
        if x == s {
        } else {
            assert(bump(t, w, x)[c].contains_key(s) == (if t.contains_key(c) {
                t[c].contains_key(s)
            } else {
                false
            }));
        }
    }
}

proof fn lemma_feed_windows_count(
    t: TableV,
    syms: Seq<Sym>,
    k: nat,
    i: nat,
    c: Seq<Sym>,
    s: Sym,
)
    requires
        count_of(t, c, s) + occ_from(syms, k, c, s, i) <= u64::MAX,
    ensures
        count_of(feed_windows(t, syms, k, i), c, s) == count_of(t, c, s) + occ_from(
            syms,
            k,
            c,
            s,
            i,
        ),
    decreases syms.len() - i - k,
{
    if i + k < syms.len() {
        let w = syms.subrange(i as int, (i + k) as int);
        let x = syms[(i + k) as int];
        lemma_bump_count(t, w, x, c, s);
        lemma_feed_windows_count(bump(t, w, x), syms, k, (i + 1) as nat, c, s);
    }
}

/// Feeding is count-additive: one pass over `ws` raises the count of each
/// transition by exactly its number of occurrences in that pass, and a
/// second pass of the same text adds the same number again. The one
/// proviso is machine-forced: the counts involved must not reach the
/// saturation point of the count field.
pub proof fn lemma_feed_count_additive(v: ChainV, ws: Seq<Seq<char>>, c: Seq<Sym>, s: Sym)
    requires
        count_of(v.table, c, s) + 2 * occurrences(ws, v.k, c, s) <= u64::MAX,
    ensures
        count_of(spec_feed(v, ws).table, c, s) == count_of(v.table, c, s) + occurrences(
            ws,
            v.k,
            c,
            s,
        ),
        count_of(spec_feed(spec_feed(v, ws), ws).table, c, s) == count_of(v.table, c, s) + 2
            * occurrences(ws, v.k, c, s),
{
    if ws.len() == 0 {
    } else {
        let syms = syms_of(ws, v.k);
        lemma_feed_windows_count(v.table, syms, v.k, 0, c, s);
        let v1 = spec_feed(v, ws);
        assert(v1.k == v.k);
        lemma_feed_windows_count(v1.table, syms, v.k, 0, c, s);
    }
}

/// The closure invariant of a model: whenever a word is a recorded
/// successor of some context, the context reached by emitting that word is
/// itself recorded. Together with the start context this means generation
/// never runs into an unknown context before the end sentinel.
pub open spec fn shift_ctx(c: Seq<Sym>, s: Sym) -> Seq<Sym> {
    c.skip(1).push(s)
}

pub open spec fn closed_model(v: ChainV) -> bool {
    forall|c: Seq<Sym>, s: Sym|
        v.table.contains_key(c) && #[trigger] v.table[c].contains_key(s) && s is Word
            ==> v.table.contains_key(shift_ctx(c, s))
}

proof fn lemma_feed_windows_dom_mono(t: TableV, syms: Seq<Sym>, k: nat, i: nat, c: Seq<Sym>)
    requires
        t.contains_key(c),
    ensures
        feed_windows(t, syms, k, i).contains_key(c),
    decreases syms.len() - i - k,
{
    if i + k < syms.len() {
        let w = syms.subrange(i as int, (i + k) as int);
        let x = syms[(i + k) as int];
        lemma_feed_windows_dom_mono(bump(t, w, x), syms, k, (i + 1) as nat, c);
    }
}

proof fn lemma_feed_windows_has_window(t: TableV, syms: Seq<Sym>, k: nat, i: nat, j: nat)
    requires
        i <= j,
        j + k < syms.len(),
    ensures
        feed_windows(t, syms, k, i).contains_key(syms.subrange(j as int, (j + k) as int)),
    decreases syms.len() - i - k,
{
    let w = syms.subrange(i as int, (i + k) as int);
    let x = syms[(i + k) as int];
    if i == j {
        lemma_feed_windows_dom_mono(bump(t, w, x), syms, k, (i + 1) as nat, w);
    } else {
        lemma_feed_windows_has_window(bump(t, w, x), syms, k, (i + 1) as nat, j);
    }
}

proof fn lemma_feed_windows_content(t: TableV, syms: Seq<Sym>, k: nat, i: nat, c: Seq<Sym>, s: Sym)
    requires
        feed_windows(t, syms, k, i).contains_key(c),
        feed_windows(t, syms, k, i)[c].contains_key(s),
    ensures
        (t.contains_key(c) && t[c].contains_key(s)) || exists|j: nat|
            i <= j && j + k < syms.len() && #[trigger] syms.subrange(j as int, (j + k) as int)
                == c && syms[(j + k) as int] == s,
    decreases syms.len() - i - k,
{
    if i + k >= syms.len() {
    } else {
        let w = syms.subrange(i as int, (i + k) as int);
        let x = syms[(i + k) as int];
        lemma_feed_windows_content(bump(t, w, x), syms, k, (i + 1) as nat, c, s);
        if bump(t, w, x).contains_key(c) && bump(t, w, x)[c].contains_key(s) && !(t.contains_key(c)
            && t[c].contains_key(s)) {
            assert(w == c && x == s);
            assert(syms.subrange(i as int, (i + k) as int) == c && syms[(i + k) as int] == s);
        }
    }
}

/// Feeding preserves the closure invariant; an untrained model is closed
/// vacuously, so every model built by feeding alone is closed.
pub proof fn lemma_feed_preserves_closed(v: ChainV, ws: Seq<Seq<char>>)
    requires
        v.k >= 1,
        closed_model(v),
    ensures
        closed_model(spec_feed(v, ws)),
{
    if ws.len() == 0 {
        return;
    }
    let k = v.k;
    let n = ws.len();
    let syms = syms_of(ws, k);
    let m = ws.map_values(|w: Seq<char>| Sym::Word(w));
    assert(syms.len() == k + n + 1);
    let fv = spec_feed(v, ws);
    assert(fv.table == feed_windows(v.table, syms, k, 0));
    assert forall|c: Seq<Sym>, s: Sym|
        fv.table.contains_key(c) && #[trigger] fv.table[c].contains_key(s) && s
            is Word implies fv.table.contains_key(shift_ctx(c, s)) by {
        lemma_feed_windows_content(v.table, syms, k, 0, c, s);
        if v.table.contains_key(c) && v.table[c].contains_key(s) {
            assert(v.table.contains_key(shift_ctx(c, s)));
            lemma_feed_windows_dom_mono(v.table, syms, k, 0, shift_ctx(c, s));
        } else {
            let j = choose|j: nat|
                0 <= j && j + k < syms.len() && #[trigger] syms.subrange(
                    j as int,
                    (j + k) as int,
                ) == c && syms[(j + k) as int] == s;
            // The successor is a word, so this window is not the last one,
            // and the next window is exactly the shifted context.
            assert(syms[(j + k) as int] == (start_ctx(k) + m + seq![Sym::End])[(j + k) as int]);
            assert(j < n);
            lemma_feed_windows_has_window(v.table, syms, k, 0, (j + 1) as nat);
            assert(c.len() == k);
            assert(shift_ctx(c, s).len() == k);
            assert forall|p: int| 0 <= p < k implies syms.subrange(
                (j + 1) as int,
                (j + 1 + k) as int,
            )[p] == shift_ctx(c, s)[p] by {
                assert(syms.subrange((j + 1) as int, (j + 1 + k) as int)[p] == syms[j + 1 + p]);
                if p < k - 1 {
                    assert(shift_ctx(c, s)[p] == c.skip(1)[p]);
                    assert(c.skip(1)[p] == c[p + 1]);
                    assert(c[p + 1] == syms.subrange(j as int, (j + k) as int)[p + 1]);
                } else {
                    assert(shift_ctx(c, s)[p] == s);
                }
            }
            assert(syms.subrange((j + 1) as int, (j + 1 + k) as int) =~= shift_ctx(c, s));
        }
    }
}

/// The base case of the invariant: an untrained model is closed.
pub proof fn lemma_empty_model_closed(v: ChainV)
    requires
        v.table =~= Map::<Seq<Sym>, Map<Sym, nat>>::empty(),
    ensures
        closed_model(v),
{
}

} // verus!
