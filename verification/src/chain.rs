//! The order-k token transition model for one entity.
//!
//! A `Chain` maps a context — the `k` most recent symbols — to the multiset
//! of successors observed after that context, each with its occurrence
//! count. Feeding slides a window over the text's tokens, prefixed by `k`
//! start sentinels and closed by one end sentinel; generation starts from
//! the all-start context and repeatedly samples a successor with probability
//! proportional to its count.
//!
//! The abstract state is `ChainV`: the order together with a map from
//! context to successor-count map. The concrete state is an association
//! list with pairwise-distinct contexts.

use vstd::prelude::*;

use crate::codec::{decode_chain_bytes, encode_chain_bytes, spec_decode, spec_encode};
use crate::entropy::rand_below;
use crate::errors::ModelError;
use crate::token::{Sym, Tok, join_spec, join_words, tokenize, tokenize_str, toks_view};

verus! {

/// The safety bound on generation: however degenerate the trained data,
/// one generated text never holds more tokens than this.
pub const MAX_STEPS: usize = 512;

/// The abstract transition table: context to successor counts.
pub type TableV = Map<Seq<Sym>, Map<Sym, nat>>;

/// The abstract state of a chain.
#[verifier::ext_equal]
pub struct ChainV {
    pub k: nat,
    pub table: TableV,
}

/// One recorded successor of some context, with its occurrence count.
#[derive(Debug)]
pub struct SuccEntry {
    pub tok: Tok,
    pub count: u64,
}

/// One context of the model together with all its recorded successors.
#[derive(Debug)]
pub struct Row {
    pub ctx: Vec<Tok>,
    pub succs: Vec<SuccEntry>,
}

/// The mathematical content of one row.
#[verifier::ext_equal]
pub struct RowV {
    pub ctx: Seq<Sym>,
    pub succs: Seq<(Sym, nat)>,
}

pub open spec fn succs_deep(es: Seq<SuccEntry>) -> Seq<(Sym, nat)> {
    es.map_values(|e: SuccEntry| (e.tok@, e.count as nat))
}

pub open spec fn row_deep(r: Row) -> RowV {
    RowV { ctx: toks_view(r.ctx@), succs: succs_deep(r.succs@) }
}

pub open spec fn rows_deep(rs: Seq<Row>) -> Seq<RowV> {
    rs.map_values(|r: Row| row_deep(r))
}

/// The successor-count map described by one row's entry list.
pub open spec fn smap_of(ss: Seq<(Sym, nat)>) -> Map<Sym, nat>
    decreases ss.len(),
{
    if ss.len() == 0 {
        Map::empty()
    } else {
        smap_of(ss.drop_last()).insert(ss.last().0, ss.last().1)
    }
}

/// The transition table described by a row list.
pub open spec fn table_of(rs: Seq<RowV>) -> TableV
    decreases rs.len(),
{
    if rs.len() == 0 {
        Map::empty()
    } else {
        table_of(rs.drop_last()).insert(rs.last().ctx, smap_of(rs.last().succs))
    }
}

pub open spec fn succs_distinct(ss: Seq<(Sym, nat)>) -> bool {
    forall|i: int, j: int| 0 <= i < j < ss.len() ==> ss[i].0 != ss[j].0
}

pub open spec fn ctxs_distinct(rs: Seq<RowV>) -> bool {
    forall|i: int, j: int| 0 <= i < j < rs.len() ==> rs[i].ctx != rs[j].ctx
}

/// A word the representation can hold.
pub open spec fn sym_bounded(s: Sym) -> bool {
    s matches Sym::Word(w) ==> w.len() <= usize::MAX
}

/// Well-formedness of one row of order `k`: the context has exactly `k`
/// symbols and never the end sentinel; at least one successor is recorded;
/// a successor is never the start sentinel, carries a positive count, and
/// appears at most once; every word fits the representation.
pub open spec fn rowv_wf(r: RowV, k: nat) -> bool {
    &&& r.ctx.len() == k
    &&& forall|i: int|
        0 <= i < r.ctx.len() ==> !((#[trigger] r.ctx[i]) is End) && sym_bounded(r.ctx[i])
    &&& r.succs.len() >= 1
    &&& forall|i: int|
        0 <= i < r.succs.len() ==> !((#[trigger] r.succs[i]).0 is Start) && 1 <= r.succs[i].1
            <= u64::MAX && sym_bounded(r.succs[i].0)
    &&& succs_distinct(r.succs)
}

pub open spec fn rowsv_wf(rs: Seq<RowV>, k: nat) -> bool {
    &&& forall|i: int| 0 <= i < rs.len() ==> rowv_wf(#[trigger] rs[i], k)
    &&& ctxs_distinct(rs)
}

// ---------------------------------------------------------------------------
// Association list to map
// ---------------------------------------------------------------------------
pub proof fn lemma_smap_of_index(ss: Seq<(Sym, nat)>, i: int)
    requires
        succs_distinct(ss),
        0 <= i < ss.len(),
    ensures
        smap_of(ss).contains_key(ss[i].0),
        smap_of(ss)[ss[i].0] == ss[i].1,
    decreases ss.len(),
{
    if i < ss.len() - 1 {
        lemma_smap_of_index(ss.drop_last(), i);
    }
}

pub proof fn lemma_smap_of_dom(ss: Seq<(Sym, nat)>)
    ensures
        forall|s: Sym|
            smap_of(ss).contains_key(s) ==> exists|i: int| 0 <= i < ss.len() && (#[trigger] ss[i]).0 == s,
    decreases ss.len(),
{
    if ss.len() > 0 {
        lemma_smap_of_dom(ss.drop_last());
        assert forall|s: Sym| smap_of(ss).contains_key(s) implies exists|i: int|
            0 <= i < ss.len() && (#[trigger] ss[i]).0 == s by {
            if s == ss.last().0 {
                assert(ss[ss.len() - 1].0 == s);
            } else {
                assert(smap_of(ss.drop_last()).contains_key(s));
                let i = choose|i: int|
                    0 <= i < ss.drop_last().len() && (#[trigger] ss.drop_last()[i]).0 == s;
                assert(ss.drop_last()[i] == ss[i]);
                assert(ss[i].0 == s);
            }
        }
    }
}

pub proof fn lemma_smap_of_update(ss: Seq<(Sym, nat)>, i: int, c: nat)
    requires
        succs_distinct(ss),
        0 <= i < ss.len(),
    ensures
        smap_of(ss.update(i, (ss[i].0, c))) == smap_of(ss).insert(ss[i].0, c),
    decreases ss.len(),
{
    let ss2 = ss.update(i, (ss[i].0, c));
    if i == ss.len() - 1 {
        assert(ss2.drop_last() =~= ss.drop_last());
        assert(smap_of(ss2) =~= smap_of(ss).insert(ss[i].0, c));
    } else {
        lemma_smap_of_update(ss.drop_last(), i, c);
        assert(ss2.drop_last() =~= ss.drop_last().update(i, (ss[i].0, c)));
        assert(ss2.last() == ss.last());
        assert(ss[i].0 != ss.last().0);
        assert(smap_of(ss2) =~= smap_of(ss).insert(ss[i].0, c));
    }
}

pub proof fn lemma_smap_of_push(ss: Seq<(Sym, nat)>, s: Sym, c: nat)
    ensures
        smap_of(ss.push((s, c))) == smap_of(ss).insert(s, c),
{
    assert(ss.push((s, c)).drop_last() =~= ss);
}

pub proof fn lemma_table_of_index(rs: Seq<RowV>, i: int)
    requires
        ctxs_distinct(rs),
        0 <= i < rs.len(),
    ensures
        table_of(rs).contains_key(rs[i].ctx),
        table_of(rs)[rs[i].ctx] == smap_of(rs[i].succs),
    decreases rs.len(),
{
    if i < rs.len() - 1 {
        lemma_table_of_index(rs.drop_last(), i);
    }
}

pub proof fn lemma_table_of_dom(rs: Seq<RowV>)
    ensures
        forall|c: Seq<Sym>|
            table_of(rs).contains_key(c) ==> exists|i: int|
                0 <= i < rs.len() && (#[trigger] rs[i]).ctx == c,
    decreases rs.len(),
{
    if rs.len() > 0 {
        lemma_table_of_dom(rs.drop_last());
        assert forall|c: Seq<Sym>| table_of(rs).contains_key(c) implies exists|i: int|
            0 <= i < rs.len() && (#[trigger] rs[i]).ctx == c by {
            if c == rs.last().ctx {
                assert(rs[rs.len() - 1].ctx == c);
            } else {
                assert(table_of(rs.drop_last()).contains_key(c));
                let i = choose|i: int|
                    0 <= i < rs.drop_last().len() && (#[trigger] rs.drop_last()[i]).ctx == c;
                assert(rs.drop_last()[i] == rs[i]);
                assert(rs[i].ctx == c);
            }
        }
    }
}

pub proof fn lemma_table_of_update(rs: Seq<RowV>, i: int, ss: Seq<(Sym, nat)>)
    requires
        ctxs_distinct(rs),
        0 <= i < rs.len(),
    ensures
        table_of(rs.update(i, RowV { ctx: rs[i].ctx, succs: ss })) == table_of(rs).insert(
            rs[i].ctx,
            smap_of(ss),
        ),
    decreases rs.len(),
{
    let r2 = RowV { ctx: rs[i].ctx, succs: ss };
    let rs2 = rs.update(i, r2);
    if i == rs.len() - 1 {
        assert(rs2.drop_last() =~= rs.drop_last());
        assert(table_of(rs2) =~= table_of(rs).insert(rs[i].ctx, smap_of(ss)));
    } else {
        lemma_table_of_update(rs.drop_last(), i, ss);
        assert(rs2.drop_last() =~= rs.drop_last().update(i, r2));
        assert(rs2.last() == rs.last());
        assert(rs[i].ctx != rs.last().ctx);
        assert(table_of(rs2) =~= table_of(rs).insert(rs[i].ctx, smap_of(ss)));
    }
}

pub proof fn lemma_table_of_push(rs: Seq<RowV>, r: RowV)
    ensures
        table_of(rs.push(r)) == table_of(rs).insert(r.ctx, smap_of(r.succs)),
{
    assert(rs.push(r).drop_last() =~= rs);
}

proof fn lemma_rows_deep_update(rs: Seq<Row>, i: int, r: Row)
    requires
        0 <= i < rs.len(),
    ensures
        rows_deep(rs.update(i, r)) =~= rows_deep(rs).update(i, row_deep(r)),
{
}

proof fn lemma_rows_deep_push(rs: Seq<Row>, r: Row)
    ensures
        rows_deep(rs.push(r)) =~= rows_deep(rs).push(row_deep(r)),
{
}

proof fn lemma_succs_deep_update(es: Seq<SuccEntry>, i: int, e: SuccEntry)
    requires
        0 <= i < es.len(),
    ensures
        succs_deep(es.update(i, e)) =~= succs_deep(es).update(i, (e.tok@, e.count as nat)),
{
}

proof fn lemma_succs_deep_push(es: Seq<SuccEntry>, e: SuccEntry)
    ensures
        succs_deep(es.push(e)) =~= succs_deep(es).push((e.tok@, e.count as nat)),
{
}

// ---------------------------------------------------------------------------
// Feeding, at the specification level
// ---------------------------------------------------------------------------
/// The context before any token has been emitted: `k` start sentinels.
pub open spec fn start_ctx(k: nat) -> Seq<Sym> {
    Seq::new(k, |i: int| Sym::Start)
}

/// One observation: the count goes up by one, saturating at the widest
/// count the representation can hold.
pub open spec fn sat_inc(c: nat) -> nat {
    if c >= u64::MAX {
        c
    } else {
        c + 1
    }
}

/// The recorded count for successor `s` after context `c`, zero when the
/// pair was never observed.
pub open spec fn count_of(t: TableV, c: Seq<Sym>, s: Sym) -> nat {
    if t.contains_key(c) && t[c].contains_key(s) {
        t[c][s]
    } else {
        0
    }
}

/// Records one more observation of successor `s` after context `c`.
pub open spec fn bump(t: TableV, c: Seq<Sym>, s: Sym) -> TableV {
    let row = if t.contains_key(c) {
        t[c]
    } else {
        Map::empty()
    };
    t.insert(c, row.insert(s, sat_inc(count_of(t, c, s))))
}

/// The symbol sequence a text contributes: `k` start sentinels, the words,
/// one end sentinel.
pub open spec fn syms_of(ws: Seq<Seq<char>>, k: nat) -> Seq<Sym> {
    start_ctx(k) + ws.map_values(|w: Seq<char>| Sym::Word(w)) + seq![Sym::End]
}

/// Records the windows of `syms` from position `i` on: each context of `k`
/// consecutive symbols together with the symbol that follows it.
pub open spec fn feed_windows(t: TableV, syms: Seq<Sym>, k: nat, i: nat) -> TableV
    decreases syms.len() - i - k,
{
    if i + k >= syms.len() {
        t
    } else {
        feed_windows(
            bump(t, syms.subrange(i as int, (i + k) as int), syms[(i + k) as int]),
            syms,
            k,
            i + 1,
        )
    }
}

/// What feeding one text does to the abstract state. A text without tokens
/// changes nothing.
pub open spec fn spec_feed(v: ChainV, ws: Seq<Seq<char>>) -> ChainV {
    if ws.len() == 0 {
        v
    } else {
        ChainV { k: v.k, table: feed_windows(v.table, syms_of(ws, v.k), v.k, 0) }
    }
}

// ---------------------------------------------------------------------------
// The chain itself
// ---------------------------------------------------------------------------
/// An order-k token transition model.
#[derive(Debug)]
pub struct Chain {
    k: usize,
    rows: Vec<Row>,
}

impl View for Chain {
    type V = ChainV;

    closed spec fn view(&self) -> ChainV {
        ChainV { k: self.k as nat, table: table_of(rows_deep(self.rows@)) }
    }
}

impl Chain {
    /// The ordered mathematical content of the rows; the persistence format
    /// is stated over this.
    pub closed spec fn rows_v(&self) -> Seq<RowV> {
        rows_deep(self.rows@)
    }

    pub closed spec fn wf(&self) -> bool {
        self.k >= 1 && rowsv_wf(rows_deep(self.rows@), self.k as nat)
    }

    /// A fresh, untrained chain of the given order.
    pub fn new(k: usize) -> (r: Chain)
        requires
            k >= 1,
        ensures
            r.wf(),
            r@.k == k as nat,
            r@.table == Map::<Seq<Sym>, Map<Sym, nat>>::empty(),
            r.rows_v() == Seq::<RowV>::empty(),
    {
        let r = Chain { k, rows: Vec::new() };
        proof {
            assert(rows_deep(r.rows@) =~= Seq::<RowV>::empty());
        }
        r
    }

    /// The order of the model.
    pub fn order(&self) -> (r: usize)
        ensures
            r as nat == self@.k,
    {
        self.k
    }

    /// Whether the chain has recorded nothing at all.
    pub fn is_untrained(&self) -> (r: bool)
        ensures
            r == (self.rows_v().len() == 0),
    {
        self.rows.len() == 0
    }

    /// Trains the model on one text: every window of `k` consecutive
    /// symbols, sliding over start sentinels, the text's tokens and the end
    /// sentinel, has the count of its observed successor raised by one.
    #[verifier::loop_isolation(false)]
    pub fn feed(&mut self, text: &str)
        requires
            old(self).wf(),
        ensures
            final(self).wf(),
            final(self)@ =~= spec_feed(old(self)@, tokenize(text@)),
    {
        let ghost ws = tokenize(text@);
        let words = tokenize_str(text);
        if words.len() == 0 {
            return;
        }
        let k = self.k;
        let ghost kn = k as nat;
        // Build the padded symbol sequence.
        let mut syms: Vec<Tok> = Vec::new();
        let mut a: usize = 0;
        while a < k
            invariant
                a <= k,
                syms@.len() == a,
                forall|p: int| 0 <= p < a ==> (#[trigger] syms@[p]) == Tok::Start,
            decreases k - a,
        {
            syms.push(Tok::Start);
            a = a + 1;
        }
        let mut b: usize = 0;
        while b < words.len()
            invariant
                b <= words.len(),
                words.deep_view() == ws,
                syms@.len() == k + b,
                forall|p: int| 0 <= p < k ==> (#[trigger] syms@[p]) == Tok::Start,
                forall|p: int|
                    k <= p < k + b ==> (#[trigger] syms@[p])@ == Sym::Word(ws[p - k]),
            decreases words.len() - b,
        {
            syms.push(Tok::Word(words[b].clone()));
            b = b + 1;
        }
        syms.push(Tok::End);
        let ghost sv = toks_view(syms@);
        proof {
            assert(sv =~= syms_of(ws, kn));
            crate::token::lemma_tokens_len(text@, 0);
            assert forall|p: int| 0 <= p < sv.len() implies sym_bounded(#[trigger] sv[p]) by {
                let m = ws.map_values(|w: Seq<char>| Sym::Word(w));
                assert(sv[p] == (start_ctx(kn) + m + seq![Sym::End])[p]);
                if kn <= p < kn + ws.len() {
                    assert(sv[p] == Sym::Word(ws[p - kn]));
                    assert(ws[p - kn].len() <= text@.len());
                }
            }
        }
        let n = words.len();
        let ghost orig = table_of(rows_deep(self.rows@));
        let mut i: usize = 0;
        while i + k < syms.len()
            invariant
                self.k == k,
                k >= 1,
                syms@.len() == k + n + 1,
                i <= n + 1,
                sv == toks_view(syms@),
                sv == syms_of(ws, kn),
                ws.len() == n,
                rowsv_wf(rows_deep(self.rows@), kn),
                feed_windows(table_of(rows_deep(self.rows@)), sv, kn, i as nat) == feed_windows(
                    orig,
                    sv,
                    kn,
                    0,
                ),
            decreases syms.len() - i - k,
        {
            let ghost rs0 = rows_deep(self.rows@);
            let ghost t0 = table_of(rs0);
            let ghost wctx = sv.subrange(i as int, (i + k) as int);
            let ghost wsucc = sv[(i + k) as int];
            proof {
                // The successor symbol is never the start sentinel, and the
                // window never holds the end sentinel.
                let m = ws.map_values(|w: Seq<char>| Sym::Word(w));
                assert(sv[(i + k) as int] == (start_ctx(kn) + m + seq![Sym::End])[(i + k) as int]);
                assert(!(wsucc is Start));
                assert(sym_bounded(wsucc));
                assert(forall|p: int|
                    0 <= p < wctx.len() ==> !((#[trigger] wctx[p]) is End) && sym_bounded(
                        wctx[p],
                    ));
                assert(forall|p: int|
                    0 <= p < self.rows@.len() ==> (#[trigger] rows_deep(self.rows@)[p])
                        == row_deep(self.rows@[p]));
                assert forall|p: int|
                    0 <= p < self.rows@.len() implies (#[trigger] self.rows@[p]).ctx@.len()
                    == k by {
                    assert(rowv_wf(rows_deep(self.rows@)[p], kn));
                    assert(rows_deep(self.rows@)[p].ctx == toks_view(self.rows@[p].ctx@));
                }
            }
            let found = find_row(&self.rows, &syms, i, k);
            match found {
                Some(idx) => {
                    let ghost ss0 = rs0[idx as int].succs;
                    proof {
                        assert(rs0[idx as int].ctx == wctx);
                        lemma_table_of_index(rs0, idx as int);
                    }
                    let sidx = find_succ(&self.rows[idx].succs, &syms[i + k]);
                    match sidx {
                        Some(j) => {
                            let c = self.rows[idx].succs[j].count;
                            proof {
                                assert(ss0[j as int] == (wsucc, c as nat));
                                lemma_smap_of_index(ss0, j as int);
                            }
                            if c < u64::MAX {
                                self.rows[idx].succs[j].count = c + 1;
                            }
                            proof {
                                let cnew = sat_inc(c as nat);
                                let ss1 = ss0.update(j as int, (wsucc, cnew));
                                let rs1 = rows_deep(self.rows@);
                                assert(succs_deep(self.rows@[idx as int].succs@) =~= ss1);
                                assert(rs1 =~= rs0.update(
                                    idx as int,
                                    RowV { ctx: wctx, succs: ss1 },
                                ));
                                lemma_smap_of_update(ss0, j as int, cnew);
                                lemma_table_of_update(rs0, idx as int, ss1);
                                assert(count_of(t0, wctx, wsucc) == c as nat);
                                assert(table_of(rs1) =~= bump(t0, wctx, wsucc));
                                assert forall|p: int| 0 <= p < rs1.len() implies rowv_wf(
                                    #[trigger] rs1[p],
                                    kn,
                                ) by {
                                    if p == idx as int {
                                        assert(forall|q: int|
                                            0 <= q < ss1.len() ==> (#[trigger] ss1[q]).0 == ss0[
                                                q].0);
                                        assert(rowv_wf(rs1[p], kn));
                                    } else {
                                        assert(rs1[p] == rs0[p]);
                                    }
                                }
                                assert(ctxs_distinct(rs1));
                            }
                        },
                        None => {
                            let tnew = syms[i + k].dup();
                            self.rows[idx].succs.push(SuccEntry { tok: tnew, count: 1 });
                            proof {
                                let ss1 = ss0.push((wsucc, 1nat));
                                let rs1 = rows_deep(self.rows@);
                                assert(succs_deep(self.rows@[idx as int].succs@) =~= ss1);
                                assert(rs1 =~= rs0.update(
                                    idx as int,
                                    RowV { ctx: wctx, succs: ss1 },
                                ));
                                lemma_smap_of_push(ss0, wsucc, 1nat);
                                lemma_table_of_update(rs0, idx as int, ss1);
                                lemma_smap_of_dom(ss0);
                                assert(!smap_of(ss0).contains_key(wsucc));
                                assert(count_of(t0, wctx, wsucc) == 0);
                                assert(table_of(rs1) =~= bump(t0, wctx, wsucc));
                                assert forall|p: int| 0 <= p < rs1.len() implies rowv_wf(
                                    #[trigger] rs1[p],
                                    kn,
                                ) by {
                                    if p == idx as int {
                                        assert(forall|q: int|
                                            0 <= q < ss0.len() ==> (#[trigger] ss1[q]) == ss0[q]);
                                        assert(rowv_wf(rs1[p], kn));
                                    } else {
                                        assert(rs1[p] == rs0[p]);
                                    }
                                }
                                assert(ctxs_distinct(rs1));
                            }
                        },
                    }
                },
                None => {
                    let mut nctx: Vec<Tok> = Vec::new();
                    let mut q: usize = 0;
                    while q < k
                        invariant
                            q <= k,
                            i + k < syms@.len(),
                            sv == toks_view(syms@),
                            nctx@.len() == q,
                            forall|p: int| 0 <= p < q ==> (#[trigger] nctx@[p])@ == sv[i + p],
                        decreases k - q,
                    {
                        nctx.push(syms[i + q].dup());
                        q = q + 1;
                    }
                    let tnew = syms[i + k].dup();
                    let mut nsuccs: Vec<SuccEntry> = Vec::new();
                    nsuccs.push(SuccEntry { tok: tnew, count: 1 });
                    let ghost rowv = RowV { ctx: wctx, succs: seq![(wsucc, 1nat)] };
                    proof {
                        assert(toks_view(nctx@) =~= wctx);
                        assert(succs_deep(nsuccs@) =~= seq![(wsucc, 1nat)]);
                    }
                    self.rows.push(Row { ctx: nctx, succs: nsuccs });
                    proof {
                        let rs1 = rows_deep(self.rows@);
                        assert(rs1 =~= rs0.push(rowv));
                        lemma_table_of_push(rs0, rowv);
                        let single: Seq<(Sym, nat)> = seq![(wsucc, 1nat)];
                        assert(single.drop_last() =~= Seq::<(Sym, nat)>::empty());
                        assert(smap_of(Seq::<(Sym, nat)>::empty()) == Map::<Sym, nat>::empty());
                        assert(single.last() == (wsucc, 1nat));
                        assert(smap_of(single) =~= Map::<Sym, nat>::empty().insert(wsucc, 1nat));
                        lemma_table_of_dom(rs0);
                        assert(!t0.contains_key(wctx));
                        assert(count_of(t0, wctx, wsucc) == 0);
                        assert(table_of(rs1) =~= bump(t0, wctx, wsucc));
                        assert forall|p: int| 0 <= p < rs1.len() implies rowv_wf(
                            #[trigger] rs1[p],
                            kn,
                        ) by {
                            if p == rs1.len() - 1 {
                                assert(rs1[p] == rowv);
                                assert(rowv.ctx.len() == kn);
                                assert(rowv_wf(rowv, kn));
                            } else {
                                assert(rs1[p] == rs0[p]);
                            }
                        }
                        assert forall|p: int, pp: int| 0 <= p < pp < rs1.len() implies rs1[p].ctx
                            != rs1[pp].ctx by {
                            if pp == rs1.len() - 1 {
                                assert(rs1[p] == rs0[p]);
                            }
                        }
                        assert(ctxs_distinct(rs1));
                    }
                },
            }
            proof {
                let rs1 = rows_deep(self.rows@);
                assert(table_of(rs1) == bump(t0, wctx, wsucc));
                assert(feed_windows(t0, sv, kn, i as nat) == feed_windows(
                    bump(t0, wctx, wsucc),
                    sv,
                    kn,
                    (i + 1) as nat,
                ));
            }
            i = i + 1;
        }
        proof {
            assert(feed_windows(table_of(rows_deep(self.rows@)), sv, kn, i as nat) == table_of(
                rows_deep(self.rows@),
            ));
            assert(self@ =~= spec_feed(old(self)@, ws));
        }
    }

    /// Whether generation can succeed: the all-start context has recorded
    /// successors, which holds exactly when the chain has been trained.
    #[verifier::loop_isolation(false)]
    pub fn is_ready(&self) -> (b: bool)
        requires
            self.wf(),
        ensures
            b == self@.table.contains_key(start_ctx(self@.k)),
    {
        let k = self.k;
        let ghost kn = k as nat;
        let ghost rsd = rows_deep(self.rows@);
        proof {
            assert forall|p: int|
                0 <= p < self.rows@.len() implies (#[trigger] self.rows@[p]).ctx@.len() == k by {
                assert(rowv_wf(rsd[p], kn));
                assert(rsd[p].ctx == toks_view(self.rows@[p].ctx@));
            }
        }
        let mut cvec: Vec<Tok> = Vec::new();
        let mut a: usize = 0;
        while a < k
            invariant
                a <= k,
                cvec@.len() == a,
                forall|p: int| 0 <= p < a ==> (#[trigger] cvec@[p]) == Tok::Start,
            decreases k - a,
        {
            cvec.push(Tok::Start);
            a = a + 1;
        }
        proof {
            assert(toks_view(cvec@).subrange(0, k as int) =~= toks_view(cvec@));
            assert(toks_view(cvec@) =~= start_ctx(kn));
        }
        let f = find_row(&self.rows, &cvec, 0, k);
        match f {
            Some(idx) => {
                proof {
                    assert(rsd[idx as int].ctx == start_ctx(kn));
                    lemma_table_of_index(rsd, idx as int);
                }
                true
            },
            None => {
                proof {
                    lemma_table_of_dom(rsd);
                    if self@.table.contains_key(start_ctx(kn)) {
                        let w = choose|i: int|
                            0 <= i < rsd.len() && (#[trigger] rsd[i]).ctx == start_ctx(kn);
                        assert(toks_view(self.rows@[w].ctx@) == start_ctx(kn));
                    }
                }
                false
            },
        }
    }

    /// Generates one word sequence by weighted sampling: from the all-start
    /// context, each next word is a recorded successor of the `k` most
    /// recent symbols, chosen with probability proportional to its count,
    /// until the end sentinel is drawn or the step bound is reached. The
    /// sentinels are never part of the output.
    #[verifier::loop_isolation(false)]
    pub fn generate_tokens(&self) -> (r: Result<Vec<String>, ModelError>)
        requires
            self.wf(),
        ensures
            match r {
                Ok(ws) => self@.table.contains_key(start_ctx(self@.k)) && ws@.len() <= MAX_STEPS
                    && is_sample(self@, ws.deep_view()) && sample_stopped(self@, ws.deep_view())
                    && (ws@.len() == 0 ==> self@.table[start_ctx(self@.k)].contains_key(
                    Sym::End,
                )),
                Err(e) => e == ModelError::EmptyModel && !self@.table.contains_key(
                    start_ctx(self@.k),
                ),
            },
    {
        let k = self.k;
        let ghost kn = k as nat;
        let ghost rsd = rows_deep(self.rows@);
        if !self.is_ready() {
            return Err(ModelError::EmptyModel);
        }
        proof {
            assert forall|p: int|
                0 <= p < self.rows@.len() implies (#[trigger] self.rows@[p]).ctx@.len() == k by {
                assert(rowv_wf(rsd[p], kn));
                assert(rsd[p].ctx == toks_view(self.rows@[p].ctx@));
            }
        }
        let mut cvec: Vec<Tok> = Vec::new();
        let mut a: usize = 0;
        while a < k
            invariant
                a <= k,
                cvec@.len() == a,
                forall|p: int| 0 <= p < a ==> (#[trigger] cvec@[p]) == Tok::Start,
            decreases k - a,
        {
            cvec.push(Tok::Start);
            a = a + 1;
        }
        let mut out: Vec<String> = Vec::new();
        proof {
            assert(out.deep_view() =~= Seq::<Seq<char>>::empty());
            assert(toks_view(cvec@) =~= gen_ctx_at(kn, out.deep_view(), 0));
        }
        let mut steps: usize = 0;
        while steps < MAX_STEPS
            invariant
                out@.len() == steps,
                steps <= MAX_STEPS,
                cvec@.len() == k,
                toks_view(cvec@) == gen_ctx_at(kn, out.deep_view(), out@.len() as int),
                is_sample(self@, out.deep_view()),
            decreases MAX_STEPS - steps,
        {
            let fr = find_row(&self.rows, &cvec, 0, k);
            match fr {
                None => {
                    proof {
                        // No row matches the context in force, so the table
                        // does not record it: the sequence is maximal. In
                        // particular nothing has been emitted only when the
                        // start context itself is unrecorded, which this
                        // branch contradicts.
                        let wsd = out.deep_view();
                        let c = gen_ctx_at(kn, wsd, wsd.len() as int);
                        assert(toks_view(cvec@).subrange(0, k as int) =~= toks_view(cvec@));
                        lemma_table_of_dom(rsd);
                        if self@.table.contains_key(c) {
                            let w = choose|p: int|
                                0 <= p < rsd.len() && (#[trigger] rsd[p]).ctx == c;
                            assert(toks_view(self.rows@[w].ctx@) == c);
                            assert(false);
                        }
                        assert(sample_stopped(self@, wsd));
                        if wsd.len() == 0 {
                            assert(c =~= start_ctx(kn));
                            assert(false);
                        }
                    }
                    return Ok(out);
                },
                Some(idx) => {
                    let ghost cv0 = toks_view(cvec@);
                    let ghost ss = succs_deep(self.rows@[idx as int].succs@);
                    proof {
                        assert(cv0.subrange(0, k as int) =~= cv0);
                        assert(rsd[idx as int].ctx == cv0);
                        assert(rsd[idx as int].succs == ss);
                        lemma_table_of_index(rsd, idx as int);
                        assert(rowv_wf(rsd[idx as int], kn));
                        lemma_csum_mono(ss, 1, ss.len() as int);
                        assert(csum(ss, 1) == csum(ss, 0) + ss[0].1);
                        assert(ss[0].1 >= 1);
                    }
                    let total = sum_counts(&self.rows[idx].succs);
                    let rdraw = rand_below(total);
                    let j = weighted_pick(&self.rows[idx].succs, rdraw);
                    proof {
                        lemma_smap_of_index(ss, j as int);
                        assert(!(ss[j as int].0 is Start));
                        assert(ss[j as int].0 == self.rows@[idx as int].succs@[j as int].tok@);
                    }
                    let chosen = &self.rows[idx].succs[j].tok;
                    match chosen {
                        Tok::End => {
                            proof {
                                // The end sentinel was drawn, and it is
                                // recorded after the context in force: the
                                // sequence is maximal.
                                let wsd = out.deep_view();
                                assert(ss[j as int].0 == Sym::End);
                                assert(self@.table[cv0].contains_key(Sym::End));
                                assert(cv0 == gen_ctx_at(kn, wsd, wsd.len() as int));
                                assert(sample_stopped(self@, wsd));
                                if out@.len() == 0 {
                                    assert(cv0 =~= start_ctx(kn));
                                    assert(self@.table[start_ctx(kn)].contains_key(Sym::End));
                                }
                            }
                            return Ok(out);
                        },
                        Tok::Word(s) => {
                            let w1 = s.clone();
                            let w2 = s.clone();
                            let ghost ws0 = out.deep_view();
                            let ghost wv = s@;
                            let ghost len0 = ws0.len() as int;
                            out.push(w1);
                            cvec.push(Tok::Word(w2));
                            let ghost cvmid = cvec@;
                            let _ = cvec.remove(0);
                            proof {
                                let ws1 = out.deep_view();
                                assert(ws1 =~= ws0.push(wv));
                                assert(ss[j as int].0 == Sym::Word(wv));
                                assert(self@.table[cv0] == smap_of(ss));
                                assert(smap_of(ss).contains_key(Sym::Word(wv)));
                                lemma_sample_extend(self@, ws0, wv);
                                assert(is_sample(self@, ws1));
                                assert(cvec@ =~= cvmid.remove(0));
                                assert forall|p: int| 0 <= p < k implies toks_view(cvec@)[p]
                                    == gen_ctx_at(kn, ws1, ws1.len() as int)[p] by {
                                    assert(cvec@[p] == cvmid[p + 1]);
                                    if p < k - 1 {
                                        assert(cvmid[p + 1] == cvec@.subrange(
                                            0,
                                            k as int,
                                        )[p + 1] || true);
                                        assert(toks_view(cvec@)[p] == cv0[p + 1]);
                                    } else {
                                        assert(toks_view(cvec@)[p] == Sym::Word(wv));
                                    }
                                }
                                assert(toks_view(cvec@) =~= gen_ctx_at(
                                    kn,
                                    ws1,
                                    ws1.len() as int,
                                ));
                            }
                        },
                        Tok::Start => {
                            proof {
                                assert(false);
                            }
                            return Ok(out);
                        },
                    }
                },
            }
            steps = steps + 1;
        }
        Ok(out)
    }

    /// The recorded count of one transition: how often `succ` was observed
    /// after the context of the last `k` entries of `prev`, padded at the
    /// front with start sentinels. `None` stands for the end sentinel.
    /// Unobserved pairs count zero.
    #[verifier::loop_isolation(false)]
    pub fn transition_count(&self, prev: &Vec<String>, succ: Option<&String>) -> (r: u64)
        requires
            self.wf(),
        ensures
            r as nat == count_of(
                self@.table,
                gen_ctx_at(self@.k, prev.deep_view(), prev@.len() as int),
                match succ {
                    Some(s) => Sym::Word(s@),
                    None => Sym::End,
                },
            ),
    {
        let k = self.k;
        let ghost kn = k as nat;
        let ghost rsd = rows_deep(self.rows@);
        let ghost pv = prev.deep_view();
        let ghost cv = gen_ctx_at(kn, pv, pv.len() as int);
        proof {
            assert forall|p: int|
                0 <= p < self.rows@.len() implies (#[trigger] self.rows@[p]).ctx@.len() == k by {
                assert(rowv_wf(rsd[p], kn));
                assert(rsd[p].ctx == toks_view(self.rows@[p].ctx@));
            }
        }
        let n = prev.len();
        let mut cvec: Vec<Tok> = Vec::new();
        let mut j: usize = 0;
        while j < k
            invariant
                j <= k,
                cvec@.len() == j,
                n == pv.len(),
                forall|p: int| 0 <= p < j ==> (#[trigger] cvec@[p])@ == cv[p],
            decreases k - j,
        {
            let kj = k - j;
            if n < kj {
                cvec.push(Tok::Start);
            } else {
                cvec.push(Tok::Word(prev[n - kj].clone()));
            }
            j = j + 1;
        }
        proof {
            assert(toks_view(cvec@) =~= cv);
            assert(toks_view(cvec@).subrange(0, k as int) =~= cv);
        }
        let found = find_row(&self.rows, &cvec, 0, k);
        match found {
            None => {
                proof {
                    lemma_table_of_dom(rsd);
                    if self@.table.contains_key(cv) {
                        let w = choose|i: int|
                            0 <= i < rsd.len() && (#[trigger] rsd[i]).ctx == cv;
                        assert(toks_view(self.rows@[w].ctx@) == cv);
                    }
                }
                0
            },
            Some(idx) => {
                proof {
                    assert(rsd[idx as int].ctx == cv);
                    lemma_table_of_index(rsd, idx as int);
                }
                let t = match succ {
                    Some(s) => Tok::Word(s.clone()),
                    None => Tok::End,
                };
                let ghost ss = succs_deep(self.rows@[idx as int].succs@);
                match find_succ(&self.rows[idx].succs, &t) {
                    None => {
                        proof {
                            lemma_smap_of_dom(ss);
                            if smap_of(ss).contains_key(t@) {
                                let w = choose|i: int|
                                    0 <= i < ss.len() && (#[trigger] ss[i]).0 == t@;
                                assert(self.rows@[idx as int].succs@[w].tok@ == t@);
                            }
                        }
                        0
                    },
                    Some(sj) => {
                        proof {
                            lemma_smap_of_index(ss, sj as int);
                        }
                        self.rows[idx].succs[sj].count
                    },
                }
            },
        }
    }

    /// Every well-formed chain fits the persistence format: all its
    /// lengths and counts fit their fields.
    pub proof fn lemma_encodable(&self)
        requires
            self.wf(),
        ensures
            crate::codec::encodable(self@.k, self.rows_v()),
    {
        vstd::std_specs::vec::axiom_spec_len(&self.rows);
        let rsd = rows_deep(self.rows@);
        assert forall|i: int| 0 <= i < rsd.len() implies crate::codec::encodable_row(
            #[trigger] rsd[i],
            self@.k,
        ) by {
            assert(rowv_wf(rsd[i], self.k as nat));
            vstd::std_specs::vec::axiom_spec_len(&self.rows@[i].succs);
            assert(rsd[i] == row_deep(self.rows@[i]));
            assert(rsd[i].succs.len() == self.rows@[i].succs@.len());
            assert forall|q: int| 0 <= q < rsd[i].ctx.len() implies !((#[trigger] rsd[i].ctx[q])
                is End) && crate::codec::encodable_sym(rsd[i].ctx[q]) by {
                assert(sym_bounded(rsd[i].ctx[q]));
            }
            assert forall|q: int| 0 <= q < rsd[i].succs.len() implies !((#[trigger] rsd[
            i].succs[q]).0 is Start) && crate::codec::encodable_sym(rsd[i].succs[q].0) && 1 <= rsd[
            i].succs[q].1 <= u64::MAX by {
                assert(sym_bounded(rsd[i].succs[q].0));
            }
        }
    }

    /// The persistence round trip: decoding the saved image of any
    /// well-formed chain yields back exactly its order and rows — hence
    /// the identical context-to-successor table — and the image is one the
    /// loader accepts.
    pub proof fn lemma_save_load_roundtrip(&self)
        requires
            self.wf(),
        ensures
            spec_decode(spec_encode(self@.k, self.rows_v())) == Some((self@.k, self.rows_v())),
            spec_loadable(spec_encode(self@.k, self.rows_v())),
    {
        self.lemma_encodable();
        crate::codec::lemma_codec_roundtrip(self@.k, self.rows_v());
    }

    /// The persisted image of this chain.
    pub fn save(&self) -> (r: Vec<u8>)
        requires
            self.wf(),
        ensures
            r@ == spec_encode(self@.k, self.rows_v()),
    {
        proof {
            assert((self.k as u64) as nat == self@.k);
        }
        encode_chain_bytes(self.k as u64, &self.rows)
    }

    /// Rebuilds a chain from its persisted image. Bytes that do not spell
    /// out a well-formed chain are refused.
    pub fn load(b: &Vec<u8>) -> (r: Result<Chain, ModelError>)
        ensures
            match r {
                Ok(c) => spec_loadable(b@) && c.wf() && spec_decode(b@) == Some(
                    (c@.k, c.rows_v()),
                ),
                Err(e) => e == ModelError::IoError && !spec_loadable(b@),
            },
    {
        match decode_chain_bytes(b) {
            None => Err(ModelError::IoError),
            Some((k, rows)) => {
                if check_rows_wf(&rows, k) {
                    let c = Chain { k, rows };
                    Ok(c)
                } else {
                    Err(ModelError::IoError)
                }
            },
        }
    }

    /// Generates one text: a sampled word sequence joined by single spaces.
    pub fn generate_one(&self) -> (r: Result<String, ModelError>)
        requires
            self.wf(),
        ensures
            match r {
                Ok(t) => self@.table.contains_key(start_ctx(self@.k)) && has_sample(self@, t@),
                Err(e) => e == ModelError::EmptyModel && !self@.table.contains_key(
                    start_ctx(self@.k),
                ),
            },
    {
        match self.generate_tokens() {
            Ok(ws) => {
                let t = join_words(&ws);
                proof {
                    assert(sample_text(self@, ws.deep_view(), t@));
                    assert(has_sample(self@, t@));
                }
                Ok(t)
            },
            Err(e) => Err(e),
        }
    }

    /// Generates `count` texts, each sampled independently; the chain is
    /// not changed.
    #[verifier::loop_isolation(false)]
    pub fn generate_n(&self, count: usize) -> (r: Result<Vec<String>, ModelError>)
        requires
            self.wf(),
        ensures
            match r {
                Ok(v) => self@.table.contains_key(start_ctx(self@.k)) && v@.len() == count
                    && forall|i: int| 0 <= i < v@.len() ==> has_sample(self@, (#[trigger] v@[i])@),
                Err(e) => e == ModelError::EmptyModel && !self@.table.contains_key(
                    start_ctx(self@.k),
                ),
            },
    {
        if !self.is_ready() {
            return Err(ModelError::EmptyModel);
        }
        let mut v: Vec<String> = Vec::new();
        let mut i: usize = 0;
        while i < count
            invariant
                v@.len() == i,
                i <= count,
                forall|p: int| 0 <= p < v@.len() ==> has_sample(self@, (#[trigger] v@[p])@),
            decreases count - i,
        {
            match self.generate_one() {
                Ok(t) => {
                    v.push(t);
                },
                Err(_) => {
                    proof {
                        assert(false);
                    }
                },
            }
            i = i + 1;
        }
        Ok(v)
    }
}

// ---------------------------------------------------------------------------
// Generation, at the specification level
// ---------------------------------------------------------------------------
/// The context in force just before the word at position `i` of an emitted
/// word sequence: the `k` preceding words, padded at the front with start
/// sentinels while fewer than `k` words have been emitted.
pub open spec fn gen_ctx_at(k: nat, ws: Seq<Seq<char>>, i: int) -> Seq<Sym> {
    Seq::new(
        k,
        |j: int|
            if i - (k as int) + j < 0 {
                Sym::Start
            } else {
                Sym::Word(ws[i - (k as int) + j])
            },
    )
}

/// Whether the word at position `i` is a recorded successor of the context
/// in force before it.
pub open spec fn sample_step_ok(v: ChainV, ws: Seq<Seq<char>>, i: int) -> bool {
    let c = gen_ctx_at(v.k, ws, i);
    v.table.contains_key(c) && v.table[c].contains_key(Sym::Word(ws[i]))
}

/// Whether `ws` is a word sequence the model can emit: every word is a
/// recorded successor of the context in force before it. In particular no
/// sentinel is ever part of the output.
pub open spec fn is_sample(v: ChainV, ws: Seq<Seq<char>>) -> bool {
    forall|i: int| 0 <= i < ws.len() ==> #[trigger] sample_step_ok(v, ws, i)
}

/// Whether the emitted word sequence is maximal: it may end early only at
/// the step bound; otherwise the context its end has reached is either
/// unrecorded or records the end sentinel that was drawn. A prefix of a
/// samplable sequence is therefore no sample on its own.
pub open spec fn sample_stopped(v: ChainV, ws: Seq<Seq<char>>) -> bool {
    ws.len() < MAX_STEPS ==> {
        let c = gen_ctx_at(v.k, ws, ws.len() as int);
        !v.table.contains_key(c) || v.table[c].contains_key(Sym::End)
    }
}

/// Whether text `t` is a generation result the model admits: some maximal
/// word sequence the model can emit, of bounded length, joined by single
/// spaces.
pub open spec fn sample_text(v: ChainV, ws: Seq<Seq<char>>, t: Seq<char>) -> bool {
    is_sample(v, ws) && ws.len() <= MAX_STEPS && sample_stopped(v, ws) && t == join_spec(ws)
}

/// Whether some maximal word sequence the model can emit joins to the
/// text `t`.
pub open spec fn has_sample(v: ChainV, t: Seq<char>) -> bool {
    exists|ws: Seq<Seq<char>>| sample_text(v, ws, t)
}

/// A sampled word sequence stays one when extended by a recorded successor
/// of the context its end has reached.
pub proof fn lemma_sample_extend(v: ChainV, ws: Seq<Seq<char>>, w: Seq<char>)
    requires
        is_sample(v, ws),
        v.table.contains_key(gen_ctx_at(v.k, ws, ws.len() as int)),
        v.table[gen_ctx_at(v.k, ws, ws.len() as int)].contains_key(Sym::Word(w)),
    ensures
        is_sample(v, ws.push(w)),
{
    let ws1 = ws.push(w);
    assert forall|i: int| 0 <= i < ws1.len() implies #[trigger] sample_step_ok(v, ws1, i) by {
        assert(gen_ctx_at(v.k, ws1, i) =~= gen_ctx_at(v.k, ws, i));
        if i < ws.len() {
            assert(ws1[i] == ws[i]);
            assert(sample_step_ok(v, ws, i));
        } else {
            assert(ws1[i] == w);
        }
    }
}

/// The sum of the first `i` successor counts.
pub open spec fn csum(ss: Seq<(Sym, nat)>, i: int) -> nat
    decreases i,
{
    if i <= 0 {
        0
    } else {
        csum(ss, i - 1) + ss[i - 1].1
    }
}

proof fn lemma_csum_mono(ss: Seq<(Sym, nat)>, i: int, j: int)
    requires
        i <= j,
    ensures
        csum(ss, i) <= csum(ss, j),
    decreases j - i,
{
    if i < j {
        lemma_csum_mono(ss, i, j - 1);
    }
}

proof fn lemma_csum_bound(ss: Seq<(Sym, nat)>, i: int)
    requires
        0 <= i <= ss.len(),
        forall|p: int| 0 <= p < ss.len() ==> (#[trigger] ss[p]).1 <= u64::MAX,
    ensures
        csum(ss, i) <= i * (u64::MAX as nat),
    decreases i,
{
    if i > 0 {
        lemma_csum_bound(ss, i - 1);
        assert((i - 1) * (u64::MAX as nat) + (u64::MAX as nat) == i * (u64::MAX as nat))
            by (nonlinear_arith);
    }
}

/// The sum of all successor counts of one row.
#[verifier::loop_isolation(false)]
fn sum_counts(succs: &Vec<SuccEntry>) -> (t: u128)
    ensures
        t as nat == csum(succs_deep(succs@), succs@.len() as int),
{
    let ghost ss = succs_deep(succs@);
    let mut acc: u128 = 0;
    let mut j: usize = 0;
    while j < succs.len()
        invariant
            j <= succs@.len(),
            acc as nat == csum(ss, j as int),
        decreases succs@.len() - j,
    {
        proof {
            assert(forall|p: int| 0 <= p < ss.len() ==> (#[trigger] ss[p]).1 <= u64::MAX);
            lemma_csum_bound(ss, j as int);
            assert((j as int) * (u64::MAX as nat) <= (ss.len() as int) * (u64::MAX as nat)) by {
                lemma_csum_mono_mul(j as int, ss.len() as int);
            }
            lemma_len_mul_bound(ss.len() as int);
        }
        let c = succs[j].count;
        acc = acc + (c as u128);
        j = j + 1;
    }
    acc
}

proof fn lemma_csum_mono_mul(a: int, b: int)
    requires
        0 <= a <= b,
    ensures
        a * (u64::MAX as nat) <= b * (u64::MAX as nat),
{
    assert(a * (u64::MAX as nat) <= b * (u64::MAX as nat)) by (nonlinear_arith)
        requires
            0 <= a <= b,
    ;
}

proof fn lemma_len_mul_bound(n: int)
    requires
        0 <= n <= usize::MAX,
    ensures
        n * (u64::MAX as nat) + (u64::MAX as nat) <= u128::MAX,
{
    assert(n * (u64::MAX as nat) + (u64::MAX as nat) <= u128::MAX) by (nonlinear_arith)
        requires
            0 <= n <= usize::MAX,
    ;
}

/// Picks the successor whose cumulative count interval holds `r`: entry `j`
/// is chosen exactly when the counts before it total at most `r` and the
/// counts through it total more than `r`. A draw of `r` uniform below the
/// total therefore selects each successor with probability proportional to
/// its count.
#[verifier::loop_isolation(false)]
fn weighted_pick(succs: &Vec<SuccEntry>, r: u128) -> (j: usize)
    requires
        succs@.len() >= 1,
        (r as nat) < csum(succs_deep(succs@), succs@.len() as int),
        csum(succs_deep(succs@), succs@.len() as int) <= u128::MAX,
    ensures
        j < succs@.len(),
        csum(succs_deep(succs@), j as int) <= r as nat,
        (r as nat) < csum(succs_deep(succs@), j + 1 as int),
{
    let ghost ss = succs_deep(succs@);
    let mut acc: u128 = 0;
    let mut j: usize = 0;
    while j < succs.len()
        invariant
            j <= succs@.len(),
            acc as nat == csum(ss, j as int),
            acc as nat <= r as nat,
        decreases succs@.len() - j,
    {
        let c = succs[j].count;
        proof {
            lemma_csum_mono(ss, j + 1 as int, ss.len() as int);
            assert(csum(ss, j + 1 as int) == csum(ss, j as int) + ss[j as int].1);
        }
        if r < acc + (c as u128) {
            return j;
        }
        acc = acc + (c as u128);
        j = j + 1;
    }
    proof {
        assert(false);
    }
    0
}

/// Whether the bytes spell out a chain the loader accepts: they decode,
/// the order is representable, and the rows are well-formed.
pub open spec fn spec_loadable(b: Seq<u8>) -> bool {
    match spec_decode(b) {
        Some((k, rs)) => k <= usize::MAX && rowsv_wf(rs, k),
        None => false,
    }
}

/// Whether two contexts hold the same symbols.
#[verifier::loop_isolation(false)]
fn toks_eq(a: &Vec<Tok>, b: &Vec<Tok>) -> (r: bool)
    ensures
        r == (toks_view(a@) == toks_view(b@)),
{
    if a.len() != b.len() {
        proof {
            assert(toks_view(a@).len() != toks_view(b@).len());
        }
        return false;
    }
    let mut i: usize = 0;
    while i < a.len()
        invariant
            i <= a@.len(),
            a@.len() == b@.len(),
            forall|p: int| 0 <= p < i ==> toks_view(a@)[p] == toks_view(b@)[p],
        decreases a@.len() - i,
    {
        if !a[i].sym_eq(&b[i]) {
            proof {
                assert(toks_view(a@)[i as int] != toks_view(b@)[i as int]);
            }
            return false;
        }
        i = i + 1;
    }
    proof {
        assert(toks_view(a@) =~= toks_view(b@));
    }
    true
}

/// Whether one row is well-formed for order `k`.
#[verifier::loop_isolation(false)]
fn check_row_wf(row: &Row, k: usize) -> (r: bool)
    ensures
        r == rowv_wf(row_deep(*row), k as nat),
{
    let ghost rv = row_deep(*row);
    if row.ctx.len() != k {
        return false;
    }
    if row.succs.len() == 0 {
        return false;
    }
    let mut i: usize = 0;
    while i < row.ctx.len()
        invariant
            i <= row.ctx@.len(),
            rv == row_deep(*row),
            forall|p: int|
                0 <= p < i ==> !((#[trigger] rv.ctx[p]) is End) && sym_bounded(rv.ctx[p]),
        decreases row.ctx@.len() - i,
    {
        match &row.ctx[i] {
            Tok::End => {
                proof {
                    assert(rv.ctx[i as int] is End);
                }
                return false;
            },
            Tok::Word(s) => {
                let n_w = s.as_str().unicode_len();
                proof {
                    assert(rv.ctx[i as int] == Sym::Word(s@));
                    assert(s@.len() == n_w);
                }
            },
            Tok::Start => {},
        }
        i = i + 1;
    }
    let mut j: usize = 0;
    while j < row.succs.len()
        invariant
            j <= row.succs@.len(),
            rv == row_deep(*row),
            forall|p: int|
                0 <= p < j ==> !((#[trigger] rv.succs[p]).0 is Start) && 1 <= rv.succs[p].1
                    <= u64::MAX && sym_bounded(rv.succs[p].0),
        decreases row.succs@.len() - j,
    {
        match &row.succs[j].tok {
            Tok::Start => {
                proof {
                    assert(rv.succs[j as int].0 is Start);
                }
                return false;
            },
            Tok::Word(s) => {
                let n_w = s.as_str().unicode_len();
                proof {
                    assert(rv.succs[j as int].0 == Sym::Word(s@));
                    assert(s@.len() == n_w);
                }
            },
            Tok::End => {},
        }
        if row.succs[j].count == 0 {
            proof {
                assert(rv.succs[j as int].1 == 0);
            }
            return false;
        }
        j = j + 1;
    }
    let mut a: usize = 0;
    while a < row.succs.len()
        invariant
            a <= row.succs@.len(),
            rv == row_deep(*row),
            forall|p: int, q: int|
                0 <= p < q < rv.succs.len() && p < a ==> (#[trigger] rv.succs[p]).0 != (
                #[trigger] rv.succs[q]).0,
        decreases row.succs@.len() - a,
    {
        let mut b2: usize = a + 1;
        while b2 < row.succs.len()
            invariant
                a < b2 <= row.succs@.len() || (a + 1 == b2),
                a < row.succs@.len(),
                rv == row_deep(*row),
                forall|q: int| a < q < b2 ==> rv.succs[a as int].0 != (#[trigger] rv.succs[q]).0,
            decreases row.succs@.len() - b2,
        {
            if row.succs[a].tok.sym_eq(&row.succs[b2].tok) {
                proof {
                    assert(rv.succs[a as int].0 == rv.succs[b2 as int].0);
                    assert(!succs_distinct(rv.succs));
                }
                return false;
            }
            b2 = b2 + 1;
        }
        a = a + 1;
    }
    proof {
        assert(rowv_wf(rv, k as nat));
    }
    true
}

/// Whether a decoded row list is well-formed for order `k`.
#[verifier::loop_isolation(false)]
fn check_rows_wf(rows: &Vec<Row>, k: usize) -> (r: bool)
    ensures
        r == rowsv_wf(rows_deep(rows@), k as nat),
{
    let ghost rsd = rows_deep(rows@);
    let mut i: usize = 0;
    while i < rows.len()
        invariant
            i <= rows@.len(),
            rsd == rows_deep(rows@),
            forall|p: int| 0 <= p < i ==> rowv_wf(#[trigger] rsd[p], k as nat),
        decreases rows@.len() - i,
    {
        if !check_row_wf(&rows[i], k) {
            proof {
                assert(rsd[i as int] == row_deep(rows@[i as int]));
            }
            return false;
        }
        i = i + 1;
    }
    let mut a: usize = 0;
    while a < rows.len()
        invariant
            a <= rows@.len(),
            rsd == rows_deep(rows@),
            forall|p: int, q: int|
                0 <= p < q < rsd.len() && p < a ==> (#[trigger] rsd[p]).ctx != (
                #[trigger] rsd[q]).ctx,
        decreases rows@.len() - a,
    {
        let mut b2: usize = a + 1;
        while b2 < rows.len()
            invariant
                a < b2 <= rows@.len() || (a + 1 == b2),
                a < rows@.len(),
                rsd == rows_deep(rows@),
                forall|q: int| a < q < b2 ==> (#[trigger] rsd[q]).ctx != rsd[a as int].ctx,
            decreases rows@.len() - b2,
        {
            if toks_eq(&rows[a].ctx, &rows[b2].ctx) {
                proof {
                    assert(rsd[a as int].ctx == rsd[b2 as int].ctx);
                    assert(!ctxs_distinct(rsd));
                }
                return false;
            }
            b2 = b2 + 1;
        }
        a = a + 1;
    }
    proof {
        assert(ctxs_distinct(rsd));
        assert(rowsv_wf(rsd, k as nat));
    }
    true
}

/// Whether `row`'s context equals the window of `k` symbols at `i`.
#[verifier::loop_isolation(false)]
fn ctx_matches(row: &Row, syms: &Vec<Tok>, i: usize, k: usize) -> (b: bool)
    requires
        i + k <= syms@.len(),
        row.ctx@.len() == k,
    ensures
        b == (toks_view(row.ctx@) == toks_view(syms@).subrange(i as int, (i + k) as int)),
{
    let ghost cv = toks_view(row.ctx@);
    let ghost wv = toks_view(syms@).subrange(i as int, (i + k) as int);
    // The vector's length bounds the window's indices.
    let _syms_len = syms.len();
    let mut j: usize = 0;
    while j < k
        invariant
            j <= k,
            i + k <= syms@.len(),
            row.ctx@.len() == k,
            cv == toks_view(row.ctx@),
            wv == toks_view(syms@).subrange(i as int, (i + k) as int),
            forall|p: int| 0 <= p < j ==> cv[p] == wv[p],
        decreases k - j,
    {
        if !row.ctx[j].sym_eq(&syms[i + j]) {
            proof {
                assert(cv[j as int] != wv[j as int]);
            }
            return false;
        }
        j = j + 1;
    }
    proof {
        assert(cv =~= wv);
    }
    true
}

/// The first row whose context is the window of `k` symbols at `i`, if any.
#[verifier::loop_isolation(false)]
fn find_row(rows: &Vec<Row>, syms: &Vec<Tok>, i: usize, k: usize) -> (r: Option<usize>)
    requires
        i + k <= syms@.len(),
        forall|t: int| 0 <= t < rows@.len() ==> (#[trigger] rows@[t]).ctx@.len() == k,
    ensures
        match r {
            Some(idx) => idx < rows@.len() && toks_view(rows@[idx as int].ctx@) == toks_view(
                syms@,
            ).subrange(i as int, (i + k) as int),
            None => forall|t: int|
                0 <= t < rows@.len() ==> toks_view((#[trigger] rows@[t]).ctx@) != toks_view(
                    syms@,
                ).subrange(i as int, (i + k) as int),
        },
{
    let mut t: usize = 0;
    while t < rows.len()
        invariant
            t <= rows@.len(),
            i + k <= syms@.len(),
            forall|p: int| 0 <= p < rows@.len() ==> (#[trigger] rows@[p]).ctx@.len() == k,
            forall|p: int|
                0 <= p < t ==> toks_view((#[trigger] rows@[p]).ctx@) != toks_view(syms@).subrange(
                    i as int,
                    (i + k) as int,
                ),
        decreases rows@.len() - t,
    {
        if ctx_matches(&rows[t], syms, i, k) {
            return Some(t);
        }
        t = t + 1;
    }
    None
}

/// The first recorded successor entry for symbol `t`, if any.
#[verifier::loop_isolation(false)]
fn find_succ(succs: &Vec<SuccEntry>, t: &Tok) -> (r: Option<usize>)
    ensures
        match r {
            Some(j) => j < succs@.len() && succs@[j as int].tok@ == t@,
            None => forall|p: int| 0 <= p < succs@.len() ==> (#[trigger] succs@[p]).tok@ != t@,
        },
{
    let mut j: usize = 0;
    while j < succs.len()
        invariant
            j <= succs@.len(),
            forall|p: int| 0 <= p < j ==> (#[trigger] succs@[p]).tok@ != t@,
        decreases succs@.len() - j,
    {
        if succs[j].tok.sym_eq(t) {
            return Some(j);
        }
        j = j + 1;
    }
    None
}

} // verus!
