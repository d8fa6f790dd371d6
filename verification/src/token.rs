//! Tokens and tokenization.
//!
//! A token is a maximal run of non-whitespace characters. The model is
//! agnostic to tokenization granularity as long as feeding and generation
//! agree, so whitespace here is the ASCII kind. `Sym` is the mathematical
//! alphabet of the transition model: the two boundary sentinels plus words;
//! `Tok` is its executable counterpart.

use vstd::prelude::*;

verus! {

/// A symbol of the transition model, at the specification level: the
/// sentinel that precedes every text, the sentinel that closes it, or an
/// ordinary word given by its characters.
pub enum Sym {
    Start,
    End,
    Word(Seq<char>),
}

/// A symbol of the transition model, at the executable level.
#[derive(Debug)]
pub enum Tok {
    Start,
    End,
    Word(String),
}

impl View for Tok {
    type V = Sym;

    open spec fn view(&self) -> Sym {
        match self {
            Tok::Start => Sym::Start,
            Tok::End => Sym::End,
            Tok::Word(s) => Sym::Word(s@),
        }
    }
}

impl Tok {
    /// An owned symbol with the same view.
    pub fn dup(&self) -> (r: Tok)
        ensures
            r@ == self@,
    {
        match self {
            Tok::Start => Tok::Start,
            Tok::End => Tok::End,
            Tok::Word(s) => Tok::Word(s.clone()),
        }
    }

    /// Whether two symbols are the same.
    pub fn sym_eq(&self, other: &Tok) -> (r: bool)
        ensures
            r == (self@ == other@),
    {
        match self {
            Tok::Start => match other {
                Tok::Start => true,
                _ => false,
            },
            Tok::End => match other {
                Tok::End => true,
                _ => false,
            },
            Tok::Word(a) => match other {
                Tok::Word(b) => a.eq(b),
                _ => false,
            },
        }
    }
}

/// The symbols of a token sequence.
pub open spec fn toks_view(ts: Seq<Tok>) -> Seq<Sym> {
    ts.map_values(|t: Tok| t@)
}

pub open spec fn is_space(c: char) -> bool {
    c == ' ' || c == '\t' || c == '\n' || c == '\r'
}

/// The least whitespace-free position at or after `i`, or the length.
pub open spec fn skip_ws(s: Seq<char>, i: int) -> int
    decreases s.len() - i,
{
    if i >= s.len() {
        s.len() as int
    } else if is_space(s[i]) {
        skip_ws(s, i + 1)
    } else {
        i
    }
}

/// The least whitespace position at or after `i`, or the length.
pub open spec fn token_end(s: Seq<char>, i: int) -> int
    decreases s.len() - i,
{
    if i >= s.len() {
        s.len() as int
    } else if is_space(s[i]) {
        i
    } else {
        token_end(s, i + 1)
    }
}

pub proof fn lemma_skip_ws(s: Seq<char>, i: int)
    requires
        0 <= i <= s.len(),
    ensures
        i <= skip_ws(s, i) <= s.len(),
        skip_ws(s, i) < s.len() ==> !is_space(s[skip_ws(s, i)]),
        forall|p: int| i <= p < skip_ws(s, i) ==> is_space(#[trigger] s[p]),
    decreases s.len() - i,
{
    if i < s.len() && is_space(s[i]) {
        lemma_skip_ws(s, i + 1);
    }
}

pub proof fn lemma_token_end(s: Seq<char>, i: int)
    requires
        0 <= i <= s.len(),
    ensures
        i <= token_end(s, i) <= s.len(),
        token_end(s, i) < s.len() ==> is_space(s[token_end(s, i)]),
        forall|p: int| i <= p < token_end(s, i) ==> !is_space(#[trigger] s[p]),
    decreases s.len() - i,
{
    if i < s.len() && !is_space(s[i]) {
        lemma_token_end(s, i + 1);
    }
}

/// `token_end` is pinned down by its characterization.
pub proof fn lemma_token_end_unique(s: Seq<char>, i: int, e: int)
    requires
        0 <= i <= e <= s.len(),
        forall|p: int| i <= p < e ==> !is_space(#[trigger] s[p]),
        e == s.len() || is_space(s[e]),
    ensures
        token_end(s, i) == e,
    decreases e - i,
{
    if i < e {
        lemma_token_end_unique(s, i + 1, e);
    }
}

/// The tokens of `s` from position `i` on.
pub open spec fn tokens_from(s: Seq<char>, i: int) -> Seq<Seq<char>>
    decreases s.len() - i,
    when i >= 0
    via tokens_from_dec
{
    let j = skip_ws(s, i);
    if j >= s.len() {
        Seq::empty()
    } else {
        seq![s.subrange(j, token_end(s, j))] + tokens_from(s, token_end(s, j))
    }
}

#[via_fn]
proof fn tokens_from_dec(s: Seq<char>, i: int) {
    if 0 <= i <= s.len() {
        lemma_skip_ws(s, i);
        let j = skip_ws(s, i);
        if j < s.len() {
            lemma_token_end(s, j);
        }
    }
}

/// The whitespace-delimited tokens of `s`, in order.
pub open spec fn tokenize(s: Seq<char>) -> Seq<Seq<char>> {
    tokens_from(s, 0)
}

/// A position whose character is whitespace contributes no token.
pub proof fn lemma_tokens_from_space(s: Seq<char>, i: int)
    requires
        0 <= i < s.len(),
        is_space(s[i]),
    ensures
        tokens_from(s, i) == tokens_from(s, i + 1),
{
}

/// At a non-whitespace position the head token runs to `token_end`.
pub proof fn lemma_tokens_from_word(s: Seq<char>, i: int)
    requires
        0 <= i < s.len(),
        !is_space(s[i]),
    ensures
        tokens_from(s, i) == seq![s.subrange(i, token_end(s, i))] + tokens_from(
            s,
            token_end(s, i),
        ),
{
    lemma_token_end(s, i);
    assert(skip_ws(s, i) == i);
}

/// Every token is a stretch of the text, so no longer than the text.
pub proof fn lemma_tokens_len(s: Seq<char>, i: int)
    requires
        0 <= i <= s.len(),
    ensures
        forall|t: int|
            0 <= t < tokens_from(s, i).len() ==> (#[trigger] tokens_from(s, i)[t]).len()
                <= s.len(),
    decreases s.len() - i,
{
    lemma_skip_ws(s, i);
    let j = skip_ws(s, i);
    if j < s.len() {
        lemma_token_end(s, j);
        let e = token_end(s, j);
        lemma_tokens_len(s, e);
        let w0 = s.subrange(j, e);
        let all = tokens_from(s, i);
        let rest = tokens_from(s, e);
        assert(all == seq![w0] + rest);
        assert forall|t: int| 0 <= t < all.len() implies (#[trigger] all[t]).len() <= s.len() by {
            if t == 0 {
                assert(all[t] == w0);
            } else {
                assert(all[t] == rest[t - 1]);
            }
        }
    }
}

fn is_space_x(c: char) -> (b: bool)
    ensures
        b == is_space(c),
{
    c == ' ' || c == '\t' || c == '\n' || c == '\r'
}

/// Splits `s` into its whitespace-delimited tokens.
pub fn tokenize_str(s: &str) -> (toks: Vec<String>)
    ensures
        toks.deep_view() == tokenize(s@),
        s@.len() <= usize::MAX,
{
    let n = s.unicode_len();
    let mut toks: Vec<String> = Vec::new();
    let mut i: usize = 0;
    while i < n
        invariant
            i <= n,
            n == s@.len(),
            toks.deep_view() + tokens_from(s@, i as int) =~= tokenize(s@),
        decreases n - i,
    {
        let c = s.get_char(i);
        if is_space_x(c) {
            proof {
                lemma_tokens_from_space(s@, i as int);
            }
            i = i + 1;
        } else {
            let start = i;
            let mut e = i + 1;
            while e < n && !is_space_x(s.get_char(e))
                invariant
                    start < e <= n,
                    n == s@.len(),
                    forall|p: int| start <= p < e ==> !is_space(#[trigger] s@[p]),
                decreases n - e,
            {
                e = e + 1;
            }
            proof {
                lemma_token_end_unique(s@, start as int, e as int);
                lemma_tokens_from_word(s@, start as int);
            }
            let w = s.substring_char(start, e).to_owned();
            let ghost old_toks = toks.deep_view();
            toks.push(w);
            proof {
                assert(toks.deep_view() =~= old_toks.push(w@));
                assert(toks.deep_view() + tokens_from(s@, e as int) =~= tokenize(s@));
            }
            i = e;
        }
    }
    proof {
        assert(toks.deep_view() =~= tokenize(s@));
    }
    toks
}

/// The texts' tokens joined by single spaces.
pub open spec fn join_spec(ws: Seq<Seq<char>>) -> Seq<char>
    decreases ws.len(),
{
    if ws.len() == 0 {
        Seq::empty()
    } else if ws.len() == 1 {
        ws[0]
    } else {
        join_spec(ws.drop_last()) + seq![' '] + ws.last()
    }
}

/// Joins the given words with single spaces.
pub fn join_words(ws: &Vec<String>) -> (r: String)
    ensures
        r@ == join_spec(ws.deep_view()),
{
    let mut r = String::new();
    let mut i: usize = 0;
    while i < ws.len()
        invariant
            i <= ws.len(),
            r@ == join_spec(ws.deep_view().subrange(0, i as int)),
        decreases ws.len() - i,
    {
        proof {
            reveal_strlit(" ");
        }
        if i > 0 {
            r.append(" ");
        }
        r.append(ws[i].as_str());
        proof {
            let dv = ws.deep_view();
            let pre = dv.subrange(0, i as int);
            let cur = dv.subrange(0, i + 1 as int);
            assert(cur.drop_last() =~= pre);
            assert(cur.last() == dv[i as int]);
            if i == 0 {
                assert(r@ =~= join_spec(cur));
            } else {
                assert(r@ =~= join_spec(cur));
            }
        }
        i = i + 1;
    }
    proof {
        assert(ws.deep_view().subrange(0, ws.len() as int) =~= ws.deep_view());
    }
    r
}

} // verus!
