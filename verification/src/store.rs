//! The model store: one chain per tracked entity.
//!
//! The store owns every chain. It is built afresh by `regenerate` (so a
//! rebuild never mixes with prior state: the caller swaps the whole value),
//! fed page by page from history, fed live one message at a time, asked for
//! generated texts, and saved and loaded as one image per entity.

use vstd::prelude::*;

use crate::STORE_ORDER;
use crate::chain::{Chain, ChainV, has_sample, spec_feed, spec_loadable, start_ctx};
use crate::codec::{spec_decode, spec_encode};
use crate::config::GenerationParams;
use crate::entropy::rand_below;
use crate::errors::ModelError;
use crate::filter::spec_accept;
use crate::token::tokenize;

verus! {

/// Whether `c` is a decimal digit.
pub open spec fn is_digit(c: char) -> bool {
    48 <= c as u32 <= 57
}

pub open spec fn all_digits(s: Seq<char>) -> bool {
    forall|i: int| 0 <= i < s.len() ==> is_digit(#[trigger] s[i])
}

pub open spec fn digit_val(c: char) -> nat {
    ((c as int) - 48) as nat
}

/// The number a digit string names.
pub open spec fn str_val(s: Seq<char>) -> nat
    decreases s.len(),
{
    if s.len() == 0 {
        0
    } else {
        str_val(s.drop_last()) * 10 + digit_val(s.last())
    }
}

proof fn lemma_str_val_mono(s: Seq<char>, i: int)
    requires
        0 <= i <= s.len(),
    ensures
        str_val(s) >= str_val(s.take(i)),
    decreases s.len() - i,
{
    if i < s.len() {
        lemma_str_val_mono(s, i + 1);
        assert(s.take(i + 1).drop_last() =~= s.take(i));
        assert(str_val(s.take(i + 1)) == str_val(s.take(i)) * 10 + digit_val(s[i]));
    } else {
        assert(s.take(i) =~= s);
    }
}

/// The entity id a persisted file name carries: the whole name must be
/// decimal digits naming a number the id type can hold; anything else is
/// ignored by the loader.
#[verifier::loop_isolation(false)]
pub fn parse_entity_id(name: &str) -> (r: Option<u64>)
    ensures
        match r {
            Some(v) => name@.len() >= 1 && all_digits(name@) && str_val(name@) == v as nat,
            None => name@.len() == 0 || !all_digits(name@) || str_val(name@) > u64::MAX,
        },
{
    let n = name.unicode_len();
    if n == 0 {
        return None;
    }
    let mut acc: u128 = 0;
    let mut i: usize = 0;
    while i < n
        invariant
            i <= n,
            n == name@.len(),
            forall|p: int| 0 <= p < i ==> is_digit(#[trigger] name@[p]),
            acc as nat == str_val(name@.take(i as int)),
            acc <= u64::MAX as u128,
        decreases n - i,
    {
        let c = name.get_char(i);
        let cu = c as u32;
        if !(cu >= 48 && cu <= 57) {
            proof {
                assert(!is_digit(name@[i as int]));
            }
            return None;
        }
        let d = cu - 48;
        acc = acc * 10 + (d as u128);
        proof {
            assert(name@.take(i + 1 as int).drop_last() =~= name@.take(i as int));
            assert(name@.take(i + 1 as int).last() == name@[i as int]);
            assert(acc as nat == str_val(name@.take(i + 1 as int)));
        }
        if acc > u64::MAX as u128 {
            proof {
                lemma_str_val_mono(name@, i + 1);
                assert(name@.take(n as int) =~= name@);
                assert(str_val(name@) > u64::MAX);
            }
            return None;
        }
        i = i + 1;
    }
    proof {
        assert(name@.take(n as int) =~= name@);
    }
    Some(acc as u64)
}

/// One retrieved historical message: its author, its text, and the marker
/// that pagination continues from.
pub struct HistoryMessage {
    pub author: u64,
    pub content: String,
    pub marker: u64,
}

/// One tracked entity and its chain.
#[derive(Debug)]
pub struct UserEntry {
    pub id: u64,
    pub chain: Chain,
}

/// The store of all entities' chains.
#[derive(Debug)]
pub struct UserChains {
    users: Vec<UserEntry>,
}

/// The abstract state of an untrained chain of the store's order.
pub open spec fn empty_chain_v() -> ChainV {
    ChainV { k: STORE_ORDER as nat, table: Map::empty() }
}

/// The map described by an entry list.
pub open spec fn store_map(es: Seq<UserEntry>) -> Map<u64, ChainV>
    decreases es.len(),
{
    if es.len() == 0 {
        Map::empty()
    } else {
        store_map(es.drop_last()).insert(es.last().id, es.last().chain@)
    }
}

pub open spec fn ids_distinct(es: Seq<UserEntry>) -> bool {
    forall|i: int, j: int| 0 <= i < j < es.len() ==> es[i].id != es[j].id
}

impl View for UserChains {
    type V = Map<u64, ChainV>;

    closed spec fn view(&self) -> Map<u64, ChainV> {
        store_map(self.users@)
    }
}

proof fn lemma_store_index(es: Seq<UserEntry>, i: int)
    requires
        ids_distinct(es),
        0 <= i < es.len(),
    ensures
        store_map(es).contains_key(es[i].id),
        store_map(es)[es[i].id] == es[i].chain@,
    decreases es.len(),
{
    if i < es.len() - 1 {
        lemma_store_index(es.drop_last(), i);
    }
}

proof fn lemma_store_dom(es: Seq<UserEntry>)
    ensures
        forall|u: u64|
            store_map(es).contains_key(u) ==> exists|i: int|
                0 <= i < es.len() && (#[trigger] es[i]).id == u,
    decreases es.len(),
{
    if es.len() > 0 {
        lemma_store_dom(es.drop_last());
        assert forall|u: u64| store_map(es).contains_key(u) implies exists|i: int|
            0 <= i < es.len() && (#[trigger] es[i]).id == u by {
            if u == es.last().id {
                assert(es[es.len() - 1].id == u);
            } else {
                assert(store_map(es.drop_last()).contains_key(u));
                let i = choose|i: int|
                    0 <= i < es.drop_last().len() && (#[trigger] es.drop_last()[i]).id == u;
                assert(es.drop_last()[i] == es[i]);
                assert(es[i].id == u);
            }
        }
    }
}

proof fn lemma_store_update(es: Seq<UserEntry>, i: int, e: UserEntry)
    requires
        ids_distinct(es),
        0 <= i < es.len(),
        e.id == es[i].id,
    ensures
        store_map(es.update(i, e)) == store_map(es).insert(e.id, e.chain@),
    decreases es.len(),
{
    let es2 = es.update(i, e);
    if i == es.len() - 1 {
        assert(es2.drop_last() =~= es.drop_last());
        assert(store_map(es2) =~= store_map(es).insert(e.id, e.chain@));
    } else {
        lemma_store_update(es.drop_last(), i, e);
        assert(es2.drop_last() =~= es.drop_last().update(i, e));
        assert(es2.last() == es.last());
        assert(es[i].id != es.last().id);
        assert(store_map(es2) =~= store_map(es).insert(e.id, e.chain@));
    }
}

proof fn lemma_store_push(es: Seq<UserEntry>, e: UserEntry)
    ensures
        store_map(es.push(e)) == store_map(es).insert(e.id, e.chain@),
{
    assert(es.push(e).drop_last() =~= es);
}

/// The first entry for `user`, if any.
#[verifier::loop_isolation(false)]
fn find_user(users: &Vec<UserEntry>, user: u64) -> (r: Option<usize>)
    ensures
        match r {
            Some(i) => i < users@.len() && users@[i as int].id == user,
            None => forall|p: int| 0 <= p < users@.len() ==> (#[trigger] users@[p]).id != user,
        },
{
    let mut i: usize = 0;
    while i < users.len()
        invariant
            i <= users@.len(),
            forall|p: int| 0 <= p < i ==> (#[trigger] users@[p]).id != user,
        decreases users@.len() - i,
    {
        if users[i].id == user {
            return Some(i);
        }
        i = i + 1;
    }
    None
}

/// What one message does to the store: its author's chain is fed when the
/// filter accepts the text and the author is tracked; otherwise nothing.
pub open spec fn ingest_step(
    m: Map<u64, ChainV>,
    author: u64,
    txt: Seq<char>,
    minw: nat,
    drop_tags: bool,
) -> Map<u64, ChainV> {
    if spec_accept(txt, minw, drop_tags) && m.contains_key(author) {
        m.insert(author, spec_feed(m[author], tokenize(txt)))
    } else {
        m
    }
}

pub open spec fn msg_deep(m: HistoryMessage) -> (u64, Seq<char>) {
    (m.author, m.content@)
}

pub open spec fn page_deep(p: Seq<HistoryMessage>) -> Seq<(u64, Seq<char>)> {
    p.map_values(|m: HistoryMessage| msg_deep(m))
}

/// What one page of messages, processed in order, does to the store.
pub open spec fn spec_ingest(
    m: Map<u64, ChainV>,
    page: Seq<(u64, Seq<char>)>,
    minw: nat,
    drop_tags: bool,
) -> Map<u64, ChainV>
    decreases page.len(),
{
    if page.len() == 0 {
        m
    } else {
        ingest_step(
            spec_ingest(m, page.drop_last(), minw, drop_tags),
            page.last().0,
            page.last().1,
            minw,
            drop_tags,
        )
    }
}

impl UserChains {
    pub closed spec fn wf(&self) -> bool {
        &&& ids_distinct(self.users@)
        &&& forall|i: int| 0 <= i < self.users@.len() ==> (#[trigger] self.users@[i]).chain.wf()
    }

    /// The tracked ids, in the store's order.
    pub closed spec fn ids_v(&self) -> Seq<u64> {
        self.users@.map_values(|e: UserEntry| e.id)
    }

    /// The tracked ids are exactly the map's domain.
    pub proof fn lemma_dom_ids(&self)
        requires
            self.wf(),
        ensures
            forall|u: u64| self@.contains_key(u) <==> self.ids_v().contains(u),
            forall|i: int, j: int|
                0 <= i < j < self.ids_v().len() ==> self.ids_v()[i] != self.ids_v()[j],
    {
        assert forall|i: int, j: int|
            0 <= i < j < self.ids_v().len() implies self.ids_v()[i] != self.ids_v()[j] by {
            assert(self.ids_v()[i] == self.users@[i].id);
            assert(self.ids_v()[j] == self.users@[j].id);
        }
        lemma_store_dom(self.users@);
        assert forall|u: u64| self@.contains_key(u) implies self.ids_v().contains(u) by {
            let i = choose|i: int|
                0 <= i < self.users@.len() && (#[trigger] self.users@[i]).id == u;
            assert(self.ids_v()[i] == u);
        }
        assert forall|u: u64| self.ids_v().contains(u) implies self@.contains_key(u) by {
            let i = choose|i: int| 0 <= i < self.ids_v().len() && self.ids_v()[i] == u;
            assert(self.users@[i].id == u);
            lemma_store_index(self.users@, i);
        }
    }

    /// A fresh store tracking exactly the given entities, every chain
    /// untrained. A rebuild constructs a new store from scratch; the caller
    /// replaces its whole store value, so a reader holds either the old
    /// store or the new one, never a mixture.
    #[verifier::loop_isolation(false)]
    pub fn regenerate(entities: &Vec<u64>) -> (s: UserChains)
        ensures
            s.wf(),
            forall|i: int| 0 <= i < entities@.len() ==> s@.contains_key(#[trigger] entities@[i]),
            forall|u: u64| s@.contains_key(u) ==> entities@.contains(u),
            forall|u: u64| s@.contains_key(u) ==> s@[u] == empty_chain_v(),
    {
        let mut users: Vec<UserEntry> = Vec::new();
        let mut i: usize = 0;
        while i < entities.len()
            invariant
                i <= entities@.len(),
                ids_distinct(users@),
                forall|p: int| 0 <= p < users@.len() ==> (#[trigger] users@[p]).chain.wf(),
                forall|p: int|
                    0 <= p < i ==> store_map(users@).contains_key(#[trigger] entities@[p]),
                forall|u: u64|
                    store_map(users@).contains_key(u) ==> entities@.subrange(0, i as int).contains(
                        u,
                    ),
                forall|u: u64|
                    store_map(users@).contains_key(u) ==> store_map(users@)[u]
                        == empty_chain_v(),
            decreases entities@.len() - i,
        {
            let id = entities[i];
            match find_user(&users, id) {
                Some(j) => {
                    proof {
                        lemma_store_index(users@, j as int);
                    }
                },
                None => {
                    let ghost es0 = users@;
                    let c = Chain::new(STORE_ORDER);
                    let e = UserEntry { id, chain: c };
                    proof {
                        lemma_store_push(es0, e);
                    }
                    users.push(e);
                    proof {
                        lemma_store_dom(users@);
                        assert(users@.drop_last() =~= es0);
                        assert(e.chain@ =~= empty_chain_v());
                    }
                },
            }
            proof {
                assert(entities@.subrange(0, i + 1 as int)[i as int] == entities@[i as int]);
                assert(entities@.subrange(0, i + 1 as int).contains(entities@[i as int]));
                assert forall|u: u64| store_map(users@).contains_key(u) implies entities@.subrange(
                    0,
                    i + 1 as int,
                ).contains(u) by {
                    if entities@.subrange(0, i as int).contains(u) {
                        let q = choose|q: int|
                            0 <= q < i && entities@.subrange(0, i as int)[q] == u;
                        assert(entities@.subrange(0, i + 1 as int)[q] == u);
                    }
                }
            }
            i = i + 1;
        }
        proof {
            assert(entities@.subrange(0, entities@.len() as int) =~= entities@);
        }
        let s = UserChains { users };
        s
    }

    /// The tracked entity ids, each exactly once.
    #[verifier::loop_isolation(false)]
    pub fn user_ids(&self) -> (r: Vec<u64>)
        requires
            self.wf(),
        ensures
            r@ == self.ids_v(),
            forall|i: int, j: int| 0 <= i < j < r@.len() ==> r@[i] != r@[j],
    {
        proof {
            assert forall|i: int, j: int|
                0 <= i < j < self.ids_v().len() implies self.ids_v()[i] != self.ids_v()[j] by {
                assert(self.ids_v()[i] == self.users@[i].id);
                assert(self.ids_v()[j] == self.users@[j].id);
            }
        }
        let mut r: Vec<u64> = Vec::new();
        let mut i: usize = 0;
        while i < self.users.len()
            invariant
                i <= self.users@.len(),
                r@ =~= self.ids_v().take(i as int),
            decreases self.users@.len() - i,
        {
            r.push(self.users[i].id);
            i = i + 1;
        }
        proof {
            assert(self.ids_v().take(self.users@.len() as int) =~= self.ids_v());
        }
        r
    }

    /// How many entities have chains.
    pub fn count_users(&self) -> (r: usize)
        ensures
            r == self.ids_v().len(),
    {
        self.users.len()
    }

    /// Feeds one live message to `user`'s chain; an untracked author is
    /// silently ignored.
    pub fn feed(&mut self, user: u64, text: &str)
        requires
            old(self).wf(),
        ensures
            final(self).wf(),
            final(self)@ == (if old(self)@.contains_key(user) {
                old(self)@.insert(user, spec_feed(old(self)@[user], tokenize(text@)))
            } else {
                old(self)@
            }),
            final(self).ids_v() == old(self).ids_v(),
    {
        let ghost es0 = self.users@;
        match find_user(&self.users, user) {
            None => {
                proof {
                    lemma_store_dom(es0);
                    if self@.contains_key(user) {
                        let w = choose|i: int|
                            0 <= i < es0.len() && (#[trigger] es0[i]).id == user;
                        assert(es0[w].id == user);
                        assert(false);
                    }
                }
            },
            Some(idx) => {
                proof {
                    lemma_store_index(es0, idx as int);
                }
                self.users[idx].chain.feed(text);
                proof {
                    let e1 = self.users@[idx as int];
                    assert(self.users@ =~= es0.update(idx as int, e1));
                    lemma_store_update(es0, idx as int, e1);
                    assert(e1.chain@ =~= spec_feed(store_map(es0)[user], tokenize(text@)));
                    assert(store_map(self.users@) =~= store_map(es0).insert(
                        user,
                        spec_feed(store_map(es0)[user], tokenize(text@)),
                    ));
                    assert(self.ids_v() =~= es0.map_values(|e: UserEntry| e.id));
                }
            },
        }
    }

    /// Feeds one page of history, in order: each message surviving the
    /// filter trains its author's chain, authors that are not tracked are
    /// dropped silently.
    #[verifier::loop_isolation(false)]
    pub fn ingest_page(&mut self, page: &Vec<HistoryMessage>, params: &GenerationParams)
        requires
            old(self).wf(),
        ensures
            final(self).wf(),
            final(self)@ == spec_ingest(
                old(self)@,
                page_deep(page@),
                params.min_words as nat,
                params.include_tag_only,
            ),
            final(self).ids_v() == old(self).ids_v(),
    {
        let ghost m0 = self@;
        let ghost pd = page_deep(page@);
        let ghost minw = params.min_words as nat;
        let ghost dt = params.include_tag_only;
        let mut i: usize = 0;
        while i < page.len()
            invariant
                i <= page@.len(),
                self.wf(),
                self@ == spec_ingest(m0, pd.take(i as int), minw, dt),
                self.ids_v() == old(self).ids_v(),
            decreases page@.len() - i,
        {
            let accepted = crate::filter::accept(page[i].content.as_str(), params);
            if accepted {
                self.feed(page[i].author, page[i].content.as_str());
            }
            proof {
                let pre = pd.take(i as int);
                let cur = pd.take(i + 1 as int);
                assert(cur.drop_last() =~= pre);
                assert(cur.last() == pd[i as int]);
                assert(pd[i as int] == msg_deep(page@[i as int]));
                assert(self@ == spec_ingest(m0, cur, minw, dt));
            }
            i = i + 1;
        }
        proof {
            assert(pd.take(page@.len() as int) =~= pd);
        }
    }

    /// Where pagination continues: strictly before the oldest message of
    /// this page, or nowhere when the page is empty.
    pub fn next_cursor(page: &Vec<HistoryMessage>) -> (r: Option<u64>)
        ensures
            match r {
                Some(m) => page@.len() > 0 && m == page@.last().marker,
                None => page@.len() == 0,
            },
    {
        if page.len() == 0 {
            None
        } else {
            Some(page[page.len() - 1].marker)
        }
    }

    /// One generated text for `user`, when the user is tracked and the
    /// chain has training data.
    pub fn make_message(&self, user: u64) -> (r: Option<String>)
        requires
            self.wf(),
        ensures
            match r {
                Some(t) => self@.contains_key(user) && self@[user].table.contains_key(
                    start_ctx(self@[user].k),
                ) && has_sample(self@[user], t@),
                None => !self@.contains_key(user) || !self@[user].table.contains_key(
                    start_ctx(self@[user].k),
                ),
            },
    {
        match find_user(&self.users, user) {
            None => {
                proof {
                    lemma_store_dom(self.users@);
                }
                None
            },
            Some(idx) => {
                proof {
                    lemma_store_index(self.users@, idx as int);
                }
                match self.users[idx].chain.generate_one() {
                    Ok(t) => Some(t),
                    Err(_) => None,
                }
            },
        }
    }

    /// Up to `count` generated texts for `user`: `NotTracked` for an
    /// unknown id, `EmptyModel` for a tracked entity whose chain has no
    /// training data, and exactly `count` sampled texts otherwise.
    pub fn generate_for(&self, user: u64, count: usize) -> (r: Result<Vec<String>, ModelError>)
        requires
            self.wf(),
        ensures
            match r {
                Ok(v) => self@.contains_key(user) && self@[user].table.contains_key(
                    start_ctx(self@[user].k),
                ) && v@.len() == count && forall|i: int|
                    0 <= i < v@.len() ==> has_sample(self@[user], (#[trigger] v@[i])@),
                Err(ModelError::NotTracked) => !self@.contains_key(user),
                Err(ModelError::EmptyModel) => self@.contains_key(user)
                    && !self@[user].table.contains_key(start_ctx(self@[user].k)),
                Err(ModelError::IoError) => false,
            },
    {
        match find_user(&self.users, user) {
            None => {
                proof {
                    lemma_store_dom(self.users@);
                }
                Err(ModelError::NotTracked)
            },
            Some(idx) => {
                proof {
                    lemma_store_index(self.users@, idx as int);
                }
                match self.users[idx].chain.generate_n(count) {
                    Ok(v) => Ok(v),
                    Err(e) => {
                        proof {
                            assert(e == ModelError::EmptyModel);
                        }
                        Err(e)
                    },
                }
            },
        }
    }

    /// `length` generated texts for `user`, when the user is tracked and
    /// the chain has training data.
    pub fn message_iter(&self, user: u64, length: usize) -> (r: Option<Vec<String>>)
        requires
            self.wf(),
        ensures
            match r {
                Some(v) => self@.contains_key(user) && v@.len() == length && forall|i: int|
                    0 <= i < v@.len() ==> has_sample(self@[user], (#[trigger] v@[i])@),
                None => !self@.contains_key(user) || !self@[user].table.contains_key(
                    start_ctx(self@[user].k),
                ),
            },
    {
        match self.generate_for(user, length) {
            Ok(v) => Some(v),
            Err(_) => None,
        }
    }

    /// Which mentioned entities answer: those that are tracked and whose
    /// chain has training data.
    pub open spec fn answers(&self) -> spec_fn(u64) -> bool {
        |u: u64|
            self@.contains_key(u) && self@[u].table.contains_key(start_ctx(self@[u].k))
    }

    /// The generation session behind a mention event: exactly the
    /// mentioned entities that are tracked and trained answer, in the
    /// given order, each with a small random number of texts — at least
    /// `lo`, fewer than `hi` — generated from that entity's chain. The
    /// store is not changed.
    #[verifier::loop_isolation(false)]
    pub fn on_mention_event(&self, mentioned: &Vec<u64>, lo: usize, hi: usize) -> (r: Vec<
        (u64, Vec<String>),
    >)
        requires
            self.wf(),
            1 <= lo < hi,
        ensures
            r@.map_values(|e: (u64, Vec<String>)| e.0) == mentioned@.filter(self.answers()),
            forall|q: int|
                0 <= q < r@.len() ==> {
                    let (u, texts) = #[trigger] r@[q];
                    &&& self@.contains_key(u)
                    &&& lo <= texts@.len() < hi
                    &&& forall|t: int|
                        0 <= t < texts@.len() ==> has_sample(self@[u], (#[trigger] texts@[t])@)
                },
    {
        let ghost pred = self.answers();
        let mut r: Vec<(u64, Vec<String>)> = Vec::new();
        let mut i: usize = 0;
        while i < mentioned.len()
            invariant
                i <= mentioned@.len(),
                r@.map_values(|e: (u64, Vec<String>)| e.0) == mentioned@.take(i as int).filter(
                    pred,
                ),
                pred == self.answers(),
                forall|q: int|
                    0 <= q < r@.len() ==> {
                        let (u, texts) = #[trigger] r@[q];
                        &&& self@.contains_key(u)
                        &&& lo <= texts@.len() < hi
                        &&& forall|t: int|
                            0 <= t < texts@.len() ==> has_sample(
                                self@[u],
                                (#[trigger] texts@[t])@,
                            )
                    },
            decreases mentioned@.len() - i,
        {
            let u = mentioned[i];
            let span = (hi - lo) as u128;
            let draw = rand_below(span);
            proof {
                assert(draw < span);
            }
            let count = lo + (draw as usize);
            let ghost r0 = r@.map_values(|e: (u64, Vec<String>)| e.0);
            match self.generate_for(u, count) {
                Ok(texts) => {
                    proof {
                        assert(pred(u));
                    }
                    r.push((u, texts));
                    proof {
                        assert(r@.map_values(|e: (u64, Vec<String>)| e.0) =~= r0.push(u));
                    }
                },
                Err(_) => {
                    proof {
                        assert(!pred(u));
                    }
                },
            }
            proof {
                let taken = mentioned@.take(i as int);
                assert(mentioned@.take(i + 1 as int) =~= taken.push(u));
                taken.lemma_filter_push(u, pred);
            }
            i = i + 1;
        }
        proof {
            assert(mentioned@.take(mentioned@.len() as int) =~= mentioned@);
        }
        r
    }

    /// The order of the chain at position `i` of the store.
    pub closed spec fn chain_k_at(&self, i: int) -> nat {
        self.users@[i].chain@.k
    }

    /// The row content of the chain at position `i`; the persisted image
    /// is stated over this.
    pub closed spec fn chain_rows_at(&self, i: int) -> Seq<crate::chain::RowV> {
        self.users@[i].chain.rows_v()
    }

    /// The chain at position `i` backs the id at position `i` of the map.
    pub proof fn lemma_chain_at(&self, i: int)
        requires
            self.wf(),
            0 <= i < self.ids_v().len(),
        ensures
            self@.contains_key(self.ids_v()[i]),
            self@[self.ids_v()[i]].k == self.chain_k_at(i),
    {
        lemma_store_index(self.users@, i);
    }

    /// The persisted image of every chain, one entry per entity, in the
    /// store's order: the ids are pairwise distinct, and each image is one
    /// the loader accepts, decoding to exactly that chain's order and
    /// rows. Loading what save returned therefore succeeds and rebuilds
    /// the same content.
    #[verifier::loop_isolation(false)]
    pub fn save(&self) -> (r: Vec<(u64, Vec<u8>)>)
        requires
            self.wf(),
        ensures
            r@.len() == self.ids_v().len(),
            forall|i: int|
                0 <= i < r@.len() ==> (#[trigger] r@[i]).0 == self.ids_v()[i] && r@[i].1@
                    == spec_encode(self.chain_k_at(i), self.chain_rows_at(i)) && spec_loadable(
                    r@[i].1@,
                ) && spec_decode(r@[i].1@) == Some((self.chain_k_at(i), self.chain_rows_at(i))),
            forall|i: int, j: int| 0 <= i < j < r@.len() ==> r@[i].0 != r@[j].0,
    {
        let mut r: Vec<(u64, Vec<u8>)> = Vec::new();
        let mut i: usize = 0;
        while i < self.users.len()
            invariant
                i <= self.users@.len(),
                r@.len() == i,
                forall|p: int|
                    0 <= p < i ==> (#[trigger] r@[p]).0 == self.ids_v()[p] && r@[p].1@
                        == spec_encode(self.chain_k_at(p), self.chain_rows_at(p))
                        && spec_loadable(r@[p].1@) && spec_decode(r@[p].1@) == Some(
                        (self.chain_k_at(p), self.chain_rows_at(p)),
                    ),
            decreases self.users@.len() - i,
        {
            let bytes = self.users[i].chain.save();
            proof {
                let c = self.users@[i as int].chain;
                c.lemma_save_load_roundtrip();
            }
            r.push((self.users[i].id, bytes));
            i = i + 1;
        }
        proof {
            assert forall|i: int, j: int| 0 <= i < j < r@.len() implies r@[i].0 != r@[j].0 by {
                assert(self.ids_v()[i] == self.users@[i].id);
                assert(self.ids_v()[j] == self.users@[j].id);
            }
        }
        r
    }

    /// Rebuilds a store from per-entity images. The first image that does
    /// not spell out a well-formed chain fails the whole load.
    #[verifier::loop_isolation(false)]
    pub fn load(files: &Vec<(u64, Vec<u8>)>) -> (r: Result<UserChains, ModelError>)
        requires
            forall|i: int, j: int|
                0 <= i < j < files@.len() ==> (#[trigger] files@[i]).0 != (
                #[trigger] files@[j]).0,
        ensures
            match r {
                Ok(s) => {
                    &&& s.wf()
                    &&& s.ids_v().len() == files@.len()
                    &&& forall|i: int|
                        0 <= i < files@.len() ==> s.ids_v()[i] == (#[trigger] files@[i]).0
                            && spec_loadable(files@[i].1@) && spec_decode(files@[i].1@) == Some(
                            (s.chain_k_at(i), s.chain_rows_at(i)),
                        )
                },
                Err(e) => e == ModelError::IoError && exists|i: int|
                    0 <= i < files@.len() && !spec_loadable((#[trigger] files@[i]).1@),
            },
    {
        let mut users: Vec<UserEntry> = Vec::new();
        let mut i: usize = 0;
        while i < files.len()
            invariant
                i <= files@.len(),
                users@.len() == i,
                forall|p: int| 0 <= p < i ==> (#[trigger] users@[p]).id == files@[p].0,
                forall|p: int| 0 <= p < i ==> (#[trigger] users@[p]).chain.wf(),
                forall|p: int|
                    0 <= p < i ==> spec_loadable((#[trigger] files@[p]).1@) && spec_decode(
                        files@[p].1@,
                    ) == Some((users@[p].chain@.k, users@[p].chain.rows_v())),
            decreases files@.len() - i,
        {
            match Chain::load(&files[i].1) {
                Err(e) => {
                    proof {
                        assert(!spec_loadable(files@[i as int].1@));
                    }
                    return Err(ModelError::IoError);
                },
                Ok(c) => {
                    users.push(UserEntry { id: files[i].0, chain: c });
                },
            }
            i = i + 1;
        }
        let s = UserChains { users };
        proof {
            assert(ids_distinct(s.users@));
            assert(s.ids_v() =~= files@.map_values(|f: (u64, Vec<u8>)| f.0));
            assert forall|p: int| 0 <= p < files@.len() implies s.ids_v()[p] == (
            #[trigger] files@[p]).0 by {}
        }
        Ok(s)
    }
}

} // verus!
