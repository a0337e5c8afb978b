//! An in-memory model of the vocabulary store.
//!
//! The store keeps a table of words — a text together with a language,
//! unique as a pair, identified by the order of insertion: the word at
//! position `i` carries the id `i + 1` — and a table of links between user
//! ids and word ids.  Inserting resolves each text first and assigns fresh
//! ids only to texts not yet stored; linking never duplicates a pair.

use vstd::prelude::*;
use crate::classify::{contains_word, unknown_filter};
use crate::classify::lemma_known_filter_push;
use crate::tokenizer::str_views;

verus! {

/// The words of a batch that are not yet stored, in batch order: what a
/// bulk insertion still has to add once the existing words are known.
pub fn filter_new_words(words: &Vec<String>, existing: &Vec<String>) -> (r: Vec<String>)
    ensures
        str_views(r@) == unknown_filter(str_views(words@), str_views(existing@)),
{
    let ghost wv = str_views(words@);
    let ghost ev = str_views(existing@);
    let n = words.len();
    let mut r: Vec<String> = Vec::new();
    proof {
        reveal(Seq::filter);
        assert(wv.take(0) =~= Seq::<Seq<char>>::empty());
        assert(unknown_filter(wv.take(0), ev) =~= Seq::<Seq<char>>::empty());
        assert(str_views(r@) =~= Seq::<Seq<char>>::empty());
    }
    let mut i: usize = 0;
    while i < n
        invariant
            n == words@.len(),
            wv == str_views(words@),
            ev == str_views(existing@),
            wv.len() == n,
            i <= n,
            str_views(r@) == unknown_filter(wv.take(i as int), ev),
        decreases n - i,
    {
        let ghost prev = r@;
        proof {
            assert(wv.take(i + 1) =~= wv.take(i as int).push(wv[i as int]));
            assert(wv[i as int] == words@[i as int]@);
            lemma_known_filter_push(wv.take(i as int), ev, wv[i as int]);
        }
        if !contains_word(existing, &words[i]) {
            r.push(words[i].clone());
            proof {
                crate::tokenizer::lemma_str_views_push(prev, r@.last());
                assert(str_views(r@) =~= unknown_filter(wv.take(i + 1), ev));
            }
        } else {
            proof {
                assert(str_views(r@) =~= unknown_filter(wv.take(i + 1), ev));
            }
        }
        i = i + 1;
    }
    proof {
        assert(wv.take(n as int) =~= wv);
    }
    r
}

/// The view of a sequence of (text, id) rows.
pub open spec fn row_views(rs: Seq<(String, u64)>) -> Seq<(Seq<char>, u64)> {
    rs.map_values(|p: (String, u64)| (p.0@, p.1))
}

/// The positional alignment of looked-up rows with a word list: each row's
/// id lands at the first position of its text, later rows win, and
/// positions no row matches stay empty.
pub open spec fn aligned_ids(ws: Seq<Seq<char>>, rows: Seq<(Seq<char>, u64)>) -> Seq<Option<u64>>
    decreases rows.len(),
{
    if rows.len() == 0 {
        Seq::new(ws.len(), |i: int| None)
    } else {
        let prev = aligned_ids(ws, rows.drop_last());
        match ws.index_of_first(rows.last().0) {
            Some(p) => prev.update(p, Some(rows.last().1)),
            None => prev,
        }
    }
}

/// The first position of a word in a list, if any.
fn find_first_word(words: &Vec<String>, t: &String) -> (r: Option<usize>)
    ensures
        match r {
            Some(p) => p < words@.len() && str_views(words@).index_of_first(t@) == Some(p as int),
            None => str_views(words@).index_of_first(t@) is None,
        },
{
    let ghost wv = str_views(words@);
    let n = words.len();
    let mut i: usize = 0;
    while i < n
        invariant
            n == words@.len(),
            wv == str_views(words@),
            wv.len() == n,
            i <= n,
            forall|k: int| 0 <= k < i ==> #[trigger] wv[k] != t@,
        decreases n - i,
    {
        if words[i] == *t {
            proof {
                assert(wv[i as int] == t@);
                assert(wv.contains(t@));
                wv.index_of_first_ensures(t@);
                let idx = wv.index_of_first(t@)->0;
                if idx < i as int {
                    assert(wv[idx] == t@);
                    assert(false);
                }
                if idx > i as int {
                    assert(wv[i as int] != t@);
                    assert(false);
                }
            }
            return Some(i);
        }
        i = i + 1;
    }
    proof {
        wv.index_of_first_ensures(t@);
        if wv.contains(t@) {
            let k = choose|k: int| 0 <= k < wv.len() && wv[k] == t@;
            assert(false);
        }
    }
    None
}

/// Aligns looked-up (text, id) rows with a word list, positionally: for
/// each row the id is placed at the first position carrying its text.
pub fn align_word_ids(words: &Vec<String>, rows: &Vec<(String, u64)>) -> (r: Vec<Option<u64>>)
    ensures
        r@.len() == words@.len(),
        r@ == aligned_ids(str_views(words@), row_views(rows@)),
{
    let ghost wv = str_views(words@);
    let ghost rv = row_views(rows@);
    let n = words.len();
    let m = rows.len();
    let mut r: Vec<Option<u64>> = Vec::new();
    let mut i: usize = 0;
    while i < n
        invariant
            i <= n,
            r@.len() == i,
            forall|k: int| 0 <= k < i ==> r@[k] is None,
        decreases n - i,
    {
        r.push(None);
        i = i + 1;
    }
    proof {
        assert(rv.take(0) =~= Seq::<(Seq<char>, u64)>::empty());
        assert(r@ =~= aligned_ids(wv, rv.take(0)));
    }
    let mut k: usize = 0;
    while k < m
        invariant
            n == words@.len(),
            m == rows@.len(),
            wv == str_views(words@),
            rv == row_views(rows@),
            rv.len() == m,
            k <= m,
            r@.len() == n,
            r@ == aligned_ids(wv, rv.take(k as int)),
        decreases m - k,
    {
        proof {
            assert(rv.take(k + 1).drop_last() =~= rv.take(k as int));
            assert(rv.take(k + 1).last() == rv[k as int]);
            assert(rv[k as int] == (rows@[k as int].0@, rows@[k as int].1));
        }
        match find_first_word(words, &rows[k].0) {
            Some(p) => {
                let id = rows[k].1;
                r[p] = Some(id);
                proof {
                    assert(r@ =~= aligned_ids(wv, rv.take(k + 1)));
                }
            },
            None => {
                proof {
                    assert(r@ =~= aligned_ids(wv, rv.take(k + 1)));
                }
            },
        }
        k = k + 1;
    }
    proof {
        assert(rv.take(m as int) =~= rv);
    }
    r
}

/// The stored words as (text, language) character pairs, in id order.
pub open spec fn wf_words(ws: Seq<(Seq<char>, Seq<char>)>) -> bool {
    forall|i: int, j: int| 0 <= i < j < ws.len() ==> #[trigger] ws[i] != #[trigger] ws[j]
}

/// Links hold no duplicate pair and only valid word ids.
pub open spec fn wf_links(ls: Seq<(u64, u64)>, word_count: nat) -> bool {
    (forall|i: int, j: int| 0 <= i < j < ls.len() ==> #[trigger] ls[i] != #[trigger] ls[j])
        && (forall|i: int| 0 <= i < ls.len() ==> 1 <= (#[trigger] ls[i]).1 <= word_count)
}

/// The id of the first stored word matching text and language from
/// position `i` on, if any.
pub open spec fn lookup_id_from(
    ws: Seq<(Seq<char>, Seq<char>)>,
    t: Seq<char>,
    lang: Seq<char>,
    i: int,
) -> Option<u64>
    decreases ws.len() - i,
        when 0 <= i <= ws.len()
{
    if i >= ws.len() {
        None
    } else if ws[i] == (t, lang) {
        Some((i + 1) as u64)
    } else {
        lookup_id_from(ws, t, lang, i + 1)
    }
}

/// The id under which a text is stored for a language, if any.
pub open spec fn lookup_id(ws: Seq<(Seq<char>, Seq<char>)>, t: Seq<char>, lang: Seq<char>) -> Option<
    u64,
> {
    lookup_id_from(ws, t, lang, 0)
}

pub proof fn lemma_lookup_none(ws: Seq<(Seq<char>, Seq<char>)>, t: Seq<char>, lang: Seq<char>, i: int)
    requires
        0 <= i <= ws.len(),
        lookup_id_from(ws, t, lang, i) is None,
    ensures
        forall|k: int| i <= k < ws.len() ==> #[trigger] ws[k] != (t, lang),
    decreases ws.len() - i,
{
    if i < ws.len() {
        lemma_lookup_none(ws, t, lang, i + 1);
    }
}

pub proof fn lemma_lookup_push_absent(
    ws: Seq<(Seq<char>, Seq<char>)>,
    t: Seq<char>,
    lang: Seq<char>,
    i: int,
)
    requires
        0 <= i <= ws.len(),
        lookup_id_from(ws, t, lang, i) is None,
    ensures
        lookup_id_from(ws.push((t, lang)), t, lang, i) == Some((ws.len() + 1) as u64),
    decreases ws.len() - i,
{
    let ws2 = ws.push((t, lang));
    if i < ws.len() {
        assert(ws2[i] == ws[i]);
        lemma_lookup_push_absent(ws, t, lang, i + 1);
    } else {
        assert(ws2[i] == (t, lang));
    }
}

/// The store after one text is inserted: unchanged when the pair is
/// already there, extended by one word otherwise.
pub open spec fn insert_step(
    ws: Seq<(Seq<char>, Seq<char>)>,
    t: Seq<char>,
    lang: Seq<char>,
) -> Seq<(Seq<char>, Seq<char>)> {
    if lookup_id(ws, t, lang) is Some {
        ws
    } else {
        ws.push((t, lang))
    }
}

/// The word table after a batch of texts is inserted, first to last.
pub open spec fn words_after(
    ws: Seq<(Seq<char>, Seq<char>)>,
    texts: Seq<Seq<char>>,
    lang: Seq<char>,
) -> Seq<(Seq<char>, Seq<char>)>
    decreases texts.len(),
{
    if texts.len() == 0 {
        ws
    } else {
        words_after(insert_step(ws, texts[0], lang), texts.drop_first(), lang)
    }
}

/// The ids assigned to the newly stored texts of a batch, in insertion
/// order; texts already stored get no entry.
pub open spec fn ids_after(
    ws: Seq<(Seq<char>, Seq<char>)>,
    texts: Seq<Seq<char>>,
    lang: Seq<char>,
) -> Seq<u64>
    decreases texts.len(),
{
    if texts.len() == 0 {
        Seq::empty()
    } else if lookup_id(ws, texts[0], lang) is Some {
        ids_after(ws, texts.drop_first(), lang)
    } else {
        seq![(ws.len() + 1) as u64] + ids_after(
            ws.push((texts[0], lang)),
            texts.drop_first(),
            lang,
        )
    }
}

/// An in-memory vocabulary store: words unique per (text, language) with
/// ids given by insertion order, and duplicate-free user/word links.
pub struct VocabStore {
    words: Vec<(String, String)>,
    links: Vec<(u64, u64)>,
}

impl VocabStore {
    /// The stored words, as character sequences, in id order.
    pub closed spec fn words_sv(&self) -> Seq<(Seq<char>, Seq<char>)> {
        self.words@.map_values(|p: (String, String)| (p.0@, p.1@))
    }

    /// The stored links, as (user id, word id) pairs, in insertion order.
    pub closed spec fn links_sv(&self) -> Seq<(u64, u64)> {
        self.links@
    }

    pub open spec fn wf(&self) -> bool {
        wf_words(self.words_sv()) && wf_links(self.links_sv(), self.words_sv().len())
    }

    /// An empty store.
    pub fn new() -> (r: Self)
        ensures
            r.wf(),
            r.words_sv() == Seq::<(Seq<char>, Seq<char>)>::empty(),
            r.links_sv() == Seq::<(u64, u64)>::empty(),
    {
        let r = VocabStore { words: Vec::new(), links: Vec::new() };
        proof {
            assert(r.words_sv() =~= Seq::<(Seq<char>, Seq<char>)>::empty());
        }
        r
    }

    /// The number of stored words.
    pub fn word_count(&self) -> (r: usize)
        ensures
            r == self.words_sv().len(),
    {
        self.words.len()
    }

    /// Resolves one text to the id it is stored under, if any.
    pub fn resolve_word_id(&self, text: &String, language: &String) -> (r: Option<u64>)
        ensures
            r == lookup_id(self.words_sv(), text@, language@),
    {
        let ghost ws = self.words_sv();
        let n = self.words.len();
        let mut i: usize = 0;
        while i < n
            invariant
                n == ws.len(),
                ws == self.words_sv(),
                i <= n,
                lookup_id(ws, text@, language@) == lookup_id_from(ws, text@, language@, i as int),
            decreases n - i,
        {
            if self.words[i].0 == *text && self.words[i].1 == *language {
                proof {
                    assert(ws[i as int] == (text@, language@));
                }
                return Some((i as u64) + 1);
            }
            proof {
                assert(ws[i as int] != (text@, language@));
            }
            i = i + 1;
        }
        None
    }

    /// Resolves a batch of texts, positionally: the entry for each text is
    /// its stored id, or nothing when the text is not stored.
    pub fn resolve_word_ids(&self, texts: &Vec<String>, language: &String) -> (r: Vec<Option<u64>>)
        ensures
            r@.len() == texts@.len(),
            forall|i: int|
                0 <= i < texts@.len() ==> r@[i] == lookup_id(
                    self.words_sv(),
                    texts@[i]@,
                    language@,
                ),
    {
        let n = texts.len();
        let mut r: Vec<Option<u64>> = Vec::new();
        let mut i: usize = 0;
        while i < n
            invariant
                n == texts@.len(),
                i <= n,
                r@.len() == i,
                forall|k: int|
                    0 <= k < i ==> r@[k] == lookup_id(self.words_sv(), texts@[k]@, language@),
            decreases n - i,
        {
            let id = self.resolve_word_id(&texts[i], language);
            r.push(id);
            i = i + 1;
        }
        r
    }

    /// Resolves one id back to the stored text.
    pub fn resolve_word_text(&self, id: u64) -> (r: Option<String>)
        ensures
            match r {
                Some(t) => 1 <= id <= self.words_sv().len() && t@ == self.words_sv()[id as int
                    - 1].0,
                None => !(1 <= id <= self.words_sv().len()),
            },
    {
        let n = self.words.len();
        if id >= 1 && id <= (n as u64) {
            let idx: usize = (id - 1) as usize;
            Some(self.words[idx].0.clone())
        } else {
            None
        }
    }

    /// Stores every text of the batch that is not yet stored for the
    /// language and returns the freshly assigned ids, in order.
    pub fn insert_words_returning_ids(&mut self, texts: &Vec<String>, language: &String) -> (r: Vec<
        u64,
    >)
        requires
            old(self).wf(),
            old(self).words_sv().len() + texts@.len() <= usize::MAX,
        ensures
            final(self).wf(),
            final(self).words_sv() == words_after(
                old(self).words_sv(),
                str_views(texts@),
                language@,
            ),
            r@ == ids_after(old(self).words_sv(), str_views(texts@), language@),
            final(self).links_sv() == old(self).links_sv(),
    {
        let ghost ws0 = old(self).words_sv();
        let ghost tv = str_views(texts@);
        let n = texts.len();
        let mut r: Vec<u64> = Vec::new();
        let mut k: usize = 0;
        proof {
            assert(tv.skip(0) =~= tv);
            assert(r@ + ids_after(ws0, tv, language@) =~= ids_after(ws0, tv, language@));
        }
        while k < n
            invariant
                n == texts@.len(),
                tv == str_views(texts@),
                tv.len() == n,
                k <= n,
                self.wf(),
                self.words_sv().len() <= ws0.len() + k,
                ws0.len() + n <= usize::MAX,
                words_after(ws0, tv, language@) == words_after(
                    self.words_sv(),
                    tv.skip(k as int),
                    language@,
                ),
                r@ + ids_after(self.words_sv(), tv.skip(k as int), language@) == ids_after(
                    ws0,
                    tv,
                    language@,
                ),
                self.links_sv() == old(self).links_sv(),
            decreases n - k,
        {
            let ghost ws = self.words_sv();
            proof {
                assert(tv.skip(k as int).drop_first() =~= tv.skip(k + 1));
                assert(tv.skip(k as int)[0] == tv[k as int]);
                assert(tv[k as int] == texts@[k as int]@);
            }
            let found = self.resolve_word_id(&texts[k], language);
            match found {
                Some(_) => {
                    proof {
                        assert(insert_step(ws, tv[k as int], language@) == ws);
                        assert(words_after(ws, tv.skip(k as int), language@) == words_after(
                            ws,
                            tv.skip(k + 1),
                            language@,
                        ));
                        assert(ids_after(ws, tv.skip(k as int), language@) == ids_after(
                            ws,
                            tv.skip(k + 1),
                            language@,
                        ));
                    }
                },
                None => {
                    let idx = self.words.len();
                    let id: u64 = (idx as u64) + 1;
                    let ghost links0 = self.links_sv();
                    self.words.push((texts[k].clone(), language.clone()));
                    r.push(id);
                    proof {
                        let ws2 = self.words_sv();
                        assert(ws2 =~= ws.push((tv[k as int], language@)));
                        assert(insert_step(ws, tv[k as int], language@) == ws2);
                        assert(words_after(ws, tv.skip(k as int), language@) == words_after(
                            ws2,
                            tv.skip(k + 1),
                            language@,
                        ));
                        assert(ids_after(ws, tv.skip(k as int), language@) == seq![id]
                            + ids_after(ws2, tv.skip(k + 1), language@));
                        assert(r@ + ids_after(ws2, tv.skip(k + 1), language@) =~= r@.drop_last()
                            + ids_after(ws, tv.skip(k as int), language@));
                        // the fresh pair keeps the word table duplicate-free
                        lemma_lookup_none(ws, tv[k as int], language@, 0);
                        assert forall|a: int, b: int| 0 <= a < b < ws2.len() implies #[trigger]
                        ws2[a] != #[trigger] ws2[b] by {
                            if b < ws.len() {
                                assert(ws2[a] == ws[a] && ws2[b] == ws[b]);
                            } else {
                                assert(ws2[a] == ws[a] && ws2[b] == (tv[k as int], language@));
                            }
                        }
                        assert(self.links_sv() == links0);
                    }
                },
            }
            k = k + 1;
        }
        proof {
            assert(tv.skip(n as int) =~= Seq::<Seq<char>>::empty());
            assert(words_after(self.words_sv(), tv.skip(n as int), language@)
                == self.words_sv());
            assert(ids_after(self.words_sv(), tv.skip(n as int), language@)
                =~= Seq::<u64>::empty());
            assert(r@ + Seq::<u64>::empty() =~= r@);
        }
        r
    }
}

/// The link table after one pair is linked: unchanged when the pair is
/// already there, extended by it otherwise.
pub open spec fn link_step(ls: Seq<(u64, u64)>, user: u64, word: u64) -> Seq<(u64, u64)> {
    if ls.contains((user, word)) {
        ls
    } else {
        ls.push((user, word))
    }
}

/// The link table after a batch of word ids is linked to a user, first to
/// last.
pub open spec fn links_after(ls: Seq<(u64, u64)>, user: u64, ids: Seq<u64>) -> Seq<(u64, u64)>
    decreases ids.len(),
{
    if ids.len() == 0 {
        ls
    } else {
        links_after(link_step(ls, user, ids[0]), user, ids.drop_first())
    }
}

/// The word ids linked to a user, in link order.
pub open spec fn known_ids(ls: Seq<(u64, u64)>, user: u64) -> Seq<u64> {
    ls.filter(|l: (u64, u64)| l.0 == user).map_values(|l: (u64, u64)| l.1)
}

pub proof fn lemma_known_ids_push(ls: Seq<(u64, u64)>, user: u64, l: (u64, u64))
    ensures
        known_ids(ls.push(l), user) == known_ids(ls, user) + (if l.0 == user {
            seq![l.1]
        } else {
            Seq::<u64>::empty()
        }),
{
    reveal(Seq::filter);
    assert(ls.push(l).drop_last() =~= ls);
    assert(ls.push(l).last() == l);
    let p = |x: (u64, u64)| x.0 == user;
    if l.0 == user {
        assert(ls.push(l).filter(p) == ls.filter(p).push(l));
        assert(known_ids(ls.push(l), user) =~= known_ids(ls, user) + seq![l.1]);
    } else {
        assert(ls.push(l).filter(p) == ls.filter(p));
        assert(known_ids(ls.push(l), user) =~= known_ids(ls, user) + Seq::<u64>::empty());
    }
}

pub proof fn lemma_known_ids_contains(ls: Seq<(u64, u64)>, user: u64, id: u64)
    requires
        ls.contains((user, id)),
    ensures
        known_ids(ls, user).contains(id),
    decreases ls.len(),
{
    if ls.len() > 0 {
        let prefix = ls.drop_last();
        let l = ls.last();
        assert(prefix.push(l) =~= ls);
        lemma_known_ids_push(prefix, user, l);
        if l == (user, id) {
            let ks = known_ids(ls, user);
            assert(ks[ks.len() - 1] == id);
        } else {
            assert(prefix.contains((user, id))) by {
                let i = choose|i: int| 0 <= i < ls.len() && ls[i] == (user, id);
                assert(i < ls.len() - 1);
                assert(prefix[i] == (user, id));
            }
            lemma_known_ids_contains(prefix, user, id);
            let ks = known_ids(prefix, user);
            let j = choose|j: int| 0 <= j < ks.len() && ks[j] == id;
            assert(known_ids(ls, user)[j] == id);
        }
    }
}

/// Linking a batch keeps every pair that was already linked.
pub proof fn lemma_links_after_preserves(
    ls: Seq<(u64, u64)>,
    user: u64,
    ids: Seq<u64>,
    pair: (u64, u64),
)
    requires
        ls.contains(pair),
    ensures
        links_after(ls, user, ids).contains(pair),
    decreases ids.len(),
{
    if ids.len() > 0 {
        let ls2 = link_step(ls, user, ids[0]);
        assert(ls2.contains(pair)) by {
            let i = choose|i: int| 0 <= i < ls.len() && ls[i] == pair;
            assert(ls2[i] == pair);
        }
        lemma_links_after_preserves(ls2, user, ids.drop_first(), pair);
    }
}

/// Law: after a batch of word ids is linked to a user, every id of the
/// batch is a member of the user's known-id snapshot.
pub proof fn lemma_batch_linking(ls: Seq<(u64, u64)>, user: u64, ids: Seq<u64>, id: u64)
    requires
        ids.contains(id),
    ensures
        known_ids(links_after(ls, user, ids), user).contains(id),
    decreases ids.len(),
{
    assert(ids.len() > 0) by {
        let i = choose|i: int| 0 <= i < ids.len() && ids[i] == id;
    }
    let ls2 = link_step(ls, user, ids[0]);
    assert(links_after(ls, user, ids) == links_after(ls2, user, ids.drop_first()));
    if ids[0] == id {
        assert(ls2.contains((user, id))) by {
            if ls.contains((user, id)) {
                let i = choose|i: int| 0 <= i < ls.len() && ls[i] == (user, id);
                assert(ls2[i] == (user, id));
            } else {
                assert(ls2[ls.len() as int] == (user, id));
            }
        }
        lemma_links_after_preserves(ls2, user, ids.drop_first(), (user, id));
        lemma_known_ids_contains(links_after(ls2, user, ids.drop_first()), user, id);
    } else {
        assert(ids.drop_first().contains(id)) by {
            let i = choose|i: int| 0 <= i < ids.len() && ids[i] == id;
            assert(ids.drop_first()[i - 1] == id);
        }
        lemma_batch_linking(ls2, user, ids.drop_first(), id);
    }
}

impl VocabStore {
    /// Whether the pair is linked.
    fn links_contain(&self, user: u64, word: u64) -> (r: bool)
        ensures
            r == self.links_sv().contains((user, word)),
    {
        let n = self.links.len();
        let mut i: usize = 0;
        while i < n
            invariant
                n == self.links_sv().len(),
                i <= n,
                forall|k: int| 0 <= k < i ==> #[trigger] self.links_sv()[k] != (user, word),
            decreases n - i,
        {
            if self.links[i].0 == user && self.links[i].1 == word {
                proof {
                    assert(self.links_sv()[i as int] == (user, word));
                }
                return true;
            }
            i = i + 1;
        }
        false
    }

    /// The ids of the words linked to the user, in link order.
    pub fn get_known_word_ids(&self, user: u64) -> (r: Vec<u64>)
        ensures
            r@ == known_ids(self.links_sv(), user),
    {
        let ghost ls = self.links_sv();
        let n = self.links.len();
        let mut r: Vec<u64> = Vec::new();
        proof {
            reveal(Seq::filter);
            assert(ls.take(0) =~= Seq::<(u64, u64)>::empty());
            assert(known_ids(ls.take(0), user) =~= Seq::<u64>::empty());
        }
        let mut i: usize = 0;
        while i < n
            invariant
                n == ls.len(),
                ls == self.links_sv(),
                i <= n,
                r@ == known_ids(ls.take(i as int), user),
            decreases n - i,
        {
            proof {
                assert(ls.take(i + 1) =~= ls.take(i as int).push(ls[i as int]));
                lemma_known_ids_push(ls.take(i as int), user, ls[i as int]);
            }
            if self.links[i].0 == user {
                r.push(self.links[i].1);
                proof {
                    assert(r@ =~= known_ids(ls.take(i + 1), user));
                }
            } else {
                proof {
                    assert(r@ =~= known_ids(ls.take(i + 1), user));
                }
            }
            i = i + 1;
        }
        proof {
            assert(ls.take(n as int) =~= ls);
        }
        r
    }

    /// Links one word to a user; a pair already linked is left alone.
    /// Returns how many links were added.
    pub fn link_word_to_user(&mut self, user: u64, word: u64) -> (r: u64)
        requires
            old(self).wf(),
            1 <= word <= old(self).words_sv().len(),
        ensures
            final(self).wf(),
            final(self).words_sv() == old(self).words_sv(),
            final(self).links_sv() == link_step(old(self).links_sv(), user, word),
            r == if old(self).links_sv().contains((user, word)) {
                0u64
            } else {
                1u64
            },
    {
        if self.links_contain(user, word) {
            0
        } else {
            let ghost ls = self.links_sv();
            self.links.push((user, word));
            proof {
                let ls2 = self.links_sv();
                assert forall|a: int, b: int| 0 <= a < b < ls2.len() implies #[trigger] ls2[a]
                    != #[trigger] ls2[b] by {
                    if b < ls.len() {
                        assert(ls2[a] == ls[a] && ls2[b] == ls[b]);
                    } else {
                        assert(ls2[b] == (user, word));
                        assert(ls2[a] == ls[a]);
                        if ls2[a] == (user, word) {
                            assert(ls.contains((user, word)));
                        }
                    }
                }
            }
            1
        }
    }

    /// Links a batch of word ids to a user, skipping pairs already linked.
    /// Returns how many links were added.
    pub fn link_words_to_user(&mut self, user: u64, word_ids: &Vec<u64>) -> (r: u64)
        requires
            old(self).wf(),
            forall|i: int|
                0 <= i < word_ids@.len() ==> 1 <= #[trigger] word_ids@[i] <= old(
                    self,
                ).words_sv().len(),
        ensures
            final(self).wf(),
            final(self).words_sv() == old(self).words_sv(),
            final(self).links_sv() == links_after(old(self).links_sv(), user, word_ids@),
            final(self).links_sv().len() == old(self).links_sv().len() + r,
    {
        let ghost ls0 = self.links_sv();
        let ghost ids = word_ids@;
        let n = word_ids.len();
        let mut added: u64 = 0;
        let mut k: usize = 0;
        proof {
            assert(ids.skip(0) =~= ids);
        }
        while k < n
            invariant
                n == ids.len(),
                ids == word_ids@,
                k <= n,
                self.wf(),
                self.words_sv() == old(self).words_sv(),
                forall|i: int| 0 <= i < ids.len() ==> 1 <= #[trigger] ids[i]
                    <= old(self).words_sv().len(),
                links_after(ls0, user, ids) == links_after(
                    self.links_sv(),
                    user,
                    ids.skip(k as int),
                ),
                self.links_sv().len() == ls0.len() + added,
            decreases n - k,
        {
            let ghost ls = self.links_sv();
            proof {
                assert(ids.skip(k as int)[0] == ids[k as int]);
                assert(ids.skip(k as int).drop_first() =~= ids.skip(k + 1));
            }
            let got = self.link_word_to_user(user, word_ids[k]);
            let cur = self.links.len();
            proof {
                assert(self.links_sv().len() == cur);
                assert(ls0.len() + added + got == cur as int);
            }
            added = added + got;
            k = k + 1;
        }
        proof {
            assert(ids.skip(n as int) =~= Seq::<u64>::empty());
        }
        added
    }

    /// Unlinks one word from a user; a pair that is not linked is left
    /// alone.  Returns how many links were removed.
    pub fn unlink_word_from_user(&mut self, user: u64, word: u64) -> (r: u64)
        requires
            old(self).wf(),
        ensures
            final(self).wf(),
            final(self).words_sv() == old(self).words_sv(),
            final(self).links_sv() == old(self).links_sv().remove_value((user, word)),
            r == if old(self).links_sv().contains((user, word)) {
                1u64
            } else {
                0u64
            },
    {
        let ghost ls = self.links_sv();
        let n = self.links.len();
        let mut i: usize = 0;
        while i < n
            invariant
                n == ls.len(),
                ls == self.links_sv(),
                ls == old(self).links_sv(),
                self.wf(),
                self.words_sv() == old(self).words_sv(),
                i <= n,
                forall|k: int| 0 <= k < i ==> #[trigger] ls[k] != (user, word),
            decreases n - i,
        {
            if self.links[i].0 == user && self.links[i].1 == word {
                proof {
                    assert(ls[i as int] == (user, word));
                    assert(ls.contains((user, word)));
                    ls.index_of_first_ensures((user, word));
                    assert(ls.index_of_first((user, word)) == Some(i as int));
                }
                self.links.remove(i);
                proof {
                    let ls2 = self.links_sv();
                    assert(ls2 == ls.remove(i as int));
                    assert(ls2 == ls.remove_value((user, word)));
                    ls.remove_ensures(i as int);
                    assert forall|k: int| 0 <= k < i implies #[trigger] ls2[k] == ls[k] by {
                        assert(ls.remove(i as int)[k] == ls[k]);
                    }
                    assert forall|k: int| i <= k < ls.len() - 1 implies #[trigger] ls2[k] == ls[k
                        + 1] by {
                        assert(ls.remove(i as int)[k] == ls[k + 1]);
                    }
                    assert forall|a: int, b: int| 0 <= a < b < ls2.len() implies #[trigger]
                    ls2[a] != #[trigger] ls2[b] by {
                        if a < i && b < i {
                            assert(ls2[a] == ls[a] && ls2[b] == ls[b]);
                        } else if a < i && b >= i {
                            assert(ls2[a] == ls[a] && ls2[b] == ls[b + 1]);
                        } else {
                            assert(ls2[a] == ls[a + 1] && ls2[b] == ls[b + 1]);
                        }
                    }
                    assert forall|a: int| 0 <= a < ls2.len() implies 1 <= (#[trigger] ls2[a]).1
                        <= self.words_sv().len() by {
                        if a < i {
                            assert(ls2[a] == ls[a]);
                        } else {
                            assert(ls2[a] == ls[a + 1]);
                        }
                    }
                }
                return 1;
            }
            i = i + 1;
        }
        proof {
            assert forall|k: int| 0 <= k < ls.len() implies #[trigger] ls[k] != (user, word) by {}
            if ls.contains((user, word)) {
                let k = choose|k: int| 0 <= k < ls.len() && ls[k] == (user, word);
                assert(false);
            }
            ls.index_of_first_ensures((user, word));
            assert(ls.remove_value((user, word)) == ls);
        }
        0
    }
}

/// The word ids of a review batch that are resolved, in order.
pub open spec fn resolved_ids(batch: Seq<Option<u64>>) -> Seq<u64> {
    batch.filter(|o: Option<u64>| o is Some).map_values(|o: Option<u64>| o->0)
}

pub proof fn lemma_resolved_ids_push(batch: Seq<Option<u64>>, o: Option<u64>)
    ensures
        resolved_ids(batch.push(o)) == resolved_ids(batch) + (if o is Some {
            seq![o->0]
        } else {
            Seq::<u64>::empty()
        }),
{
    reveal(Seq::filter);
    assert(batch.push(o).drop_last() =~= batch);
    assert(batch.push(o).last() == o);
    let p = |x: Option<u64>| x is Some;
    if o is Some {
        assert(batch.push(o).filter(p) == batch.filter(p).push(o));
        assert(resolved_ids(batch.push(o)) =~= resolved_ids(batch) + seq![o->0]);
    } else {
        assert(batch.push(o).filter(p) == batch.filter(p));
        assert(resolved_ids(batch.push(o)) =~= resolved_ids(batch) + Seq::<u64>::empty());
    }
}

/// Applies one review decision to one batch of resolved word ids: a "yes"
/// links every resolved id of the batch to the user, a "no" changes
/// nothing.  Returns how many links were added.
pub fn apply_batch_decision(
    store: &mut VocabStore,
    user: u64,
    batch: &Vec<Option<u64>>,
    approve: bool,
) -> (r: u64)
    requires
        old(store).wf(),
        forall|i: int|
            0 <= i < batch@.len() ==> ((#[trigger] batch@[i]) is Some ==> 1 <= batch@[i]->0 <= old(
                store,
            ).words_sv().len()),
    ensures
        final(store).wf(),
        final(store).words_sv() == old(store).words_sv(),
        !approve ==> final(store).links_sv() == old(store).links_sv() && r == 0,
        approve ==> final(store).links_sv() == links_after(
            old(store).links_sv(),
            user,
            resolved_ids(batch@),
        ) && final(store).links_sv().len() == old(store).links_sv().len() + r,
{
    if !approve {
        return 0;
    }
    let n = batch.len();
    let mut ids: Vec<u64> = Vec::new();
    proof {
        reveal(Seq::filter);
        assert(batch@.take(0) =~= Seq::<Option<u64>>::empty());
        assert(resolved_ids(batch@.take(0)) =~= Seq::<u64>::empty());
    }
    let mut i: usize = 0;
    while i < n
        invariant
            n == batch@.len(),
            i <= n,
            ids@ == resolved_ids(batch@.take(i as int)),
            forall|k: int|
                0 <= k < batch@.len() ==> ((#[trigger] batch@[k]) is Some ==> 1 <= batch@[k]->0
                    <= store.words_sv().len()),
            forall|k: int| 0 <= k < ids@.len() ==> 1 <= #[trigger] ids@[k]
                <= store.words_sv().len(),
        decreases n - i,
    {
        proof {
            assert(batch@.take(i + 1) =~= batch@.take(i as int).push(batch@[i as int]));
            lemma_resolved_ids_push(batch@.take(i as int), batch@[i as int]);
        }
        match batch[i] {
            Some(id) => {
                ids.push(id);
                proof {
                    assert(ids@ =~= resolved_ids(batch@.take(i + 1)));
                }
            },
            None => {
                proof {
                    assert(ids@ =~= resolved_ids(batch@.take(i + 1)));
                }
            },
        }
        i = i + 1;
    }
    proof {
        assert(batch@.take(n as int) =~= batch@);
    }
    store.link_words_to_user(user, &ids)
}

/// Law: inserting a batch of one text and then resolving that text yields
/// the id the insertion reported — a fresh text gets the next id and is
/// found under it; a text already stored gets no fresh id and still
/// resolves to its old id.
pub proof fn lemma_insert_then_resolve(
    ws: Seq<(Seq<char>, Seq<char>)>,
    t: Seq<char>,
    lang: Seq<char>,
)
    ensures
        lookup_id(words_after(ws, seq![t], lang), t, lang) is Some,
        lookup_id(ws, t, lang) is None ==> ids_after(ws, seq![t], lang) == seq![
            (ws.len() + 1) as u64,
        ] && lookup_id(words_after(ws, seq![t], lang), t, lang) == Some((ws.len() + 1) as u64),
        lookup_id(ws, t, lang) is Some ==> ids_after(ws, seq![t], lang) == Seq::<u64>::empty()
            && lookup_id(words_after(ws, seq![t], lang), t, lang) == lookup_id(ws, t, lang),
{
    let texts = seq![t];
    assert(texts[0] == t);
    assert(texts.drop_first() =~= Seq::<Seq<char>>::empty());
    assert(words_after(ws, texts, lang) == words_after(
        insert_step(ws, t, lang),
        texts.drop_first(),
        lang,
    ));
    assert(words_after(insert_step(ws, t, lang), texts.drop_first(), lang) == insert_step(
        ws,
        t,
        lang,
    ));
    if lookup_id(ws, t, lang) is Some {
        assert(ids_after(ws, texts, lang) == ids_after(ws, texts.drop_first(), lang));
        assert(ids_after(ws, texts.drop_first(), lang) =~= Seq::<u64>::empty());
    } else {
        let ws2 = ws.push((t, lang));
        assert(words_after(ws, texts, lang) == ws2);
        assert(ids_after(ws, texts, lang) == seq![(ws.len() + 1) as u64] + ids_after(
            ws2,
            texts.drop_first(),
            lang,
        ));
        assert(ids_after(ws2, texts.drop_first(), lang) =~= Seq::<u64>::empty());
        assert(ids_after(ws, texts, lang) =~= seq![(ws.len() + 1) as u64]);
        lemma_lookup_push_absent(ws, t, lang, 0);
    }
}

} // verus!

