//! Tokenization of text into a word-frequency table.
//!
//! A token is a maximal run of Unicode letters or digits, where a run may
//! continue across a single apostrophe or plus sign that is immediately
//! followed by another letter or digit.  Right single quotation marks are
//! normalized to apostrophes first, every token is lower-cased, and the
//! tokens are aggregated into a table of per-word counts sorted by
//! descending count.

use vstd::prelude::*;
use crate::text::{is_space_of, is_word_char_of, lower_of};
use crate::text::{chars_of, string_of_range};

verus! {

/// The quote normalization applied before matching: a right single quotation
/// mark becomes an ASCII apostrophe, every other character is unchanged.
pub open spec fn normalized_char(c: char) -> char {
    if c == '\u{2019}' {
        '\''
    } else {
        c
    }
}

/// The whole text after quote normalization.
pub open spec fn normalized_text(s: Seq<char>) -> Seq<char> {
    s.map_values(|c: char| normalized_char(c))
}

/// A character that may join two letter/digit runs into one token.
pub open spec fn is_joiner(c: char) -> bool {
    c == '\'' || c == '+'
}

/// The end (exclusive) of the run of letter/digit characters starting at `i`.
pub open spec fn run_end(s: Seq<char>, i: int) -> int
    decreases s.len() - i,
{
    if 0 <= i < s.len() && is_word_char_of(s[i]) {
        run_end(s, i + 1)
    } else {
        i
    }
}

pub proof fn lemma_run_end_bounds(s: Seq<char>, i: int)
    requires
        0 <= i <= s.len(),
    ensures
        i <= run_end(s, i) <= s.len(),
        i < s.len() && is_word_char_of(s[i]) ==> i + 1 <= run_end(s, i),
    decreases s.len() - i,
{
    if i < s.len() && is_word_char_of(s[i]) {
        lemma_run_end_bounds(s, i + 1);
    }
}

/// The end (exclusive) of the token starting at `i`: the letter/digit run,
/// extended across any joiner that is followed by another letter or digit.
pub open spec fn token_end(s: Seq<char>, i: int) -> int
    decreases s.len() - i,
        when 0 <= i <= s.len()
        via token_end_decreases
{
    let e = run_end(s, i);
    if e + 1 < s.len() && is_joiner(s[e]) && is_word_char_of(s[e + 1]) {
        token_end(s, e + 1)
    } else {
        e
    }
}

#[via_fn]
proof fn token_end_decreases(s: Seq<char>, i: int) {
    lemma_run_end_bounds(s, i);
}

pub proof fn lemma_token_end_bounds(s: Seq<char>, i: int)
    requires
        0 <= i <= s.len(),
    ensures
        i <= token_end(s, i) <= s.len(),
        i < s.len() && is_word_char_of(s[i]) ==> i + 1 <= token_end(s, i),
    decreases s.len() - i,
{
    lemma_run_end_bounds(s, i);
    let e = run_end(s, i);
    if e + 1 < s.len() && is_joiner(s[e]) && is_word_char_of(s[e + 1]) {
        lemma_token_end_bounds(s, e + 1);
    }
}

/// Scanning one position forward inside a token does not move its end:
/// this holds when the position carries a letter/digit, and when it carries
/// a joiner directly followed by a letter/digit.
pub proof fn lemma_token_end_step(s: Seq<char>, i: int)
    requires
        0 <= i < s.len(),
        is_word_char_of(s[i]) || (is_joiner(s[i]) && i + 1 < s.len() && is_word_char_of(
            s[i + 1],
        )),
    ensures
        token_end(s, i) == token_end(s, i + 1),
{
    if is_word_char_of(s[i]) {
        assert(run_end(s, i) == run_end(s, i + 1));
    } else {
        assert(run_end(s, i) == i);
        assert(token_end(s, i) == token_end(s, i + 1));
    }
}

/// A position where no token continues: either past the end, or at a
/// character that is no letter/digit and no joiner followed by one.
pub open spec fn token_break(s: Seq<char>, i: int) -> bool {
    i >= s.len() || (!is_word_char_of(s[i]) && !(is_joiner(s[i]) && i + 1 < s.len()
        && is_word_char_of(s[i + 1])))
}

pub proof fn lemma_token_end_at_break(s: Seq<char>, i: int)
    requires
        0 <= i <= s.len(),
        token_break(s, i),
    ensures
        token_end(s, i) == i,
{
    if i < s.len() {
        assert(run_end(s, i) == i);
    }
}

/// The tokens found from position `i` on, in order of appearance, before
/// lower-casing.
pub open spec fn tokens_from(s: Seq<char>, i: int) -> Seq<Seq<char>>
    decreases s.len() - i,
        when 0 <= i <= s.len()
        via tokens_from_decreases
{
    if i >= s.len() {
        Seq::empty()
    } else if is_word_char_of(s[i]) {
        seq![s.subrange(i, token_end(s, i))] + tokens_from(s, token_end(s, i))
    } else {
        tokens_from(s, i + 1)
    }
}

#[via_fn]
proof fn tokens_from_decreases(s: Seq<char>, i: int) {
    if 0 <= i < s.len() && is_word_char_of(s[i]) {
        lemma_token_end_bounds(s, i);
    }
}

/// Every token of a sequence, lower-cased.
pub open spec fn lower_all(ts: Seq<Seq<char>>) -> Seq<Seq<char>> {
    ts.map_values(|t: Seq<char>| lower_of(t))
}

/// The views of a sequence of strings.
pub open spec fn str_views(ss: Seq<String>) -> Seq<Seq<char>> {
    ss.map_values(|t: String| t@)
}

/// The token sequence of a text: quotes normalized, tokens extracted,
/// each token lower-cased.
pub open spec fn word_tokens(text: Seq<char>) -> Seq<Seq<char>> {
    lower_all(tokens_from(normalized_text(text), 0))
}

pub proof fn lemma_lower_all_add(a: Seq<Seq<char>>, b: Seq<Seq<char>>)
    ensures
        lower_all(a + b) == lower_all(a) + lower_all(b),
{
    let l = lower_all(a + b);
    let r = lower_all(a) + lower_all(b);
    assert forall|k: int| 0 <= k < l.len() implies l[k] == r[k] by {
        if k < a.len() {
            assert((a + b)[k] == a[k]);
        } else {
            assert((a + b)[k] == b[k - a.len()]);
        }
    }
    assert(l =~= r);
}

pub proof fn lemma_str_views_push(ss: Seq<String>, x: String)
    ensures
        str_views(ss.push(x)) == str_views(ss).push(x@),
{
    assert(str_views(ss.push(x)) =~= str_views(ss).push(x@));
}

/// How often a word occurs in a token sequence.
pub open spec fn occ_count(toks: Seq<Seq<char>>, w: Seq<char>) -> nat {
    toks.filter(|t: Seq<char>| t == w).len()
}

/// A count as stored in the table: the true number of occurrences, saturated
/// at the width of the counter so that it can never silently wrap.
pub open spec fn clamped_count(n: nat) -> u32 {
    if n >= u32::MAX {
        u32::MAX
    } else {
        n as u32
    }
}

/// The view of a frequency table: each entry as (word characters, count).
pub open spec fn entry_views(t: Seq<(String, u32)>) -> Seq<(Seq<char>, u32)> {
    t.map_values(|p: (String, u32)| (p.0@, p.1))
}

/// Whether some entry of the table carries the given word.
pub open spec fn tbl_has_key(t: Seq<(Seq<char>, u32)>, w: Seq<char>) -> bool {
    exists|i: int| 0 <= i < t.len() && (#[trigger] t[i]).0 == w
}

/// No two entries carry the same word.
pub open spec fn tbl_distinct(t: Seq<(Seq<char>, u32)>) -> bool {
    forall|i: int, j: int| 0 <= i < j < t.len() ==> (#[trigger] t[i]).0 != (#[trigger] t[j]).0
}

/// Every entry carries a word that occurs, with its saturated count.
pub open spec fn tbl_counts(t: Seq<(Seq<char>, u32)>, toks: Seq<Seq<char>>) -> bool {
    forall|i: int|
        0 <= i < t.len() ==> occ_count(toks, (#[trigger] t[i]).0) > 0 && t[i].1 == clamped_count(
            occ_count(toks, t[i].0),
        )
}

/// Every occurring word has an entry.
pub open spec fn tbl_complete(t: Seq<(Seq<char>, u32)>, toks: Seq<Seq<char>>) -> bool {
    forall|w: Seq<char>| #[trigger] occ_count(toks, w) > 0 ==> tbl_has_key(t, w)
}

/// A well-formed frequency table for a token sequence: its entries carry
/// exactly the occurring words, once each, with their saturated counts.
pub open spec fn freq_table_wf(t: Seq<(Seq<char>, u32)>, toks: Seq<Seq<char>>) -> bool {
    tbl_distinct(t) && tbl_counts(t, toks) && tbl_complete(t, toks)
}

/// Counts never increase along the table.
pub open spec fn sorted_desc(t: Seq<(Seq<char>, u32)>) -> bool {
    forall|i: int, j: int| 0 <= i <= j < t.len() ==> (#[trigger] t[i]).1 >= (#[trigger] t[j]).1
}

pub proof fn lemma_occ_push(toks: Seq<Seq<char>>, x: Seq<char>, w: Seq<char>)
    ensures
        occ_count(toks.push(x), w) == occ_count(toks, w) + (if x == w {
            1nat
        } else {
            0nat
        }),
{
    reveal(Seq::filter);
    assert(toks.push(x).drop_last() =~= toks);
    assert(toks.push(x).last() == x);
}

/// The end (exclusive) of the run of non-whitespace characters starting at
/// `i`.
pub open spec fn nonspace_end(s: Seq<char>, i: int) -> int
    decreases s.len() - i,
{
    if 0 <= i < s.len() && !is_space_of(s[i]) {
        nonspace_end(s, i + 1)
    } else {
        i
    }
}

pub proof fn lemma_nonspace_end_bounds(s: Seq<char>, i: int)
    requires
        0 <= i <= s.len(),
    ensures
        i <= nonspace_end(s, i) <= s.len(),
        i < s.len() && !is_space_of(s[i]) ==> i + 1 <= nonspace_end(s, i),
    decreases s.len() - i,
{
    if i < s.len() && !is_space_of(s[i]) {
        lemma_nonspace_end_bounds(s, i + 1);
    }
}

/// How many maximal non-whitespace runs start at position `i` or later.
pub open spec fn split_count_from(s: Seq<char>, i: int) -> nat
    decreases s.len() - i,
        when 0 <= i <= s.len()
        via split_count_from_decreases
{
    if i >= s.len() {
        0
    } else if !is_space_of(s[i]) {
        1 + split_count_from(s, nonspace_end(s, i))
    } else {
        split_count_from(s, i + 1)
    }
}

#[via_fn]
proof fn split_count_from_decreases(s: Seq<char>, i: int) {
    if 0 <= i < s.len() && !is_space_of(s[i]) {
        lemma_nonspace_end_bounds(s, i);
    }
}

/// The number of whitespace-separated words of a line.
pub open spec fn whitespace_word_count(s: Seq<char>) -> nat {
    split_count_from(s, 0)
}

/// Counts the whitespace-separated words and the characters of one line.
pub fn line_stats(line: &str) -> (r: (usize, usize))
    ensures
        r.0 == whitespace_word_count(line@),
        r.1 == line@.len(),
{
    let ghost s = line@;
    let cs = chars_of(line);
    let n = cs.len();
    let mut words: usize = 0;
    let mut i: usize = 0;
    while i < n
        invariant
            n == s.len(),
            cs@ == s,
            i <= n,
            words <= i,
            words + split_count_from(s, i as int) == whitespace_word_count(s),
        decreases n - i,
    {
        let c = cs[i];
        if c.is_whitespace() {
            proof {
                assert(split_count_from(s, i as int) == split_count_from(s, i + 1));
            }
            i = i + 1;
        } else {
            let ghost start = i as int;
            proof {
                lemma_nonspace_end_bounds(s, start);
                assert(split_count_from(s, start) == 1 + split_count_from(
                    s,
                    nonspace_end(s, start),
                ));
                assert(nonspace_end(s, start) == nonspace_end(s, start + 1));
            }
            words = words + 1;
            i = i + 1;
            while i < n && !cs[i].is_whitespace()
                invariant
                    n == s.len(),
                    cs@ == s,
                    start < i <= n,
                    nonspace_end(s, start) == nonspace_end(s, i as int),
                decreases n - i,
            {
                proof {
                    assert(nonspace_end(s, i as int) == nonspace_end(s, i + 1));
                }
                i = i + 1;
            }
            proof {
                assert(nonspace_end(s, i as int) == i as int);
                assert(nonspace_end(s, start) == i as int);
            }
        }
    }
    proof {
        assert(split_count_from(s, n as int) == 0);
    }
    (words, n)
}

/// Normalizes right single quotation marks to apostrophes.
pub fn normalize_quotes(chars: &Vec<char>) -> (r: Vec<char>)
    ensures
        r@ == normalized_text(chars@),
{
    let mut r: Vec<char> = Vec::new();
    let n = chars.len();
    let mut i: usize = 0;
    while i < n
        invariant
            n == chars@.len(),
            i <= n,
            r@ == normalized_text(chars@).take(i as int),
        decreases n - i,
    {
        let c = chars[i];
        if c == '\u{2019}' {
            r.push('\'');
        } else {
            r.push(c);
        }
        i = i + 1;
        proof {
            assert(r@ =~= normalized_text(chars@).take(i as int));
        }
    }
    proof {
        assert(normalized_text(chars@).take(n as int) =~= normalized_text(chars@));
    }
    r
}

/// Extracts the lower-cased tokens of an already quote-normalized character
/// sequence, in order of appearance.
pub fn scan_tokens(chars: &Vec<char>) -> (toks: Vec<String>)
    ensures
        str_views(toks@) == lower_all(tokens_from(chars@, 0)),
{
    let ghost s = chars@;
    let n = chars.len();
    let mut toks: Vec<String> = Vec::new();
    let mut i: usize = 0;
    while i < n
        invariant
            n == s.len(),
            s == chars@,
            i <= n,
            str_views(toks@) + lower_all(tokens_from(s, i as int)) == lower_all(
                tokens_from(s, 0),
            ),
        decreases n - i,
    {
        let c = chars[i];
        if c.is_alphanumeric() {
            let start = i;
            i = i + 1;
            proof {
                lemma_token_end_step(s, start as int);
            }
            loop
                invariant_except_break
                    n == s.len(),
                    s == chars@,
                    start < i <= n,
                    token_end(s, start as int) == token_end(s, i as int),
                ensures
                    start < i <= n,
                    token_end(s, start as int) == i as int,
                decreases n - i,
            {
                if i >= n {
                    proof {
                        lemma_token_end_at_break(s, i as int);
                    }
                    break ;
                }
                let d = chars[i];
                let continues: bool = if d.is_alphanumeric() {
                    true
                } else if (d == '\'' || d == '+') && i + 1 < n {
                    let e = chars[i + 1];
                    e.is_alphanumeric()
                } else {
                    false
                };
                if continues {
                    proof {
                        lemma_token_end_step(s, i as int);
                    }
                    i = i + 1;
                } else {
                    proof {
                        lemma_token_end_at_break(s, i as int);
                    }
                    break ;
                }
            }
            let raw = string_of_range(chars, start, i);
            let low = raw.as_str().to_lowercase();
            let ghost prev = toks@;
            toks.push(low);
            proof {
                lemma_token_end_bounds(s, start as int);
                let sub = s.subrange(start as int, i as int);
                assert(tokens_from(s, start as int) == seq![sub] + tokens_from(s, i as int));
                lemma_lower_all_add(seq![sub], tokens_from(s, i as int));
                assert(lower_all(seq![sub]) =~= seq![lower_of(sub)]);
                assert(lower_all(tokens_from(s, start as int)) == seq![lower_of(sub)] + lower_all(
                    tokens_from(s, i as int),
                ));
                lemma_str_views_push(prev, low);
                assert(prev.map_values(|t: String| t@) + lower_all(tokens_from(s, start as int))
                    =~= str_views(toks@) + lower_all(tokens_from(s, i as int)));
            }
        } else {
            proof {
                assert(tokens_from(s, i as int) == tokens_from(s, i + 1));
            }
            i = i + 1;
        }
    }
    proof {
        assert(tokens_from(s, n as int) =~= Seq::<Seq<char>>::empty());
        assert(lower_all(tokens_from(s, n as int)) =~= Seq::<Seq<char>>::empty());
        assert(str_views(toks@) + lower_all(tokens_from(s, n as int)) =~= str_views(toks@));
    }
    toks
}

/// Finds the entry that carries the given word, if any.
fn find_key(table: &Vec<(String, u32)>, w: &String) -> (r: Option<usize>)
    ensures
        match r {
            Some(j) => j < table@.len() && table@[j as int].0@ == w@,
            None => forall|i: int| 0 <= i < table@.len() ==> (#[trigger] table@[i]).0@ != w@,
        },
{
    let n = table.len();
    let mut j: usize = 0;
    while j < n
        invariant
            n == table@.len(),
            j <= n,
            forall|i: int| 0 <= i < j ==> (#[trigger] table@[i]).0@ != w@,
        decreases n - j,
    {
        if table[j].0 == *w {
            return Some(j);
        }
        j = j + 1;
    }
    None
}

/// Aggregates a token sequence into a frequency table: one entry for each
/// distinct token, in order of first appearance, with its saturated count.
pub fn count_tokens(toks: &Vec<String>) -> (r: Vec<(String, u32)>)
    ensures
        freq_table_wf(entry_views(r@), str_views(toks@)),
{
    let ghost tv = str_views(toks@);
    let n = toks.len();
    let mut table: Vec<(String, u32)> = Vec::new();
    let mut k: usize = 0;
    while k < n
        invariant
            n == toks@.len(),
            tv == str_views(toks@),
            tv.len() == n,
            k <= n,
            freq_table_wf(entry_views(table@), tv.take(k as int)),
        decreases n - k,
    {
        let ghost pre = tv.take(k as int);
        let ghost post = tv.take(k + 1);
        proof {
            assert(post =~= pre.push(tv[k as int]));
            assert(tv[k as int] == toks@[k as int]@);
        }
        let w = &toks[k];
        match find_key(&table, w) {
            Some(j) => {
                let ghost before = entry_views(table@);
                let c = table[j].1;
                let c2 = if c == u32::MAX {
                    c
                } else {
                    c + 1
                };
                table[j].1 = c2;
                proof {
                    let after = entry_views(table@);
                    assert(after =~= before.update(j as int, (before[j as int].0, c2)));
                    assert forall|i: int| 0 <= i < after.len() implies occ_count(
                        post,
                        (#[trigger] after[i]).0,
                    ) > 0 && after[i].1 == clamped_count(occ_count(post, after[i].0)) by {
                        lemma_occ_push(pre, tv[k as int], after[i].0);
                    }
                    assert forall|ww: Seq<char>| #[trigger] occ_count(post, ww) > 0 implies
                        tbl_has_key(after, ww) by {
                        lemma_occ_push(pre, tv[k as int], ww);
                        if occ_count(pre, ww) > 0 {
                            let i = choose|i: int| 0 <= i < before.len() && (#[trigger]
                            before[i]).0 == ww;
                            assert(after[i].0 == ww);
                        } else {
                            assert(ww == tv[k as int]);
                            assert(after[j as int].0 == ww);
                        }
                    }
                }
            },
            None => {
                let ghost before = entry_views(table@);
                let entry = (w.clone(), 1u32);
                table.push(entry);
                proof {
                    let after = entry_views(table@);
                    assert(after =~= before.push((entry.0@, 1u32)));
                    assert(entry.0@ == tv[k as int]);
                    assert forall|i: int| 0 <= i < after.len() implies occ_count(
                        post,
                        (#[trigger] after[i]).0,
                    ) > 0 && after[i].1 == clamped_count(occ_count(post, after[i].0)) by {
                        lemma_occ_push(pre, tv[k as int], after[i].0);
                        if i < before.len() {
                            assert(after[i] == before[i]);
                            assert(after[i].0 != tv[k as int]);
                        } else {
                            assert(after[i].0 == tv[k as int]);
                            assert(occ_count(pre, tv[k as int]) == 0) by {
                                if occ_count(pre, tv[k as int]) > 0 {
                                    let i2 = choose|i2: int|
                                        0 <= i2 < before.len() && (#[trigger] before[i2]).0
                                            == tv[k as int];
                                    assert(false);
                                }
                            }
                        }
                    }
                    assert forall|ww: Seq<char>| #[trigger] occ_count(post, ww) > 0 implies
                        tbl_has_key(after, ww) by {
                        lemma_occ_push(pre, tv[k as int], ww);
                        if occ_count(pre, ww) > 0 {
                            let i = choose|i: int| 0 <= i < before.len() && (#[trigger]
                            before[i]).0 == ww;
                            assert(after[i].0 == ww);
                        } else {
                            assert(after[before.len() as int].0 == ww);
                        }
                    }
                    assert(tbl_distinct(after)) by {
                        assert forall|i: int, j2: int| 0 <= i < j2 < after.len() implies (
                        #[trigger] after[i]).0 != (#[trigger] after[j2]).0 by {
                            if j2 == before.len() {
                                assert(after[i].0 != tv[k as int]);
                            }
                        }
                    }
                }
            },
        }
        k = k + 1;
    }
    proof {
        assert(tv.take(n as int) =~= tv);
    }
    table
}

pub proof fn lemma_entry_views_remove(s: Seq<(String, u32)>, i: int)
    requires
        0 <= i < s.len(),
    ensures
        entry_views(s.remove(i)) == entry_views(s).remove(i),
{
    s.remove_ensures(i);
    entry_views(s).remove_ensures(i);
    assert(entry_views(s.remove(i)) =~= entry_views(s).remove(i));
}

pub proof fn lemma_entry_views_insert(s: Seq<(String, u32)>, i: int, x: (String, u32))
    requires
        0 <= i <= s.len(),
    ensures
        entry_views(s.insert(i, x)) == entry_views(s).insert(i, (x.0@, x.1)),
{
    s.insert_ensures(i, x);
    entry_views(s).insert_ensures(i, (x.0@, x.1));
    assert(entry_views(s.insert(i, x)) =~= entry_views(s).insert(i, (x.0@, x.1)));
}

pub proof fn lemma_to_multiset_insert<A>(s: Seq<A>, i: int, x: A)
    requires
        0 <= i <= s.len(),
    ensures
        s.insert(i, x).to_multiset() == s.to_multiset().insert(x),
{
    broadcast use vstd::seq_lib::group_to_multiset_ensures;
    broadcast use vstd::multiset::group_multiset_axioms;

    let a = s.subrange(0, i);
    let b = s.subrange(i, s.len() as int);
    assert(s.insert(i, x) == a.push(x) + b);
    assert(s =~= a + b);
    vstd::seq_lib::lemma_multiset_commutative(a.push(x), b);
    vstd::seq_lib::lemma_multiset_commutative(a, b);
    assert(a.push(x).to_multiset() =~= a.to_multiset().insert(x));
    assert(s.insert(i, x).to_multiset() =~= s.to_multiset().insert(x));
}

/// Sorts a frequency table by descending count; entries with equal counts
/// keep their relative order.
pub fn sort_by_count_desc(v: &mut Vec<(String, u32)>)
    ensures
        final(v)@.len() == old(v)@.len(),
        entry_views(final(v)@).to_multiset() == entry_views(old(v)@).to_multiset(),
        sorted_desc(entry_views(final(v)@)),
{
    broadcast use vstd::seq_lib::group_to_multiset_ensures;
    broadcast use vstd::multiset::group_multiset_axioms;

    let n = v.len();
    let ghost orig = entry_views(v@);
    if n <= 1 {
        return ;
    }
    let mut i: usize = 1;
    while i < n
        invariant
            n == v@.len(),
            1 <= i <= n,
            entry_views(v@).to_multiset() == orig.to_multiset(),
            sorted_desc(entry_views(v@).take(i as int)),
        decreases n - i,
    {
        let ghost vb_exec = v@;
        let ghost vb = entry_views(v@);
        let x = v.remove(i);
        let ghost w = entry_views(v@);
        proof {
            lemma_entry_views_remove(vb_exec, i as int);
            vb.remove_ensures(i as int);
            assert(forall|k: int| 0 <= k < i ==> #[trigger] w[k] == vb[k]);
            assert(forall|k1: int, k2: int|
                0 <= k1 <= k2 < i ==> (#[trigger] vb.take(i as int)[k1]).1 >= (#[trigger] vb.take(
                    i as int,
                )[k2]).1);
        }
        let mut j: usize = i;
        while j > 0 && v[j - 1].1 < x.1
            invariant
                j <= i,
                i <= v@.len(),
                w == entry_views(v@),
                forall|k: int| j <= k < i ==> (#[trigger] w[k]).1 < x.1,
            decreases j,
        {
            j = j - 1;
        }
        let ghost w_exec = v@;
        let ghost xe = (x.0@, x.1);
        let ghost exit_high = j == 0 || w[j - 1].1 >= xe.1;
        v.insert(j, x);
        proof {
            lemma_entry_views_insert(w_exec, j as int, x);
            let after = entry_views(v@);
            assert(after == w.insert(j as int, xe));
            // the multiset is unchanged: one entry was taken out and put back
            vb.to_multiset_ensures();
            assert(vb[i as int] == xe);
            assert(w == vb.remove(i as int));
            assert(vb.remove(i as int).to_multiset() =~= vb.to_multiset().remove(xe));
            assert(w.to_multiset() == vb.to_multiset().remove(xe));
            lemma_to_multiset_insert(w, j as int, xe);
            assert(vb.contains(xe));
            assert(vb.to_multiset().count(xe) > 0);
            assert(after.to_multiset() =~= vb.to_multiset());
            // the sorted prefix grew by one
            w.insert_ensures(j as int, xe);
            assert forall|a: int, b: int| 0 <= a <= b < i + 1 implies (#[trigger] after.take(
                i + 1,
            )[a]).1 >= (#[trigger] after.take(i + 1)[b]).1 by {
                assert(after.take(i + 1)[a] == after[a]);
                assert(after.take(i + 1)[b] == after[b]);
                assert(forall|k1: int, k2: int|
                    0 <= k1 <= k2 < i ==> (#[trigger] vb.take(i as int)[k1]).1 >= (
                    #[trigger] vb.take(i as int)[k2]).1);
                assert(forall|k1: int, k2: int|
                    0 <= k1 <= k2 < i ==> #[trigger] w[k1].1 >= #[trigger] w[k2].1) by {
                    assert forall|k1: int, k2: int| 0 <= k1 <= k2 < i implies #[trigger] w[k1].1
                        >= #[trigger] w[k2].1 by {
                        assert(vb.take(i as int)[k1] == vb[k1]);
                        assert(vb.take(i as int)[k2] == vb[k2]);
                    }
                }
                if a < j && b == j {
                    assert(after[a] == w[a]);
                    assert(exit_high);
                    assert(w[a].1 >= w[j - 1].1);
                    assert(after[b] == xe);
                } else if a == j && b > j {
                    assert(after[a] == xe);
                    assert(after[b] == w[b - 1]);
                    assert(w[b - 1].1 < xe.1);
                } else if a < j && b > j {
                    assert(after[a] == w[a]);
                    assert(after[b] == w[b - 1]);
                } else if a < j && b < j {
                    assert(after[a] == w[a]);
                    assert(after[b] == w[b]);
                } else if a > j && b > j {
                    assert(after[a] == w[a - 1]);
                    assert(after[b] == w[b - 1]);
                } else {
                    assert(a == j && b == j);
                }
            }
            assert(sorted_desc(after.take(i + 1)));
        }
        i = i + 1;
    }
    proof {
        assert(entry_views(v@).take(n as int) =~= entry_views(v@));
    }
}

/// Rearranging a well-formed frequency table keeps it well-formed.
pub proof fn lemma_wf_under_permutation(
    a: Seq<(Seq<char>, u32)>,
    b: Seq<(Seq<char>, u32)>,
    toks: Seq<Seq<char>>,
)
    requires
        freq_table_wf(a, toks),
        a.to_multiset() == b.to_multiset(),
    ensures
        freq_table_wf(b, toks),
{
    a.to_multiset_ensures();
    b.to_multiset_ensures();
    assert forall|i: int|
        0 <= i < b.len() implies occ_count(toks, (#[trigger] b[i]).0) > 0 && b[i].1
        == clamped_count(occ_count(toks, b[i].0)) by {
        assert(b.contains(b[i]));
        assert(b.to_multiset().count(b[i]) > 0);
        assert(a.contains(b[i]));
        let j = choose|j: int| 0 <= j < a.len() && a[j] == b[i];
        assert(occ_count(toks, a[j].0) > 0);
    }
    assert forall|w: Seq<char>| #[trigger] occ_count(toks, w) > 0 implies tbl_has_key(b, w) by {
        let i = choose|i: int| 0 <= i < a.len() && (#[trigger] a[i]).0 == w;
        assert(a.contains(a[i]));
        assert(a.to_multiset().count(a[i]) > 0);
        assert(b.contains(a[i]));
        let k = choose|k: int| 0 <= k < b.len() && b[k] == a[i];
        assert((#[trigger] b[k]).0 == w);
    }
    assert(a.no_duplicates()) by {
        assert forall|i: int, j: int|
            0 <= i < a.len() && 0 <= j < a.len() && i != j implies a[i] != a[j] by {
            if i < j {
                assert(a[i].0 != a[j].0);
            } else {
                assert(a[j].0 != a[i].0);
            }
        }
    }
    a.lemma_multiset_has_no_duplicates();
    b.lemma_multiset_has_no_duplicates_conv();
    assert forall|i: int, j: int| 0 <= i < j < b.len() implies (#[trigger] b[i]).0 != (
    #[trigger] b[j]).0 by {
        if b[i].0 == b[j].0 {
            assert(b[i].1 == clamped_count(occ_count(toks, b[i].0)));
            assert(b[j].1 == clamped_count(occ_count(toks, b[j].0)));
            assert(b[i] == b[j]);
        }
    }
}

/// Law: the frequency table of a token sequence is unique up to entry
/// order — any two well-formed tables for the same tokens hold the same
/// multiset of (word, count) pairs.  In particular, tokenizing the same
/// text twice yields identical tables.
pub proof fn lemma_freq_table_unique(
    a: Seq<(Seq<char>, u32)>,
    b: Seq<(Seq<char>, u32)>,
    toks: Seq<Seq<char>>,
)
    requires
        freq_table_wf(a, toks),
        freq_table_wf(b, toks),
    ensures
        a.to_multiset() == b.to_multiset(),
{
    a.to_multiset_ensures();
    b.to_multiset_ensures();
    assert(a.no_duplicates()) by {
        assert forall|i: int, j: int|
            0 <= i < a.len() && 0 <= j < a.len() && i != j implies a[i] != a[j] by {
            if i < j {
                assert(a[i].0 != a[j].0);
            } else {
                assert(a[j].0 != a[i].0);
            }
        }
    }
    assert(b.no_duplicates()) by {
        assert forall|i: int, j: int|
            0 <= i < b.len() && 0 <= j < b.len() && i != j implies b[i] != b[j] by {
            if i < j {
                assert(b[i].0 != b[j].0);
            } else {
                assert(b[j].0 != b[i].0);
            }
        }
    }
    a.lemma_multiset_has_no_duplicates();
    b.lemma_multiset_has_no_duplicates();
    assert forall|p: (Seq<char>, u32)| #[trigger] a.to_multiset().count(p)
        == b.to_multiset().count(p) by {
        if a.contains(p) {
            let i = choose|i: int| 0 <= i < a.len() && a[i] == p;
            assert(occ_count(toks, a[i].0) > 0);
            assert(tbl_has_key(b, p.0));
            let k = choose|k: int| 0 <= k < b.len() && (#[trigger] b[k]).0 == p.0;
            assert(b[k].1 == clamped_count(occ_count(toks, p.0)));
            assert(b[k] == p);
            assert(b.contains(p));
            assert(a.to_multiset().count(p) == 1);
            assert(b.to_multiset().count(p) == 1);
        } else {
            assert(a.to_multiset().count(p) == 0);
            if b.contains(p) {
                let k = choose|k: int| 0 <= k < b.len() && b[k] == p;
                assert(occ_count(toks, b[k].0) > 0);
                assert(tbl_has_key(a, p.0));
                let i = choose|i: int| 0 <= i < a.len() && (#[trigger] a[i]).0 == p.0;
                assert(a[i].1 == clamped_count(occ_count(toks, p.0)));
                assert(a[i] == p);
                assert(a.contains(p));
                assert(false);
            }
            assert(b.to_multiset().count(p) == 0);
        }
    }
    assert(a.to_multiset() =~= b.to_multiset());
}

/// Tokenizes an in-memory text into its word-frequency table.
///
/// The result holds one entry for each distinct token of the text — quotes
/// normalized, tokens matched as letter/digit runs joined across apostrophes
/// and plus signs, and lower-cased — with its number of occurrences,
/// ordered by descending count (entries with equal counts keep their order
/// of first appearance).
pub fn frequency_counter_from_text(text: &str) -> (r: Vec<(String, u32)>)
    ensures
        freq_table_wf(entry_views(r@), word_tokens(text@)),
        sorted_desc(entry_views(r@)),
{
    let cs = chars_of(text);
    let norm = normalize_quotes(&cs);
    let toks = scan_tokens(&norm);
    let mut table = count_tokens(&toks);
    proof {
        assert(str_views(toks@) == word_tokens(text@));
    }
    let ghost unsorted = entry_views(table@);
    sort_by_count_desc(&mut table);
    proof {
        lemma_wf_under_permutation(unsorted, entry_views(table@), word_tokens(text@));
    }
    table
}

} // verus!
