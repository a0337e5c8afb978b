//! Classification of tokenized words against a learner's known-word set.
//!
//! Given a frequency table and a snapshot of the words a learner already
//! knows, the classifier partitions the distinct words of the table into
//! known and unknown ones, keeping their table order, and computes the
//! total and unique word counts and the known percentage.

use vstd::prelude::*;
use crate::tokenizer::{entry_views, str_views, tbl_distinct};

verus! {

/// The words of a frequency table, in table order.
pub open spec fn tbl_keys(t: Seq<(Seq<char>, u32)>) -> Seq<Seq<char>> {
    t.map_values(|p: (Seq<char>, u32)| p.0)
}

/// The exact number of word occurrences a frequency table stands for: the
/// sum of its counts.
pub open spec fn total_of(t: Seq<(Seq<char>, u32)>) -> nat
    decreases t.len(),
{
    if t.len() == 0 {
        0
    } else {
        total_of(t.drop_last()) + t.last().1 as nat
    }
}

/// A total as reported: the exact sum, saturated at the counter width.
pub open spec fn clamped_total(n: nat) -> u64 {
    if n >= u64::MAX {
        u64::MAX
    } else {
        n as u64
    }
}

/// The words of `keys` that are members of the known set, in order.
pub open spec fn known_filter(keys: Seq<Seq<char>>, kn: Seq<Seq<char>>) -> Seq<Seq<char>> {
    keys.filter(|w: Seq<char>| kn.contains(w))
}

/// The words of `keys` that are not members of the known set, in order.
pub open spec fn unknown_filter(keys: Seq<Seq<char>>, kn: Seq<Seq<char>>) -> Seq<Seq<char>> {
    keys.filter(|w: Seq<char>| !kn.contains(w))
}

pub proof fn lemma_known_filter_push(keys: Seq<Seq<char>>, kn: Seq<Seq<char>>, x: Seq<char>)
    ensures
        known_filter(keys.push(x), kn) == known_filter(keys, kn) + (if kn.contains(x) {
            seq![x]
        } else {
            Seq::<Seq<char>>::empty()
        }),
        unknown_filter(keys.push(x), kn) == unknown_filter(keys, kn) + (if !kn.contains(x) {
            seq![x]
        } else {
            Seq::<Seq<char>>::empty()
        }),
{
    reveal(Seq::filter);
    assert(keys.push(x).drop_last() =~= keys);
    assert(keys.push(x).last() == x);
    if kn.contains(x) {
        assert(known_filter(keys, kn).push(x) =~= known_filter(keys, kn) + seq![x]);
        assert(unknown_filter(keys.push(x), kn) =~= unknown_filter(keys, kn)
            + Seq::<Seq<char>>::empty());
    } else {
        assert(unknown_filter(keys, kn).push(x) =~= unknown_filter(keys, kn) + seq![x]);
        assert(known_filter(keys.push(x), kn) =~= known_filter(keys, kn)
            + Seq::<Seq<char>>::empty());
    }
}

/// Law: classification is a partition — a word of the table lands in the
/// known list exactly when the known set holds it, in the unknown list
/// exactly when it does not, never in both, and the two lists together
/// cover the table.
pub proof fn lemma_classification_partition(keys: Seq<Seq<char>>, kn: Seq<Seq<char>>)
    ensures
        forall|w: Seq<char>|
            known_filter(keys, kn).contains(w) <==> (keys.contains(w) && kn.contains(w)),
        forall|w: Seq<char>|
            unknown_filter(keys, kn).contains(w) <==> (keys.contains(w) && !kn.contains(w)),
        forall|w: Seq<char>|
            !(known_filter(keys, kn).contains(w) && unknown_filter(keys, kn).contains(w)),
        known_filter(keys, kn).len() + unknown_filter(keys, kn).len() == keys.len(),
    decreases keys.len(),
{
    if keys.len() == 0 {
        reveal(Seq::filter);
        assert(known_filter(keys, kn).len() == 0);
        assert(unknown_filter(keys, kn).len() == 0);
    } else {
        let prefix = keys.drop_last();
        let x = keys.last();
        lemma_classification_partition(prefix, kn);
        lemma_known_filter_push(prefix, kn, x);
        assert(prefix.push(x) =~= keys);
        assert forall|w: Seq<char>| #[trigger] keys.contains(w) implies prefix.contains(w) || w
            == x by {
            let i = choose|i: int| 0 <= i < keys.len() && keys[i] == w;
            if i < keys.len() - 1 {
                assert(prefix[i] == w);
            }
        }
        assert forall|w: Seq<char>| #[trigger] prefix.contains(w) implies keys.contains(w) by {
            let i = choose|i: int| 0 <= i < prefix.len() && prefix[i] == w;
            assert(keys[i] == w);
        }
        assert(keys.contains(x)) by {
            assert(keys[keys.len() - 1] == x);
        }
        assert forall|a: Seq<Seq<char>>, w: Seq<char>|
            (a + seq![w]).contains(w) && (forall|u: Seq<char>|
                #[trigger] (a + seq![w]).contains(u) ==> a.contains(u) || u == w) && (forall|
                u: Seq<char>,
            |
                #[trigger] a.contains(u) ==> (a + seq![w]).contains(u)) by {
            assert((a + seq![w])[a.len() as int] == w);
            assert forall|u: Seq<char>| #[trigger] (a + seq![w]).contains(u) implies a.contains(u)
                || u == w by {
                let i = choose|i: int| 0 <= i < (a + seq![w]).len() && (a + seq![w])[i] == u;
                if i < a.len() {
                    assert(a[i] == u);
                }
            }
            assert forall|u: Seq<char>| #[trigger] a.contains(u) implies (a + seq![w]).contains(
                u,
            ) by {
                let i = choose|i: int| 0 <= i < a.len() && a[i] == u;
                assert((a + seq![w])[i] == u);
            }
        }
        assert forall|a: Seq<Seq<char>>|
            #[trigger] (a + Seq::<Seq<char>>::empty()).len() == a.len() && (forall|u: Seq<char>|
                (a + Seq::<Seq<char>>::empty()).contains(u) <==> #[trigger] a.contains(u)) by {
            assert(a + Seq::<Seq<char>>::empty() =~= a);
        }
    }
}

/// The derived outcome of one classification.
pub struct ClassificationResult {
    /// The sum of all counts, saturated at the counter width.
    pub total_word_count: u64,
    /// The number of distinct words.
    pub unique_word_count: usize,
    /// The distinct words the learner knows, in table order.
    pub known_words: Vec<String>,
    /// The distinct words the learner does not know, in table order.
    pub unknown_words: Vec<String>,
}

/// The known/unique ratio in hundredths of a percent, defined as zero for
/// an empty table.
pub open spec fn percentage_hundredths(known: nat, unique: nat) -> nat {
    if unique == 0 {
        0
    } else {
        known * 10000 / unique
    }
}

impl ClassificationResult {
    /// The two word lists partition the distinct words.
    pub open spec fn wf(self) -> bool {
        self.known_words@.len() + self.unknown_words@.len() == self.unique_word_count
    }

    pub fn known_count(&self) -> (r: usize)
        ensures
            r == self.known_words@.len(),
    {
        self.known_words.len()
    }

    pub fn unknown_count(&self) -> (r: usize)
        ensures
            r == self.unknown_words@.len(),
    {
        self.unknown_words.len()
    }

    /// The known percentage, in hundredths of a percent (5000 stands for
    /// 50 %), and zero when no word was seen.
    pub fn known_percentage_hundredths(&self) -> (r: u64)
        requires
            self.wf(),
        ensures
            r == percentage_hundredths(self.known_words@.len(), self.unique_word_count as nat),
    {
        let known = self.known_words.len();
        let unique = self.unique_word_count;
        if unique == 0 {
            0
        } else {
            let k: u128 = known as u128;
            let u: u128 = unique as u128;
            let p: u128 = k * 10000 / u;
            proof {
                vstd::arithmetic::mul::lemma_mul_inequality(k as int, u as int, 10000);
                vstd::arithmetic::div_mod::lemma_div_is_ordered(
                    (k * 10000) as int,
                    (u * 10000) as int,
                    u as int,
                );
                vstd::arithmetic::div_mod::lemma_div_by_multiple(10000, u as int);
            }
            p as u64
        }
    }
}

/// Whether the list holds the given word.
pub fn contains_word(ws: &Vec<String>, w: &String) -> (r: bool)
    ensures
        r == str_views(ws@).contains(w@),
{
    let n = ws.len();
    let mut i: usize = 0;
    while i < n
        invariant
            n == ws@.len(),
            i <= n,
            forall|k: int| 0 <= k < i ==> (#[trigger] ws@[k])@ != w@,
        decreases n - i,
    {
        if ws[i] == *w {
            proof {
                assert(str_views(ws@)[i as int] == w@);
            }
            return true;
        }
        i = i + 1;
    }
    proof {
        assert forall|k: int| 0 <= k < str_views(ws@).len() implies str_views(ws@)[k] != w@ by {
            assert(str_views(ws@)[k] == ws@[k]@);
        }
    }
    false
}

/// Classifies the distinct words of a frequency table against a known-word
/// snapshot: words that are members of the snapshot are known, all others
/// unknown, and the counts are summed into a total.
pub fn classify(entries: &Vec<(String, u32)>, known: &Vec<String>) -> (r: ClassificationResult)
    requires
        tbl_distinct(entry_views(entries@)),
    ensures
        r.unique_word_count == entries@.len(),
        r.total_word_count == clamped_total(total_of(entry_views(entries@))),
        str_views(r.known_words@) == known_filter(
            tbl_keys(entry_views(entries@)),
            str_views(known@),
        ),
        str_views(r.unknown_words@) == unknown_filter(
            tbl_keys(entry_views(entries@)),
            str_views(known@),
        ),
        r.wf(),
{
    let ghost evs = entry_views(entries@);
    let ghost keys = tbl_keys(evs);
    let ghost kn = str_views(known@);
    let n = entries.len();
    let mut known_words: Vec<String> = Vec::new();
    let mut unknown_words: Vec<String> = Vec::new();
    let mut total: u64 = 0;
    let mut i: usize = 0;
    while i < n
        invariant
            n == entries@.len(),
            evs == entry_views(entries@),
            keys == tbl_keys(evs),
            kn == str_views(known@),
            evs.len() == n,
            keys.len() == n,
            i <= n,
            total == clamped_total(total_of(evs.take(i as int))),
            str_views(known_words@) == known_filter(keys.take(i as int), kn),
            str_views(unknown_words@) == unknown_filter(keys.take(i as int), kn),
            known_words@.len() + unknown_words@.len() == i,
        decreases n - i,
    {
        let c: u32 = entries[i].1;
        proof {
            assert(evs.take(i + 1).drop_last() =~= evs.take(i as int));
            assert(evs.take(i + 1).last() == evs[i as int]);
            assert(evs[i as int].1 == c);
        }
        if total > u64::MAX - (c as u64) {
            total = u64::MAX;
        } else {
            total = total + (c as u64);
        }
        let is_known = contains_word(known, &entries[i].0);
        let ghost prev_known = known_words@;
        let ghost prev_unknown = unknown_words@;
        if is_known {
            known_words.push(entries[i].0.clone());
        } else {
            unknown_words.push(entries[i].0.clone());
        }
        proof {
            assert(keys.take(i + 1) =~= keys.take(i as int).push(keys[i as int]));
            assert(keys[i as int] == evs[i as int].0);
            assert(evs[i as int].0 == entries@[i as int].0@);
            lemma_known_filter_push(keys.take(i as int), kn, keys[i as int]);
            if is_known {
                crate::tokenizer::lemma_str_views_push(prev_known, known_words@.last());
                assert(str_views(known_words@) =~= known_filter(keys.take(i + 1), kn));
                assert(str_views(unknown_words@) =~= unknown_filter(keys.take(i + 1), kn));
            } else {
                crate::tokenizer::lemma_str_views_push(prev_unknown, unknown_words@.last());
                assert(str_views(unknown_words@) =~= unknown_filter(keys.take(i + 1), kn));
                assert(str_views(known_words@) =~= known_filter(keys.take(i + 1), kn));
            }
        }
        i = i + 1;
    }
    proof {
        assert(evs.take(n as int) =~= evs);
        assert(keys.take(n as int) =~= keys);
    }
    ClassificationResult { total_word_count: total, unique_word_count: n, known_words, unknown_words }
}

} // verus!
