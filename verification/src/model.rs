use vstd::prelude::*;
use vstd::arithmetic::power::{pow, lemma_pow_positive};
use crate::bignum::{BigNat, lemma_pow_unfold};
use crate::text::{stems, stem_text, lemma_tokens_count};

verus! {

/// A word of one label's frequency table, with its occurrence count.
struct WordEntry {
    word: String,
    count: u64,
}

/// Everything recorded for one label: how many documents were trained under
/// it, and how often each stemmed word occurred in them.
struct LabelStats {
    label: String,
    doc_count: u64,
    word_counts: Vec<WordEntry>,
    word_total: u64,
}

/// Occurrences of `w` recorded in a word table (the table never holds two
/// entries for one word, so this sum is that word's single count).
spec fn wc_get(s: Seq<WordEntry>, w: Seq<char>) -> nat
    decreases s.len(),
{
    if s.len() == 0 {
        0
    } else {
        wc_get(s.drop_last(), w) + if s.last().word@ == w {
            s.last().count as nat
        } else {
            0nat
        }
    }
}

/// Total word occurrences recorded in a word table.
spec fn wc_total(s: Seq<WordEntry>) -> nat
    decreases s.len(),
{
    if s.len() == 0 {
        0
    } else {
        wc_total(s.drop_last()) + s.last().count as nat
    }
}

spec fn words_distinct(s: Seq<WordEntry>) -> bool {
    forall|a: int, b: int| 0 <= a < b < s.len() ==> s[a].word@ != s[b].word@
}

/// Sum of `f` over the classes carrying label `l`; with distinct labels this
/// reads the single matching class, and 0 stands for an absent label.
spec fn class_sum(s: Seq<LabelStats>, l: Seq<char>, f: spec_fn(LabelStats) -> int) -> int
    decreases s.len(),
{
    if s.len() == 0 {
        0
    } else {
        class_sum(s.drop_last(), l, f) + if s.last().label@ == l {
            f(s.last())
        } else {
            0
        }
    }
}

/// How many times `w` occurs in `q`.
pub open spec fn occ(q: Seq<Seq<char>>, w: Seq<char>) -> nat
    decreases q.len(),
{
    if q.len() == 0 {
        0
    } else {
        occ(q.drop_last(), w) + if q.last() == w {
            1nat
        } else {
            0nat
        }
    }
}

/// Number of words of `q` that are fresh: not already `seen`, and not
/// occurring earlier in `q`. This is how many distinct new words `q`
/// contributes to a vocabulary whose membership `seen` describes.
pub open spec fn fresh_words(q: Seq<Seq<char>>, seen: spec_fn(Seq<char>) -> bool) -> nat
    decreases q.len(),
{
    if q.len() == 0 {
        0
    } else {
        fresh_words(q.drop_last(), seen) + (if seen(q.last()) || q.drop_last().contains(
            q.last(),
        ) {
            0nat
        } else {
            1nat
        })
    }
}

/// `fresh_words` depends on `seen` only pointwise.
pub proof fn lemma_fresh_words_congruent(
    q: Seq<Seq<char>>,
    f: spec_fn(Seq<char>) -> bool,
    g: spec_fn(Seq<char>) -> bool,
)
    requires
        forall|w: Seq<char>| #[trigger] f(w) == g(w),
    ensures
        fresh_words(q, f) == fresh_words(q, g),
    decreases q.len(),
{
    if q.len() > 0 {
        lemma_fresh_words_congruent(q.drop_last(), f, g);
    }
}

/// Why a query cannot be answered.
#[derive(Debug, Clone, Copy, PartialEq, Eq)]
pub enum ClassifyError {
    /// No class has ever been trained, so no maximum exists.
    Untrained,
    /// The vocabulary is empty while the query has words: every smoothing
    /// denominator would be zero.
    DegenerateSmoothing,
}

/// An incrementally trained multinomial Naive Bayes classifier with add-one
/// smoothing over stemmed, whitespace-separated words.
pub struct NaiveBayes {
    classes: Vec<LabelStats>,
    vocab: Vec<String>,
    token_total: u64,
}

/// The character sequences of a sequence of strings.
pub open spec fn string_views(s: Seq<String>) -> Seq<Seq<char>> {
    s.map_values(|t: String| t@)
}

spec fn vocab_has_in(s: Seq<String>, w: Seq<char>) -> bool {
    exists|k: int| 0 <= k < s.len() && s[k]@ == w
}

spec fn strings_distinct(s: Seq<String>) -> bool {
    forall|a: int, b: int| 0 <= a < b < s.len() ==> s[a]@ != s[b]@
}

spec fn seen_in(s: Seq<String>) -> spec_fn(Seq<char>) -> bool {
    |v: Seq<char>| vocab_has_in(s, v)
}

spec fn f_doc() -> spec_fn(LabelStats) -> int {
    |c: LabelStats| c.doc_count as int
}

spec fn f_wc(w: Seq<char>) -> spec_fn(LabelStats) -> int {
    |c: LabelStats| wc_get(c.word_counts@, w) as int
}

spec fn f_wt() -> spec_fn(LabelStats) -> int {
    |c: LabelStats| wc_total(c.word_counts@) as int
}

proof fn lemma_wc_nonneg_absent(s: Seq<WordEntry>, w: Seq<char>)
    requires
        forall|k: int| 0 <= k < s.len() ==> s[k].word@ != w,
    ensures
        wc_get(s, w) == 0,
    decreases s.len(),
{
    if s.len() > 0 {
        lemma_wc_nonneg_absent(s.drop_last(), w);
    }
}

proof fn lemma_wc_at(s: Seq<WordEntry>, i: int, w: Seq<char>)
    requires
        0 <= i < s.len(),
        s[i].word@ == w,
        forall|j: int| 0 <= j < s.len() && j != i ==> s[j].word@ != w,
    ensures
        wc_get(s, w) == s[i].count,
    decreases s.len(),
{
    if i == s.len() - 1 {
        lemma_wc_nonneg_absent(s.drop_last(), w);
    } else {
        lemma_wc_at(s.drop_last(), i, w);
    }
}

proof fn lemma_wc_le_total(s: Seq<WordEntry>, w: Seq<char>)
    ensures
        wc_get(s, w) <= wc_total(s),
    decreases s.len(),
{
    if s.len() > 0 {
        lemma_wc_le_total(s.drop_last(), w);
    }
}

/// Raising one entry's count by one raises that word's count and the total by
/// one, and no other word's count.
proof fn lemma_wc_bump(s: Seq<WordEntry>, i: int, e: WordEntry, v: Seq<char>)
    requires
        0 <= i < s.len(),
        e.word@ == s[i].word@,
        e.count == s[i].count + 1,
    ensures
        wc_get(s.update(i, e), v) == wc_get(s, v) + if s[i].word@ == v {
            1nat
        } else {
            0nat
        },
        wc_total(s.update(i, e)) == wc_total(s) + 1,
    decreases s.len(),
{
    if i == s.len() - 1 {
        assert(s.update(i, e).drop_last() =~= s.drop_last());
    } else {
        assert(s.update(i, e).drop_last() =~= s.drop_last().update(i, e));
        lemma_wc_bump(s.drop_last(), i, e, v);
    }
}

proof fn lemma_class_sum_absent(s: Seq<LabelStats>, l: Seq<char>, f: spec_fn(LabelStats) -> int)
    requires
        forall|i: int| 0 <= i < s.len() ==> s[i].label@ != l,
    ensures
        class_sum(s, l, f) == 0,
    decreases s.len(),
{
    if s.len() > 0 {
        lemma_class_sum_absent(s.drop_last(), l, f);
    }
}

proof fn lemma_class_sum_at(s: Seq<LabelStats>, i: int, f: spec_fn(LabelStats) -> int)
    requires
        0 <= i < s.len(),
        forall|j: int| 0 <= j < s.len() && j != i ==> s[j].label@ != s[i].label@,
    ensures
        class_sum(s, s[i].label@, f) == f(s[i]),
    decreases s.len(),
{
    if i == s.len() - 1 {
        lemma_class_sum_absent(s.drop_last(), s[i].label@, f);
    } else {
        lemma_class_sum_at(s.drop_last(), i, f);
    }
}

proof fn lemma_class_sum_update(
    s: Seq<LabelStats>,
    i: int,
    e: LabelStats,
    l: Seq<char>,
    f: spec_fn(LabelStats) -> int,
)
    requires
        0 <= i < s.len(),
        e.label@ == s[i].label@,
    ensures
        class_sum(s.update(i, e), l, f) == class_sum(s, l, f) + if s[i].label@ == l {
            f(e) - f(s[i])
        } else {
            0
        },
    decreases s.len(),
{
    if i == s.len() - 1 {
        assert(s.update(i, e).drop_last() =~= s.drop_last());
    } else {
        assert(s.update(i, e).drop_last() =~= s.drop_last().update(i, e));
        lemma_class_sum_update(s.drop_last(), i, e, l, f);
    }
}

proof fn lemma_class_sum_nonneg(s: Seq<LabelStats>, l: Seq<char>, f: spec_fn(LabelStats) -> int)
    requires
        forall|c: LabelStats| #[trigger] f(c) >= 0,
    ensures
        class_sum(s, l, f) >= 0,
    decreases s.len(),
{
    if s.len() > 0 {
        lemma_class_sum_nonneg(s.drop_last(), l, f);
    }
}

/// Raise the count of `w` by one, creating its entry at one if absent.
fn bump_word(entries: &mut Vec<WordEntry>, w: &String)
    requires
        words_distinct(old(entries)@),
        wc_get(old(entries)@, w@) < u64::MAX,
    ensures
        words_distinct(final(entries)@),
        forall|v: Seq<char>|
            wc_get(final(entries)@, v) == wc_get(old(entries)@, v) + (if v == w@ {
                1nat
            } else {
                0nat
            }),
        wc_total(final(entries)@) == wc_total(old(entries)@) + 1,
{
    let ghost s0 = entries@;
    let n = entries.len();
    let mut k: usize = 0;
    while k < n
        invariant
            k <= n,
            n == entries@.len(),
            entries@ == s0,
            s0 == old(entries)@,
            words_distinct(s0),
            wc_get(s0, w@) < u64::MAX,
            forall|m: int| 0 <= m < k ==> s0[m].word@ != w@,
        decreases n - k,
    {
        if entries[k].word == *w {
            proof {
                assert forall|j: int| 0 <= j < s0.len() && j != k implies s0[j].word@ != w@ by {
                    if j > k {
                        assert(s0[k as int].word@ != s0[j].word@);
                    }
                }
                lemma_wc_at(s0, k as int, w@);
            }
            let e = entries.remove(k);
            let c = e.count;
            let e2 = WordEntry { word: e.word, count: c + 1 };
            entries.insert(k, e2);
            proof {
                assert(entries@ =~= s0.update(k as int, e2));
                assert forall|v: Seq<char>|
                    wc_get(entries@, v) == wc_get(s0, v) + (if v == w@ {
                        1nat
                    } else {
                        0nat
                    }) by {
                    lemma_wc_bump(s0, k as int, e2, v);
                }
                lemma_wc_bump(s0, k as int, e2, w@);
                assert forall|a: int, b: int| 0 <= a < b < entries@.len() implies entries@[a].word@
                    != entries@[b].word@ by {
                    assert(s0[a].word@ != s0[b].word@);
                    assert(entries@[a].word@ == s0[a].word@);
                    assert(entries@[b].word@ == s0[b].word@);
                }
            }
            return ;
        }
        k += 1;
    }
    let e = WordEntry { word: w.clone(), count: 1 };
    entries.push(e);
    proof {
        assert(entries@.drop_last() =~= s0);
        assert(entries@.last().word@ == w@);
        assert forall|v: Seq<char>|
            wc_get(entries@, v) == wc_get(s0, v) + (if v == w@ {
                1nat
            } else {
                0nat
            }) by {}
        assert forall|a: int, b: int| 0 <= a < b < entries@.len() implies entries@[a].word@
            != entries@[b].word@ by {
            if b == entries@.len() - 1 {
                assert(s0[a].word@ != w@);
            }
        }
    }
}

/// Record `w` as seen, keeping the vocabulary free of duplicates.
fn vocab_add(vocab: &mut Vec<String>, w: &String)
    requires
        strings_distinct(old(vocab)@),
    ensures
        strings_distinct(final(vocab)@),
        forall|v: Seq<char>|
            vocab_has_in(final(vocab)@, v) <==> vocab_has_in(old(vocab)@, v) || v == w@,
        final(vocab)@.len() == old(vocab)@.len() + (if vocab_has_in(old(vocab)@, w@) {
            0int
        } else {
            1int
        }),
{
    let ghost v0 = vocab@;
    let n = vocab.len();
    let mut k: usize = 0;
    while k < n
        invariant
            k <= n,
            n == vocab@.len(),
            vocab@ == v0,
            v0 == old(vocab)@,
            strings_distinct(v0),
            forall|m: int| 0 <= m < k ==> v0[m]@ != w@,
        decreases n - k,
    {
        if vocab[k] == *w {
            proof {
                assert(vocab_has_in(vocab@, w@));
                assert forall|v: Seq<char>|
                    vocab_has_in(vocab@, v) <==> vocab_has_in(v0, v) || v == w@ by {
                    if v == w@ {
                        assert(v0[k as int]@ == v);
                    }
                }
                assert(strings_distinct(vocab@));
            }
            return ;
        }
        k += 1;
    }
    vocab.push(w.clone());
    proof {
        assert(!vocab_has_in(v0, w@));
        assert(vocab@.last()@ == w@);
        assert forall|v: Seq<char>|
            vocab_has_in(vocab@, v) <==> vocab_has_in(v0, v) || v == w@ by {
            if vocab_has_in(vocab@, v) {
                let idx = choose|idx: int| 0 <= idx < vocab@.len() && vocab@[idx]@ == v;
                if idx < v0.len() {
                    assert(v0[idx]@ == v);
                } else {
                    assert(v == w@);
                }
            }
            if vocab_has_in(v0, v) {
                let idx = choose|idx: int| 0 <= idx < v0.len() && v0[idx]@ == v;
                assert(vocab@[idx]@ == v);
            }
            if v == w@ {
                assert(vocab@[vocab@.len() - 1]@ == v);
            }
        }
        assert forall|a: int, b: int| 0 <= a < b < vocab@.len() implies vocab@[a]@
            != vocab@[b]@ by {
            if b == vocab@.len() - 1 {
                assert(v0[a]@ != w@);
            }
        }
    }
}

/// Index of the class carrying `label`, if one exists.
fn find_class(classes: &Vec<LabelStats>, label: &String) -> (r: Option<usize>)
    ensures
        match r {
            Some(i) => i < classes@.len() && classes@[i as int].label@ == label@,
            None => forall|i: int| 0 <= i < classes@.len() ==> classes@[i].label@ != label@,
        },
{
    let n = classes.len();
    let mut k: usize = 0;
    while k < n
        invariant
            k <= n,
            n == classes@.len(),
            forall|m: int| 0 <= m < k ==> classes@[m].label@ != label@,
        decreases n - k,
    {
        if classes[k].label == *label {
            return Some(k);
        }
        k += 1;
    }
    None
}

proof fn lemma_contains_take_push(q: Seq<Seq<char>>, k: int, v: Seq<char>)
    requires
        0 < k <= q.len(),
    ensures
        q.take(k).contains(v) <==> (q.take(k - 1).contains(v) || q[k - 1] == v),
{
    if q.take(k).contains(v) {
        let i = choose|i: int| 0 <= i < q.take(k).len() && #[trigger] q.take(k)[i] == v;
        if i < k - 1 {
            assert(q.take(k - 1)[i] == v);
        }
    }
    if q.take(k - 1).contains(v) {
        let i = choose|i: int| 0 <= i < q.take(k - 1).len() && #[trigger] q.take(k - 1)[i] == v;
        assert(q.take(k)[i] == v);
    }
    if q[k - 1] == v {
        assert(q.take(k)[k - 1] == v);
    }
}

/// Count of `w` recorded in a table with distinct words.
fn lookup_count(entries: &Vec<WordEntry>, w: &String) -> (r: u64)
    requires
        words_distinct(entries@),
    ensures
        r == wc_get(entries@, w@),
{
    let n = entries.len();
    let mut k: usize = 0;
    while k < n
        invariant
            k <= n,
            n == entries@.len(),
            words_distinct(entries@),
            forall|m: int| 0 <= m < k ==> entries@[m].word@ != w@,
        decreases n - k,
    {
        if entries[k].word == *w {
            proof {
                assert forall|j: int| 0 <= j < entries@.len() && j != k implies entries@[j].word@
                    != w@ by {
                    if j > k {
                        assert(entries@[k as int].word@ != entries@[j].word@);
                    }
                }
                lemma_wc_at(entries@, k as int, w@);
            }
            return entries[k].count;
        }
        k += 1;
    }
    proof {
        lemma_wc_nonneg_absent(entries@, w@);
    }
    0
}

/// Fold one document's stemmed words into a label's table and the shared
/// vocabulary.
fn absorb(st: &mut LabelStats, vocab: &mut Vec<String>, stems_v: &Vec<String>)
    requires
        words_distinct(old(st).word_counts@),
        old(st).word_total == wc_total(old(st).word_counts@),
        old(st).word_total + stems_v@.len() <= u64::MAX,
        strings_distinct(old(vocab)@),
        forall|v: Seq<char>|
            wc_get(old(st).word_counts@, v) > 0 ==> vocab_has_in(old(vocab)@, v),
    ensures
        final(st).label == old(st).label,
        final(st).doc_count == old(st).doc_count,
        words_distinct(final(st).word_counts@),
        final(st).word_total == wc_total(final(st).word_counts@),
        final(st).word_total == old(st).word_total + stems_v@.len(),
        forall|v: Seq<char>|
            wc_get(final(st).word_counts@, v) == wc_get(old(st).word_counts@, v) + occ(
                string_views(stems_v@),
                v,
            ),
        strings_distinct(final(vocab)@),
        forall|v: Seq<char>|
            vocab_has_in(final(vocab)@, v) <==> (vocab_has_in(old(vocab)@, v) || string_views(
                stems_v@,
            ).contains(v)),
        old(vocab)@.len() <= final(vocab)@.len() <= old(vocab)@.len() + stems_v@.len(),
        final(vocab)@.len() == old(vocab)@.len() + fresh_words(string_views(stems_v@), seen_in(old(vocab)@)),
        forall|v: Seq<char>|
            wc_get(final(st).word_counts@, v) > 0 ==> vocab_has_in(final(vocab)@, v),
{
    let ghost wc0 = old(st).word_counts@;
    let ghost v0 = old(vocab)@;
    let ghost qs = string_views(stems_v@);
    let ghost seen0 = seen_in(v0);
    let n = stems_v.len();
    let mut k: usize = 0;
    proof {
        assert(qs.take(0) =~= Seq::<Seq<char>>::empty());
    }
    while k < n
        invariant
            k <= n,
            n == stems_v@.len(),
            qs == string_views(stems_v@),
            qs.len() == n,
            st.label == old(st).label,
            st.doc_count == old(st).doc_count,
            words_distinct(st.word_counts@),
            st.word_total == wc_total(st.word_counts@),
            st.word_total == old(st).word_total + k,
            old(st).word_total + n <= u64::MAX,
            wc0 == old(st).word_counts@,
            v0 == old(vocab)@,
            forall|v: Seq<char>|
                wc_get(st.word_counts@, v) == wc_get(wc0, v) + occ(qs.take(k as int), v),
            strings_distinct(vocab@),
            forall|v: Seq<char>|
                vocab_has_in(vocab@, v) <==> (vocab_has_in(v0, v) || qs.take(k as int).contains(
                    v,
                )),
            v0.len() <= vocab@.len() <= v0.len() + k,
            seen0 == seen_in(v0),
            vocab@.len() == v0.len() + fresh_words(qs.take(k as int), seen0),
            forall|v: Seq<char>| wc_get(st.word_counts@, v) > 0 ==> vocab_has_in(vocab@, v),
        decreases n - k,
    {
        let w = &stems_v[k];
        let ghost v_pre = vocab@;
        proof {
            assert(qs[k as int] == stems_v@[k as int]@);
            assert(forall|v: Seq<char>|
                vocab_has_in(v_pre, v) <==> (vocab_has_in(v0, v) || qs.take(k as int).contains(
                    v,
                )));
        }
        vocab_add(vocab, w);
        proof {
            lemma_wc_le_total(st.word_counts@, w@);
        }
        bump_word(&mut st.word_counts, w);
        st.word_total = st.word_total + 1;
        proof {
            assert(qs.take(k + 1).drop_last() =~= qs.take(k as int));
            assert(qs.take(k + 1).last() == qs[k as int]);
            assert forall|v: Seq<char>|
                wc_get(st.word_counts@, v) == wc_get(wc0, v) + occ(qs.take(k + 1), v) by {
                assert(occ(qs.take(k + 1), v) == occ(qs.take(k as int), v) + (if qs[k as int]
                    == v {
                    1nat
                } else {
                    0nat
                }));
            }
            assert forall|v: Seq<char>|
                vocab_has_in(vocab@, v) <==> (vocab_has_in(v0, v) || qs.take(k + 1).contains(
                    v,
                )) by {
                lemma_contains_take_push(qs, k + 1, v);
                assert(vocab_has_in(vocab@, v) <==> (vocab_has_in(v_pre, v) || v == w@));
                assert(vocab_has_in(v_pre, v) <==> (vocab_has_in(v0, v) || qs.take(
                    k as int,
                ).contains(v)));
            }
            assert(seen0(qs[k as int]) == vocab_has_in(v0, qs[k as int]));
            assert(vocab_has_in(v_pre, qs[k as int]) <==> (vocab_has_in(v0, qs[k as int])
                || qs.take(k as int).contains(qs[k as int])));
            assert(fresh_words(qs.take(k + 1), seen0) == fresh_words(qs.take(k as int), seen0)
                + (if seen0(qs[k as int]) || qs.take(k as int).contains(qs[k as int]) {
                0nat
            } else {
                1nat
            }));
            assert(vocab@.len() == v0.len() + fresh_words(qs.take(k + 1), seen0));
        }
        k += 1;
    }
    proof {
        assert(qs.take(n as int) =~= qs);
    }
}

impl NaiveBayes {
    pub closed spec fn num_labels(self) -> int {
        self.classes@.len() as int
    }

    pub closed spec fn label_at(self, i: int) -> Seq<char> {
        self.classes@[i].label@
    }

    /// The labels in the order their first training example arrived.
    pub closed spec fn labels(self) -> Seq<Seq<char>> {
        self.classes@.map_values(|c: LabelStats| c.label@)
    }

    pub closed spec fn has_label(self, l: Seq<char>) -> bool {
        exists|i: int| 0 <= i < self.num_labels() && self.label_at(i) == l
    }

    /// Documents trained under label `l`; 0 for a label never trained.
    pub closed spec fn doc_count(self, l: Seq<char>) -> int {
        class_sum(self.classes@, l, f_doc())
    }

    /// Occurrences of stemmed word `w` in documents of label `l`.
    pub closed spec fn word_count(self, l: Seq<char>, w: Seq<char>) -> int {
        class_sum(self.classes@, l, f_wc(w))
    }

    /// Total word occurrences recorded under label `l`.
    pub closed spec fn word_total(self, l: Seq<char>) -> int {
        class_sum(self.classes@, l, f_wt())
    }

    /// Whether `w` has ever been seen in any training text.
    pub closed spec fn vocab_has(self, w: Seq<char>) -> bool {
        exists|k: int| 0 <= k < self.vocab@.len() && self.vocab@[k]@ == w
    }

    /// Number of distinct stemmed words ever seen.
    pub closed spec fn vocab_size(self) -> int {
        self.vocab@.len() as int
    }

    /// Vocabulary membership as a predicate, for counting fresh words.
    pub open spec fn seen(self) -> spec_fn(Seq<char>) -> bool {
        |w: Seq<char>| self.vocab_has(w)
    }

    /// Total word occurrences over all labels; bounds the tables' counts.
    pub closed spec fn token_count(self) -> int {
        self.token_total as int
    }

    pub closed spec fn wf(self) -> bool {
        &&& forall|i: int, j: int|
            0 <= i < j < self.classes@.len() ==> self.classes@[i].label@ != self.classes@[j].label@
        &&& forall|i: int|
            0 <= i < self.classes@.len() ==> (#[trigger] self.classes@[i]).doc_count >= 1
        &&& forall|i: int|
            0 <= i < self.classes@.len() ==> words_distinct(
                (#[trigger] self.classes@[i]).word_counts@,
            )
        &&& forall|i: int|
            0 <= i < self.classes@.len() ==> (#[trigger] self.classes@[i]).word_total == wc_total(
                self.classes@[i].word_counts@,
            )
        &&& forall|i: int|
            0 <= i < self.classes@.len() ==> (#[trigger] self.classes@[i]).word_total
                <= self.token_total
        &&& self.token_total + self.vocab@.len() <= u64::MAX
        &&& forall|a: int, b: int|
            0 <= a < b < self.vocab@.len() ==> self.vocab@[a]@ != self.vocab@[b]@
        &&& forall|i: int, w: Seq<char>|
            0 <= i < self.classes@.len() && #[trigger] wc_get(self.classes@[i].word_counts@, w)
                > 0 ==> self.vocab_has(w)
    }

    /// Numerator of the smoothed likelihood of `w` under `l`: its count plus
    /// one, so never zero.
    pub open spec fn likelihood_num(self, l: Seq<char>, w: Seq<char>) -> int {
        self.word_count(l, w) + 1
    }

    /// Common denominator of every word likelihood under `l`.
    pub open spec fn likelihood_den(self, l: Seq<char>) -> int {
        self.word_total(l) + self.vocab_size()
    }

    /// Numerator of the posterior score of `l` for query words `q`: the prior
    /// count times the smoothed likelihood numerators. The posterior
    /// log-score is `ln(doc_count/total) + sum of ln(num/den)`; `ln` is
    /// strictly monotone and the document total divides every prior, so
    /// comparing these integer products against `score_den` orders labels
    /// exactly as the log-scores do.
    pub open spec fn prod_num(self, l: Seq<char>, q: Seq<Seq<char>>) -> int
        decreases q.len(),
    {
        if q.len() == 0 {
            self.doc_count(l)
        } else {
            self.prod_num(l, q.drop_last()) * self.likelihood_num(l, q.last())
        }
    }

    /// Denominator of the posterior score: one smoothing denominator per
    /// query word.
    pub open spec fn score_den(self, l: Seq<char>, n: nat) -> int {
        pow(self.likelihood_den(l), n)
    }

    /// The score of `la` strictly exceeds the score of `lb`.
    pub open spec fn score_gt(self, q: Seq<Seq<char>>, la: Seq<char>, lb: Seq<char>) -> bool {
        self.prod_num(la, q) * self.score_den(lb, q.len()) > self.prod_num(lb, q)
            * self.score_den(la, q.len())
    }

    /// The score of `la` is at least the score of `lb`.
    pub open spec fn score_ge(self, q: Seq<Seq<char>>, la: Seq<char>, lb: Seq<char>) -> bool {
        self.prod_num(la, q) * self.score_den(lb, q.len()) >= self.prod_num(lb, q)
            * self.score_den(la, q.len())
    }

    /// The label at `i` scores strictly above every earlier label and at
    /// least as high as every later one: the first-encountered maximum, the
    /// documented tie-break (ties go to the earlier-trained label).
    pub open spec fn is_best(self, q: Seq<Seq<char>>, i: int) -> bool {
        &&& 0 <= i < self.num_labels()
        &&& forall|j: int|
            0 <= j < i ==> self.score_gt(q, self.label_at(i), #[trigger] self.label_at(j))
        &&& forall|j: int|
            i < j < self.num_labels() ==> self.score_ge(
                q,
                self.label_at(i),
                #[trigger] self.label_at(j),
            )
    }

    /// A classifier that has seen nothing.
    pub fn new() -> (r: NaiveBayes)
        ensures
            r.wf(),
            r.num_labels() == 0,
            r.labels() == Seq::<Seq<char>>::empty(),
            r.vocab_size() == 0,
            r.token_count() == 0,
            forall|l: Seq<char>| r.doc_count(l) == 0,
            forall|l: Seq<char>, w: Seq<char>| r.word_count(l, w) == 0,
            forall|w: Seq<char>| !r.vocab_has(w),
    {
        let r = NaiveBayes { classes: Vec::new(), vocab: Vec::new(), token_total: 0 };
        proof {
            assert(r.labels() =~= Seq::<Seq<char>>::empty());
            assert forall|l: Seq<char>| r.doc_count(l) == 0 by {
                assert(r.classes@.len() == 0);
            }
            assert forall|l: Seq<char>, w: Seq<char>| r.word_count(l, w) == 0 by {
                assert(r.classes@.len() == 0);
            }
        }
        r
    }

    /// Record one training document: count it for `label` (creating the
    /// label if new), and fold every stemmed word of `text` into the label's
    /// table and the shared vocabulary. Any text and any label are accepted;
    /// the two arithmetic bounds only keep the 64-bit counters from
    /// overflowing.
    pub fn train(&mut self, text: &str, label: &str)
        requires
            old(self).wf(),
            old(self).doc_count(label@) < u64::MAX,
            old(self).token_count() + old(self).vocab_size() + 2 * text@.len() <= u64::MAX,
        ensures
            final(self).wf(),
            final(self).has_label(label@),
            final(self).doc_count(label@) == old(self).doc_count(label@) + 1,
            forall|l: Seq<char>|
                l != label@ ==> final(self).doc_count(l) == old(self).doc_count(l),
            forall|w: Seq<char>|
                final(self).word_count(label@, w) == old(self).word_count(label@, w) + occ(
                    stems(text@),
                    w,
                ),
            forall|l: Seq<char>, w: Seq<char>|
                l != label@ ==> final(self).word_count(l, w) == old(self).word_count(l, w),
            final(self).word_total(label@) == old(self).word_total(label@) + stems(text@).len(),
            forall|l: Seq<char>|
                l != label@ ==> final(self).word_total(l) == old(self).word_total(l),
            old(self).has_label(label@) ==> final(self).labels() == old(self).labels(),
            !old(self).has_label(label@) ==> final(self).labels() == old(self).labels().push(
                label@,
            ),
            forall|w: Seq<char>|
                final(self).vocab_has(w) <==> (old(self).vocab_has(w) || stems(text@).contains(
                    w,
                )),
            final(self).vocab_size() >= old(self).vocab_size(),
            final(self).vocab_size() == old(self).vocab_size() + fresh_words(
                stems(text@),
                old(self).seen(),
            ),
            final(self).token_count() + final(self).vocab_size() <= old(self).token_count() + old(
                self,
            ).vocab_size() + 2 * text@.len(),
    {
        let label_s = <String as vstd::string::StringExecFns>::from_str(label);
        let stems_v = stem_text(text);
        let ghost qs = stems(text@);
        let ghost cs0 = old(self).classes@;
        let ghost tt0 = old(self).token_total;
        proof {
            lemma_tokens_count(text@);
            assert(string_views(stems_v@) =~= qs);
            assert(strings_distinct(old(self).vocab@)) by {
                assert forall|a: int, b: int|
                    0 <= a < b < old(self).vocab@.len() implies old(self).vocab@[a]@ != old(
                    self,
                ).vocab@[b]@ by {}
            }
        }
        let found = find_class(&self.classes, &label_s);
        match found {
            Option::Some(i) => {
                proof {
                    assert forall|j: int|
                        0 <= j < cs0.len() && j != i as int implies cs0[j].label@ != cs0[i as int].label@ by {}
                    lemma_class_sum_at(cs0, i as int, f_doc());
                    lemma_class_sum_at(cs0, i as int, f_wt());
                    assert(f_doc()(cs0[i as int]) == cs0[i as int].doc_count as int);
                    assert(f_wt()(cs0[i as int]) == wc_total(cs0[i as int].word_counts@) as int);
                    assert(old(self).doc_count(label@) == cs0[i as int].doc_count);
                }
                let mut st = self.classes.remove(i);
                st.doc_count = st.doc_count + 1;
                absorb(&mut st, &mut self.vocab, &stems_v);
                self.token_total = self.token_total + stems_v.len() as u64;
                let ghost st1 = st;
                self.classes.insert(i, st);
                proof {
                    let ii = i as int;
                    let csf = self.classes@;
                    assert(csf =~= cs0.update(ii, st1));
                    assert(st1.label@ == label@);
                    assert(self.doc_count(label@) == old(self).doc_count(label@) + 1) by {
                        lemma_class_sum_update(cs0, ii, st1, label@, f_doc());
                        assert(f_doc()(st1) == st1.doc_count as int);
                        assert(f_doc()(cs0[ii]) == cs0[ii].doc_count as int);
                    }
                    assert forall|l: Seq<char>| l != label@ implies self.doc_count(l) == old(
                        self,
                    ).doc_count(l) by {
                        lemma_class_sum_update(cs0, ii, st1, l, f_doc());
                    }
                    assert forall|w: Seq<char>|
                        self.word_count(label@, w) == old(self).word_count(label@, w) + occ(
                            qs,
                            w,
                        ) by {
                        lemma_class_sum_update(cs0, ii, st1, label@, f_wc(w));
                        assert(f_wc(w)(st1) == wc_get(st1.word_counts@, w) as int);
                        assert(f_wc(w)(cs0[ii]) == wc_get(cs0[ii].word_counts@, w) as int);
                    }
                    assert forall|l: Seq<char>, w: Seq<char>| l != label@ implies self.word_count(
                        l,
                        w,
                    ) == old(self).word_count(l, w) by {
                        lemma_class_sum_update(cs0, ii, st1, l, f_wc(w));
                    }
                    assert(self.word_total(label@) == old(self).word_total(label@)
                        + qs.len()) by {
                        lemma_class_sum_update(cs0, ii, st1, label@, f_wt());
                        assert(f_wt()(st1) == wc_total(st1.word_counts@) as int);
                        assert(f_wt()(cs0[ii]) == wc_total(cs0[ii].word_counts@) as int);
                    }
                    assert forall|l: Seq<char>| l != label@ implies self.word_total(l) == old(
                        self,
                    ).word_total(l) by {
                        lemma_class_sum_update(cs0, ii, st1, l, f_wt());
                    }
                    assert(self.labels() =~= old(self).labels());
                    assert(self.label_at(ii) == label@);
                    assert(self.has_label(label@));
                    assert(old(self).label_at(ii) == label@);
                    assert(old(self).has_label(label@));
                    assert forall|w: Seq<char>|
                        self.vocab_has(w) <==> (old(self).vocab_has(w) || stems(
                            text@,
                        ).contains(w)) by {
                        assert(vocab_has_in(self.vocab@, w) <==> (vocab_has_in(
                            old(self).vocab@,
                            w,
                        ) || qs.contains(w)));
                    }
                    assert(self.wf()) by {
                        assert forall|a: int, b: int|
                            0 <= a < b < csf.len() implies csf[a].label@ != csf[b].label@ by {
                            assert(csf[a].label@ == cs0[a].label@);
                            assert(csf[b].label@ == cs0[b].label@);
                        }
                        assert forall|j: int|
                            0 <= j < csf.len() implies (#[trigger] csf[j]).doc_count >= 1
                                && words_distinct(csf[j].word_counts@) && csf[j].word_total
                                == wc_total(csf[j].word_counts@) && csf[j].word_total
                                <= self.token_total by {
                            if j != ii {
                                assert(csf[j] == cs0[j]);
                            }
                        }
                        assert forall|j: int, w: Seq<char>|
                            0 <= j < csf.len() && #[trigger] wc_get(csf[j].word_counts@, w)
                                > 0 implies self.vocab_has(w) by {
                            if j != ii {
                                assert(csf[j] == cs0[j]);
                                assert(wc_get(cs0[j].word_counts@, w) > 0);
                                assert(old(self).vocab_has(w));
                            }
                        }
                    }
                }
            },
            Option::None => {
                let mut st = LabelStats {
                    label: label_s,
                    doc_count: 1,
                    word_counts: Vec::new(),
                    word_total: 0,
                };
                proof {
                    assert(wc_total(st.word_counts@) == 0);
                    assert forall|v: Seq<char>| wc_get(st.word_counts@, v) == 0 by {}
                }
                absorb(&mut st, &mut self.vocab, &stems_v);
                self.token_total = self.token_total + stems_v.len() as u64;
                let ghost st1 = st;
                self.classes.push(st);
                proof {
                    let csf = self.classes@;
                    assert(csf.drop_last() =~= cs0);
                    assert(csf.last() == st1);
                    assert(st1.label@ == label@);
                    assert(!old(self).has_label(label@));
                    assert(st1.doc_count == 1);
                    assert forall|v: Seq<char>| wc_get(st1.word_counts@, v) == occ(qs, v) by {}
                    assert(st1.word_total == qs.len());
                    lemma_class_sum_absent(cs0, label@, f_doc());
                    lemma_class_sum_absent(cs0, label@, f_wt());
                    assert(f_doc()(st1) == 1);
                    assert(f_wt()(st1) == wc_total(st1.word_counts@) as int);
                    assert(self.doc_count(label@) == old(self).doc_count(label@) + 1);
                    assert forall|l: Seq<char>| l != label@ implies self.doc_count(l) == old(
                        self,
                    ).doc_count(l) by {}
                    assert forall|w: Seq<char>|
                        self.word_count(label@, w) == old(self).word_count(label@, w) + occ(
                            qs,
                            w,
                        ) by {
                        lemma_class_sum_absent(cs0, label@, f_wc(w));
                        assert(f_wc(w)(st1) == wc_get(st1.word_counts@, w) as int);
                    }
                    assert forall|l: Seq<char>, w: Seq<char>| l != label@ implies self.word_count(
                        l,
                        w,
                    ) == old(self).word_count(l, w) by {}
                    assert(self.word_total(label@) == old(self).word_total(label@) + qs.len());
                    assert forall|l: Seq<char>| l != label@ implies self.word_total(l) == old(
                        self,
                    ).word_total(l) by {}
                    assert(self.labels() =~= old(self).labels().push(label@));
                    assert(self.label_at(csf.len() - 1) == label@);
                    assert(self.has_label(label@));
                    assert forall|w: Seq<char>|
                        self.vocab_has(w) <==> (old(self).vocab_has(w) || stems(
                            text@,
                        ).contains(w)) by {
                        assert(vocab_has_in(self.vocab@, w) <==> (vocab_has_in(
                            old(self).vocab@,
                            w,
                        ) || qs.contains(w)));
                    }
                    assert(self.wf()) by {
                        assert forall|a: int, b: int|
                            0 <= a < b < csf.len() implies csf[a].label@ != csf[b].label@ by {
                            if b == csf.len() - 1 {
                                assert(cs0[a].label@ != label@);
                            } else {
                                assert(csf[a] == cs0[a]);
                                assert(csf[b] == cs0[b]);
                            }
                        }
                        assert forall|j: int|
                            0 <= j < csf.len() implies (#[trigger] csf[j]).doc_count >= 1
                                && words_distinct(csf[j].word_counts@) && csf[j].word_total
                                == wc_total(csf[j].word_counts@) && csf[j].word_total
                                <= self.token_total by {
                            if j != csf.len() - 1 {
                                assert(csf[j] == cs0[j]);
                            }
                        }
                        assert forall|j: int, w: Seq<char>|
                            0 <= j < csf.len() && #[trigger] wc_get(csf[j].word_counts@, w)
                                > 0 implies self.vocab_has(w) by {
                            if j != csf.len() - 1 {
                                assert(csf[j] == cs0[j]);
                                assert(wc_get(cs0[j].word_counts@, w) > 0);
                                assert(old(self).vocab_has(w));
                            }
                        }
                    }
                }
            },
        }
        proof {
            assert forall|w: Seq<char>|
                #[trigger] seen_in(old(self).vocab@)(w) == old(self).seen()(w) by {
                assert(seen_in(old(self).vocab@)(w) == vocab_has_in(old(self).vocab@, w));
                assert(old(self).seen()(w) == old(self).vocab_has(w));
            }
            lemma_fresh_words_congruent(qs, seen_in(old(self).vocab@), old(self).seen());
        }
    }

    /// The smoothing denominator power is positive whenever the vocabulary
    /// is nonempty or the query has no words.
    proof fn lemma_den_pos(self, l: Seq<char>, n: nat)
        requires
            self.wf(),
            n > 0 ==> self.vocab_size() >= 1,
        ensures
            self.score_den(l, n) > 0,
    {
        assert forall|c: LabelStats| #[trigger] f_wt()(c) >= 0 by {}
        lemma_class_sum_nonneg(self.classes@, l, f_wt());
        if n == 0 {
            lemma_pow_unfold(self.likelihood_den(l), 0);
        } else {
            lemma_pow_positive(self.likelihood_den(l), n);
        }
    }

    /// Strict score order composes with weak score order: comparisons of the
    /// rational scores by cross-multiplication are transitive.
    proof fn lemma_score_gt_trans(
        self,
        q: Seq<Seq<char>>,
        la: Seq<char>,
        lb: Seq<char>,
        lc: Seq<char>,
    )
        requires
            self.score_den(la, q.len()) > 0,
            self.score_den(lb, q.len()) > 0,
            self.score_den(lc, q.len()) > 0,
            self.score_gt(q, la, lb),
            self.score_ge(q, lb, lc),
        ensures
            self.score_gt(q, la, lc),
    {
        let na = self.prod_num(la, q);
        let nb = self.prod_num(lb, q);
        let nc = self.prod_num(lc, q);
        let da = self.score_den(la, q.len());
        let db = self.score_den(lb, q.len());
        let dc = self.score_den(lc, q.len());
        assert(na * dc > nc * da) by (nonlinear_arith)
            requires
                na * db > nb * da,
                nb * dc >= nc * db,
                da > 0,
                db > 0,
                dc > 0,
        ;
    }

    /// `prod_num` of label `a` times `score_den` of label `b`, as an exact
    /// integer: one side of the cross-multiplied score comparison.
    fn cross(&self, a: usize, b: usize, q: &Vec<String>) -> (r: BigNat)
        requires
            self.wf(),
            a < self.classes@.len(),
            b < self.classes@.len(),
            q@.len() > 0 ==> self.vocab@.len() > 0,
        ensures
            r.wf(),
            r.val() == self.prod_num(self.label_at(a as int), string_views(q@)) * self.score_den(
                self.label_at(b as int),
                string_views(q@).len(),
            ),
    {
        let ghost la = self.label_at(a as int);
        let ghost lb = self.label_at(b as int);
        let ghost qsv = string_views(q@);
        proof {
            assert forall|j: int|
                0 <= j < self.classes@.len() && j != a as int implies self.classes@[j].label@
                != self.classes@[a as int].label@ by {}
            lemma_class_sum_at(self.classes@, a as int, f_doc());
            assert(f_doc()(self.classes@[a as int]) == self.classes@[a as int].doc_count as int);
            assert(self.doc_count(la) == self.classes@[a as int].doc_count);
            assert(qsv.take(0) =~= Seq::<Seq<char>>::empty());
        }
        let mut acc = BigNat::from_u64(self.classes[a].doc_count);
        let n = q.len();
        let mut k: usize = 0;
        while k < n
            invariant
                k <= n,
                n == q@.len(),
                qsv == string_views(q@),
                qsv.len() == n,
                self.wf(),
                a < self.classes@.len(),
                la == self.label_at(a as int),
                n > 0 ==> self.vocab@.len() > 0,
                acc.wf(),
                acc.val() == self.prod_num(la, qsv.take(k as int)),
            decreases n - k,
        {
            let w = &q[k];
            let c = lookup_count(&self.classes[a].word_counts, w);
            proof {
                assert forall|j: int|
                    0 <= j < self.classes@.len() && j != a as int implies self.classes@[j].label@
                    != self.classes@[a as int].label@ by {}
                lemma_class_sum_at(self.classes@, a as int, f_wc(w@));
                assert(f_wc(w@)(self.classes@[a as int]) == wc_get(
                    self.classes@[a as int].word_counts@,
                    w@,
                ) as int);
                assert(self.word_count(la, w@) == c);
                if c > 0 {
                    assert(wc_get(self.classes@[a as int].word_counts@, w@) > 0);
                    assert(self.vocab_has(w@));
                    assert(self.vocab@.len() >= 1);
                    lemma_wc_le_total(self.classes@[a as int].word_counts@, w@);
                    assert(c <= self.classes@[a as int].word_total);
                }
            }
            let f = c + 1;
            acc.mul_u64(f);
            proof {
                assert(qsv.take(k + 1).drop_last() =~= qsv.take(k as int));
                assert(qsv.take(k + 1).last() == qsv[k as int]);
                assert(qsv[k as int] == q@[k as int]@);
                assert(self.likelihood_num(la, qsv[k as int]) == f);
                assert(self.prod_num(la, qsv.take(k + 1)) == self.prod_num(la, qsv.take(k as int))
                    * self.likelihood_num(la, qsv[k as int]));
            }
            k += 1;
        }
        proof {
            assert(qsv.take(n as int) =~= qsv);
            assert forall|j: int|
                0 <= j < self.classes@.len() && j != b as int implies self.classes@[j].label@
                != self.classes@[b as int].label@ by {}
            lemma_class_sum_at(self.classes@, b as int, f_wt());
            assert(f_wt()(self.classes@[b as int]) == wc_total(
                self.classes@[b as int].word_counts@,
            ) as int);
            assert(self.word_total(lb) == self.classes@[b as int].word_total);
        }
        let dbase = self.classes[b].word_total + self.vocab.len() as u64;
        proof {
            assert(dbase as int == self.likelihood_den(lb));
            lemma_pow_unfold(self.likelihood_den(lb), 0);
        }
        let mut k2: usize = 0;
        while k2 < n
            invariant
                k2 <= n,
                n == q@.len(),
                qsv.len() == n,
                qsv == string_views(q@),
                lb == self.label_at(b as int),
                b < self.classes@.len(),
                acc.wf(),
                dbase as int == self.likelihood_den(lb),
                n > 0 ==> dbase >= 1,
                acc.val() == self.prod_num(la, qsv) * pow(self.likelihood_den(lb), k2 as nat),
            decreases n - k2,
        {
            let ghost prev = acc.val();
            acc.mul_u64(dbase);
            proof {
                lemma_pow_unfold(self.likelihood_den(lb), (k2 + 1) as nat);
                let d = self.likelihood_den(lb);
                let p = self.prod_num(la, qsv);
                assert(prev * d == p * pow(d, (k2 + 1) as nat)) by (nonlinear_arith)
                    requires
                        prev == p * pow(d, k2 as nat),
                        pow(d, (k2 + 1) as nat) == d * pow(d, k2 as nat),
                ;
            }
            k2 += 1;
        }
        proof {
            assert(self.score_den(lb, qsv.len()) == pow(self.likelihood_den(lb), n as nat));
        }
        acc
    }

    /// Whether the score of the class at `i` strictly exceeds the score of
    /// the class at `j`, decided by exact integer comparison.
    fn score_exceeds(&self, i: usize, j: usize, q: &Vec<String>) -> (r: bool)
        requires
            self.wf(),
            i < self.classes@.len(),
            j < self.classes@.len(),
            q@.len() > 0 ==> self.vocab@.len() > 0,
        ensures
            r == self.score_gt(string_views(q@), self.label_at(i as int), self.label_at(j as int)),
    {
        let lhs = self.cross(i, j, q);
        let rhs = self.cross(j, i, q);
        rhs.lt(&lhs)
    }

    /// Score a sequence of already-normalized words: the classification
    /// that `classify` performs once the text is split and stemmed, so the
    /// arg-max logic is reachable directly from plain values. Returns the
    /// label with the strictly greatest posterior score, ties going to the
    /// earlier-trained label; an error if nothing was ever trained, or if
    /// the vocabulary is empty while words were given. Mutates nothing.
    pub fn classify_words(&self, words: &Vec<String>) -> (r: Result<String, ClassifyError>)
        requires
            self.wf(),
        ensures
            match r {
                Result::Ok(lbl) => self.num_labels() > 0 && (self.vocab_size() > 0
                    || string_views(words@).len() == 0) && (exists|i: int|
                    #[trigger] self.is_best(string_views(words@), i) && lbl@ == self.label_at(
                        i,
                    )),
                Result::Err(ClassifyError::Untrained) => self.num_labels() == 0,
                Result::Err(ClassifyError::DegenerateSmoothing) => self.num_labels() > 0
                    && self.vocab_size() == 0 && string_views(words@).len() > 0,
            },
    {
        let q = words;
        let ghost qs = string_views(words@);
        if self.classes.len() == 0 {
            return Result::Err(ClassifyError::Untrained);
        }
        if self.vocab.len() == 0 && q.len() > 0 {
            return Result::Err(ClassifyError::DegenerateSmoothing);
        }
        let mut best: usize = 0;
        let mut i: usize = 1;
        while i < self.classes.len()
            invariant
                self.wf(),
                1 <= i <= self.classes@.len(),
                best < i,
                qs == string_views(words@),
                string_views(q@) == qs,
                q@.len() == qs.len(),
                qs.len() > 0 ==> self.vocab@.len() > 0,
                forall|j: int|
                    0 <= j < best ==> self.score_gt(
                        qs,
                        self.label_at(best as int),
                        #[trigger] self.label_at(j),
                    ),
                forall|j: int|
                    best < j < i ==> self.score_ge(
                        qs,
                        self.label_at(best as int),
                        #[trigger] self.label_at(j),
                    ),
            decreases self.classes@.len() - i,
        {
            let ghost old_best = best as int;
            if self.score_exceeds(i, best, q) {
                proof {
                    let li = self.label_at(i as int);
                    let lob = self.label_at(old_best);
                    assert forall|j: int| 0 <= j < i as int && j != i as int implies self.score_gt(
                        qs,
                        li,
                        #[trigger] self.label_at(j),
                    ) by {
                        self.lemma_den_pos(li, qs.len() as nat);
                        self.lemma_den_pos(lob, qs.len() as nat);
                        self.lemma_den_pos(self.label_at(j), qs.len() as nat);
                        if j != old_best {
                            assert(self.score_ge(qs, lob, self.label_at(j)));
                            self.lemma_score_gt_trans(qs, li, lob, self.label_at(j));
                        }
                    }
                }
                best = i;
            } else {
                proof {
                    assert(self.score_ge(
                        qs,
                        self.label_at(best as int),
                        self.label_at(i as int),
                    ));
                }
            }
            i += 1;
        }
        proof {
            assert(self.is_best(qs, best as int));
        }
        let lbl = self.classes[best].label.clone();
        proof {
            assert(lbl@ == self.label_at(best as int));
        }
        Result::Ok(lbl)
    }

    /// Return the label with the strictly greatest posterior score for
    /// `text`, ties going to the earlier-trained label; an error if nothing
    /// was ever trained, or if the vocabulary is empty while the query has
    /// words (every smoothing denominator would be zero). Mutates nothing.
    pub fn classify(&self, text: &str) -> (r: Result<String, ClassifyError>)
        requires
            self.wf(),
        ensures
            match r {
                Result::Ok(lbl) => self.num_labels() > 0 && (self.vocab_size() > 0 || stems(
                    text@,
                ).len() == 0) && (exists|i: int|
                    #[trigger] self.is_best(stems(text@), i) && lbl@ == self.label_at(i)),
                Result::Err(ClassifyError::Untrained) => self.num_labels() == 0,
                Result::Err(ClassifyError::DegenerateSmoothing) => self.num_labels() > 0
                    && self.vocab_size() == 0 && stems(text@).len() > 0,
            },
    {
        let q = stem_text(text);
        proof {
            assert(string_views(q@) =~= stems(text@));
        }
        self.classify_words(&q)
    }
}

/// The label bookkeeping agrees with the tracked `labels()` sequence:
/// `num_labels` is its length, `label_at` its entries, and `has_label` its
/// membership.
pub proof fn lemma_labels_agree(m: NaiveBayes)
    ensures
        m.num_labels() == m.labels().len(),
        forall|i: int| 0 <= i < m.num_labels() ==> m.label_at(i) == m.labels()[i],
        forall|l: Seq<char>| m.has_label(l) <==> m.labels().contains(l),
{
    assert(m.labels().len() == m.classes@.len());
    assert forall|l: Seq<char>| m.has_label(l) <==> m.labels().contains(l) by {
        if m.has_label(l) {
            let i = choose|i: int| 0 <= i < m.num_labels() && m.label_at(i) == l;
            assert(m.labels()[i] == l);
        }
        if m.labels().contains(l) {
            let i = choose|i: int|
                0 <= i < m.labels().len() && #[trigger] m.labels()[i] == l;
            assert(m.label_at(i) == l);
        }
    }
}

/// A label is tracked if and only if at least one document was trained
/// under it, and then its document count is positive.
pub proof fn lemma_has_label_doc_count(m: NaiveBayes, l: Seq<char>)
    requires
        m.wf(),
    ensures
        m.has_label(l) <==> m.doc_count(l) >= 1,
{
    if m.has_label(l) {
        let i = choose|i: int| 0 <= i < m.num_labels() && m.label_at(i) == l;
        assert forall|j: int|
            0 <= j < m.classes@.len() && j != i implies m.classes@[j].label@
            != m.classes@[i].label@ by {}
        lemma_class_sum_at(m.classes@, i, f_doc());
        assert(f_doc()(m.classes@[i]) == m.classes@[i].doc_count as int);
    } else {
        assert forall|j: int| 0 <= j < m.classes@.len() implies m.classes@[j].label@ != l by {
            assert(m.label_at(j) != l);
        }
        lemma_class_sum_absent(m.classes@, l, f_doc());
    }
}

/// Every stored quantity is a count: none is negative.
pub proof fn lemma_counts_nonneg(m: NaiveBayes, l: Seq<char>, w: Seq<char>)
    ensures
        0 <= m.doc_count(l),
        0 <= m.word_count(l, w),
        0 <= m.word_total(l),
{
    assert forall|c: LabelStats| #[trigger] f_doc()(c) >= 0 by {}
    assert forall|c: LabelStats| #[trigger] f_wc(w)(c) >= 0 by {}
    assert forall|c: LabelStats| #[trigger] f_wt()(c) >= 0 by {}
    lemma_class_sum_nonneg(m.classes@, l, f_doc());
    lemma_class_sum_nonneg(m.classes@, l, f_wc(w));
    lemma_class_sum_nonneg(m.classes@, l, f_wt());
}

/// No single word's count exceeds the label's word total.
pub proof fn lemma_word_count_le_total(m: NaiveBayes, l: Seq<char>, w: Seq<char>)
    requires
        m.wf(),
    ensures
        m.word_count(l, w) <= m.word_total(l),
{
    if m.has_label(l) {
        let i = choose|i: int| 0 <= i < m.num_labels() && m.label_at(i) == l;
        assert forall|j: int|
            0 <= j < m.classes@.len() && j != i implies m.classes@[j].label@
            != m.classes@[i].label@ by {}
        lemma_class_sum_at(m.classes@, i, f_wc(w));
        lemma_class_sum_at(m.classes@, i, f_wt());
        assert(f_wc(w)(m.classes@[i]) == wc_get(m.classes@[i].word_counts@, w) as int);
        assert(f_wt()(m.classes@[i]) == wc_total(m.classes@[i].word_counts@) as int);
        lemma_wc_le_total(m.classes@[i].word_counts@, w);
    } else {
        assert forall|j: int| 0 <= j < m.classes@.len() implies m.classes@[j].label@ != l by {
            assert(m.label_at(j) != l);
        }
        lemma_class_sum_absent(m.classes@, l, f_wc(w));
        lemma_class_sum_absent(m.classes@, l, f_wt());
    }
}

/// The vocabulary size is no free-standing number: it is exactly the
/// cardinality of the set of words that `vocab_has` admits.
pub proof fn lemma_vocab_size_is_membership_card(m: NaiveBayes)
    requires
        m.wf(),
    ensures
        Set::new(|w: Seq<char>| m.vocab_has(w)).finite(),
        m.vocab_size() == Set::new(|w: Seq<char>| m.vocab_has(w)).len(),
{
    broadcast use vstd::seq_lib::seq_to_set_is_finite;

    let vs = m.vocab@.map_values(|t: String| t@);
    assert(vs.no_duplicates()) by {
        assert forall|i: int, j: int| 0 <= i < j < vs.len() implies vs[i] != vs[j] by {
            assert(vs[i] == m.vocab@[i]@);
            assert(vs[j] == m.vocab@[j]@);
        }
    }
    vs.unique_seq_to_set();
    assert(Set::new(|w: Seq<char>| m.vocab_has(w)) =~= vs.to_set()) by {
        assert forall|w: Seq<char>| m.vocab_has(w) == vs.to_set().contains(w) by {
            if m.vocab_has(w) {
                let k = choose|k: int| 0 <= k < m.vocab@.len() && m.vocab@[k]@ == w;
                assert(vs[k] == w);
                assert(vs.contains(w));
            }
            if vs.to_set().contains(w) {
                let k = choose|k: int| 0 <= k < vs.len() && #[trigger] vs[k] == w;
                assert(m.vocab@[k]@ == w);
            }
        }
    }
}

/// Classification is deterministic: at most one index satisfies `is_best`
/// for a given model and query, since a best index scores strictly above
/// every earlier index and at least as high as every later one. `classify`
/// takes `&self` and mutates nothing, so repeated calls with the same text
/// and no intervening training always return that one label.
pub proof fn lemma_best_index_unique(m: NaiveBayes, q: Seq<Seq<char>>, i: int, j: int)
    requires
        m.is_best(q, i),
        m.is_best(q, j),
    ensures
        i == j,
{
    if i < j {
        assert(m.score_gt(q, m.label_at(j), m.label_at(i)));
        assert(m.score_ge(q, m.label_at(i), m.label_at(j)));
        assert(false);
    }
    if j < i {
        assert(m.score_gt(q, m.label_at(i), m.label_at(j)));
        assert(m.score_ge(q, m.label_at(j), m.label_at(i)));
        assert(false);
    }
}

/// Add-one smoothing bounds every likelihood away from zero: a word never
/// seen under a label contributes the fraction `1 / (word_total + |V|)`
/// exactly — numerator exactly one over a positive denominator, where an
/// unsmoothed count would contribute zero and send the log-score to
/// negative infinity.
pub proof fn lemma_smoothing_lower_bound(m: NaiveBayes, l: Seq<char>, w: Seq<char>)
    requires
        m.word_count(l, w) == 0,
        m.word_total(l) + m.vocab_size() > 0,
    ensures
        m.likelihood_num(l, w) == 1,
        m.likelihood_den(l) >= 1,
{
}

proof fn lemma_prod_num_agree(m1: NaiveBayes, m2: NaiveBayes, l: Seq<char>, q: Seq<Seq<char>>)
    requires
        forall|v: Seq<char>| m1.doc_count(v) == m2.doc_count(v),
        forall|v: Seq<char>, w: Seq<char>| m1.word_count(v, w) == m2.word_count(v, w),
    ensures
        m1.prod_num(l, q) == m2.prod_num(l, q),
    decreases q.len(),
{
    if q.len() > 0 {
        lemma_prod_num_agree(m1, m2, l, q.drop_last());
    }
}

/// Two classifiers that agree on their tracked labels, counts, totals and
/// vocabulary size give every label the same score, so the same index is
/// best for every query. Together with the exact `ensures` of `new` and
/// `train`, classification is a function of the training history alone:
/// models built by identical training sequences classify every text
/// identically.
pub proof fn lemma_same_stats_same_best(
    m1: NaiveBayes,
    m2: NaiveBayes,
    q: Seq<Seq<char>>,
    i: int,
)
    requires
        m1.labels() == m2.labels(),
        m1.vocab_size() == m2.vocab_size(),
        forall|l: Seq<char>| m1.doc_count(l) == m2.doc_count(l),
        forall|l: Seq<char>, w: Seq<char>| m1.word_count(l, w) == m2.word_count(l, w),
        forall|l: Seq<char>| m1.word_total(l) == m2.word_total(l),
    ensures
        m1.is_best(q, i) <==> m2.is_best(q, i),
{
    lemma_labels_agree(m1);
    lemma_labels_agree(m2);
    assert(m1.num_labels() == m2.num_labels());
    assert forall|j: int| 0 <= j < m1.num_labels() implies m1.label_at(j) == m2.label_at(
        j,
    ) by {
        assert(m1.labels()[j] == m2.labels()[j]);
    }
    assert forall|la: Seq<char>, lb: Seq<char>|
        #[trigger] m1.score_gt(q, la, lb) == m2.score_gt(q, la, lb) by {
        lemma_prod_num_agree(m1, m2, la, q);
        lemma_prod_num_agree(m1, m2, lb, q);
    }
    assert forall|la: Seq<char>, lb: Seq<char>|
        #[trigger] m1.score_ge(q, la, lb) == m2.score_ge(q, la, lb) by {
        lemma_prod_num_agree(m1, m2, la, q);
        lemma_prod_num_agree(m1, m2, lb, q);
    }
    if m1.is_best(q, i) {
        assert forall|j: int| 0 <= j < i implies m2.score_gt(
            q,
            m2.label_at(i),
            #[trigger] m2.label_at(j),
        ) by {
            assert(m1.score_gt(q, m1.label_at(i), m1.label_at(j)));
        }
        assert forall|j: int| i < j < m2.num_labels() implies m2.score_ge(
            q,
            m2.label_at(i),
            #[trigger] m2.label_at(j),
        ) by {
            assert(m1.score_ge(q, m1.label_at(i), m1.label_at(j)));
        }
        assert(m2.is_best(q, i));
    }
    if m2.is_best(q, i) {
        assert forall|j: int| 0 <= j < i implies m1.score_gt(
            q,
            m1.label_at(i),
            #[trigger] m1.label_at(j),
        ) by {
            assert(m2.score_gt(q, m2.label_at(i), m2.label_at(j)));
        }
        assert forall|j: int| i < j < m1.num_labels() implies m1.score_ge(
            q,
            m1.label_at(i),
            #[trigger] m1.label_at(j),
        ) by {
            assert(m2.score_ge(q, m2.label_at(i), m2.label_at(j)));
        }
        assert(m1.is_best(q, i));
    }
}

/// With no query words only the priors decide: the best index is exactly a
/// first maximum of the document counts, in training order.
pub proof fn lemma_empty_query_prior(m: NaiveBayes, i: int)
    requires
        m.wf(),
        0 <= i < m.num_labels(),
    ensures
        m.is_best(Seq::empty(), i) <==> ((forall|j: int|
            0 <= j < i ==> m.doc_count(#[trigger] m.label_at(j)) < m.doc_count(m.label_at(i)))
            && (forall|j: int|
            i < j < m.num_labels() ==> m.doc_count(#[trigger] m.label_at(j)) <= m.doc_count(
                m.label_at(i),
            ))),
{
    assert forall|la: Seq<char>, lb: Seq<char>|
        #[trigger] m.score_gt(Seq::empty(), la, lb) == (m.doc_count(la) > m.doc_count(lb)) by {
        lemma_pow_unfold(m.likelihood_den(la), 0);
        lemma_pow_unfold(m.likelihood_den(lb), 0);
        assert(m.prod_num(la, Seq::empty()) == m.doc_count(la));
        assert(m.prod_num(lb, Seq::empty()) == m.doc_count(lb));
    }
    assert forall|la: Seq<char>, lb: Seq<char>|
        #[trigger] m.score_ge(Seq::empty(), la, lb) == (m.doc_count(la) >= m.doc_count(lb)) by {
        lemma_pow_unfold(m.likelihood_den(la), 0);
        lemma_pow_unfold(m.likelihood_den(lb), 0);
        assert(m.prod_num(la, Seq::empty()) == m.doc_count(la));
        assert(m.prod_num(lb, Seq::empty()) == m.doc_count(lb));
    }
}

} // verus!
