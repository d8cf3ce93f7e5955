//! Word frequencies of a document: a map from words to counts that remembers
//! the order in which its words first came, and the counting of the words of a text.
use vstd::prelude::*;
use vstd::hash_map::StringHashMap;
use vstd::utf8::{encode_utf8, encode_scalar};
use vstd::string::StringExecFns;
use crate::text::{runs, in_class, CharClass, split_runs, str_to_chars, chars_to_string};

verus! {

/// The fewest UTF-8 bytes a word must have to be counted.
pub const MIN_WORD_LENGTH: usize = 3;

/// A map from words to frequencies (the engine's `HashMap<String, i64>`),
/// which also keeps its words in the order they were first inserted.
pub struct WordFrequencies {
    counts: StringHashMap<i64>,
    words: Vec<String>,
}

impl View for WordFrequencies {
    type V = Map<Seq<char>, i64>;

    closed spec fn view(&self) -> Map<Seq<char>, i64> {
        self.counts@
    }
}

/// The values of a frequency map as mathematical integers.
pub open spec fn int_map(m: Map<Seq<char>, i64>) -> Map<Seq<char>, int> {
    m.map_values(|v: i64| v as int)
}

/// Whether a word is long enough to be counted: at least `MIN_WORD_LENGTH` bytes in UTF-8.
pub open spec fn counted_word(w: Seq<char>) -> bool {
    encode_utf8(w).len() >= MIN_WORD_LENGTH
}

/// `m` with one more occurrence of each counted word of `toks`.
pub open spec fn add_counts(m: Map<Seq<char>, int>, toks: Seq<Seq<char>>) -> Map<Seq<char>, int>
    decreases toks.len(),
{
    if toks.len() == 0 {
        m
    } else {
        let prev = add_counts(m, toks.drop_last());
        let t = toks.last();
        if counted_word(t) {
            prev.insert(
                t,
                if prev.contains_key(t) {
                    prev[t] + 1
                } else {
                    1
                },
            )
        } else {
            prev
        }
    }
}

/// The words of a text: its maximal runs of alphanumeric characters, `_` and `-`.
pub open spec fn words_of(content: Seq<char>) -> Seq<Seq<char>> {
    runs(content, CharClass::WordChar)
}

/// How often each counted word occurs in `content`.
pub open spec fn word_counts(content: Seq<char>) -> Map<Seq<char>, int> {
    add_counts(Map::empty(), words_of(content))
}

/// Counting more words never removes a word nor lowers a count.
pub proof fn lemma_add_counts_grows(m: Map<Seq<char>, int>, toks: Seq<Seq<char>>, i: int)
    requires
        0 <= i <= toks.len(),
    ensures
        forall|w: Seq<char>|
            #[trigger] add_counts(m, toks.take(i)).contains_key(w) ==> add_counts(
                m,
                toks,
            ).contains_key(w) && add_counts(m, toks.take(i))[w] <= add_counts(m, toks)[w],
    decreases toks.len() - i,
{
    if i < toks.len() {
        lemma_add_counts_grows(m, toks, i + 1);
        let t1 = toks.take(i + 1);
        assert(t1.drop_last() =~= toks.take(i));
        let a = add_counts(m, toks.take(i));
        let b = add_counts(m, t1);
        assert(b == (if counted_word(t1.last()) {
            a.insert(t1.last(), if a.contains_key(t1.last()) { a[t1.last()] + 1 } else { 1 })
        } else {
            a
        }));
        assert forall|w: Seq<char>| #[trigger] a.contains_key(w) implies b.contains_key(w) && a[w]
            <= b[w] by {}
    } else {
        assert(toks.take(i) =~= toks);
    }
}

/// Counts start from the given map: no count goes below the one it started with.
pub proof fn lemma_add_counts_from(m: Map<Seq<char>, int>, toks: Seq<Seq<char>>)
    ensures
        forall|w: Seq<char>| #[trigger]
            m.contains_key(w) ==> add_counts(m, toks).contains_key(w) && m[w] <= add_counts(
                m,
                toks,
            )[w],
    decreases toks.len(),
{
    if toks.len() > 0 {
        lemma_add_counts_from(m, toks.drop_last());
    }
}

/// Whether `es` lists the entries of `m`, each word once.
pub open spec fn lists_map(es: Seq<(Seq<char>, i64)>, m: Map<Seq<char>, i64>) -> bool {
    &&& forall|i: int|
        0 <= i < es.len() ==> m.contains_key(#[trigger] es[i].0) && m[es[i].0] == es[i].1
    &&& forall|w: Seq<char>| #[trigger]
        m.contains_key(w) ==> exists|i: int| 0 <= i < es.len() && es[i].0 == w
    &&& forall|i: int, j: int| 0 <= i < j < es.len() ==> es[i].0 != es[j].0
}

/// A reordering of a list of a map's entries lists the map too.
pub proof fn lemma_lists_map_reordered(
    es: Seq<(Seq<char>, i64)>,
    xs: Seq<(Seq<char>, i64)>,
    m: Map<Seq<char>, i64>,
)
    requires
        lists_map(xs, m),
        es.to_multiset() == xs.to_multiset(),
    ensures
        lists_map(es, m),
{
    broadcast use vstd::seq_lib::group_to_multiset_ensures;

    assert(xs.no_duplicates()) by {
        assert forall|i: int, j: int| 0 <= i < xs.len() && 0 <= j < xs.len() && i != j implies xs[i]
            != xs[j] by {
            if i < j {
                assert(xs[i].0 != xs[j].0);
            } else {
                assert(xs[j].0 != xs[i].0);
            }
        }
    }
    xs.lemma_multiset_has_no_duplicates();
    es.lemma_multiset_has_no_duplicates_conv();
    assert forall|i: int| 0 <= i < es.len() implies m.contains_key(#[trigger] es[i].0) && m[es[i].0]
        == es[i].1 by {
        assert(es.contains(es[i]));
        assert(es.to_multiset().count(es[i]) > 0);
        assert(xs.contains(es[i]));
        let j = choose|j: int| 0 <= j < xs.len() && xs[j] == es[i];
        assert(m.contains_key(xs[j].0) && m[xs[j].0] == xs[j].1);
    }
    assert forall|w: Seq<char>| #[trigger] m.contains_key(w) implies exists|i: int|
        0 <= i < es.len() && es[i].0 == w by {
        let j = choose|j: int| 0 <= j < xs.len() && xs[j].0 == w;
        assert(xs.contains(xs[j]));
        assert(xs.to_multiset().count(xs[j]) > 0);
        assert(es.contains(xs[j]));
        let i = choose|i: int| 0 <= i < es.len() && es[i] == xs[j];
        assert(es[i].0 == w);
    }
    assert forall|i: int, j: int| 0 <= i < j < es.len() implies es[i].0 != es[j].0 by {
        if es[i].0 == es[j].0 {
            assert(m.contains_key(es[i].0) && m[es[i].0] == es[i].1);
            assert(m.contains_key(es[j].0) && m[es[j].0] == es[j].1);
            assert(es[i] == es[j]);
        }
    }
}

impl WordFrequencies {
    /// The words, in the order they were first inserted.
    pub closed spec fn word_seq(&self) -> Seq<Seq<char>> {
        self.words@.map_values(|w: String| w@)
    }

    /// The (word, frequency) entries, in the order of the words.
    pub open spec fn entries(&self) -> Seq<(Seq<char>, i64)> {
        self.word_seq().map_values(|w: Seq<char>| (w, self@[w]))
    }

    pub closed spec fn wf(&self) -> bool {
        &&& self.word_seq().no_duplicates()
        &&& forall|i: int|
            0 <= i < self.word_seq().len() ==> self.counts@.contains_key(
                #[trigger] self.word_seq()[i],
            )
        &&& forall|w: Seq<char>|
            #[trigger] self.counts@.contains_key(w) ==> self.word_seq().contains(w)
    }

    /// The words are exactly the keys of the map, each once.
    pub proof fn lemma_words_are_keys(&self)
        requires
            self.wf(),
        ensures
            self.word_seq().no_duplicates(),
            forall|i: int|
                0 <= i < self.word_seq().len() ==> self@.contains_key(#[trigger] self.word_seq()[i]),
            forall|w: Seq<char>| #[trigger] self@.contains_key(w) ==> self.word_seq().contains(w),
            self.word_seq().len() == self@.dom().len(),
    {
        let ws = self.word_seq();
        ws.unique_seq_to_set();
        assert(ws.to_set() =~= self@.dom());
    }

    /// The entries list the map, each word once.
    pub proof fn lemma_entries_list_map(&self)
        requires
            self.wf(),
        ensures
            lists_map(self.entries(), self@),
            self.entries().len() == self.word_seq().len(),
    {
        let es = self.entries();
        let ws = self.word_seq();
        assert forall|w: Seq<char>| #[trigger] self@.contains_key(w) implies exists|i: int|
            0 <= i < es.len() && es[i].0 == w by {
            let i = choose|i: int| 0 <= i < ws.len() && ws[i] == w;
            assert(es[i].0 == w);
        }
        assert forall|i: int, j: int| 0 <= i < j < es.len() implies es[i].0 != es[j].0 by {
            assert(es[i].0 == ws[i] && es[j].0 == ws[j]);
        }
    }

    /// An empty map.
    pub fn new() -> (result: Self)
        ensures
            result.wf(),
            result@ == Map::<Seq<char>, i64>::empty(),
            result.word_seq() == Seq::<Seq<char>>::empty(),
    {
        let r = WordFrequencies { counts: StringHashMap::new(), words: Vec::new() };
        assert(r.word_seq() =~= Seq::<Seq<char>>::empty());
        r
    }

    /// The number of words.
    pub fn len(&self) -> (result: usize)
        requires
            self.wf(),
        ensures
            result == self.word_seq().len(),
            result == self@.dom().len(),
    {
        proof {
            self.lemma_words_are_keys();
        }
        self.words.len()
    }

    /// Whether there are no words.
    pub fn is_empty(&self) -> (result: bool)
        requires
            self.wf(),
        ensures
            result == (self@.dom().len() == 0),
            result == (self.word_seq().len() == 0),
    {
        self.len() == 0
    }

    /// The frequency of `word`, if it has one.
    pub fn get(&self, word: &str) -> (result: Option<&i64>)
        ensures
            match result {
                Some(v) => self@.contains_key(word@) && *v == self@[word@],
                None => !self@.contains_key(word@),
            },
    {
        self.counts.get(word)
    }

    /// Sets the frequency of `word` (as `HashMap::insert` does); a new word goes last.
    pub fn insert(&mut self, word: String, freq: i64)
        requires
            old(self).wf(),
        ensures
            final(self).wf(),
            final(self)@ == old(self)@.insert(word@, freq),
            final(self).word_seq() == (if old(self)@.contains_key(word@) {
                old(self).word_seq()
            } else {
                old(self).word_seq().push(word@)
            }),
    {
        if !self.counts.contains_key(word.as_str()) {
            let w2 = word.clone();
            self.words.push(w2);
            assert(self.word_seq() =~= old(self).word_seq().push(word@));
        }
        self.counts.insert(word, freq);
        proof {
            let ws = self.word_seq();
            assert forall|w: Seq<char>| #[trigger] self.counts@.contains_key(w) implies ws.contains(
                w,
            ) by {
                if w == word@ {
                    if old(self).counts@.contains_key(w) {
                        let k = choose|k: int|
                            0 <= k < old(self).word_seq().len() && old(self).word_seq()[k] == w;
                        assert(ws[k] == w);
                    } else {
                        assert(ws[ws.len() - 1] == w);
                    }
                } else {
                    let k = choose|k: int|
                        0 <= k < old(self).word_seq().len() && old(self).word_seq()[k] == w;
                    assert(ws[k] == w);
                }
            }
        }
    }

    /// The `i`-th word in insertion order.
    pub fn word_at(&self, i: usize) -> (result: &String)
        requires
            i < self.word_seq().len(),
        ensures
            result@ == self.word_seq()[i as int],
    {
        &self.words[i]
    }

    /// The frequency of the `i`-th word in insertion order.
    pub fn freq_at(&self, i: usize) -> (result: i64)
        requires
            self.wf(),
            i < self.word_seq().len(),
        ensures
            result == self@[self.word_seq()[i as int]],
    {
        let w = self.words[i].as_str();
        match self.counts.get(w) {
            Some(v) => *v,
            None => 0,
        }
    }

    /// Counts one more occurrence of `word` (`*map.entry(word).or_insert(0) += 1`).
    fn add_one(&mut self, word: String)
        requires
            old(self).wf(),
            old(self)@.contains_key(word@) ==> old(self)@[word@] < i64::MAX,
        ensures
            final(self).wf(),
            final(self)@ == old(self)@.insert(
                word@,
                if old(self)@.contains_key(word@) {
                    (old(self)@[word@] + 1) as i64
                } else {
                    1i64
                },
            ),
    {
        let n = match self.counts.get(word.as_str()) {
            Some(v) => *v + 1,
            None => 1,
        };
        self.insert(word, n);
    }

    /// Adds the counts of the words of `content` (each maximal run of
    /// alphanumeric characters, `_` and `-` that is at least `MIN_WORD_LENGTH`
    /// bytes long) to the map.
    pub fn add_word_counts(&mut self, content: &str)
        requires
            old(self).wf(),
            forall|w: Seq<char>| #[trigger]
                add_counts(int_map(old(self)@), words_of(content@)).contains_key(w) ==> add_counts(
                    int_map(old(self)@),
                    words_of(content@),
                )[w] <= i64::MAX,
        ensures
            final(self).wf(),
            int_map(final(self)@) == add_counts(int_map(old(self)@), words_of(content@)),
    {
        let chars = str_to_chars(content);
        let toks = split_runs(chars.as_slice(), CharClass::WordChar);
        let ghost all = words_of(content@);
        let ghost m0 = int_map(old(self)@);
        assert(crate::text::seqs_of(toks@) == all);
        let mut i: usize = 0;
        while i < toks.len()
            invariant
                i <= toks@.len(),
                crate::text::seqs_of(toks@) == all,
                self.wf(),
                int_map(self@) == add_counts(m0, all.take(i as int)),
                forall|w: Seq<char>| #[trigger]
                    add_counts(m0, all).contains_key(w) ==> add_counts(m0, all)[w] <= i64::MAX,
            decreases toks@.len() - i,
        {
            let word = chars_to_string(toks[i].as_slice());
            let ghost t = all[i as int];
            assert(word@ == t);
            assert(all.take(i + 1).drop_last() =~= all.take(i as int));
            let ghost before = self@;
            if utf8_len_at_least(toks[i].as_slice(), MIN_WORD_LENGTH) {
                proof {
                    lemma_add_counts_grows(m0, all, i + 1);
                    let next = add_counts(m0, all.take(i + 1));
                    assert(next.contains_key(t));
                }
                self.add_one(word);
                assert(int_map(self@) =~= add_counts(m0, all.take(i + 1)));
            } else {
                assert(!counted_word(t));
                assert(all.take(i + 1).last() == t);
                assert(add_counts(m0, all.take(i + 1)) == add_counts(m0, all.take(i as int)));
            }
            i = i + 1;
        }
        assert(all.take(toks@.len() as int) =~= all);
    }
}

/// The number of bytes `c` takes in UTF-8.
pub fn utf8_width(c: char) -> (result: usize)
    ensures
        result == encode_scalar(c as u32).len(),
{
    let v = c as u32;
    if v <= 0x7f {
        1
    } else if v <= 0x7ff {
        2
    } else if v <= 0xffff {
        3
    } else {
        4
    }
}

/// Whether `s` takes at least `k` bytes in UTF-8.
pub fn utf8_len_at_least(s: &[char], k: usize) -> (result: bool)
    ensures
        result == (encode_utf8(s@).len() >= k),
{
    if k == 0 {
        return true;
    }
    let mut acc: usize = 0;
    let mut j: usize = 0;
    assert(s@.skip(0) =~= s@);
    while j < s.len()
        invariant
            j <= s@.len(),
            acc < k,
            acc + encode_utf8(s@.skip(j as int)).len() == encode_utf8(s@).len(),
        decreases s@.len() - j,
    {
        let w = utf8_width(s[j]);
        assert(s@.skip(j as int).drop_first() =~= s@.skip(j + 1));
        assert(s@.skip(j as int)[0] == s@[j as int]);
        if w >= k - acc {
            return true;
        }
        acc = acc + w;
        j = j + 1;
    }
    assert(s@.skip(j as int) =~= Seq::<char>::empty());
    acc >= k
}

/// Encoding a concatenation encodes each part in turn.
pub proof fn lemma_encode_utf8_concat(a: Seq<char>, b: Seq<char>)
    ensures
        encode_utf8(a + b) == encode_utf8(a) + encode_utf8(b),
    decreases a.len(),
{
    if a.len() == 0 {
        assert(a + b =~= b);
        assert(encode_utf8(a) =~= Seq::<u8>::empty());
        assert(encode_utf8(a) + encode_utf8(b) =~= encode_utf8(b));
    } else {
        lemma_encode_utf8_concat(a.drop_first(), b);
        assert((a + b).drop_first() =~= a.drop_first() + b);
        assert((a + b)[0] == a[0]);
        assert(encode_utf8(a + b) =~= encode_utf8(a) + encode_utf8(b));
    }
}

/// The number of bytes `s` takes in UTF-8.
pub fn utf8_len(s: &[char]) -> (result: u128)
    ensures
        result == encode_utf8(s@).len(),
        result <= 4 * s@.len(),
{
    let mut acc: u128 = 0;
    let mut j: usize = 0;
    let n = s.len();
    assert(s@.skip(0) =~= s@);
    while j < n
        invariant
            n == s@.len(),
            j <= n,
            acc <= 4 * j,
            acc + encode_utf8(s@.skip(j as int)).len() == encode_utf8(s@).len(),
        decreases n - j,
    {
        let w = utf8_width(s[j]);
        assert(s@.skip(j as int).drop_first() =~= s@.skip(j + 1));
        assert(s@.skip(j as int)[0] == s@[j as int]);
        acc = acc + w as u128;
        j = j + 1;
    }
    assert(s@.skip(j as int) =~= Seq::<char>::empty());
    acc
}

/// The word frequencies of a document.
pub fn count_words(content: &str) -> (result: WordFrequencies)
    requires
        content@.len() <= i64::MAX,
    ensures
        result.wf(),
        int_map(result@) == word_counts(content@),
{
    let mut wf = WordFrequencies::new();
    proof {
        assert(int_map(wf@) =~= Map::<Seq<char>, int>::empty());
        lemma_word_counts_bounded(content@);
        assert(add_counts(int_map(wf@), words_of(content@)) == word_counts(content@));
    }
    wf.add_word_counts(content);
    wf
}

/// No word occurs more often than the text has characters.
pub proof fn lemma_word_counts_bounded(content: Seq<char>)
    ensures
        forall|w: Seq<char>| #[trigger]
            word_counts(content).contains_key(w) ==> word_counts(content)[w] <= content.len(),
{
    lemma_add_counts_bounded(Map::empty(), words_of(content));
    lemma_runs_len_bounded(content, CharClass::WordChar);
}

proof fn lemma_add_counts_bounded(m: Map<Seq<char>, int>, toks: Seq<Seq<char>>)
    requires
        m.dom().is_empty(),
    ensures
        forall|w: Seq<char>| #[trigger]
            add_counts(m, toks).contains_key(w) ==> add_counts(m, toks)[w] <= toks.len(),
    decreases toks.len(),
{
    if toks.len() > 0 {
        lemma_add_counts_bounded(m, toks.drop_last());
        let a = add_counts(m, toks.drop_last());
        let b = add_counts(m, toks);
        assert forall|w: Seq<char>| #[trigger] b.contains_key(w) implies b[w] <= toks.len() by {
            if a.contains_key(w) {
                assert(a[w] <= toks.len() - 1);
            }
        }
    } else {
        assert forall|w: Seq<char>| #[trigger] add_counts(m, toks).contains_key(w) implies false by {
            assert(m.dom().contains(w));
        }
    }
}

proof fn lemma_runs_len_bounded(s: Seq<char>, class: CharClass)
    ensures
        runs(s, class).len() <= s.len(),
    decreases s.len(),
{
    if s.len() > 0 {
        lemma_runs_len_bounded(s.drop_last(), class);
        let prev = runs(s.drop_last(), class);
        if in_class(class, s.last()) && s.len() >= 2 && in_class(class, s[s.len() - 2]) {
            crate::text::lemma_runs_nonempty_when_ends_in_class(s.drop_last(), class);
        }
        assert(runs(s, class).len() <= prev.len() + 1);
    }
}

} // verus!
