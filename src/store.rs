//! The word store: vocabulary entries kept sorted by word, one per word.

use vstd::prelude::*;
use rand::Rng;
use crate::order::{
    compare_keys, key_lt, lemma_key_lt_asymmetric, lemma_key_lt_irreflexive,
    lemma_key_lt_transitive,
};
use crate::review::{now_millis, LATEST_REVIEW_TIME};
use crate::segmenter::{extract_words, joined, texts_of, words_of};
use crate::word::{
    after_outcome, after_recompute, fresh_entry, opt_text, EntryView, JPWord, WordType,
};

verus! {

/// Why a store operation did not take place.
#[derive(Clone, Copy, PartialEq, Eq, Debug, Structural)]
pub enum StoreError {
    /// No entry has the word asked for.
    NotFound,
    /// The operation needs an entry and there is none to take.
    EmptyStore,
    /// A stored record does not have the shape of an entry.
    MalformedRecord,
    /// Two stored records have the same word.
    DuplicateKeyOnLoad,
}

/// Words strictly increase along the sequence: sorted, and no word twice.
pub open spec fn keys_sorted(v: Seq<EntryView>) -> bool {
    forall|i: int, j: int| 0 <= i < j < v.len() ==> key_lt(#[trigger] v[i].word, #[trigger] v[j].word)
}

/// Some entry of `v` has the word `k`.
pub open spec fn has_key(v: Seq<EntryView>, k: Seq<char>) -> bool {
    exists|i: int| 0 <= i < v.len() && (#[trigger] v[i]).word == k
}

/// The entries that merging `ws` into `v` at time `now` adds: a fresh entry
/// for each word of `ws` that `v` does not have.
pub open spec fn fresh_entries(v: Seq<EntryView>, ws: Seq<Seq<char>>, now: int) -> Set<EntryView> {
    Set::new(|e: EntryView| ws.contains(e.word) && !has_key(v, e.word) && e == fresh_entry(e.word, now))
}

/// `after` is `before` with the words `ws` merged in at time `now`: sorted,
/// holding every entry of `before` unchanged and a fresh entry for each new
/// word, and nothing else.
pub open spec fn merged(before: Seq<EntryView>, after: Seq<EntryView>, ws: Seq<Seq<char>>, now: int) -> bool {
    &&& keys_sorted(after)
    &&& after.to_set() == before.to_set().union(fresh_entries(before, ws, now))
}

/// What a sequence of entries holds.
pub open spec fn views_of(v: Seq<JPWord>) -> Seq<EntryView> {
    v.map_values(|e: JPWord| e@)
}

/// Two entries of `v` have the same word.
pub open spec fn has_duplicate_keys(v: Seq<EntryView>) -> bool {
    exists|i: int, j: int| 0 <= i < j < v.len() && (#[trigger] v[i]).word == (#[trigger] v[j]).word
}

/// The positions of the entries queued for review, in increasing order.
pub open spec fn due_positions(v: Seq<EntryView>) -> Seq<int>
    decreases v.len(),
{
    if v.len() == 0 {
        Seq::empty()
    } else if v.last().to_review {
        due_positions(v.drop_last()).push(v.len() - 1)
    } else {
        due_positions(v.drop_last())
    }
}

/// `after` is `before` after the due check at time `now`, entry by entry.
pub open spec fn all_recomputed(before: Seq<EntryView>, after: Seq<EntryView>, now: int) -> bool {
    &&& after.len() == before.len()
    &&& forall|i: int| 0 <= i < before.len() ==> #[trigger] after[i] == after_recompute(before[i], now)
}

/// `e` with its part of speech and definition replaced.
pub open spec fn with_metadata(e: EntryView, word_type: Option<WordType>, definition: Option<Seq<char>>) -> EntryView {
    EntryView { word_type: word_type, definition: definition, ..e }
}

/// The store's ordered sequence of entries.
pub struct WordStore {
    entries: Vec<JPWord>,
}

impl View for WordStore {
    type V = Seq<EntryView>;

    closed spec fn view(&self) -> Seq<EntryView> {
        views_of(self.entries@)
    }
}

/// In a sorted sequence no two entries share a word.
pub proof fn lemma_sorted_keys_unique(v: Seq<EntryView>, i: int, j: int)
    requires
        keys_sorted(v),
        0 <= i < v.len(),
        0 <= j < v.len(),
        v[i].word == v[j].word,
    ensures
        i == j,
{
    if i < j {
        assert(key_lt(v[i].word, v[j].word));
        lemma_key_lt_irreflexive(v[i].word);
    } else if j < i {
        assert(key_lt(v[j].word, v[i].word));
        lemma_key_lt_irreflexive(v[i].word);
    }
}

/// Putting `e` where its word belongs keeps a sequence sorted.
proof fn lemma_insert_sorted(v: Seq<EntryView>, p: int, e: EntryView)
    requires
        keys_sorted(v),
        0 <= p <= v.len(),
        forall|j: int| 0 <= j < p ==> key_lt(#[trigger] v[j].word, e.word),
        forall|j: int| p <= j < v.len() ==> key_lt(e.word, #[trigger] v[j].word),
    ensures
        keys_sorted(v.insert(p, e)),
        v.insert(p, e).to_set() == v.to_set().insert(e),
        forall|k: Seq<char>| has_key(v.insert(p, e), k) <==> has_key(v, k) || k == e.word,
{
    let w = v.insert(p, e);
    v.insert_ensures(p, e);
    assert forall|a: int, b: int| 0 <= a < b < w.len() implies key_lt(#[trigger] w[a].word, #[trigger] w[b].word) by {
        if b < p {
            assert(w[a] == v[a] && w[b] == v[b]);
        } else if b == p {
            assert(w[a] == v[a]);
        } else if a < p {
            assert(w[a] == v[a] && w[b] == v[b - 1]);
            lemma_key_lt_transitive(v[a].word, e.word, v[b - 1].word);
        } else if a == p {
            assert(w[b] == v[b - 1]);
        } else {
            assert(w[a] == v[a - 1] && w[b] == v[b - 1]);
        }
    }
    assert forall|x: EntryView| w.contains(x) <==> v.contains(x) || x == e by {
        if w.contains(x) {
            let a = choose|a: int| 0 <= a < w.len() && w[a] == x;
            if a < p {
                assert(v[a] == x);
            } else if a > p {
                assert(v[a - 1] == x);
            }
        }
        if v.contains(x) {
            let a = choose|a: int| 0 <= a < v.len() && v[a] == x;
            if a < p {
                assert(w[a] == x);
            } else {
                assert(w[a + 1] == x);
            }
        }
        if x == e {
            assert(w[p] == x);
        }
    }
    assert(w.to_set() =~= v.to_set().insert(e));
    assert forall|k: Seq<char>| has_key(w, k) <==> has_key(v, k) || k == e.word by {
        if has_key(w, k) {
            let a = choose|a: int| 0 <= a < w.len() && (#[trigger] w[a]).word == k;
            if a < p {
                assert(v[a].word == k);
            } else if a > p {
                assert(v[a - 1].word == k);
            }
        }
        if has_key(v, k) {
            let a = choose|a: int| 0 <= a < v.len() && (#[trigger] v[a]).word == k;
            if a < p {
                assert(w[a].word == k);
            } else {
                assert(w[a + 1].word == k);
            }
        }
        if k == e.word {
            assert(w[p].word == k);
        }
    }
}

/// Two sorted sequences that hold the same entries are the same sequence.
pub proof fn lemma_sorted_same_set_equal(a: Seq<EntryView>, b: Seq<EntryView>)
    requires
        keys_sorted(a),
        keys_sorted(b),
        a.to_set() == b.to_set(),
    ensures
        a == b,
    decreases a.len(),
{
    if a.len() == 0 {
        if b.len() > 0 {
            assert(b.to_set().contains(b[0]));
        }
        assert(a =~= b);
    } else {
        assert(a.to_set().contains(a[0]));
        assert(b.contains(a[0]));
        let j = choose|j: int| 0 <= j < b.len() && b[j] == a[0];
        assert(b.to_set().contains(b[0]));
        assert(a.contains(b[0]));
        let i = choose|i: int| 0 <= i < a.len() && a[i] == b[0];
        if i > 0 {
            assert(key_lt(a[0].word, a[i].word));
            if j > 0 {
                assert(key_lt(b[0].word, b[j].word));
                lemma_key_lt_asymmetric(a[0].word, a[i].word);
            } else {
                lemma_key_lt_irreflexive(a[0].word);
            }
        }
        assert(a[0] == b[0]);
        let a1 = a.drop_first();
        let b1 = b.drop_first();
        assert forall|x: EntryView| a1.contains(x) <==> b1.contains(x) by {
            if a1.contains(x) {
                let k = choose|k: int| 0 <= k < a1.len() && a1[k] == x;
                assert(a[k + 1] == x);
                assert(key_lt(a[0].word, a[k + 1].word));
                lemma_key_lt_irreflexive(a[0].word);
                assert(a.to_set().contains(x));
                let m = choose|m: int| 0 <= m < b.len() && b[m] == x;
                assert(m != 0);
                assert(b1[m - 1] == x);
            }
            if b1.contains(x) {
                let k = choose|k: int| 0 <= k < b1.len() && b1[k] == x;
                assert(b[k + 1] == x);
                assert(key_lt(b[0].word, b[k + 1].word));
                lemma_key_lt_irreflexive(b[0].word);
                assert(b.to_set().contains(x));
                let m = choose|m: int| 0 <= m < a.len() && a[m] == x;
                assert(m != 0);
                assert(a1[m - 1] == x);
            }
        }
        assert(a1.to_set() =~= b1.to_set());
        lemma_sorted_same_set_equal(a1, b1);
        assert forall|k: int| 0 <= k < a.len() implies a[k] == b[k] by {
            if k > 0 {
                assert(a[k] == a1[k - 1] && b[k] == b1[k - 1]);
            }
        }
        assert(a =~= b);
    }
}

/// Merging the same words twice gives the store that merging them once
/// gives, whatever the times of the two merges.
pub proof fn lemma_merge_idempotent(
    start: Seq<EntryView>,
    once: Seq<EntryView>,
    twice: Seq<EntryView>,
    ws: Seq<Seq<char>>,
    now1: int,
    now2: int,
)
    requires
        merged(start, once, ws, now1),
        merged(once, twice, ws, now2),
    ensures
        twice == once,
{
    assert forall|k: Seq<char>| ws.contains(k) implies has_key(once, k) by {
        if has_key(start, k) {
            let i = choose|i: int| 0 <= i < start.len() && (#[trigger] start[i]).word == k;
            assert(start.to_set().contains(start[i]));
            assert(once.to_set().contains(start[i]));
            let j = choose|j: int| 0 <= j < once.len() && once[j] == start[i];
            assert(once[j].word == k);
        } else {
            let e = fresh_entry(k, now1);
            assert(fresh_entries(start, ws, now1).contains(e));
            assert(once.to_set().contains(e));
            let j = choose|j: int| 0 <= j < once.len() && once[j] == e;
            assert(once[j].word == k);
        }
    }
    assert(fresh_entries(once, ws, now2) =~= Set::empty());
    assert(twice.to_set() =~= once.to_set());
    lemma_sorted_same_set_equal(twice, once);
}

/// Taking an entry out keeps a sequence sorted.
proof fn lemma_remove_sorted(v: Seq<EntryView>, p: int)
    requires
        keys_sorted(v),
        0 <= p < v.len(),
    ensures
        keys_sorted(v.remove(p)),
{
    let w = v.remove(p);
    v.remove_ensures(p);
    assert forall|a: int, b: int| 0 <= a < b < w.len() implies key_lt(#[trigger] w[a].word, #[trigger] w[b].word) by {
        let a1 = if a < p { a } else { a + 1 };
        let b1 = if b < p { b } else { b + 1 };
        assert(w[a] == v[a1] && w[b] == v[b1]);
    }
}

/// The due positions are the positions, in increasing order, of exactly the
/// entries queued for review.
pub proof fn lemma_due_positions(v: Seq<EntryView>)
    ensures
        forall|k: int| 0 <= k < due_positions(v).len() ==> 0 <= #[trigger] due_positions(v)[k] < v.len() && v[due_positions(v)[k]].to_review,
        forall|k: int, m: int| 0 <= k < m < due_positions(v).len() ==> #[trigger] due_positions(v)[k] < #[trigger] due_positions(v)[m],
        forall|i: int| 0 <= i < v.len() && (#[trigger] v[i]).to_review ==> due_positions(v).contains(i),
        due_positions(v).len() == 0 <==> forall|i: int| 0 <= i < v.len() ==> !(#[trigger] v[i]).to_review,
    decreases v.len(),
{
    if v.len() > 0 {
        let u = v.drop_last();
        lemma_due_positions(u);
        assert forall|i: int| 0 <= i < v.len() && (#[trigger] v[i]).to_review implies due_positions(v).contains(i) by {
            if i < v.len() - 1 {
                assert(u[i] == v[i]);
                let k = choose|k: int| 0 <= k < due_positions(u).len() && due_positions(u)[k] == i;
                assert(due_positions(v)[k] == i);
            } else {
                assert(due_positions(v)[due_positions(v).len() - 1] == i);
            }
        }
        if due_positions(v).len() == 0 {
            assert forall|i: int| 0 <= i < v.len() implies !(#[trigger] v[i]).to_review by {
                if v[i].to_review {
                    assert(due_positions(v).contains(i));
                }
            }
        }
        assert forall|k: int| 0 <= k < due_positions(v).len() implies 0 <= #[trigger] due_positions(v)[k] < v.len() && v[due_positions(v)[k]].to_review by {
            if k < due_positions(u).len() {
                assert(due_positions(v)[k] == due_positions(u)[k]);
                assert(u[due_positions(u)[k]] == v[due_positions(u)[k]]);
            }
        }
        if due_positions(v).len() > 0 && (forall|i: int| 0 <= i < v.len() ==> !(#[trigger] v[i]).to_review) {
            assert(v[due_positions(v)[0]].to_review);
        }
    }
}

/// Relies on `rand::thread_rng` and `Rng::gen_range`: a number drawn from
/// `0..n`; the call panics on an empty range.
#[verifier::external_body]
fn random_below(n: usize) -> (r: usize)
    requires
        n > 0,
    ensures
        r < n,
{
    rand::thread_rng().gen_range(0..n)
}

/// Relies on `rand::seq::index::sample` and `IndexVec::into_vec`: `amount`
/// distinct indices drawn from `0..length`; the call panics when `amount`
/// exceeds `length`.
#[verifier::external_body]
fn sample_distinct(length: usize, amount: usize) -> (r: Vec<usize>)
    requires
        amount <= length,
    ensures
        r@.len() == amount,
        forall|i: int| 0 <= i < r@.len() ==> #[trigger] r@[i] < length,
        forall|i: int, j: int| 0 <= i < j < r@.len() ==> #[trigger] r@[i] != #[trigger] r@[j],
{
    rand::seq::index::sample(&mut rand::thread_rng(), length, amount).into_vec()
}

impl WordStore {
    /// The store is sorted by word, with no word twice.
    pub open spec fn wf(&self) -> bool {
        keys_sorted(self@)
    }

    /// An empty store.
    pub fn new() -> (s: WordStore)
        ensures
            s.wf(),
            s@ == Seq::<EntryView>::empty(),
    {
        let s = WordStore { entries: Vec::new() };
        assert(s@ =~= Seq::<EntryView>::empty());
        s
    }

    /// The number of entries.
    pub fn len(&self) -> (n: usize)
        ensures
            n == self@.len(),
    {
        self.entries.len()
    }

    /// The entry at position `i`.
    pub fn get(&self, i: usize) -> (e: &JPWord)
        requires
            i < self@.len(),
        ensures
            e@ == self@[i as int],
    {
        &self.entries[i]
    }

    /// Where `key` stands: `Ok` with its position, or `Err` with the
    /// position at which it would be inserted.
    fn search(&self, key: &str) -> (r: Result<usize, usize>)
        requires
            self.wf(),
        ensures
            r matches Ok(i) ==> i < self@.len() && self@[i as int].word == key@,
            r matches Err(p) ==> p <= self@.len() && !has_key(self@, key@) && (forall|j: int|
                0 <= j < p ==> key_lt(#[trigger] self@[j].word, key@)) && (forall|j: int|
                p <= j < self@.len() ==> key_lt(key@, #[trigger] self@[j].word)),
    {
        let mut lo: usize = 0;
        let mut hi: usize = self.entries.len();
        while lo < hi
            invariant
                self.wf(),
                lo <= hi <= self@.len(),
                self@.len() == self.entries@.len(),
                forall|j: int| 0 <= j < lo ==> key_lt(#[trigger] self@[j].word, key@),
                forall|j: int| hi <= j < self@.len() ==> key_lt(key@, #[trigger] self@[j].word),
            decreases hi - lo,
        {
            let mid = lo + (hi - lo) / 2;
            let ghost mw = self@[mid as int].word;
            assert(self.entries@[mid as int]@ == self@[mid as int]);
            match compare_keys(self.entries[mid].word.as_str(), key) {
                std::cmp::Ordering::Less => {
                    assert forall|j: int| 0 <= j < mid + 1 implies key_lt(#[trigger] self@[j].word, key@) by {
                        if j < mid {
                            lemma_key_lt_transitive(self@[j].word, mw, key@);
                        }
                    }
                    lo = mid + 1;
                },
                std::cmp::Ordering::Greater => {
                    assert forall|j: int| mid <= j < self@.len() implies key_lt(key@, #[trigger] self@[j].word) by {
                        if j > mid {
                            lemma_key_lt_transitive(key@, mw, self@[j].word);
                        }
                    }
                    hi = mid;
                },
                std::cmp::Ordering::Equal => {
                    return Ok(mid);
                },
            }
        }
        proof {
            lemma_key_lt_irreflexive(key@);
        }
        Err(lo)
    }

    /// The position of the entry for `key`, if there is one.
    pub fn find(&self, key: &str) -> (r: Option<usize>)
        requires
            self.wf(),
        ensures
            r is Some <==> has_key(self@, key@),
            r matches Some(i) ==> i < self@.len() && self@[i as int].word == key@,
    {
        match self.search(key) {
            Ok(i) => Some(i),
            Err(_) => None,
        }
    }

    /// Puts `e` at position `p`, where its word belongs.
    fn insert_at(&mut self, p: usize, e: JPWord)
        requires
            old(self).wf(),
            p <= old(self)@.len(),
            forall|j: int| 0 <= j < p ==> key_lt(#[trigger] old(self)@[j].word, e@.word),
            forall|j: int| p <= j < old(self)@.len() ==> key_lt(e@.word, #[trigger] old(self)@[j].word),
        ensures
            final(self).wf(),
            final(self)@ == old(self)@.insert(p as int, e@),
            final(self)@.to_set() == old(self)@.to_set().insert(e@),
            forall|k: Seq<char>| has_key(final(self)@, k) <==> has_key(old(self)@, k) || k == e@.word,
    {
        let ghost ev = e@;
        proof {
            lemma_insert_sorted(self@, p as int, ev);
        }
        self.entries.insert(p, e);
        assert(self@ =~= old(self)@.insert(p as int, ev));
    }

    /// Merges bare words into the store at time `now`: a word the store
    /// lacks gets a fresh entry; a word it has keeps its entry unchanged.
    pub fn merge(&mut self, words: &Vec<String>, now: i64)
        requires
            old(self).wf(),
        ensures
            final(self).wf(),
            merged(old(self)@, final(self)@, texts_of(words@), now as int),
            forall|k: Seq<char>| has_key(final(self)@, k) <==> has_key(old(self)@, k) || texts_of(words@).contains(k),
    {
        let ghost start = self@;
        let ghost ws = texts_of(words@);
        let mut t: usize = 0;
        while t < words.len()
            invariant
                0 <= t <= words.len(),
                ws == texts_of(words@),
                self.wf(),
                self@.to_set() == start.to_set().union(fresh_entries(start, ws.take(t as int), now as int)),
                forall|k: Seq<char>| has_key(self@, k) <==> has_key(start, k) || ws.take(t as int).contains(k),
            decreases words.len() - t,
        {
            let ghost before = self@;
            let ghost w = ws[t as int];
            let ghost pre = ws.take(t as int);
            let ghost post = ws.take(t + 1);
            assert forall|x: Seq<char>| post.contains(x) <==> pre.contains(x) || x == w by {
                if post.contains(x) {
                    let a = choose|a: int| 0 <= a < post.len() && post[a] == x;
                    if a < t {
                        assert(pre[a] == x);
                    }
                }
                if pre.contains(x) {
                    let a = choose|a: int| 0 <= a < pre.len() && pre[a] == x;
                    assert(post[a] == x);
                }
                if x == w {
                    assert(post[t as int] == x);
                }
            }
            match self.search(words[t].as_str()) {
                Ok(i) => {
                    assert(self@[i as int].word == w);
                    assert(has_key(self@, w));
                    assert forall|k: Seq<char>| has_key(self@, k) <==> has_key(before, k) || k == w by {}
                    assert(fresh_entries(start, ws.take(t + 1), now as int) =~= fresh_entries(start, ws.take(t as int), now as int));
                },
                Err(p) => {
                    let e = JPWord::new_at(words[t].clone(), now);
                    self.insert_at(p, e);
                    assert forall|k: Seq<char>| has_key(self@, k) <==> has_key(before, k) || k == w by {}
                    assert(fresh_entries(start, ws.take(t + 1), now as int) =~= fresh_entries(start, ws.take(t as int), now as int).insert(fresh_entry(w, now as int)));
                    assert(self@.to_set() =~= start.to_set().union(fresh_entries(start, ws.take(t + 1), now as int)));
                },
            }
            assert forall|k: Seq<char>| has_key(self@, k) <==> has_key(start, k) || post.contains(k) by {
                assert(has_key(before, k) <==> has_key(start, k) || pre.contains(k));
            }
            t = t + 1;
        }
        assert(ws.take(t as int) =~= ws);
        assert forall|k: Seq<char>| has_key(self@, k) <==> has_key(start, k) || ws.contains(k) by {}
    }

    /// Reads the texts as one stream of characters and merges the words
    /// found in it into the store at time `now`.
    pub fn ingest(&mut self, texts: &Vec<String>, now: i64)
        requires
            old(self).wf(),
        ensures
            final(self).wf(),
            merged(old(self)@, final(self)@, words_of(joined(texts@)), now as int),
    {
        let words = extract_words(texts);
        self.merge(&words, now);
    }

    /// The entries, in order.
    pub fn entries(&self) -> (r: &Vec<JPWord>)
        ensures
            views_of(r@) == self@,
    {
        &self.entries
    }

    /// The entries, in order, taken out of the store.
    pub fn into_entries(self) -> (r: Vec<JPWord>)
        ensures
            views_of(r@) == self@,
    {
        self.entries
    }

    /// Adds a prepared entry, unless the store already has its word.
    pub fn add(&mut self, entry: JPWord) -> (added: bool)
        requires
            old(self).wf(),
        ensures
            final(self).wf(),
            added == !has_key(old(self)@, entry@.word),
            added ==> final(self)@.to_set() == old(self)@.to_set().insert(entry@),
            !added ==> final(self)@ == old(self)@,
    {
        match self.search(entry.word.as_str()) {
            Ok(i) => {
                assert(self@[i as int].word == entry@.word);
                false
            },
            Err(p) => {
                self.insert_at(p, entry);
                true
            },
        }
    }

    /// Deletes the entry for `key`.
    pub fn remove(&mut self, key: &str) -> (r: Result<(), StoreError>)
        requires
            old(self).wf(),
        ensures
            final(self).wf(),
            r is Ok <==> has_key(old(self)@, key@),
            r matches Err(e) ==> e == StoreError::NotFound && final(self)@ == old(self)@,
            r is Ok ==> exists|i: int|
                0 <= i < old(self)@.len() && old(self)@[i].word == key@ && final(self)@ == old(
                    self,
                )@.remove(i),
    {
        match self.search(key) {
            Ok(i) => {
                proof {
                    lemma_remove_sorted(self@, i as int);
                }
                let _gone = self.entries.remove(i);
                assert(self@ =~= old(self)@.remove(i as int));
                Ok(())
            },
            Err(_) => Err(StoreError::NotFound),
        }
    }

    /// Sets the part of speech and the definition of the entry for `key`.
    pub fn set_metadata(
        &mut self,
        key: &str,
        word_type: Option<WordType>,
        definition: Option<String>,
    ) -> (r: Result<(), StoreError>)
        requires
            old(self).wf(),
        ensures
            final(self).wf(),
            r is Ok <==> has_key(old(self)@, key@),
            r matches Err(e) ==> e == StoreError::NotFound && final(self)@ == old(self)@,
            r is Ok ==> exists|i: int|
                0 <= i < old(self)@.len() && old(self)@[i].word == key@ && final(self)@ == old(
                    self,
                )@.update(i, with_metadata(old(self)@[i], word_type, opt_text(definition))),
    {
        match self.search(key) {
            Ok(i) => {
                let ghost dv = opt_text(definition);
                self.entries[i].word_type = word_type;
                self.entries[i].definition = definition;
                assert(self@ =~= old(self)@.update(i as int, with_metadata(old(self)@[i as int], word_type, dv)));
                Ok(())
            },
            Err(_) => Err(StoreError::NotFound),
        }
    }

    /// Records a recall of the word `key` made at time `now`.
    pub fn record_outcome(&mut self, key: &str, correct: bool, now: i64) -> (r: Result<(), StoreError>)
        requires
            old(self).wf(),
            now <= LATEST_REVIEW_TIME,
        ensures
            final(self).wf(),
            r is Ok <==> has_key(old(self)@, key@),
            r matches Err(e) ==> e == StoreError::NotFound && final(self)@ == old(self)@,
            r is Ok ==> exists|i: int|
                0 <= i < old(self)@.len() && old(self)@[i].word == key@ && final(self)@ == old(
                    self,
                )@.update(i, after_outcome(old(self)@[i], correct, now as int)),
            !correct ==> final(self)@ == old(self)@,
    {
        match self.search(key) {
            Ok(i) => {
                self.entries[i].record_outcome(correct, now);
                assert(self@ =~= old(self)@.update(i as int, after_outcome(old(self)@[i as int], correct, now as int)));
                assert(!correct ==> self@ =~= old(self)@);
                Ok(())
            },
            Err(_) => Err(StoreError::NotFound),
        }
    }

    /// Queues for review every entry whose review time has come by `now`,
    /// and returns how many entries are queued afterwards.
    pub fn recompute_due(&mut self, now: i64) -> (due: usize)
        requires
            old(self).wf(),
        ensures
            final(self).wf(),
            final(self)@.len() == old(self)@.len(),
            all_recomputed(old(self)@, final(self)@, now as int),
            due == due_positions(final(self)@).len(),
    {
        let n = self.entries.len();
        let mut due: usize = 0;
        let mut i: usize = 0;
        while i < n
            invariant
                n == old(self)@.len(),
                i <= n,
                self@.len() == n,
                forall|j: int| 0 <= j < i ==> #[trigger] self@[j] == after_recompute(old(self)@[j], now as int),
                forall|j: int| i <= j < n ==> #[trigger] self@[j] == old(self)@[j],
                due == due_positions(self@.take(i as int)).len(),
                due <= i,
            decreases n - i,
        {
            let ghost prev = self@;
            self.entries[i].recompute_due(now);
            assert(self@ =~= prev.update(i as int, after_recompute(prev[i as int], now as int)));
            assert(self@.take(i as int) =~= prev.take(i as int));
            assert(self@.take(i + 1).drop_last() =~= self@.take(i as int));
            assert(self@.take(i + 1).last() == self@[i as int]);
            assert(self.entries@[i as int]@ == self@[i as int]);
            assert(due_positions(self@.take(i + 1)).len() == due_positions(self@.take(i as int)).len()
                + if self@[i as int].to_review { 1int } else { 0int });
            if self.entries[i].to_review {
                due = due + 1;
            }
            i = i + 1;
        }
        assert(self@.take(n as int) =~= self@);
        assert forall|a: int, b: int| 0 <= a < b < self@.len() implies key_lt(#[trigger] self@[a].word, #[trigger] self@[b].word) by {
            assert(self@[a].word == old(self)@[a].word && self@[b].word == old(self)@[b].word);
        }
        due
    }

    /// The positions of the entries queued for review, in increasing order.
    pub fn due_indices(&self) -> (r: Vec<usize>)
        ensures
            r@.map_values(|p: usize| p as int) == due_positions(self@),
    {
        let mut r: Vec<usize> = Vec::new();
        let mut i: usize = 0;
        while i < self.entries.len()
            invariant
                i <= self@.len(),
                self@.len() == self.entries@.len(),
                r@.map_values(|p: usize| p as int) == due_positions(self@.take(i as int)),
            decreases self.entries.len() - i,
        {
            assert(self@.take(i + 1).drop_last() =~= self@.take(i as int));
            assert(self.entries@[i as int]@ == self@[i as int]);
            if self.entries[i].to_review {
                r.push(i);
            }
            assert(r@.map_values(|p: usize| p as int) =~= due_positions(self@.take(i + 1)));
            i = i + 1;
        }
        assert(self@.take(i as int) =~= self@);
        r
    }

    /// The position of the `k`-th entry queued for review, counting from
    /// zero in store order, if there are more than `k` of them.
    pub fn nth_due(&self, k: usize) -> (r: Option<usize>)
        ensures
            r is Some <==> k < due_positions(self@).len(),
            r matches Some(i) ==> i == due_positions(self@)[k as int],
    {
        let due = self.due_indices();
        if k < due.len() {
            assert(due@.map_values(|p: usize| p as int)[k as int] == due@[k as int] as int);
            Some(due[k])
        } else {
            None
        }
    }

    /// Picks at random one of the entries queued for review; fails when
    /// none is queued. The draw is a number below the count of queued
    /// entries, and picks the entry `nth_due` gives for it.
    pub fn pick_test_word(&self) -> (r: Result<usize, StoreError>)
        ensures
            r is Err <==> forall|i: int| 0 <= i < self@.len() ==> !(#[trigger] self@[i]).to_review,
            r matches Err(e) ==> e == StoreError::EmptyStore,
            r matches Ok(i) ==> i < self@.len() && self@[i as int].to_review,
            r matches Ok(i) ==> exists|k: int| 0 <= k < due_positions(self@).len() && #[trigger] due_positions(self@)[k] == i,
    {
        proof {
            lemma_due_positions(self@);
        }
        let count = self.due_indices().len();
        if count == 0 {
            Err(StoreError::EmptyStore)
        } else {
            let k = random_below(count);
            match self.nth_due(k) {
                Some(i) => Ok(i),
                None => Err(StoreError::EmptyStore),
            }
        }
    }

    /// Picks at random `n` distinct positions, or every position when the
    /// store has fewer than `n` entries; fails on an empty store.
    pub fn sample_positions(&self, n: usize) -> (r: Result<Vec<usize>, StoreError>)
        ensures
            r is Err <==> self@.len() == 0,
            r matches Err(e) ==> e == StoreError::EmptyStore,
            r matches Ok(v) ==> v@.len() == (if n <= self@.len() { n as int } else { self@.len() as int })
                && (forall|i: int| 0 <= i < v@.len() ==> #[trigger] v@[i] < self@.len())
                && (forall|i: int, j: int| 0 <= i < j < v@.len() ==> #[trigger] v@[i] != #[trigger] v@[j]),
    {
        let len = self.entries.len();
        if len == 0 {
            Err(StoreError::EmptyStore)
        } else {
            let amount = if n <= len { n } else { len };
            Ok(sample_distinct(len, amount))
        }
    }

    /// Builds a store from loaded entries, in any order; fails when two of
    /// them have the same word.
    pub fn from_entries(entries: Vec<JPWord>) -> (r: Result<WordStore, StoreError>)
        ensures
            r is Err <==> has_duplicate_keys(views_of(entries@)),
            r matches Err(e) ==> e == StoreError::DuplicateKeyOnLoad,
            r matches Ok(s) ==> s.wf() && s@.to_set() == views_of(entries@).to_set(),
    {
        let ghost all = views_of(entries@);
        let mut rest = entries;
        let mut store = WordStore::new();
        assert(all.skip(all.len() as int) =~= Seq::<EntryView>::empty());
        assert(store@.to_set() =~= all.skip(all.len() as int).to_set());
        assert(views_of(rest@) =~= all.take(all.len() as int));
        while rest.len() > 0
            invariant
                views_of(entries@) == all,
                store.wf(),
                rest@.len() <= all.len(),
                views_of(rest@) == all.take(rest@.len() as int),
                store@.to_set() == all.skip(rest@.len() as int).to_set(),
                forall|k: Seq<char>| has_key(store@, k) <==> has_key(all.skip(rest@.len() as int), k),
                !has_duplicate_keys(all.skip(rest@.len() as int)),
            decreases rest.len(),
        {
            let ghost m = rest@.len() - 1;
            let ghost tail = all.skip(m + 1);
            let ghost grown = all.skip(m);
            assert(rest@[m]@ == views_of(rest@)[m]);
            let e = rest.pop().unwrap();
            assert(views_of(rest@) =~= all.take(m));
            assert(e@ == all[m]);
            assert(grown =~= seq![all[m]] + tail);
            match store.search(e.word.as_str()) {
                Ok(i) => {
                    proof {
                        assert(store@[i as int].word == e@.word);
                        assert(has_key(store@, e@.word));
                        let j = choose|j: int| 0 <= j < tail.len() && (#[trigger] tail[j]).word == e@.word;
                        assert(all[m + 1 + j] == tail[j]);
                        assert(all[m].word == all[m + 1 + j].word);
                        assert(has_duplicate_keys(all));
                    }
                    return Err(StoreError::DuplicateKeyOnLoad);
                },
                Err(p) => {
                    store.insert_at(p, e);
                    assert forall|x: EntryView| grown.contains(x) <==> tail.contains(x) || x == all[m] by {
                        if grown.contains(x) {
                            let a = choose|a: int| 0 <= a < grown.len() && grown[a] == x;
                            if a > 0 {
                                assert(tail[a - 1] == x);
                            }
                        }
                        if tail.contains(x) {
                            let a = choose|a: int| 0 <= a < tail.len() && tail[a] == x;
                            assert(grown[a + 1] == x);
                        }
                        if x == all[m] {
                            assert(grown[0] == x);
                        }
                    }
                    assert(store@.to_set() =~= grown.to_set());
                    assert forall|k: Seq<char>| has_key(store@, k) <==> has_key(grown, k) by {
                        if has_key(grown, k) {
                            let a = choose|a: int| 0 <= a < grown.len() && (#[trigger] grown[a]).word == k;
                            if a > 0 {
                                assert(tail[a - 1].word == k);
                            }
                        }
                        if has_key(tail, k) {
                            let a = choose|a: int| 0 <= a < tail.len() && (#[trigger] tail[a]).word == k;
                            assert(grown[a + 1].word == k);
                        }
                        if k == all[m].word {
                            assert(grown[0].word == k);
                        }
                    }
                    assert(!has_duplicate_keys(grown)) by {
                        if has_duplicate_keys(grown) {
                            let (a, b) = choose|a: int, b: int| 0 <= a < b < grown.len() && (#[trigger] grown[a]).word == (#[trigger] grown[b]).word;
                            if a == 0 {
                                assert(tail[b - 1].word == all[m].word);
                                assert(has_key(tail, all[m].word));
                            } else {
                                assert(tail[a - 1].word == tail[b - 1].word);
                            }
                        }
                    }
                },
            }
        }
        assert(all.skip(0) =~= all);
        Ok(store)
    }

    /// Merges the words of the texts into the store, stamping new entries
    /// with the current time.
    pub fn ingest_now(&mut self, texts: &Vec<String>)
        requires
            old(self).wf(),
        ensures
            final(self).wf(),
            exists|t: int|
                t <= LATEST_REVIEW_TIME && merged(
                    old(self)@,
                    final(self)@,
                    words_of(joined(texts@)),
                    t,
                ),
    {
        let now = now_millis();
        self.ingest(texts, now);
    }

    /// Queues every entry whose review time has come by the current time,
    /// and returns how many entries are queued afterwards.
    pub fn review_now(&mut self) -> (due: usize)
        requires
            old(self).wf(),
        ensures
            final(self).wf(),
            final(self)@.len() == old(self)@.len(),
            exists|t: int| t <= LATEST_REVIEW_TIME && #[trigger] all_recomputed(old(self)@, final(self)@, t),
            due == due_positions(final(self)@).len(),
    {
        let now = now_millis();
        self.recompute_due(now)
    }

    /// Records a correct recall of the word `key`, made now.
    pub fn correct(&mut self, key: &str) -> (r: Result<(), StoreError>)
        requires
            old(self).wf(),
        ensures
            final(self).wf(),
            r is Ok <==> has_key(old(self)@, key@),
            r matches Err(e) ==> e == StoreError::NotFound && final(self)@ == old(self)@,
            r is Ok ==> exists|i: int, t: int|
                0 <= i < old(self)@.len() && t <= LATEST_REVIEW_TIME && old(self)@[i].word
                    == key@ && final(self)@ == old(self)@.update(
                    i,
                    after_outcome(old(self)@[i], true, t),
                ),
    {
        let now = now_millis();
        self.record_outcome(key, true, now)
    }
}

} // verus!
