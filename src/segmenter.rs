//! Cutting Hiragana and Katakana runs out of a stream of characters.
//!
//! The parser reads one character at a time. A run of one kana class grows
//! until a character of another class arrives. A character of neither class
//! ends the run and hands it out as a word. A kana character of the other
//! class starts a new run in place of the old one, which is dropped.

use vstd::prelude::*;

verus! {

/// The script class of a character.
#[derive(Clone, Copy, PartialEq, Eq, Debug, Structural)]
pub enum JapaneseWordType {
    Hiragana,
    Katakana,
    Neither,
}

/// Hiragana is U+3040..=U+309F, Katakana U+30A0..=U+30FF, all else is neither.
pub open spec fn class_of(c: char) -> JapaneseWordType {
    if 0x3040 <= (c as int) <= 0x309f {
        JapaneseWordType::Hiragana
    } else if 0x30a0 <= (c as int) <= 0x30ff {
        JapaneseWordType::Katakana
    } else {
        JapaneseWordType::Neither
    }
}

/// Classifies one character.
pub fn classify(c: char) -> (r: JapaneseWordType)
    ensures
        r == class_of(c),
{
    if '\u{3040}' <= c && c <= '\u{309f}' {
        JapaneseWordType::Hiragana
    } else if '\u{30a0}' <= c && c <= '\u{30ff}' {
        JapaneseWordType::Katakana
    } else {
        JapaneseWordType::Neither
    }
}

/// The state of a parser: the class of the current run and its characters.
pub type SegState = (JapaneseWordType, Seq<char>);

/// The state of a parser that has read nothing.
pub open spec fn start_state() -> SegState {
    (JapaneseWordType::Neither, Seq::empty())
}

/// A reachable state: the run holds characters of its class only, and is
/// empty exactly when the class is `Neither`.
pub open spec fn state_wf(st: SegState) -> bool {
    &&& (st.0 == JapaneseWordType::Neither <==> st.1.len() == 0)
    &&& forall|i: int| 0 <= i < st.1.len() ==> class_of(#[trigger] st.1[i]) == st.0
}

/// Reading one character: the next state, and the word it completes, if any.
pub open spec fn feed(st: SegState, c: char) -> (SegState, Option<Seq<char>>) {
    let k = class_of(c);
    if k == JapaneseWordType::Neither {
        (start_state(), if st.1.len() > 0 { Some(st.1) } else { None })
    } else if k == st.0 {
        ((k, st.1.push(c)), None)
    } else {
        ((k, seq![c]), None)
    }
}

/// The words a possible word adds to an output.
pub open spec fn opt_words(o: Option<Seq<char>>) -> Seq<Seq<char>> {
    match o {
        Some(w) => seq![w],
        None => Seq::empty(),
    }
}

/// Reading a whole sequence from `st`: the final state and the words emitted.
pub open spec fn run(st: SegState, s: Seq<char>) -> (SegState, Seq<Seq<char>>)
    decreases s.len(),
{
    if s.len() == 0 {
        (st, Seq::empty())
    } else {
        let before = run(st, s.drop_last());
        let after = feed(before.0, s.last());
        (after.0, before.1 + opt_words(after.1))
    }
}

/// What the end of the stream flushes: the pending run, if there is one.
pub open spec fn flush(st: SegState) -> Seq<Seq<char>> {
    if st.1.len() > 0 {
        seq![st.1]
    } else {
        Seq::empty()
    }
}

/// The words of a whole stream, read from the start and flushed at its end.
pub open spec fn words_of(s: Seq<char>) -> Seq<Seq<char>> {
    let r = run(start_state(), s);
    r.1 + flush(r.0)
}

/// The characters of several texts read one after another.
pub open spec fn joined(texts: Seq<String>) -> Seq<char>
    decreases texts.len(),
{
    if texts.len() == 0 {
        Seq::empty()
    } else {
        joined(texts.drop_last()) + texts.last()@
    }
}

/// The texts of several strings.
pub open spec fn texts_of(v: Seq<String>) -> Seq<Seq<char>> {
    v.map_values(|s: String| s@)
}

/// A word made of characters of one kana class only.
pub open spec fn single_class(w: Seq<char>) -> bool {
    ||| forall|i: int| 0 <= i < w.len() ==> class_of(#[trigger] w[i]) == JapaneseWordType::Hiragana
    ||| forall|i: int| 0 <= i < w.len() ==> class_of(#[trigger] w[i]) == JapaneseWordType::Katakana
}

/// Relies on `String::push`: the character is appended at the end.
#[verifier::external_body]
fn push_char(s: &mut String, c: char)
    ensures
        final(s)@ == old(s)@.push(c),
{
    s.push(c)
}

/// Reads characters one at a time and hands out completed words.
pub struct JapaneseWordParser {
    pub word_type: JapaneseWordType,
    pub word: String,
    /// Whether the last character read changed the class of the run.
    pub changed: bool,
}

/// The word a possible string holds.
pub open spec fn opt_chars(o: Option<String>) -> Option<Seq<char>> {
    match o {
        Some(s) => Some(s@),
        None => None,
    }
}

impl JapaneseWordParser {
    pub open spec fn state(&self) -> SegState {
        (self.word_type, self.word@)
    }

    pub fn new() -> (p: Self)
        ensures
            p.state() == start_state(),
            !p.changed,
    {
        JapaneseWordParser {
            word_type: JapaneseWordType::Neither,
            word: String::new(),
            changed: false,
        }
    }

    /// Reads one character; returns the word it completes, if any.
    pub fn add_to_word(&mut self, s: char) -> (r: Option<String>)
        ensures
            final(self).state() == feed(old(self).state(), s).0,
            opt_chars(r) == feed(old(self).state(), s).1,
            final(self).changed == (class_of(s) != old(self).word_type),
    {
        let k = classify(s);
        if k == self.word_type && k != JapaneseWordType::Neither {
            push_char(&mut self.word, s);
            self.changed = false;
            None
        } else {
            self.switch_word_type(k, s)
        }
    }

    /// Handles a character of class `t` that does not extend the current run.
    fn switch_word_type(&mut self, t: JapaneseWordType, c: char) -> (r: Option<String>)
        requires
            t == class_of(c),
            t != old(self).word_type || t == JapaneseWordType::Neither,
        ensures
            final(self).state() == feed(old(self).state(), c).0,
            opt_chars(r) == feed(old(self).state(), c).1,
            final(self).changed == (t != old(self).word_type),
    {
        self.changed = t != self.word_type;
        if t == JapaneseWordType::Neither {
            self.word_type = JapaneseWordType::Neither;
            let done = self.word.clone();
            self.word = String::new();
            if !done.as_str().is_empty() {
                Some(done)
            } else {
                None
            }
        } else {
            self.word_type = t;
            self.word = String::new();
            push_char(&mut self.word, c);
            assert(self.word@ =~= seq![c]);
            None
        }
    }

    /// Ends the stream: hands out the pending run, if any, and starts afresh.
    pub fn finish(&mut self) -> (r: Option<String>)
        ensures
            final(self).state() == start_state(),
            opt_words(opt_chars(r)) == flush(old(self).state()),
    {
        let r = self.switch_word_type(JapaneseWordType::Neither, ' ');
        assert(opt_words(opt_chars(r)) =~= flush(old(self).state()));
        r
    }
}

/// The words of several texts read as one stream by one parser, in order
/// of appearance; a run may go on from the end of one text into the next.
pub fn extract_words(texts: &Vec<String>) -> (r: Vec<String>)
    ensures
        texts_of(r@) == words_of(joined(texts@)),
{
    let mut p = JapaneseWordParser::new();
    let mut out: Vec<String> = Vec::new();
    let mut t: usize = 0;
    while t < texts.len()
        invariant
            0 <= t <= texts.len(),
            p.state() == run(start_state(), joined(texts@.take(t as int))).0,
            texts_of(out@) == run(start_state(), joined(texts@.take(t as int))).1,
        decreases texts.len() - t,
    {
        let ghost before = joined(texts@.take(t as int));
        let text: &str = texts[t].as_str();
        for c in it: text.chars()
            invariant
                it.seq() == texts@[t as int]@,
                p.state() == run(start_state(), before + it.seq().take(it.index() as int)).0,
                texts_of(out@) == run(start_state(), before + it.seq().take(it.index() as int)).1,
        {
            let ghost s0 = before + it.seq().take(it.index() as int);
            let ghost s1 = before + it.seq().take(it.index() + 1);
            assert(s1.drop_last() =~= s0);
            assert(s1.last() == c);
            let w = p.add_to_word(c);
            match w {
                Some(w) => {
                    out.push(w);
                },
                None => {},
            }
            assert(texts_of(out@) =~= run(start_state(), s1).1);
        }
        assert(texts@.take(t + 1).drop_last() =~= texts@.take(t as int));
        assert(texts@[t as int]@.take(texts@[t as int]@.len() as int) =~= texts@[t as int]@);
        t = t + 1;
    }
    assert(texts@.take(t as int) =~= texts@);
    let last = p.finish();
    match last {
        Some(w) => {
            out.push(w);
        },
        None => {},
    }
    assert(texts_of(out@) =~= words_of(joined(texts@)));
    out
}

/// One step keeps a reachable state reachable, and a word it completes is
/// a non-empty run of one kana class.
proof fn lemma_feed_wf(st: SegState, c: char)
    requires
        state_wf(st),
    ensures
        state_wf(feed(st, c).0),
        feed(st, c).1 matches Some(w) ==> w.len() > 0 && single_class(w),
{
    let k = class_of(c);
    if k != JapaneseWordType::Neither && k == st.0 {
        let b = st.1.push(c);
        assert forall|i: int| 0 <= i < b.len() implies class_of(#[trigger] b[i]) == k by {
            if i < st.1.len() {
                assert(b[i] == st.1[i]);
            }
        }
    }
}

/// Reading any sequence from a reachable state ends in a reachable state
/// and emits only non-empty runs of one kana class.
proof fn lemma_run_wf(st: SegState, s: Seq<char>)
    requires
        state_wf(st),
    ensures
        state_wf(run(st, s).0),
        forall|i: int|
            0 <= i < run(st, s).1.len() ==> (#[trigger] run(st, s).1[i]).len() > 0
                && single_class(run(st, s).1[i]),
    decreases s.len(),
{
    if s.len() > 0 {
        let before = run(st, s.drop_last());
        lemma_run_wf(st, s.drop_last());
        lemma_feed_wf(before.0, s.last());
    }
}

/// Every word of a stream is non-empty and consists of Hiragana only or of
/// Katakana only: never both classes, never a character of neither.
pub proof fn lemma_words_single_class(s: Seq<char>)
    ensures
        forall|i: int|
            0 <= i < words_of(s).len() ==> (#[trigger] words_of(s)[i]).len() > 0
                && single_class(words_of(s)[i]),
{
    let r = run(start_state(), s);
    lemma_run_wf(start_state(), s);
    assert forall|i: int| 0 <= i < words_of(s).len() implies (#[trigger] words_of(
        s,
    )[i]).len() > 0 && single_class(words_of(s)[i]) by {
        if i >= r.1.len() {
            assert(words_of(s)[i] == r.0.1);
            assert(r.0.0 != JapaneseWordType::Neither);
        } else {
            assert(words_of(s)[i] == r.1[i]);
        }
    }
}

/// Reading `x` and then `y` is reading `x + y`: a stream may be handed to a
/// parser in pieces, split anywhere, with the same states and words.
pub proof fn lemma_run_concat(st: SegState, x: Seq<char>, y: Seq<char>)
    ensures
        run(st, x + y) == (run(run(st, x).0, y).0, run(st, x).1 + run(run(st, x).0, y).1),
    decreases y.len(),
{
    if y.len() == 0 {
        assert(x + y =~= x);
        assert(run(st, x).1 + Seq::<Seq<char>>::empty() =~= run(st, x).1);
    } else {
        assert((x + y).drop_last() =~= x + y.drop_last());
        lemma_run_concat(st, x, y.drop_last());
        let mid = run(st, x).0;
        let a = run(mid, y.drop_last());
        let f = feed(a.0, y.last());
        assert(run(st, x).1 + a.1 + opt_words(f.1) =~= run(st, x).1 + (a.1 + opt_words(f.1)));
    }
}

/// Segmentation is deterministic: the words of a stream depend on its
/// characters alone, so reading the same characters twice, however they
/// are split into texts, yields the same words.
pub proof fn lemma_segmentation_deterministic(a: Seq<String>, b: Seq<String>)
    requires
        joined(a) == joined(b),
    ensures
        words_of(joined(a)) == words_of(joined(b)),
{
}

} // verus!
