//! Bytes, whitespace and words: the lexical layer under the text format.

use vstd::prelude::*;
use vstd::utf8::{decode_utf8, valid_utf8};

verus! {

/// Whitespace: a space, a tab, a line feed or a carriage return.
pub open spec fn spec_is_multispace(c: u8) -> bool {
    c == 32 || c == 9 || c == 10 || c == 13
}

/// Tells whether `c` is a whitespace byte.
pub fn is_multispace(c: u8) -> (r: bool)
    ensures
        r == spec_is_multispace(c),
{
    c == 32 || c == 9 || c == 10 || c == 13
}

/// The two kinds of run that a text is made of.
#[derive(Clone, Copy, Debug, PartialEq, Eq)]
pub enum ByteClass {
    /// Spaces, tabs, line feeds and carriage returns.
    Whitespace,
    /// Every byte that is not whitespace.
    Text,
}

impl ByteClass {
    /// Whether `c` belongs to the class.
    pub open spec fn has(self, c: u8) -> bool {
        match self {
            ByteClass::Whitespace => spec_is_multispace(c),
            ByteClass::Text => !spec_is_multispace(c),
        }
    }

    /// Tells whether `c` belongs to the class.
    pub fn contains(&self, c: u8) -> (r: bool)
        ensures
            r == self.has(c),
    {
        match self {
            ByteClass::Whitespace => is_multispace(c),
            ByteClass::Text => !is_multispace(c),
        }
    }
}

/// Where the run of `class` bytes that starts at `i` ends: the first position
/// at or after `i` that holds a byte outside the class, or the length of `s`.
pub open spec fn run_end(s: Seq<u8>, i: int, class: ByteClass) -> int
    decreases s.len() - i,
{
    if 0 <= i < s.len() && class.has(s[i]) {
        run_end(s, i + 1, class)
    } else {
        i
    }
}

/// `run_end` is the one position that closes the run: everything before it
/// belongs to the class, and the byte at it, if there is one, does not.
pub proof fn lemma_run_end(s: Seq<u8>, i: int, class: ByteClass)
    requires
        0 <= i <= s.len(),
    ensures
        i <= run_end(s, i, class) <= s.len(),
        forall|j: int| i <= j < run_end(s, i, class) ==> class.has(#[trigger] s[j]),
        run_end(s, i, class) < s.len() ==> !class.has(s[run_end(s, i, class)]),
    decreases s.len() - i,
{
    if i < s.len() && class.has(s[i]) {
        lemma_run_end(s, i + 1, class);
    }
}

/// Any position that closes the run is `run_end`.
pub proof fn lemma_run_end_unique(s: Seq<u8>, i: int, class: ByteClass, e: int)
    requires
        0 <= i <= e <= s.len(),
        forall|j: int| i <= j < e ==> class.has(#[trigger] s[j]),
        e < s.len() ==> !class.has(s[e]),
    ensures
        run_end(s, i, class) == e,
    decreases e - i,
{
    if i < e {
        assert(class.has(s[i]));
        lemma_run_end_unique(s, i + 1, class, e);
    }
}

/// Skips the run of `class` bytes that starts at `i`.
pub fn skip_run(bytes: &[u8], i: usize, class: ByteClass) -> (j: usize)
    ensures
        j == run_end(bytes@, i as int, class),
        i <= bytes@.len() ==> i <= j <= bytes@.len(),
{
    if i > bytes.len() {
        return i;
    }
    let mut j: usize = i;
    while j < bytes.len() && class.contains(bytes[j])
        invariant
            i <= j <= bytes@.len(),
            run_end(bytes@, i as int, class) == run_end(bytes@, j as int, class),
        decreases bytes@.len() - j,
    {
        j = j + 1;
    }
    j
}

/// The words of `s` from position `i` on: the maximal runs of bytes that are
/// not whitespace, in the order in which they stand.
pub open spec fn words(s: Seq<u8>, i: int) -> Seq<Seq<u8>>
    decreases s.len() - i,
{
    if 0 <= i < s.len() {
        if spec_is_multispace(s[i]) {
            words(s, i + 1)
        } else {
            let e = run_end(s, i, ByteClass::Text);
            proof {
                lemma_run_end(s, i + 1, ByteClass::Text);
            }
            seq![s.subrange(i, e)].add(words(s, e))
        }
    } else {
        Seq::empty()
    }
}

/// A word: one byte or more, none of them whitespace.
pub open spec fn is_word(w: Seq<u8>) -> bool {
    w.len() > 0 && forall|i: int| 0 <= i < w.len() ==> !spec_is_multispace(#[trigger] w[i])
}

/// A gap: one byte or more, all of them whitespace.
pub open spec fn is_gap(g: Seq<u8>) -> bool {
    g.len() > 0 && forall|i: int| 0 <= i < g.len() ==> spec_is_multispace(#[trigger] g[i])
}

/// The text that writes the words `ws` one behind the other, each followed by
/// the gap of the same index.
pub open spec fn join(ws: Seq<Seq<u8>>, gaps: Seq<Seq<u8>>) -> Seq<u8>
    decreases ws.len(),
{
    if ws.len() == 0 {
        Seq::empty()
    } else {
        ws[0] + gaps[0] + join(ws.skip(1), gaps.skip(1))
    }
}

/// A run is found in the same place whatever stands in front of the text.
pub proof fn lemma_run_end_shift(p: Seq<u8>, t: Seq<u8>, i: int, class: ByteClass)
    requires
        0 <= i <= t.len(),
    ensures
        run_end(p + t, p.len() + i, class) == p.len() + run_end(t, i, class),
    decreases t.len() - i,
{
    if i < t.len() {
        assert((p + t)[p.len() + i] == t[i]);
        if class.has(t[i]) {
            lemma_run_end_shift(p, t, i + 1, class);
        }
    }
}

/// The words of a text do not depend on what stands in front of it.
pub proof fn lemma_words_shift(p: Seq<u8>, t: Seq<u8>, i: int)
    requires
        0 <= i <= t.len(),
    ensures
        words(p + t, p.len() + i) == words(t, i),
    decreases t.len() - i,
{
    if i < t.len() {
        assert((p + t)[p.len() + i] == t[i]);
        if spec_is_multispace(t[i]) {
            lemma_words_shift(p, t, i + 1);
        } else {
            let e = run_end(t, i, ByteClass::Text);
            lemma_run_end(t, i + 1, ByteClass::Text);
            lemma_run_end_shift(p, t, i, ByteClass::Text);
            assert((p + t).subrange(p.len() + i, p.len() + e) =~= t.subrange(i, e));
            lemma_words_shift(p, t, e);
        }
    }
}

/// Whitespace in front of the words does not change them.
pub proof fn lemma_words_skip(s: Seq<u8>, i: int, j: int)
    requires
        0 <= i <= j <= s.len(),
        forall|k: int| i <= k < j ==> spec_is_multispace(#[trigger] s[k]),
    ensures
        words(s, i) == words(s, j),
    decreases j - i,
{
    if i < j {
        assert(spec_is_multispace(s[i]));
        lemma_words_skip(s, i + 1, j);
    }
}

/// A word that is followed by a gap is the first word of the text, and the
/// other words are those of what follows the gap.
pub proof fn lemma_first_word(w: Seq<u8>, g: Seq<u8>, t: Seq<u8>)
    requires
        is_word(w),
        is_gap(g),
    ensures
        words(w + g + t, 0) == seq![w] + words(t, 0),
{
    let s = w + g + t;
    assert(s[0] == w[0]);
    assert forall|k: int| 0 <= k < w.len() implies ByteClass::Text.has(#[trigger] s[k]) by {
        assert(s[k] == w[k]);
    }
    assert(s[w.len() as int] == g[0]);
    lemma_run_end_unique(s, 0, ByteClass::Text, w.len() as int);
    assert(s.subrange(0, w.len() as int) =~= w);
    assert forall|k: int| w.len() <= k < w.len() + g.len() implies spec_is_multispace(
        #[trigger] s[k],
    ) by {
        assert(s[k] == g[k - w.len()]);
    }
    lemma_words_skip(s, w.len() as int, (w.len() + g.len()) as int);
    lemma_words_shift(w + g, t, 0);
}

/// Reading what was written gives the words back: a text that is written
/// word by word, with a gap behind each word, has these words, in this order,
/// before the words of what follows.
pub proof fn lemma_words_of_join(ws: Seq<Seq<u8>>, gaps: Seq<Seq<u8>>, tail: Seq<u8>)
    requires
        gaps.len() == ws.len(),
        forall|k: int| 0 <= k < ws.len() ==> is_word(#[trigger] ws[k]),
        forall|k: int| 0 <= k < gaps.len() ==> is_gap(#[trigger] gaps[k]),
    ensures
        words(join(ws, gaps) + tail, 0) == ws + words(tail, 0),
    decreases ws.len(),
{
    if ws.len() == 0 {
        assert(join(ws, gaps) + tail =~= tail);
        assert(ws + words(tail, 0) =~= words(tail, 0));
    } else {
        let rest = join(ws.skip(1), gaps.skip(1));
        assert(is_word(ws[0]));
        assert(is_gap(gaps[0]));
        assert forall|k: int| 0 <= k < ws.skip(1).len() implies is_word(
            #[trigger] ws.skip(1)[k],
        ) by {
            assert(ws.skip(1)[k] == ws[k + 1]);
        }
        assert forall|k: int| 0 <= k < gaps.skip(1).len() implies is_gap(
            #[trigger] gaps.skip(1)[k],
        ) by {
            assert(gaps.skip(1)[k] == gaps[k + 1]);
        }
        lemma_words_of_join(ws.skip(1), gaps.skip(1), tail);
        lemma_first_word(ws[0], gaps[0], rest + tail);
        assert(join(ws, gaps) + tail =~= ws[0] + gaps[0] + (rest + tail));
        assert(ws =~= seq![ws[0]] + ws.skip(1));
        assert(seq![ws[0]] + (ws.skip(1) + words(tail, 0)) =~= ws + words(tail, 0));
    }
}

/// Two texts that differ only in which whitespace byte stands where: they
/// are equally long, and wherever their bytes differ both are whitespace.
pub open spec fn alike(a: Seq<u8>, b: Seq<u8>) -> bool {
    &&& a.len() == b.len()
    &&& forall|i: int|
        0 <= i < a.len() ==> #[trigger] a[i] == b[i] || (spec_is_multispace(a[i])
            && spec_is_multispace(b[i]))
}

/// In two texts that are alike a word ends in the same place.
proof fn lemma_word_end_alike(a: Seq<u8>, b: Seq<u8>, i: int)
    requires
        alike(a, b),
        0 <= i <= a.len(),
    ensures
        run_end(a, i, ByteClass::Text) == run_end(b, i, ByteClass::Text),
    decreases a.len() - i,
{
    if i < a.len() {
        assert(a[i] == b[i] || (spec_is_multispace(a[i]) && spec_is_multispace(b[i])));
        if !spec_is_multispace(a[i]) {
            lemma_word_end_alike(a, b, i + 1);
        }
    }
}

/// The four whitespace bytes mean the same: two texts that are alike have the
/// same words.
pub proof fn lemma_words_alike(a: Seq<u8>, b: Seq<u8>, i: int)
    requires
        alike(a, b),
        0 <= i <= a.len(),
    ensures
        words(a, i) == words(b, i),
    decreases a.len() - i,
{
    if i < a.len() {
        assert(a[i] == b[i] || (spec_is_multispace(a[i]) && spec_is_multispace(b[i])));
        if spec_is_multispace(a[i]) {
            lemma_words_alike(a, b, i + 1);
        } else {
            let e = run_end(a, i, ByteClass::Text);
            lemma_word_end_alike(a, b, i);
            lemma_run_end(a, i, ByteClass::Text);
            lemma_run_end(a, i + 1, ByteClass::Text);
            assert forall|j: int| i <= j < e implies a[j] == b[j] by {
                assert(ByteClass::Text.has(a[j]));
            }
            assert(a.subrange(i, e) =~= b.subrange(i, e));
            lemma_words_alike(a, b, e);
        }
    }
}

/// A word at the front of a text is its first word, whole, where the text
/// ends behind it or goes on with whitespace.
pub proof fn lemma_whole_word(w: Seq<u8>, t: Seq<u8>)
    requires
        is_word(w),
        t.len() > 0 ==> spec_is_multispace(t[0]),
    ensures
        words(w + t, 0).len() >= 1,
        words(w + t, 0)[0] == w,
{
    let s = w + t;
    assert(s[0] == w[0]);
    assert forall|k: int| 0 <= k < w.len() implies ByteClass::Text.has(#[trigger] s[k]) by {
        assert(s[k] == w[k]);
    }
    if t.len() > 0 {
        assert(s[w.len() as int] == t[0]);
    }
    lemma_run_end_unique(s, 0, ByteClass::Text, w.len() as int);
    assert(s.subrange(0, w.len() as int) =~= w);
}

/// The place of a word in a text: the bytes from `start` up to `end`.
#[derive(Clone, Copy, Debug, PartialEq, Eq)]
pub struct Span {
    pub start: usize,
    pub end: usize,
}

impl Span {
    /// The bytes of `s` that the span covers.
    pub open spec fn text(self, s: Seq<u8>) -> Seq<u8> {
        s.subrange(self.start as int, self.end as int)
    }

    /// The span is not empty and lies within `s`.
    pub open spec fn within(self, s: Seq<u8>) -> bool {
        self.start < self.end <= s.len()
    }
}

/// The texts that a list of spans covers, one for each span.
pub open spec fn span_texts(s: Seq<u8>, spans: Seq<Span>) -> Seq<Seq<u8>> {
    Seq::new(spans.len(), |k: int| spans[k].text(s))
}

/// Finds the words of `bytes` from position `from` on.
pub fn split_words(bytes: &[u8], from: usize) -> (spans: Vec<Span>)
    ensures
        span_texts(bytes@, spans@) == words(bytes@, from as int),
        forall|k: int| 0 <= k < spans@.len() ==> (#[trigger] spans@[k]).within(bytes@),
{
    let mut spans: Vec<Span> = Vec::new();
    let mut pos: usize = from;
    while pos < bytes.len()
        invariant
            words(bytes@, from as int) == span_texts(bytes@, spans@).add(words(bytes@, pos as int)),
            forall|k: int| 0 <= k < spans@.len() ==> (#[trigger] spans@[k]).within(bytes@),
        decreases bytes@.len() - pos,
    {
        if is_multispace(bytes[pos]) {
            pos = pos + 1;
        } else {
            let end = skip_run(bytes, pos, ByteClass::Text);
            proof {
                lemma_run_end(bytes@, pos as int + 1, ByteClass::Text);
            }
            let span = Span { start: pos, end };
            let ghost before = spans@;
            spans.push(span);
            proof {
                let s = bytes@;
                assert(span_texts(s, spans@) =~= span_texts(s, before).push(span.text(s)));
                assert(span_texts(s, before).add(words(s, pos as int)) =~= span_texts(
                    s,
                    spans@,
                ).add(words(s, end as int)));
            }
            pos = end;
        }
    }
    assert(words(bytes@, pos as int) =~= Seq::<Seq<u8>>::empty());
    assert(span_texts(bytes@, spans@).add(Seq::<Seq<u8>>::empty()) =~= span_texts(bytes@, spans@));
    spans
}

/// Tells whether the bytes that `span` covers are exactly `word`.
pub fn span_is(bytes: &[u8], span: Span, word: &[u8]) -> (r: bool)
    requires
        span.start <= span.end <= bytes@.len(),
    ensures
        r == (span.text(bytes@) == word@),
{
    if span.end - span.start != word.len() {
        return false;
    }
    let r = span_starts_with(bytes, span, word);
    proof {
        let text = span.text(bytes@);
        assert(text.subrange(0, text.len() as int) =~= text);
    }
    r
}

/// Tells whether the bytes that `span` covers begin with `word`.
pub fn span_starts_with(bytes: &[u8], span: Span, word: &[u8]) -> (r: bool)
    requires
        span.start <= span.end <= bytes@.len(),
    ensures
        r == word@.is_prefix_of(span.text(bytes@)),
{
    let n = word.len();
    if span.end - span.start < n {
        return false;
    }
    let mut k: usize = 0;
    while k < n
        invariant
            0 <= k <= n,
            n == word@.len(),
            span.start + n <= span.end <= bytes@.len(),
            forall|j: int| 0 <= j < k ==> bytes@[span.start + j] == word@[j],
        decreases n - k,
    {
        if bytes[span.start + k] != word[k] {
            assert(span.text(bytes@).subrange(0, n as int)[k as int] != word@[k as int]);
            return false;
        }
        k = k + 1;
    }
    assert(word@ =~= span.text(bytes@).subrange(0, n as int));
    true
}

/// The views of the byte strings in `v`.
pub open spec fn texts(v: Seq<Vec<u8>>) -> Seq<Seq<u8>> {
    Seq::new(v.len(), |k: int| v[k]@)
}

/// Calls `core::str::from_utf8`, which checks that `bytes` are valid UTF-8 and
/// hands them back as a string slice. The contract says so with the
/// verifier's own definition of UTF-8: the call succeeds exactly on valid
/// input, and the characters of the result are the ones that the bytes encode.
#[verifier::external_body]
pub(crate) fn utf8_text(bytes: &[u8]) -> (r: Option<&str>)
    ensures
        r is Some == valid_utf8(bytes@),
        r matches Some(text) ==> text@ == decode_utf8(bytes@),
{
    match core::str::from_utf8(bytes) {
        Ok(text) => Some(text),
        Err(_) => None,
    }
}

} // verus!
