//! The text form of STL.
//!
//! ```text
//! solid <name>
//!   ( facet normal <x> <y> <z>
//!       outer loop
//!         vertex <x> <y> <z>
//!         vertex <x> <y> <z>
//!         vertex <x> <y> <z>
//!       endloop
//!     endfacet )+
//! endsolid
//! ```
//!
//! A text is the list of its words: the runs of bytes between whitespace.
//! Spaces, tabs, line feeds and carriage returns all separate words, in any
//! number and any mixture, and mean nothing else. The first word is `solid`,
//! the second is the name, then come the facets, twenty-one words each, and
//! then the word `endsolid`. Every keyword is a whole word, spelt as above.
//!
//! The text is read in two steps. [`parse_ascii_stl`] checks the structure and
//! collects the words that stand for numbers; once the caller has converted
//! those words, [`AsciiSolid::into_mesh`] builds the mesh. Nothing here touches
//! floating point: a converted number arrives as its bit pattern.

use vstd::prelude::*;
use vstd::utf8::{decode_utf8, valid_utf8};
use crate::error::ParseError;
use crate::geometry::{Mesh, MeshView, Point3, Triangle, point_of, result_view, triangle_of};
use vstd::slice::{slice_subrange, slice_to_vec};
use crate::lexical::{
    Span,
    is_gap,
    is_word,
    alike,
    join,
    lemma_whole_word,
    lemma_words_alike,
    lemma_words_of_join,
    span_is,
    span_texts,
    spec_is_multispace,
    split_words,
    texts,
    utf8_text,
    words,
};

verus! {

broadcast use vstd::slice::group_slice_axioms;

/// `solid`
pub const SOLID: [u8; 5] = [115, 111, 108, 105, 100];

/// `facet`
pub const FACET: [u8; 5] = [102, 97, 99, 101, 116];

/// `normal`
pub const NORMAL: [u8; 6] = [110, 111, 114, 109, 97, 108];

/// `outer`
pub const OUTER: [u8; 5] = [111, 117, 116, 101, 114];

/// `loop`
pub const LOOP: [u8; 4] = [108, 111, 111, 112];

/// `vertex`
pub const VERTEX: [u8; 6] = [118, 101, 114, 116, 101, 120];

/// `endloop`
pub const ENDLOOP: [u8; 7] = [101, 110, 100, 108, 111, 111, 112];

/// `endfacet`
pub const ENDFACET: [u8; 8] = [101, 110, 100, 102, 97, 99, 101, 116];

/// `endsolid`
pub const ENDSOLID: [u8; 8] = [101, 110, 100, 115, 111, 108, 105, 100];

/// Whether the twenty-one words of `w` from index `b` on have the keywords of
/// a facet in their places. The words between the keywords are the numbers.
pub open spec fn facet_at(w: Seq<Seq<u8>>, b: int) -> bool {
    &&& 0 <= b
    &&& b + 21 <= w.len()
    &&& w[b] == FACET@
    &&& w[b + 1] == NORMAL@
    &&& w[b + 5] == OUTER@
    &&& w[b + 6] == LOOP@
    &&& w[b + 7] == VERTEX@
    &&& w[b + 11] == VERTEX@
    &&& w[b + 15] == VERTEX@
    &&& w[b + 19] == ENDLOOP@
    &&& w[b + 20] == ENDFACET@
}

/// Where in a facet its `j`-th number stands, counted in words from the word
/// `facet`: the normal behind `facet normal`, each vertex behind its `vertex`.
pub open spec fn number_slot(j: int) -> int {
    if j < 3 {
        j + 2
    } else if j < 6 {
        j + 5
    } else if j < 9 {
        j + 6
    } else {
        j + 7
    }
}

/// How many facets stand one behind the other in `w` from index `b` on.
pub open spec fn facet_count(w: Seq<Seq<u8>>, b: int) -> nat
    decreases w.len() - b,
{
    if facet_at(w, b) {
        1 + facet_count(w, b + 21)
    } else {
        0
    }
}

/// The words that stand for numbers in the first `k` facets of `w`, twelve for
/// each facet, in the order of the text.
pub open spec fn facet_numbers(w: Seq<Seq<u8>>, k: nat) -> Seq<Seq<u8>> {
    Seq::new(12 * k, |m: int| w[21 * (m / 12) + number_slot(m % 12)])
}

/// What the structure of a text holds: the name of the solid and the words
/// that stand for numbers, twelve for each facet.
pub struct Outline {
    pub name: Seq<char>,
    pub numbers: Seq<Seq<u8>>,
}

/// The words of the text behind `solid` and the name.
pub open spec fn body_words(s: Seq<u8>) -> Seq<Seq<u8>> {
    words(s, 0).skip(2)
}

/// The number of facets of the text.
pub open spec fn facets(s: Seq<u8>) -> nat {
    facet_count(body_words(s), 0)
}

/// Whether the text follows the grammar: its first word is `solid`, its
/// second word, the name, is valid UTF-8, at least one facet follows, and the
/// word behind the last facet is `endsolid`. What follows that word is not
/// looked at.
pub open spec fn well_formed(s: Seq<u8>) -> bool {
    &&& words(s, 0).len() >= 2
    &&& words(s, 0)[0] == SOLID@
    &&& valid_utf8(words(s, 0)[1])
    &&& facets(s) >= 1
    &&& 21 * facets(s) < body_words(s).len()
    &&& body_words(s)[21 * facets(s) as int] == ENDSOLID@
}

/// The outline of a text, or the grammar error where it has none.
pub open spec fn ascii_outline(s: Seq<u8>) -> Result<Outline, ParseError> {
    if well_formed(s) {
        Ok(
            Outline {
                name: decode_utf8(words(s, 0)[1]),
                numbers: facet_numbers(body_words(s), facets(s)),
            },
        )
    } else {
        Err(ParseError::Grammar)
    }
}

/// The bit patterns in a list of values that has one everywhere.
pub open spec fn bit_patterns(values: Seq<Option<u32>>) -> Seq<u32> {
    Seq::new(values.len(), |m: int| values[m].unwrap())
}

/// Whether every number has its value.
pub open spec fn all_converted(values: Seq<Option<u32>>) -> bool {
    forall|m: int| 0 <= m < values.len() ==> (#[trigger] values[m]) is Some
}

/// The mesh that an outline and the values of its numbers make, each value
/// the bit pattern of a number or `None` where the word is no number. A
/// number without a value is an error; so is a list of values that is not as
/// long as the list of numbers.
pub open spec fn assemble(outline: Outline, values: Seq<Option<u32>>) -> Result<
    MeshView,
    ParseError,
> {
    if values.len() == outline.numbers.len() && all_converted(values) {
        Ok(
            MeshView {
                name: outline.name,
                tris: Seq::new(
                    values.len() / 12,
                    |i: int| triangle_of(bit_patterns(values), 12 * i),
                ),
            },
        )
    } else {
        Err(ParseError::NumericLiteral)
    }
}

/// A text whose structure has been checked: the name of the solid and the
/// words that stand for its numbers, still unconverted.
#[derive(Debug)]
pub struct AsciiSolid {
    name: String,
    numbers: Vec<Vec<u8>>,
}

impl View for AsciiSolid {
    type V = Outline;

    closed spec fn view(&self) -> Outline {
        Outline { name: self.name@, numbers: texts(self.numbers@) }
    }
}

impl AsciiSolid {
    /// There is at least one facet, and every facet has twelve numbers.
    #[verifier::type_invariant]
    spec fn whole_facets(self) -> bool {
        self.numbers@.len() >= 12 && self.numbers@.len() % 12 == 0
    }

    /// The name of the solid.
    pub fn name(&self) -> (r: &str)
        ensures
            r@ == self@.name,
    {
        self.name.as_str()
    }

    /// The number of facets: at least one.
    pub fn facets(&self) -> (k: usize)
        ensures
            k >= 1,
            12 * k == self@.numbers.len(),
    {
        proof {
            use_type_invariant(self);
        }
        self.numbers.len() / 12
    }

    /// The words that stand for numbers, twelve for each facet: for each facet
    /// the three coordinates of its normal, then those of its three vertices.
    pub fn numbers(&self) -> (r: &Vec<Vec<u8>>)
        ensures
            texts(r@) == self@.numbers,
    {
        &self.numbers
    }

    /// Builds the mesh from the values of the numbers: `values[m]` is the bit
    /// pattern of the number that `numbers()[m]` stands for, or `None` where
    /// that word is no number.
    pub fn into_mesh(self, values: &[Option<u32>]) -> (r: Result<Mesh, ParseError>)
        ensures
            result_view(r) == assemble(self@, values@),
    {
        proof {
            use_type_invariant(&self);
        }
        if values.len() != self.numbers.len() {
            return Err(ParseError::NumericLiteral);
        }
        let count = values.len() / 12;
        let mut tris: Vec<Triangle> = Vec::new();
        let mut i: usize = 0;
        while i < count
            invariant
                0 <= i <= count,
                count == values.len() / 12,
                forall|m: int| 0 <= m < 12 * i ==> (#[trigger] values@[m]) is Some,
                tris@ == Seq::new(i as nat, |t: int| triangle_of(bit_patterns(values@), 12 * t)),
            decreases count - i,
        {
            match triangle_from(values, 12 * i) {
                Some(tri) => {
                    tris.push(tri);
                },
                None => {
                    return Err(ParseError::NumericLiteral);
                },
            }
            i = i + 1;
            assert(tris@ =~= Seq::new(
                i as nat,
                |t: int| triangle_of(bit_patterns(values@), 12 * t),
            ));
        }
        let mesh = Mesh { name: self.name, tris };
        assert(mesh@.tris =~= assemble(self@, values@).unwrap().tris);
        Ok(mesh)
    }
}

/// The point that three values from index `at` on give, if each of them is a
/// number.
fn point_from(values: &[Option<u32>], at: usize) -> (r: Option<Point3>)
    requires
        at + 3 <= values.len(),
    ensures
        r is Some <==> (forall|m: int| at <= m < at + 3 ==> (#[trigger] values@[m]) is Some),
        r matches Some(p) ==> p == point_of(bit_patterns(values@), at as int),
{
    match (values[at], values[at + 1], values[at + 2]) {
        (Some(x), Some(y), Some(z)) => Some(Point3::new(x, y, z)),
        _ => None,
    }
}

/// The triangle that twelve values from index `at` on give, if each of them is
/// a number.
fn triangle_from(values: &[Option<u32>], at: usize) -> (r: Option<Triangle>)
    requires
        at + 12 <= values.len(),
    ensures
        r is Some <==> (forall|m: int| at <= m < at + 12 ==> (#[trigger] values@[m]) is Some),
        r matches Some(tri) ==> tri == triangle_of(bit_patterns(values@), at as int),
{
    let normal = point_from(values, at);
    let v0 = point_from(values, at + 3);
    let v1 = point_from(values, at + 6);
    let v2 = point_from(values, at + 9);
    match (v0, v1, v2, normal) {
        (Some(v0), Some(v1), Some(v2), Some(normal)) => Some(Triangle::new(v0, v1, v2, normal)),
        _ => None,
    }
}

/// Where in a facet its `j`-th number stands.
fn slot_of(j: usize) -> (slot: usize)
    requires
        j < 12,
    ensures
        slot == number_slot(j as int),
        2 <= slot < 19,
{
    if j < 3 {
        j + 2
    } else if j < 6 {
        j + 5
    } else if j < 9 {
        j + 6
    } else {
        j + 7
    }
}

/// Tells whether a facet stands at word `base`.
fn facet_here(bytes: &[u8], spans: &Vec<Span>, base: usize) -> (r: bool)
    requires
        forall|k: int| 0 <= k < spans@.len() ==> (#[trigger] spans@[k]).within(bytes@),
    ensures
        r == facet_at(span_texts(bytes@, spans@), base as int),
{
    if base > spans.len() || spans.len() - base < 21 {
        return false;
    }
    span_is(bytes, spans[base], FACET.as_slice())
        && span_is(bytes, spans[base + 1], NORMAL.as_slice())
        && span_is(bytes, spans[base + 5], OUTER.as_slice())
        && span_is(bytes, spans[base + 6], LOOP.as_slice())
        && span_is(bytes, spans[base + 7], VERTEX.as_slice())
        && span_is(bytes, spans[base + 11], VERTEX.as_slice())
        && span_is(bytes, spans[base + 15], VERTEX.as_slice())
        && span_is(bytes, spans[base + 19], ENDLOOP.as_slice())
        && span_is(bytes, spans[base + 20], ENDFACET.as_slice())
}

/// Appends the twelve numbers of the facet at word `base` to `numbers`.
fn collect_numbers(bytes: &[u8], spans: &Vec<Span>, base: usize, numbers: &mut Vec<Vec<u8>>)
    requires
        forall|k: int| 0 <= k < spans@.len() ==> (#[trigger] spans@[k]).within(bytes@),
        base + 21 <= spans.len(),
    ensures
        texts(final(numbers)@) == texts(old(numbers)@).add(
            Seq::new(12, |j: int| span_texts(bytes@, spans@)[base + number_slot(j)]),
        ),
{
    let mut j: usize = 0;
    while j < 12
        invariant
            0 <= j <= 12,
            forall|k: int| 0 <= k < spans@.len() ==> (#[trigger] spans@[k]).within(bytes@),
            base + 21 <= spans.len(),
            texts(numbers@) == texts(old(numbers)@).add(
                Seq::new(j as nat, |m: int| span_texts(bytes@, spans@)[base + number_slot(m)]),
            ),
        decreases 12 - j,
    {
        let span = spans[base + slot_of(j)];
        let word = slice_to_vec(slice_subrange(bytes, span.start, span.end));
        let ghost before = numbers@;
        numbers.push(word);
        proof {
            assert(texts(numbers@) =~= texts(before).push(word@));
            assert(texts(numbers@) =~= texts(old(numbers)@).add(
                Seq::new(
                    (j + 1) as nat,
                    |m: int| span_texts(bytes@, spans@)[base + number_slot(m)],
                ),
            ));
        }
        j = j + 1;
    }
}

/// Behind `solid` and the name, a facet stands at word `b` where it stands at
/// word `b + 2` of the whole text.
proof fn lemma_facet_behind(all: Seq<Seq<u8>>, b: int)
    requires
        all.len() >= 2,
        0 <= b,
    ensures
        facet_at(all.skip(2), b) == facet_at(all, b + 2),
{
    let w = all.skip(2);
    if b + 21 <= w.len() {
        assert(w[b] == all[b + 2]);
        assert(w[b + 1] == all[b + 3]);
        assert(w[b + 5] == all[b + 7]);
        assert(w[b + 6] == all[b + 8]);
        assert(w[b + 7] == all[b + 9]);
        assert(w[b + 11] == all[b + 13]);
        assert(w[b + 15] == all[b + 17]);
        assert(w[b + 19] == all[b + 21]);
        assert(w[b + 20] == all[b + 22]);
    }
}

/// Checks the structure of a text and collects the words that stand for its
/// numbers. The text is accepted exactly where it is well formed; every other
/// text is a grammar error.
pub fn parse_ascii_stl(bytes: &[u8]) -> (r: Result<AsciiSolid, ParseError>)
    ensures
        match ascii_outline(bytes@) {
            Ok(outline) => r is Ok && r.unwrap()@ == outline,
            Err(e) => r is Err && r.unwrap_err() == e,
        },
{
    let spans = split_words(bytes, 0);
    let ghost all = span_texts(bytes@, spans@);
    let ghost w = body_words(bytes@);
    if spans.len() < 2 || !span_is(bytes, spans[0], SOLID.as_slice()) {
        return Err(ParseError::Grammar);
    }
    let name = match utf8_text(slice_subrange(bytes, spans[1].start, spans[1].end)) {
        Some(text) => text.to_owned(),
        None => {
            return Err(ParseError::Grammar);
        },
    };
    let mut numbers: Vec<Vec<u8>> = Vec::new();
    let mut k: usize = 0;
    let mut base: usize = 2;
    assert(texts(numbers@) =~= facet_numbers(w, 0));
    while facet_here(bytes, &spans, base)
        invariant
            all == span_texts(bytes@, spans@),
            w == all.skip(2),
            forall|j: int| 0 <= j < spans@.len() ==> (#[trigger] spans@[j]).within(bytes@),
            base == 21 * k + 2,
            base <= spans.len(),
            facet_count(w, 0) == k + facet_count(w, 21 * k),
            texts(numbers@) == facet_numbers(w, k as nat),
            numbers@.len() == 12 * k,
        decreases spans.len() - base,
    {
        proof {
            lemma_facet_behind(all, 21 * k);
        }
        collect_numbers(bytes, &spans, base, &mut numbers);
        proof {
            assert forall|j: int| 0 <= j < 12 implies all[base + number_slot(j)] == w[21 * k
                + #[trigger] number_slot(j)] by {}
            assert(texts(numbers@) =~= facet_numbers(w, (k + 1) as nat));
            assert(numbers@.len() == texts(numbers@).len());
        }
        k = k + 1;
        base = base + 21;
    }
    proof {
        lemma_facet_behind(all, 21 * k);
    }
    if k == 0 || base >= spans.len() || !span_is(bytes, spans[base], ENDSOLID.as_slice()) {
        return Err(ParseError::Grammar);
    }
    assert(w[21 * k] == all[base as int]);
    Ok(AsciiSolid { name, numbers })
}

/// The twenty-one words of a facet whose numbers are the twelve words `n`.
pub open spec fn facet_words(n: Seq<Seq<u8>>) -> Seq<Seq<u8>> {
    seq![
        FACET@,
        NORMAL@,
        n[0],
        n[1],
        n[2],
        OUTER@,
        LOOP@,
        VERTEX@,
        n[3],
        n[4],
        n[5],
        VERTEX@,
        n[6],
        n[7],
        n[8],
        VERTEX@,
        n[9],
        n[10],
        n[11],
        ENDLOOP@,
        ENDFACET@,
    ]
}

/// The words of `k` facets, one facet behind the other, whose numbers are the
/// words `numbers`, twelve for each facet.
pub open spec fn solid_words(numbers: Seq<Seq<u8>>, k: nat) -> Seq<Seq<u8>> {
    Seq::new(
        21 * k,
        |m: int| facet_words(numbers.subrange(12 * (m / 21), 12 * (m / 21) + 12))[m % 21],
    )
}

/// A text as it is written: `solid`, a gap, the name, a gap, then the words
/// of `k` facets with a gap behind each word, then `endsolid` and whatever
/// follows it. `lead` is the gap behind `solid`, `gaps[0]` the gap behind the
/// name.
pub open spec fn written(
    lead: Seq<u8>,
    name: Seq<u8>,
    numbers: Seq<Seq<u8>>,
    k: nat,
    gaps: Seq<Seq<u8>>,
    tail: Seq<u8>,
) -> Seq<u8> {
    SOLID@ + lead + name + gaps[0] + join(solid_words(numbers, k), gaps.skip(1)) + ENDSOLID@ + tail
}

/// What makes the parts of a written text fit: a name that is a word of valid
/// UTF-8, at least one facet, twelve words for each facet, a gap of any
/// whitespace behind `solid`, behind the name and behind every word of a
/// facet, and nothing behind `endsolid` that would make that word longer.
pub open spec fn can_be_written(
    lead: Seq<u8>,
    name: Seq<u8>,
    numbers: Seq<Seq<u8>>,
    k: nat,
    gaps: Seq<Seq<u8>>,
    tail: Seq<u8>,
) -> bool {
    &&& is_gap(lead)
    &&& is_word(name)
    &&& valid_utf8(name)
    &&& k >= 1
    &&& numbers.len() == 12 * k
    &&& forall|m: int| 0 <= m < numbers.len() ==> is_word(#[trigger] numbers[m])
    &&& gaps.len() == 21 * k + 1
    &&& forall|m: int| 0 <= m < gaps.len() ==> is_gap(#[trigger] gaps[m])
    &&& tail.len() > 0 ==> spec_is_multispace(tail[0])
}

/// The keywords are words.
proof fn lemma_keywords()
    ensures
        is_word(SOLID@),
        is_word(FACET@),
        is_word(NORMAL@),
        is_word(OUTER@),
        is_word(LOOP@),
        is_word(VERTEX@),
        is_word(ENDLOOP@),
        is_word(ENDFACET@),
        is_word(ENDSOLID@),
{
}

/// The words of written facets: the keywords in their places, the numbers
/// between them.
proof fn lemma_solid_words(numbers: Seq<Seq<u8>>, k: nat, tail: Seq<Seq<u8>>, i: int)
    requires
        numbers.len() == 12 * k,
        0 <= i < k,
    ensures
        facet_at(solid_words(numbers, k) + tail, 21 * i),
        forall|j: int|
            0 <= j < 12 ==> (solid_words(numbers, k) + tail)[21 * i + #[trigger] number_slot(j)]
                == numbers[12 * i + j],
{
    let w = solid_words(numbers, k) + tail;
    let n = numbers.subrange(12 * i, 12 * i + 12);
    assert forall|r: int| 0 <= r < 21 implies w[21 * i + r] == #[trigger] facet_words(n)[r] by {
        let m = 21 * i + r;
        assert(m / 21 == i && m % 21 == r);
        assert(w[m] == solid_words(numbers, k)[m]);
    }
    assert(w[21 * i] == facet_words(n)[0]);
    assert(w[21 * i + 1] == facet_words(n)[1]);
    assert(w[21 * i + 5] == facet_words(n)[5]);
    assert(w[21 * i + 6] == facet_words(n)[6]);
    assert(w[21 * i + 7] == facet_words(n)[7]);
    assert(w[21 * i + 11] == facet_words(n)[11]);
    assert(w[21 * i + 15] == facet_words(n)[15]);
    assert(w[21 * i + 19] == facet_words(n)[19]);
    assert(w[21 * i + 20] == facet_words(n)[20]);
    assert forall|j: int| 0 <= j < 12 implies w[21 * i + #[trigger] number_slot(j)] == numbers[12
        * i + j] by {
        let r = number_slot(j);
        assert(w[21 * i + r] == facet_words(n)[r]);
        assert(facet_words(n)[r] == n[j]);
        assert(n[j] == numbers[12 * i + j]);
    }
}

/// Written facets are counted one by one, and the count stops at the word
/// `endsolid` behind them.
proof fn lemma_count_written(numbers: Seq<Seq<u8>>, k: nat, tail: Seq<Seq<u8>>, i: int)
    requires
        numbers.len() == 12 * k,
        0 <= i <= k,
        tail.len() >= 1,
        tail[0] == ENDSOLID@,
    ensures
        facet_count(solid_words(numbers, k) + tail, 21 * i) == k - i,
    decreases k - i,
{
    let w = solid_words(numbers, k) + tail;
    if i < k {
        lemma_solid_words(numbers, k, tail, i);
        lemma_count_written(numbers, k, tail, i + 1);
    } else {
        assert(w[21 * k as int] == tail[0]);
        assert(FACET@.len() != ENDSOLID@.len());
        assert(w[21 * k as int] != FACET@);
    }
}

/// The words of written facets are words.
proof fn lemma_solid_words_are_words(numbers: Seq<Seq<u8>>, k: nat)
    requires
        numbers.len() == 12 * k,
        forall|m: int| 0 <= m < numbers.len() ==> is_word(#[trigger] numbers[m]),
    ensures
        forall|m: int|
            0 <= m < solid_words(numbers, k).len() ==> is_word(#[trigger] solid_words(numbers, k)[m]),
{
    lemma_keywords();
    let body = solid_words(numbers, k);
    assert forall|m: int| 0 <= m < body.len() implies is_word(#[trigger] body[m]) by {
        let i = m / 21;
        let r = m % 21;
        let n = numbers.subrange(12 * i, 12 * i + 12);
        assert forall|j: int| 0 <= j < 12 implies is_word(#[trigger] n[j]) by {
            assert(n[j] == numbers[12 * i + j]);
        }
        assert(body[m] == facet_words(n)[r]);
        assert(is_word(facet_words(n)[r]));
    }
}

/// The words of a written text are `solid`, the name, the words of the
/// facets, and `endsolid`, before the words of what follows.
proof fn lemma_written_words(
    lead: Seq<u8>,
    name: Seq<u8>,
    numbers: Seq<Seq<u8>>,
    k: nat,
    gaps: Seq<Seq<u8>>,
    tail: Seq<u8>,
)
    requires
        can_be_written(lead, name, numbers, k, gaps, tail),
    ensures
        words(written(lead, name, numbers, k, gaps, tail), 0) == seq![SOLID@, name] + solid_words(
            numbers,
            k,
        ) + words(ENDSOLID@ + tail, 0),
{
    let s = written(lead, name, numbers, k, gaps, tail);
    let body = solid_words(numbers, k);
    let end = ENDSOLID@ + tail;
    let named = seq![name] + body;
    let all = seq![SOLID@, name] + body;
    let all_gaps = seq![lead] + gaps;
    assert(all.skip(1) =~= named);
    assert(all_gaps.skip(1) =~= gaps);
    assert(named.skip(1) =~= body);
    assert(join(named, gaps) == name + gaps[0] + join(body, gaps.skip(1)));
    assert(join(all, all_gaps) == SOLID@ + lead + join(named, gaps));
    assert(s =~= join(all, all_gaps) + end);
    lemma_keywords();
    lemma_solid_words_are_words(numbers, k);
    assert forall|m: int| 0 <= m < all.len() implies is_word(#[trigger] all[m]) by {
        if m >= 2 {
            assert(all[m] == body[m - 2]);
        }
    }
    assert forall|m: int| 0 <= m < all_gaps.len() implies is_gap(#[trigger] all_gaps[m]) by {
        if m >= 1 {
            assert(all_gaps[m] == gaps[m - 1]);
        }
    }
    lemma_words_of_join(all, all_gaps, end);
}

/// Every text that is written by the grammar is read back as it was written:
/// whatever whitespace stands between its words, and whatever numbers were
/// chosen, reading it gives the name, as many facets as were written, and the
/// numbers of each facet in their order.
pub proof fn lemma_written_is_read(
    lead: Seq<u8>,
    name: Seq<u8>,
    numbers: Seq<Seq<u8>>,
    k: nat,
    gaps: Seq<Seq<u8>>,
    tail: Seq<u8>,
)
    requires
        can_be_written(lead, name, numbers, k, gaps, tail),
    ensures
        well_formed(written(lead, name, numbers, k, gaps, tail)),
        facets(written(lead, name, numbers, k, gaps, tail)) == k,
        ascii_outline(written(lead, name, numbers, k, gaps, tail)) == Ok::<Outline, ParseError>(
            Outline { name: decode_utf8(name), numbers },
        ),
{
    let s = written(lead, name, numbers, k, gaps, tail);
    let tail_words = words(ENDSOLID@ + tail, 0);
    let w = solid_words(numbers, k) + tail_words;
    lemma_written_words(lead, name, numbers, k, gaps, tail);
    lemma_keywords();
    lemma_whole_word(ENDSOLID@, tail);
    assert(words(s, 0)[0] == SOLID@);
    assert(words(s, 0)[1] == name);
    assert(body_words(s) =~= w);
    lemma_count_written(numbers, k, tail_words, 0);
    assert(facets(s) == k);
    assert(w[21 * k as int] == tail_words[0]);
    assert(facet_numbers(w, k) =~= numbers) by {
        assert forall|m: int| 0 <= m < 12 * k implies facet_numbers(w, k)[m] == numbers[m] by {
            let i = m / 12;
            let j = m % 12;
            lemma_solid_words(numbers, k, tail_words, i);
            assert(w[21 * i + number_slot(j)] == numbers[12 * i + j]);
        }
    }
}

/// Reading does not tell one whitespace byte from another: two texts that
/// differ only in which whitespace byte stands where, a line feed for a space
/// or a tab for a carriage return, have the same outline or are both
/// rejected.
pub proof fn lemma_whitespace_is_alike(a: Seq<u8>, b: Seq<u8>)
    requires
        alike(a, b),
    ensures
        ascii_outline(a) == ascii_outline(b),
{
    lemma_words_alike(a, b, 0);
}

/// Every keyword is a whole word: a well-formed text has `solid` as its first
/// word, the keywords of facet `i` as words in their places, and `endsolid`
/// as the word behind its last facet, none of them with a byte more.
pub proof fn lemma_keywords_are_whole(s: Seq<u8>, i: int)
    requires
        well_formed(s),
        0 <= i < facets(s),
    ensures
        words(s, 0)[0] == SOLID@,
        facet_at(words(s, 0), 2 + 21 * i),
        words(s, 0)[2 + 21 * facets(s) as int] == ENDSOLID@,
{
    let all = words(s, 0);
    assert(body_words(s)[21 * facets(s) as int] == all[2 + 21 * facets(s) as int]);
    lemma_counted_facets(body_words(s), 0, i);
    lemma_facet_behind(all, 21 * i);
}

/// Each of the facets that are counted from word `b` on is a facet.
proof fn lemma_counted_facets(w: Seq<Seq<u8>>, b: int, i: int)
    requires
        0 <= i < facet_count(w, b),
    ensures
        facet_at(w, b + 21 * i),
    decreases i,
{
    if i > 0 {
        lemma_counted_facets(w, b + 21, i - 1);
    }
}

/// A well-formed text with `k` facets, all of whose numbers are converted,
/// gives exactly `k` triangles, facet by facet in the order of the text: the
/// `i`-th triangle is made of the twelve values of the `i`-th facet.
pub proof fn lemma_ascii_triangles(s: Seq<u8>, values: Seq<Option<u32>>)
    requires
        well_formed(s),
        values.len() == 12 * facets(s),
        all_converted(values),
    ensures
        facets(s) >= 1,
        ascii_outline(s) is Ok,
        assemble(ascii_outline(s).unwrap(), values) is Ok,
        assemble(ascii_outline(s).unwrap(), values).unwrap().tris.len() == facets(s),
        forall|i: int|
            0 <= i < facets(s) ==> #[trigger] assemble(
                ascii_outline(s).unwrap(),
                values,
            ).unwrap().tris[i] == triangle_of(bit_patterns(values), 12 * i),
{
}

/// The numbers of a well-formed text are the words of its facets: number `j`
/// of facet `i` is the word that stands at its place in that facet.
pub proof fn lemma_ascii_numbers(s: Seq<u8>, i: int, j: int)
    requires
        well_formed(s),
        0 <= i < facets(s),
        0 <= j < 12,
    ensures
        ascii_outline(s).unwrap().numbers.len() == 12 * facets(s),
        ascii_outline(s).unwrap().numbers[12 * i + j] == body_words(s)[21 * i + number_slot(j)],
{
}

/// A text without a facet is a grammar error, never an empty mesh.
pub proof fn lemma_ascii_no_facet(s: Seq<u8>)
    requires
        facets(s) == 0,
    ensures
        ascii_outline(s) == Err::<Outline, ParseError>(ParseError::Grammar),
{
}

/// A number that is no number fails the whole text.
pub proof fn lemma_ascii_bad_number(outline: Outline, values: Seq<Option<u32>>, m: int)
    requires
        0 <= m < values.len(),
        values[m] is None,
    ensures
        assemble(outline, values) == Err::<MeshView, ParseError>(ParseError::NumericLiteral),
{
}

} // verus!
