//! The entry point: find the form of a buffer, then decode it as that form
//! and as no other.

use vstd::prelude::*;
use crate::ascii::{AsciiSolid, Outline, ascii_outline, assemble, parse_ascii_stl};
use crate::binary::{binary_mesh, parse_binary_stl};
use crate::error::ParseError;
use crate::geometry::{Mesh, MeshView, result_view};
use crate::lexical::texts;
use crate::sniff::{Format, format_of, sniff};

verus! {

/// What decoding a buffer gives. A binary buffer gives its mesh at once. A
/// text gives its checked structure: its numbers are still words, and
/// [`AsciiSolid::into_mesh`] makes the mesh once they are converted.
#[derive(Debug)]
pub enum Loaded {
    Mesh(Mesh),
    Ascii(AsciiSolid),
}

/// What a [`Loaded`] holds.
pub enum LoadedView {
    Mesh(MeshView),
    Ascii(Outline),
}

impl View for Loaded {
    type V = LoadedView;

    open spec fn view(&self) -> LoadedView {
        match self {
            Loaded::Mesh(mesh) => LoadedView::Mesh(mesh@),
            Loaded::Ascii(solid) => LoadedView::Ascii(solid@),
        }
    }
}

/// What a buffer decodes to: the error of a buffer without a form, else what
/// the decoder of its form makes of it.
pub open spec fn loaded(s: Seq<u8>) -> Result<LoadedView, ParseError> {
    match format_of(s) {
        Err(e) => Err(e),
        Ok(Format::Binary) => match binary_mesh(s) {
            Ok(mesh) => Ok(LoadedView::Mesh(mesh)),
            Err(e) => Err(e),
        },
        Ok(Format::Ascii) => match ascii_outline(s) {
            Ok(outline) => Ok(LoadedView::Ascii(outline)),
            Err(e) => Err(e),
        },
    }
}

/// The view of what a result holds; an error stays as it is.
pub open spec fn loaded_view(r: Result<Loaded, ParseError>) -> Result<LoadedView, ParseError> {
    match r {
        Ok(l) => Ok(l@),
        Err(e) => Err(e),
    }
}

/// Decodes a buffer.
pub fn load_mesh(bytes: &[u8]) -> (r: Result<Loaded, ParseError>)
    ensures
        loaded_view(r) == loaded(bytes@),
{
    match sniff(bytes) {
        Err(e) => Err(e),
        Ok(Format::Binary) => match parse_binary_stl(bytes) {
            Ok(mesh) => Ok(Loaded::Mesh(mesh)),
            Err(e) => Err(e),
        },
        Ok(Format::Ascii) => match parse_ascii_stl(bytes) {
            Ok(solid) => Ok(Loaded::Ascii(solid)),
            Err(e) => Err(e),
        },
    }
}

/// Whether `value` is what `convert` may hand back for the word `word`.
pub open spec fn made_by<F: Fn(&[u8]) -> Option<u32>>(
    convert: F,
    word: Seq<u8>,
    value: Option<u32>,
) -> bool {
    exists|w: &[u8]| w@ == word && #[trigger] call_ensures(convert, (w,), value)
}

/// Whether `values` are what `convert` made of the words `numbers`, one value
/// for each word and in their order.
pub open spec fn converted_by<F: Fn(&[u8]) -> Option<u32>>(
    convert: F,
    numbers: Seq<Seq<u8>>,
    values: Seq<Option<u32>>,
) -> bool {
    &&& values.len() == numbers.len()
    &&& forall|m: int| 0 <= m < numbers.len() ==> made_by(convert, numbers[m], #[trigger] values[m])
}

/// Whether `r` is what a buffer decodes to where `convert` reads the numbers
/// of a text: the error of the buffer, the mesh of a binary buffer, or what
/// the outline of a text gives together with values that `convert` made of
/// its numbers.
pub open spec fn loaded_with<F: Fn(&[u8]) -> Option<u32>>(
    convert: F,
    s: Seq<u8>,
    r: Result<MeshView, ParseError>,
) -> bool {
    match loaded(s) {
        Err(e) => r == Err::<MeshView, ParseError>(e),
        Ok(LoadedView::Mesh(mesh)) => r == Ok::<MeshView, ParseError>(mesh),
        Ok(LoadedView::Ascii(outline)) => exists|values: Seq<Option<u32>>|
            converted_by(convert, outline.numbers, values) && r == #[trigger] assemble(
                outline,
                values,
            ),
    }
}

/// Decodes a buffer into a mesh, with `convert` to read the numbers of a
/// text: it is called once for each of them, in the order of the text, with
/// the word that stands for the number, and hands back the bit pattern of the
/// number or `None` where the word is no number. A binary buffer needs no
/// conversion.
pub fn load_mesh_with<F: Fn(&[u8]) -> Option<u32>>(bytes: &[u8], convert: F) -> (r: Result<
    Mesh,
    ParseError,
>)
    requires
        forall|word: &[u8]| call_requires(convert, (word,)),
    ensures
        loaded_with(convert, bytes@, result_view(r)),
{
    match load_mesh(bytes) {
        Err(e) => Err(e),
        Ok(Loaded::Mesh(mesh)) => Ok(mesh),
        Ok(Loaded::Ascii(solid)) => {
            let numbers = solid.numbers();
            let mut values: Vec<Option<u32>> = Vec::new();
            let mut m: usize = 0;
            while m < numbers.len()
                invariant
                    0 <= m <= numbers@.len(),
                    values@.len() == m,
                    forall|word: &[u8]| call_requires(convert, (word,)),
                    forall|j: int|
                        0 <= j < m ==> made_by(convert, texts(numbers@)[j], #[trigger] values@[j]),
                decreases numbers@.len() - m,
            {
                let word = numbers[m].as_slice();
                let value = convert(word);
                assert(made_by(convert, texts(numbers@)[m as int], value));
                values.push(value);
                m = m + 1;
            }
            assert(converted_by(convert, solid@.numbers, values@));
            let r = solid.into_mesh(values.as_slice());
            assert(result_view(r) == assemble(solid@, values@));
            r
        },
    }
}

/// Decoding is a function of the bytes: two results for one buffer hold the
/// same name and the same triangles, field by field, or the same error.
pub proof fn lemma_load_deterministic(
    s: Seq<u8>,
    first: Result<Loaded, ParseError>,
    second: Result<Loaded, ParseError>,
)
    requires
        loaded_view(first) == loaded(s),
        loaded_view(second) == loaded(s),
    ensures
        loaded_view(first) == loaded_view(second),
        first is Err ==> second == first,
{
}

/// Whether `convert` is a function of the bytes of its word: it has one answer
/// for each word, wherever the word is stored.
pub open spec fn single_valued<F: Fn(&[u8]) -> Option<u32>>(convert: F) -> bool {
    forall|w1: &[u8], w2: &[u8], v1: Option<u32>, v2: Option<u32>|
        w1@ == w2@ && #[trigger] call_ensures(convert, (w1,), v1) && #[trigger] call_ensures(
            convert,
            (w2,),
            v2,
        ) ==> v1 == v2
}

/// With a conversion that has one answer for each word, decoding a buffer
/// twice gives the same mesh, triangle by triangle and field by field, or the
/// same error.
pub proof fn lemma_load_with_deterministic<F: Fn(&[u8]) -> Option<u32>>(
    convert: F,
    s: Seq<u8>,
    first: Result<MeshView, ParseError>,
    second: Result<MeshView, ParseError>,
)
    requires
        single_valued(convert),
        loaded_with(convert, s, first),
        loaded_with(convert, s, second),
    ensures
        first == second,
{
    if let Ok(LoadedView::Ascii(outline)) = loaded(s) {
        let v1 = choose|values: Seq<Option<u32>>|
            converted_by(convert, outline.numbers, values) && first == #[trigger] assemble(
                outline,
                values,
            );
        let v2 = choose|values: Seq<Option<u32>>|
            converted_by(convert, outline.numbers, values) && second == #[trigger] assemble(
                outline,
                values,
            );
        assert forall|m: int| 0 <= m < v1.len() implies v1[m] == v2[m] by {
            assert(made_by(convert, outline.numbers[m], v1[m]));
            assert(made_by(convert, outline.numbers[m], v2[m]));
        }
        assert(v1 =~= v2);
    }
}

/// A buffer is decoded as the form that its first bytes show and as no other:
/// a text never fails as a binary buffer does, nor a binary buffer as a text.
pub proof fn lemma_one_path(s: Seq<u8>)
    ensures
        format_of(s) is Err ==> loaded(s) == Err::<LoadedView, ParseError>(
            ParseError::MalformedHeader,
        ),
        format_of(s) == Ok::<Format, ParseError>(Format::Binary) ==> !(loaded(s) matches Ok(
            LoadedView::Ascii(_),
        )) && loaded(s) != Err::<LoadedView, ParseError>(ParseError::Grammar),
        format_of(s) == Ok::<Format, ParseError>(Format::Ascii) ==> !(loaded(s) matches Ok(
            LoadedView::Mesh(_),
        )) && loaded(s) != Err::<LoadedView, ParseError>(ParseError::TruncatedBinary),
{
}

} // verus!
