//! The binary form of STL.
//!
//! Eighty bytes of header that nobody reads, a little-endian 32-bit count of
//! triangles, then one record of fifty bytes for each triangle: twelve
//! little-endian 32-bit words (the normal, then the three vertices, three
//! coordinates each) and two attribute bytes that are skipped.

use vstd::prelude::*;
use vstd::slice::slice_subrange;
use crate::error::ParseError;
use crate::geometry::{Mesh, MeshView, Point3, Triangle, result_view, triangle_of};

verus! {

broadcast use vstd::slice::group_slice_axioms;

/// The length of the header.
pub const HEADER_LEN: usize = 80;

/// Where the records start: behind the header and the count.
pub const RECORDS_START: usize = 84;

/// The length of the record of one triangle.
pub const RECORD_LEN: usize = 50;

/// The number that four bytes spell in little-endian order.
pub open spec fn le_word(b: Seq<u8>) -> u32 {
    (b[0] as int + 256 * (b[1] as int) + 65536 * (b[2] as int) + 16777216 * (b[3] as int)) as u32
}

/// The little-endian word that starts at byte `at` of `s`.
pub open spec fn word_at(s: Seq<u8>, at: int) -> u32 {
    le_word(s.subrange(at, at + 4))
}

/// The number of triangles that the buffer announces.
pub open spec fn declared_triangles(s: Seq<u8>) -> nat {
    word_at(s, 80) as nat
}

/// The twelve words of record `i`.
pub open spec fn record_words(s: Seq<u8>, i: int) -> Seq<u32> {
    Seq::new(12, |j: int| word_at(s, 84 + 50 * i + 4 * j))
}

/// Whether the buffer holds the count and every record that the count
/// announces. What follows the last record is not looked at.
pub open spec fn complete(s: Seq<u8>) -> bool {
    s.len() >= 84 && s.len() >= 84 + 50 * declared_triangles(s)
}

/// The mesh that a binary buffer holds, or the error where the buffer is too
/// short. The name is always `binary`; a count of zero gives an empty mesh.
pub open spec fn binary_mesh(s: Seq<u8>) -> Result<MeshView, ParseError> {
    if complete(s) {
        Ok(
            MeshView {
                name: "binary"@,
                tris: Seq::new(declared_triangles(s), |i: int| triangle_of(record_words(s, i), 0)),
            },
        )
    } else {
        Err(ParseError::TruncatedBinary)
    }
}

/// Calls `nom::le_u32`, which reads an unsigned 32-bit integer from the front
/// of `input`, least significant byte first. With fewer than four bytes it
/// asks for more input, which is `None` here; it never reports an error of
/// its own.
#[verifier::external_body]
fn le_u32(input: &[u8]) -> (r: Option<u32>)
    ensures
        r == if input@.len() >= 4 {
            Some(le_word(input@))
        } else {
            None::<u32>
        },
{
    match nom::le_u32(input) {
        nom::IResult::Done(_, word) => Some(word),
        nom::IResult::Error(_) => None,
        nom::IResult::Incomplete(_) => None,
    }
}

/// Reads the word at byte `at`.
fn read_word(bytes: &[u8], at: usize) -> (r: Option<u32>)
    ensures
        r == if at + 4 <= bytes@.len() {
            Some(word_at(bytes@, at as int))
        } else {
            None::<u32>
        },
{
    if at > bytes.len() || bytes.len() - at < 4 {
        return None;
    }
    le_u32(slice_subrange(bytes, at, at + 4))
}

/// Reads the three words of a point at byte `at`.
fn read_point(bytes: &[u8], at: usize) -> (r: Option<Point3>)
    ensures
        r == if at + 12 <= bytes@.len() {
            Some(
                Point3 {
                    x: word_at(bytes@, at as int),
                    y: word_at(bytes@, at + 4),
                    z: word_at(bytes@, at + 8),
                },
            )
        } else {
            None::<Point3>
        },
{
    if at > bytes.len() || bytes.len() - at < 12 {
        return None;
    }
    match (read_word(bytes, at), read_word(bytes, at + 4), read_word(bytes, at + 8)) {
        (Some(x), Some(y), Some(z)) => Some(Point3::new(x, y, z)),
        _ => None,
    }
}

/// Reads the record of a triangle at byte `at`: the normal, then the three
/// vertices. The two attribute bytes at its end are counted and not read.
fn read_record(bytes: &[u8], at: usize) -> (r: Option<Triangle>)
    ensures
        r == if at + 50 <= bytes@.len() {
            Some(triangle_of(Seq::new(12, |j: int| word_at(bytes@, at + 4 * j)), 0))
        } else {
            None::<Triangle>
        },
{
    if at > bytes.len() || bytes.len() - at < 50 {
        return None;
    }
    let normal = read_point(bytes, at);
    let v0 = read_point(bytes, at + 12);
    let v1 = read_point(bytes, at + 24);
    let v2 = read_point(bytes, at + 36);
    match (v0, v1, v2, normal) {
        (Some(v0), Some(v1), Some(v2), Some(normal)) => Some(Triangle::new(v0, v1, v2, normal)),
        _ => None,
    }
}

/// Decodes a binary buffer. It succeeds exactly where the buffer is complete;
/// a shorter one is a truncation error, whatever it holds.
pub fn parse_binary_stl(bytes: &[u8]) -> (r: Result<Mesh, ParseError>)
    ensures
        result_view(r) == binary_mesh(bytes@),
{
    let count = match read_word(bytes, HEADER_LEN) {
        Some(count) => count as usize,
        None => {
            return Err(ParseError::TruncatedBinary);
        },
    };
    if count > (bytes.len() - RECORDS_START) / RECORD_LEN {
        return Err(ParseError::TruncatedBinary);
    }
    let mut tris: Vec<Triangle> = Vec::new();
    let mut i: usize = 0;
    while i < count
        invariant
            0 <= i <= count,
            count == declared_triangles(bytes@),
            84 + 50 * count <= bytes.len(),
            tris@ == Seq::new(i as nat, |t: int| triangle_of(record_words(bytes@, t), 0)),
        decreases count - i,
    {
        match read_record(bytes, RECORDS_START + RECORD_LEN * i) {
            Some(tri) => {
                assert(record_words(bytes@, i as int) =~= Seq::new(
                    12,
                    |j: int| word_at(bytes@, 84 + 50 * i + 4 * j),
                ));
                tris.push(tri);
            },
            None => {
                return Err(ParseError::TruncatedBinary);
            },
        }
        i = i + 1;
        assert(tris@ =~= Seq::new(i as nat, |t: int| triangle_of(record_words(bytes@, t), 0)));
    }
    let mesh = Mesh { name: "binary".to_owned(), tris };
    assert(mesh@.tris =~= binary_mesh(bytes@).unwrap().tris);
    Ok(mesh)
}

/// A complete buffer gives as many triangles as it announces, record by
/// record in the order of the buffer. A count of zero is complete with
/// eighty-four bytes and gives a mesh without triangles.
pub proof fn lemma_binary_triangles(s: Seq<u8>)
    requires
        complete(s),
    ensures
        binary_mesh(s) is Ok,
        binary_mesh(s).unwrap().tris.len() == declared_triangles(s),
        forall|i: int|
            0 <= i < declared_triangles(s) ==> #[trigger] binary_mesh(s).unwrap().tris[i]
                == triangle_of(record_words(s, i), 0),
{
}

/// A buffer that is shorter than its count asks for is an error, never a
/// shorter mesh.
pub proof fn lemma_binary_truncated(s: Seq<u8>)
    requires
        s.len() < 84 + 50 * declared_triangles(s),
    ensures
        binary_mesh(s) == Err::<MeshView, ParseError>(ParseError::TruncatedBinary),
{
}

} // verus!
