use stl_mesh::ascii::{parse_ascii_stl, AsciiSolid};
use stl_mesh::binary::parse_binary_stl;
use stl_mesh::error::ParseError;
use stl_mesh::geometry::{Mesh, Point3, Triangle};
use stl_mesh::load::{load_mesh, load_mesh_with, Loaded};
use stl_mesh::radius::bounding_radius;
use stl_mesh::sniff::{sniff, Format};

fn convert(word: &[u8]) -> Option<u32> {
    std::str::from_utf8(word).ok()?.parse::<f32>().ok().map(f32::to_bits)
}

fn finish(solid: AsciiSolid) -> Result<Mesh, ParseError> {
    let values: Vec<Option<u32>> = solid.numbers().iter().map(|w| convert(w)).collect();
    solid.into_mesh(&values)
}

fn load(bytes: &[u8]) -> Result<Mesh, ParseError> {
    load_mesh_with(bytes, convert)
}

fn load_in_steps(bytes: &[u8]) -> Result<Mesh, ParseError> {
    match load_mesh(bytes)? {
        Loaded::Mesh(mesh) => Ok(mesh),
        Loaded::Ascii(solid) => finish(solid),
    }
}

fn radius(mesh: &Mesh) -> f32 {
    let origin = nalgebra::Point3::<f32>::origin();
    let mut distances = Vec::new();
    for tri in mesh.tris.iter() {
        for v in tri.verts.iter() {
            let p = nalgebra::Point3::new(
                f32::from_bits(v.x),
                f32::from_bits(v.y),
                f32::from_bits(v.z),
            );
            distances.push(nalgebra::distance(&p, &origin).to_bits());
        }
    }
    f32::from_bits(bounding_radius(&distances))
}

fn point(x: f32, y: f32, z: f32) -> Point3 {
    Point3::new(x.to_bits(), y.to_bits(), z.to_bits())
}

fn binary(count: u32, records: &[[f32; 12]]) -> Vec<u8> {
    let mut bytes = vec![0u8; 80];
    bytes.extend_from_slice(&count.to_le_bytes());
    for record in records {
        for f in record {
            bytes.extend_from_slice(&f.to_le_bytes());
        }
        bytes.extend_from_slice(&[0, 0]);
    }
    bytes
}

const ONE_FACET: &str = "solid t\nfacet normal 0 0 1\nouter loop\nvertex 0 0 0\nvertex 2 0 0\nvertex 0 2 0\nendloop\nendfacet\nendsolid";

#[test]
fn binary_one_triangle() {
    let bytes = binary(
        1,
        &[[0.0, 0.0, 1.0, 0.0, 0.0, 0.0, 1.0, 0.0, 0.0, 0.0, 1.0, 0.0]],
    );
    assert_eq!(bytes.len(), 134);
    let mesh = load(&bytes).unwrap();
    assert_eq!(mesh.name, "binary");
    assert_eq!(mesh.tris.len(), 1);
    assert_eq!(mesh.tris[0].verts[0], point(0.0, 0.0, 0.0));
    assert_eq!(mesh.tris[0].verts[1], point(1.0, 0.0, 0.0));
    assert_eq!(mesh.tris[0].verts[2], point(0.0, 1.0, 0.0));
    assert_eq!(mesh.tris[0].normal, point(0.0, 0.0, 1.0));
    assert_eq!(radius(&mesh), 1.0);
}

#[test]
fn ascii_one_facet() {
    let mesh = load(ONE_FACET.as_bytes()).unwrap();
    assert_eq!(mesh.name, "t");
    assert_eq!(mesh.tris.len(), 1);
    assert_eq!(mesh.tris[0].normal, point(0.0, 0.0, 1.0));
    assert_eq!(mesh.tris[0].verts[0], point(0.0, 0.0, 0.0));
    assert_eq!(mesh.tris[0].verts[1], point(2.0, 0.0, 0.0));
    assert_eq!(mesh.tris[0].verts[2], point(0.0, 2.0, 0.0));
    assert_eq!(radius(&mesh), 2.0);
}

#[test]
fn ascii_facets_keep_their_order() {
    let text = "solid two\n\
        facet normal 0 0 1\n outer loop\n  vertex 1 2 3\n  vertex 4 5 6\n  vertex 7 8 9\n endloop\nendfacet\n\
        facet normal 1 0 0\n outer loop\n  vertex -1 -2 -3\n  vertex 1e1 .5 5.\n  vertex 0.25 -0 inf\n endloop\nendfacet\n\
        endsolid two\n";
    let solid = parse_ascii_stl(text.as_bytes()).unwrap();
    assert_eq!(solid.name(), "two");
    assert_eq!(solid.facets(), 2);
    assert_eq!(solid.numbers().len(), 24);
    assert_eq!(solid.numbers()[0], b"0".to_vec());
    assert_eq!(solid.numbers()[2], b"1".to_vec());
    assert_eq!(solid.numbers()[3], b"1".to_vec());
    assert_eq!(solid.numbers()[11], b"9".to_vec());
    assert_eq!(solid.numbers()[12], b"1".to_vec());
    assert_eq!(solid.numbers()[18], b"1e1".to_vec());
    assert_eq!(solid.numbers()[23], b"inf".to_vec());
    let mesh = finish(solid).unwrap();
    assert_eq!(mesh.tris.len(), 2);
    assert_eq!(
        mesh.tris[0],
        Triangle::new(
            point(1.0, 2.0, 3.0),
            point(4.0, 5.0, 6.0),
            point(7.0, 8.0, 9.0),
            point(0.0, 0.0, 1.0)
        )
    );
    assert_eq!(
        mesh.tris[1],
        Triangle::new(
            point(-1.0, -2.0, -3.0),
            point(10.0, 0.5, 5.0),
            point(0.25, -0.0, f32::INFINITY),
            point(1.0, 0.0, 0.0)
        )
    );
}

#[test]
fn ascii_whitespace_runs_collapse() {
    let text = "solid \t w \r\n\r\n facet\tnormal\n0\r\n0 \t 1 outer\n\nloop vertex 0 0 0 vertex\n2\n0\n0 vertex 0 2 0 endloop endfacet\tendsolid";
    let mesh = load(text.as_bytes()).unwrap();
    assert_eq!(mesh.name, "w");
    assert_eq!(mesh.tris.len(), 1);
    assert_eq!(mesh.tris[0].verts[1], point(2.0, 0.0, 0.0));
}

#[test]
fn ascii_any_whitespace_may_stand_before_the_name() {
    for gap in ["\n", "\r\n", "\t", "  ", " \n\t\r "] {
        let text = ONE_FACET.replacen("solid t", &format!("solid{}t", gap), 1);
        let mesh = load(text.as_bytes()).unwrap();
        assert_eq!(mesh.name, "t", "{:?}", gap);
        assert_eq!(mesh.tris.len(), 1);
        assert_eq!(mesh.tris[0].verts[1], point(2.0, 0.0, 0.0));
    }
}

#[test]
fn ascii_name_is_the_second_word() {
    let text = ONE_FACET.replacen("solid t", "solid facet", 1);
    assert_eq!(load(text.as_bytes()).unwrap().name, "facet");
    let text = ONE_FACET.replacen("solid t", "solid endsolid", 1);
    assert_eq!(load(text.as_bytes()).unwrap().name, "endsolid");
}

#[test]
fn ascii_without_a_name_is_a_grammar_error() {
    for head in ["solid", "solid ", "solid\n", "solid  \n"] {
        let text = ONE_FACET.replacen("solid t\n", &format!("{}\n", head), 1);
        assert_ne!(text, ONE_FACET);
        assert_eq!(
            load(text.as_bytes()).unwrap_err(),
            ParseError::Grammar,
            "{:?}",
            head
        );
    }
}

#[test]
fn ascii_solid_is_a_whole_word() {
    let text = ONE_FACET.replacen("solid t", "solidcube", 1);
    assert_eq!(sniff(text.as_bytes()), Ok(Format::Ascii));
    assert_eq!(load(text.as_bytes()).unwrap_err(), ParseError::Grammar);
    let text = ONE_FACET.replacen("solid t", "solidcube t", 1);
    assert_eq!(load(text.as_bytes()).unwrap_err(), ParseError::Grammar);
    assert_eq!(
        parse_ascii_stl(text.as_bytes()).unwrap_err(),
        ParseError::Grammar
    );
}

#[test]
fn ascii_endsolid_is_a_whole_word() {
    for last in ["endsolidxyz", "endsolid_t", "endsoli", "Endsolid", "endsolid\x00"] {
        let text = ONE_FACET.replacen("endsolid", last, 1);
        assert_eq!(
            load(text.as_bytes()).unwrap_err(),
            ParseError::Grammar,
            "{:?}",
            last
        );
    }
    for last in ["endsolid", "endsolid\n", "endsolid t", "endsolid\tt\n"] {
        let text = ONE_FACET.replacen("endsolid", last, 1);
        assert_eq!(load(text.as_bytes()).unwrap().tris.len(), 1, "{:?}", last);
    }
}

#[test]
fn whitespace_before_solid_makes_a_buffer_binary() {
    let text = format!("\n {}", ONE_FACET);
    assert_eq!(sniff(text.as_bytes()), Ok(Format::Binary));
    assert_eq!(
        load(text.as_bytes()).unwrap_err(),
        ParseError::TruncatedBinary
    );
    let solid = parse_ascii_stl(text.as_bytes()).unwrap();
    assert_eq!(solid.name(), "t");
    assert_eq!(solid.facets(), 1);
}

#[test]
fn ascii_name_is_decoded_as_utf8() {
    let mut bytes = b"solid ".to_vec();
    bytes.extend_from_slice("st\u{fc}ck\u{2713}".as_bytes());
    bytes.extend_from_slice(&ONE_FACET.as_bytes()[7..]);
    let mesh = load(&bytes).unwrap();
    assert_eq!(mesh.name, "st\u{fc}ck\u{2713}");
    assert_eq!(mesh.name.chars().count(), 6);
    assert_ne!(mesh.name.as_bytes().len(), mesh.name.chars().count());
}

#[test]
fn ascii_name_that_is_not_text_is_a_grammar_error() {
    let mut bytes = b"solid ".to_vec();
    bytes.extend_from_slice(&[0xff, 0xfe]);
    bytes.extend_from_slice(&ONE_FACET.as_bytes()[7..]);
    assert_eq!(load(&bytes).unwrap_err(), ParseError::Grammar);
}

#[test]
fn ascii_text_behind_endsolid_is_not_read() {
    let text = format!("{} t\n\x00\x01 anything", ONE_FACET);
    let mesh = load(text.as_bytes()).unwrap();
    assert_eq!(mesh.tris.len(), 1);
    let text = format!("{}\nfacet normal x\nsolid", ONE_FACET);
    assert_eq!(load(text.as_bytes()).unwrap().tris.len(), 1);
}

#[test]
fn ascii_without_facets_is_a_grammar_error() {
    assert_eq!(load(b"solid X\nendsolid").unwrap_err(), ParseError::Grammar);
    assert_eq!(
        parse_ascii_stl(b"solid X\nendsolid").unwrap_err(),
        ParseError::Grammar
    );
}

#[test]
fn ascii_keyword_faults_are_grammar_errors() {
    let good = ONE_FACET;
    for (from, to) in [
        ("facet normal", "facet normals"),
        ("facet normal", "face normal"),
        ("outer loop", "outer"),
        ("outer loop", "loop outer"),
        ("vertex 2 0 0", "vertex 2 0"),
        ("vertex 2 0 0", "vertex 2 0 0 0"),
        ("vertex 2 0 0", "Vertex 2 0 0"),
        ("endloop", "end loop"),
        ("endfacet", "endfacets"),
        ("endsolid", "ndsolid"),
        ("endsolid", ""),
        ("\nendsolid", "endsolid"),
    ] {
        let text = good.replacen(from, to, 1);
        assert_ne!(text, good);
        assert_eq!(
            load(text.as_bytes()).unwrap_err(),
            ParseError::Grammar,
            "{:?} for {:?}",
            to,
            from
        );
    }
    let twice = good.replacen("endsolid", &good[8..], 1);
    assert_eq!(load(twice.as_bytes()).unwrap().tris.len(), 2);
    let half = &twice[..twice.len() - 30];
    assert_eq!(load(half.as_bytes()).unwrap_err(), ParseError::Grammar);
}

#[test]
fn ascii_word_that_is_no_number_is_a_numeric_error() {
    for bad in ["1.0.0", "x", "0x10", "1,5", "--1", "1e"] {
        let text = ONE_FACET.replacen("vertex 2 0 0", &format!("vertex 2 {} 0", bad), 1);
        assert_eq!(
            load(text.as_bytes()).unwrap_err(),
            ParseError::NumericLiteral,
            "{}",
            bad
        );
    }
    let mut bytes = ONE_FACET.replacen("vertex 2 0 0", "vertex 2 @ 0", 1).into_bytes();
    let at = bytes.iter().position(|&b| b == b'@').unwrap();
    bytes[at] = 0xff;
    assert_eq!(load(&bytes).unwrap_err(), ParseError::NumericLiteral);
}

#[test]
fn ascii_structure_is_checked_before_numbers() {
    let text = ONE_FACET
        .replacen("vertex 2 0 0", "vertex 2 x 0", 1)
        .replacen("endloop", "endlop", 1);
    assert_eq!(load(text.as_bytes()).unwrap_err(), ParseError::Grammar);
}

#[test]
fn into_mesh_wants_one_value_for_each_number() {
    let values: Vec<Option<u32>> = (0..12).map(|i| Some(i as u32)).collect();
    let solid = parse_ascii_stl(ONE_FACET.as_bytes()).unwrap();
    let mesh = solid.into_mesh(&values).unwrap();
    assert_eq!(mesh.tris[0].normal, Point3::new(0, 1, 2));
    assert_eq!(mesh.tris[0].verts[0], Point3::new(3, 4, 5));
    assert_eq!(mesh.tris[0].verts[1], Point3::new(6, 7, 8));
    assert_eq!(mesh.tris[0].verts[2], Point3::new(9, 10, 11));

    let solid = parse_ascii_stl(ONE_FACET.as_bytes()).unwrap();
    assert_eq!(
        solid.into_mesh(&values[..11]).unwrap_err(),
        ParseError::NumericLiteral
    );
    let mut more = values.clone();
    more.push(Some(0));
    let solid = parse_ascii_stl(ONE_FACET.as_bytes()).unwrap();
    assert_eq!(solid.into_mesh(&more).unwrap_err(), ParseError::NumericLiteral);
    let mut hole = values.clone();
    hole[11] = None;
    let solid = parse_ascii_stl(ONE_FACET.as_bytes()).unwrap();
    assert_eq!(solid.into_mesh(&hole).unwrap_err(), ParseError::NumericLiteral);
    let solid = parse_ascii_stl(ONE_FACET.as_bytes()).unwrap();
    assert_eq!(solid.into_mesh(&[]).unwrap_err(), ParseError::NumericLiteral);
}

#[test]
fn binary_count_zero_is_an_empty_mesh() {
    let bytes = binary(0, &[]);
    assert_eq!(bytes.len(), 84);
    let mesh = load(&bytes).unwrap();
    assert_eq!(mesh.name, "binary");
    assert!(mesh.tris.is_empty());
    assert_eq!(radius(&mesh), 1.0);
}

#[test]
fn binary_records_keep_their_order() {
    let a = [0.0, 0.0, 1.0, 1.0, 2.0, 3.0, 4.0, 5.0, 6.0, 7.0, 8.0, 9.0];
    let b = [
        -1.0, 0.5, 0.25, 10.0, 20.0, 30.0, 40.0, 50.0, 60.0, 70.0, 80.0, 90.0,
    ];
    let mut bytes = binary(2, &[a, b]);
    for i in 0..80 {
        bytes[i] = 7 + i as u8;
    }
    bytes[84 + 48] = 0xaa;
    bytes[84 + 49] = 0xbb;
    bytes.extend_from_slice(b"trailing bytes are not read");
    let mesh = parse_binary_stl(&bytes).unwrap();
    assert_eq!(mesh.tris.len(), 2);
    assert_eq!(
        mesh.tris[0],
        Triangle::new(
            point(1.0, 2.0, 3.0),
            point(4.0, 5.0, 6.0),
            point(7.0, 8.0, 9.0),
            point(0.0, 0.0, 1.0)
        )
    );
    assert_eq!(
        mesh.tris[1],
        Triangle::new(
            point(10.0, 20.0, 30.0),
            point(40.0, 50.0, 60.0),
            point(70.0, 80.0, 90.0),
            point(-1.0, 0.5, 0.25)
        )
    );
}

#[test]
fn binary_words_are_little_endian() {
    let mut bytes = vec![0u8; 80];
    bytes.extend_from_slice(&[1, 0, 0, 0]);
    for j in 0..12u8 {
        bytes.extend_from_slice(&[j, 0x10 + j, 0x20 + j, 0x30 + j]);
    }
    bytes.extend_from_slice(&[0, 0]);
    let mesh = parse_binary_stl(&bytes).unwrap();
    assert_eq!(mesh.tris[0].normal.x, 0x3020_1000);
    assert_eq!(mesh.tris[0].normal.y, 0x3121_1101);
    assert_eq!(mesh.tris[0].normal.z, 0x3222_1202);
    assert_eq!(mesh.tris[0].verts[0].x, 0x3323_1303);
    assert_eq!(mesh.tris[0].verts[2].z, 0x3b2b_1b0b);

    let mut bytes = vec![0u8; 80];
    bytes.extend_from_slice(&[0, 1, 0, 0]);
    bytes.extend_from_slice(&vec![0u8; 50 * 255]);
    assert_eq!(
        parse_binary_stl(&bytes).unwrap_err(),
        ParseError::TruncatedBinary
    );
    bytes.extend_from_slice(&[0u8; 50]);
    assert_eq!(parse_binary_stl(&bytes).unwrap().tris.len(), 256);
}

#[test]
fn binary_shorter_than_its_count_is_truncated() {
    let record = [0.0, 0.0, 1.0, 0.0, 0.0, 0.0, 1.0, 0.0, 0.0, 0.0, 1.0, 0.0];
    let whole = binary(2, &[record, record]);
    assert_eq!(load(&whole).unwrap().tris.len(), 2);
    for len in 5..whole.len() {
        assert_eq!(
            load(&whole[..len]).unwrap_err(),
            ParseError::TruncatedBinary,
            "{}",
            len
        );
    }
    let mut huge = vec![0u8; 80];
    huge.extend_from_slice(&[0xff, 0xff, 0xff, 0xff]);
    huge.extend_from_slice(&[0u8; 500]);
    assert_eq!(load(&huge).unwrap_err(), ParseError::TruncatedBinary);
}

#[test]
fn short_buffers_have_no_form() {
    for len in 0..5 {
        assert_eq!(sniff(&b"soli"[..len.min(4)]).unwrap_err(), ParseError::MalformedHeader);
        assert_eq!(
            load(&vec![0u8; len]).unwrap_err(),
            ParseError::MalformedHeader
        );
    }
}

#[test]
fn sniff_goes_by_the_first_five_bytes() {
    assert_eq!(sniff(b"solid"), Ok(Format::Ascii));
    assert_eq!(sniff(b"solid anything"), Ok(Format::Ascii));
    assert_eq!(sniff(b"solix"), Ok(Format::Binary));
    assert_eq!(sniff(b"Solid"), Ok(Format::Binary));
    assert_eq!(sniff(b" solid"), Ok(Format::Binary));
    assert_eq!(sniff(&[0xff, 0xfe, 0xfd, 0xfc, 0xfb]), Ok(Format::Binary));
    assert_eq!(sniff(&[0u8; 84]), Ok(Format::Binary));
}

#[test]
fn binary_header_that_begins_with_solid_is_read_as_text() {
    let mut bytes = binary(0, &[]);
    bytes[..5].copy_from_slice(b"solid");
    assert_eq!(sniff(&bytes), Ok(Format::Ascii));
    assert_eq!(load(&bytes).unwrap_err(), ParseError::Grammar);
    assert!(parse_binary_stl(&bytes).unwrap().tris.is_empty());
}

#[test]
fn loading_in_steps_gives_the_same_as_loading_at_once() {
    let record = [0.5, 0.0, 1.0, 3.0, 0.0, 0.0, 1.0, 0.0, 0.0, 0.0, 1.0, 0.0];
    let bytes = binary(1, &[record]);
    let bad = ONE_FACET.replacen("vertex 2 0 0", "vertex 2 x 0", 1);
    let inputs: [&[u8]; 7] = [
        ONE_FACET.as_bytes(),
        &bytes,
        &bytes[..100],
        b"sol",
        b"solid X\nendsolid",
        bad.as_bytes(),
        b"",
    ];
    for input in inputs {
        assert_eq!(load(input), load_in_steps(input));
    }
    match load_mesh(ONE_FACET.as_bytes()).unwrap() {
        Loaded::Ascii(solid) => assert_eq!(solid.facets(), 1),
        Loaded::Mesh(_) => panic!("a text is not decoded as a binary buffer"),
    }
    match load_mesh(&bytes).unwrap() {
        Loaded::Mesh(mesh) => assert_eq!(mesh.tris.len(), 1),
        Loaded::Ascii(_) => panic!("a binary buffer is not decoded as a text"),
    }
}

#[test]
fn conversion_is_asked_once_for_each_number_in_order() {
    let seen = std::cell::RefCell::new(Vec::new());
    let mesh = load_mesh_with(ONE_FACET.as_bytes(), |word| {
        seen.borrow_mut().push(word.to_vec());
        Some(seen.borrow().len() as u32)
    })
    .unwrap();
    let words: Vec<Vec<u8>> = ["0", "0", "1", "0", "0", "0", "2", "0", "0", "0", "2", "0"]
        .iter()
        .map(|w| w.as_bytes().to_vec())
        .collect();
    assert_eq!(*seen.borrow(), words);
    assert_eq!(mesh.tris[0].normal, Point3::new(1, 2, 3));
    assert_eq!(mesh.tris[0].verts[2], Point3::new(10, 11, 12));
}

#[test]
fn loading_twice_gives_the_same_mesh() {
    let first = load(ONE_FACET.as_bytes()).unwrap();
    let second = load(ONE_FACET.as_bytes()).unwrap();
    assert_eq!(first, second);
    let record = [0.5, 0.0, 1.0, 3.0, 0.0, 0.0, 1.0, 0.0, 0.0, 0.0, 1.0, 0.0];
    let bytes = binary(1, &[record]);
    assert_eq!(load(&bytes).unwrap(), load(&bytes).unwrap());
    assert_eq!(load(&bytes[..100]), load(&bytes[..100]));
}
