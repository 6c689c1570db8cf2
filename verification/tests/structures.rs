//! Objects, numbers, text, filters, and the other parts that documents are made of.

use std::io::Write;

use flate2::write::ZlibEncoder;
use flate2::Compression;
use lopdf::bytes::{comes_before, strip_prefix};
use lopdf::document::Document;
use lopdf::encryption::password::opening_password;
use lopdf::error::{DecompressError, Error};
use lopdf::filters::png::decode_frame;
use lopdf::ids::{IdMap, IdSet};
use lopdf::lazy::fifo_cache::FifoCache;
use lopdf::number::{integer_as_real, Real};
use lopdf::object::{Dictionary, Object, ObjectKind, Stream, StringFormat};
use lopdf::object_stream::ObjectStream;
use lopdf::page_content::{DecodeLimits, PageContent};
use lopdf::parser::decimal::real_number;
use lopdf::parser::file::{header, xref_start};
use lopdf::parser::indirect::content_of_stream;
use lopdf::parser::objects::direct_object;
use lopdf::stored_bytes::{SliceBytes, StoredBytes, CHUNK};
use lopdf::stream_filters::{decompressed_content_with_limit, filters, is_inflated_alone, plain_content};
use lopdf::text::{collapse_whitespace, trim};
use lopdf::xref::{Xref, XrefEntry};

fn integer(value: i64) -> Object {
    Object::Integer(value)
}

fn name(value: &str) -> Object {
    Object::Name(value.as_bytes().to_vec())
}

fn dictionary(entries: Vec<(&str, Object)>) -> Dictionary {
    let mut dictionary = Dictionary::new();
    for (key, value) in entries {
        dictionary.set(key.as_bytes().to_vec(), value);
    }
    dictionary
}

fn zlib(data: &[u8]) -> Vec<u8> {
    let mut encoder = ZlibEncoder::new(Vec::new(), Compression::default());
    encoder.write_all(data).unwrap();
    encoder.finish().unwrap()
}

fn literal(bytes: &[u8]) -> Object {
    Object::String(bytes.to_vec(), StringFormat::Literal)
}

#[test]
fn direct_objects_parse() {
    assert_eq!(direct_object(b"null "), Some(Object::Null));
    assert_eq!(direct_object(b"true"), Some(Object::Boolean(true)));
    assert_eq!(direct_object(b"false"), Some(Object::Boolean(false)));
    assert_eq!(direct_object(b"-17 "), Some(integer(-17)));
    assert_eq!(direct_object(b"+17 "), Some(integer(17)));
    assert_eq!(direct_object(b"12 3 R"), Some(Object::Reference((12, 3))));
    assert_eq!(direct_object(b"/A#20B "), Some(name("A B")));
    assert_eq!(direct_object(b"[1 /X (a)] "), Some(Object::Array(vec![integer(1), name("X"), literal(b"a")])));
    assert_eq!(direct_object(b"<4a4B5> "), Some(Object::String(b"JKP".to_vec(), StringFormat::Hexadecimal)));
    assert_eq!(
        direct_object(b"<</K 1/K 2/L<<>>>>"),
        Some(Object::Dictionary(dictionary(vec![
            ("K", integer(2)),
            ("L", Object::Dictionary(Dictionary::new())),
        ])))
    );
    assert_eq!(direct_object(b"% a comment\n"), None);
    assert_eq!(direct_object(b"[1 2"), None);
    assert_eq!(direct_object(b"(open"), None);
}

#[test]
fn literal_strings_nest_and_escape() {
    assert_eq!(direct_object(b"(a(b)c)"), Some(literal(b"a(b)c")));
    assert_eq!(direct_object(b"(\\n\\r\\t\\b\\f\\(\\)\\\\)"), Some(literal(b"\n\r\t\x08\x0c()\\")));
    assert_eq!(direct_object(b"(\\101\\7\\053x)"), Some(literal(b"A\x07+x")));
    assert_eq!(direct_object(b"(a\\\nb)"), Some(literal(b"ab")));
}

#[test]
fn nesting_has_a_limit() {
    let nested = |levels: usize| [vec![b'['; levels], vec![b']'; levels]].concat();
    assert!(direct_object(&nested(200)).is_some());
    assert!(direct_object(&nested(300)).is_none());
}

#[test]
fn real_numbers_round_to_the_nearest() {
    for text in [
        "0.1", "-0.5", "3.14159265358979", "1.", ".25", "16777217.0", "0.0000001", "340282350000000000000000.0",
        "123456.789", "-0.0", "0.30000001192092896", "8388608.5", "1.17549435e0",
    ] {
        let text = text.trim_end_matches("e0");
        let (read, end) = real_number(text.as_bytes(), 0).unwrap();
        assert_eq!(end, text.len());
        assert_eq!(f32::from_bits(read.bits), text.parse::<f32>().unwrap(), "{text}");
    }
    assert!(real_number(b"17", 0).is_none());
    assert!(real_number(b".", 0).is_none());
}

#[test]
fn numbers_compare_and_truncate() {
    let real_of = |value: f32| Real { bits: value.to_bits() };
    assert_eq!(real_of(2.9).truncate(), 2);
    assert_eq!(real_of(-2.9).truncate(), -2);
    assert_eq!(real_of(f32::NAN).truncate(), 0);
    assert_eq!(real_of(1e30).truncate(), i64::MAX);
    assert_eq!(real_of(-1e30).truncate(), i64::MIN);
    assert!(real_of(1.5).is_at_least(real_of(1.5)));
    assert!(real_of(-1.0).is_below(real_of(0.5)));
    assert!(!real_of(f32::NAN).is_below(real_of(0.5)));
    assert!(real_of(f32::NAN).is_not_a_number());
    assert_eq!(real_of(2.0).min(real_of(-3.0)), real_of(-3.0));
    assert_eq!(real_of(2.0).max(real_of(-3.0)), real_of(2.0));
    for i in [0, 1, -1, 16_777_217, i64::MAX, i64::MIN, 123_456_789] {
        assert_eq!(f32::from_bits(integer_as_real(i).bits), i as f32, "{i}");
    }
}

#[test]
fn whitespace_collapses_and_is_trimmed() {
    let collapsed = collapse_whitespace(" Two\r\n line\u{a0}\theading ");
    assert_eq!(collapsed, "Two line heading");
    assert_eq!(collapse_whitespace(&collapsed), collapsed);
    assert_eq!(trim("\t a b \u{2003}"), "a b");
    assert_eq!(trim(" \n "), "");
}

#[test]
fn bytes_are_ordered_and_prefixed() {
    assert!(comes_before(b"a", b"ab"));
    assert!(comes_before(b"ab", b"b"));
    assert!(!comes_before(b"b", b"ab"));
    assert!(!comes_before(b"a", b"a"));
    assert_eq!(strip_prefix(b"abc", b"ab"), Some(&b"c"[..]));
    assert_eq!(strip_prefix(b"abc", b"b"), None);
}

#[test]
fn dictionaries_keep_one_value_for_each_key() {
    let mut dict = dictionary(vec![("A", integer(1)), ("B", integer(2))]);
    dict.set(b"A".to_vec(), integer(3));
    assert_eq!(dict.entries.len(), 2);
    assert_eq!(dict.get(b"A").unwrap(), &integer(3));
    assert_eq!(dict.get(b"C"), Err(Error::DictKey));
    assert!(dict.has(b"B"));
    assert_eq!(dict.remove(b"A"), Some(integer(3)));
    assert_eq!(dict.remove(b"A"), None);
    assert_eq!(
        integer(1).as_name(),
        Err(Error::ObjectType {
            expected: ObjectKind::Name,
            found: ObjectKind::Integer
        })
    );
    assert_eq!(name("N").as_name().unwrap(), b"N");
}

#[test]
fn documents_follow_references() {
    let mut doc = Document::with_version("1.4");
    let end = doc.add_object(integer(5));
    let middle = doc.add_object(Object::Reference(end));
    let around = doc.new_object_id();
    doc.set_object(around, Object::Reference(around));
    assert_eq!(doc.get_object(middle).unwrap(), &integer(5));
    assert_eq!(doc.dereference(&Object::Reference(middle)).unwrap(), &integer(5));
    assert_eq!(doc.get_object(around), Err(Error::ReferenceLimit));
    assert_eq!(doc.get_object((9, 0)), Err(Error::ObjectNotFound((9, 0))));
    assert!(matches!(doc.get_dictionary(end), Err(Error::ObjectType { .. })));
    assert_eq!(doc.catalog(), Err(Error::DictKey));
    assert!(doc.get_pages().is_empty());
}

#[test]
fn ids_are_kept_apart() {
    let mut set = IdSet::new();
    assert!(set.insert((1, 0)));
    assert!(!set.insert((1, 0)));
    assert!(set.insert((1, 1)));
    assert!(!set.contains((0, 1)));
    let mut map: IdMap<u8> = IdMap::new();
    map.insert((0, 1), 3);
    map.insert((0, 1), 4);
    assert_eq!(map.get((0, 1)), Some(&4));
    assert_eq!(map.get((1, 0)), None);
    assert_eq!(map.len(), 1);
}

#[test]
fn a_newer_revision_wins() {
    let normal = |offset: u32| XrefEntry::Normal { offset, generation: 0 };
    let mut newer = Xref::new(3);
    newer.insert(1, normal(10));
    newer.insert(2, XrefEntry::Free);
    let mut older = Xref::new(3);
    older.insert(1, normal(99));
    older.insert(2, normal(98));
    older.insert(7, XrefEntry::Compressed { container: 1, index: 2 });
    newer.merge(&older);
    assert_eq!(newer.get(1), Some(normal(10)));
    assert_eq!(newer.get(2), Some(XrefEntry::Free));
    assert_eq!(newer.get(7), Some(XrefEntry::Compressed { container: 1, index: 2 }));
    assert_eq!(newer.get(3), None);
    assert_eq!(newer.max_id(), 7);
}

#[test]
fn the_oldest_entry_leaves_a_full_cache() {
    let mut cache: FifoCache<&str> = FifoCache::new(2);
    cache.insert(1, "a");
    cache.insert(2, "b");
    cache.insert(1, "c");
    cache.insert(3, "d");
    assert_eq!(cache.get(1), None);
    assert_eq!(cache.get(2), Some(&"b"));
    assert_eq!(cache.get(3), Some(&"d"));
    cache.clear();
    assert_eq!(cache.get(3), None);
}

#[test]
fn filters_are_undone() {
    let plain = b"some content, some content".to_vec();
    let dict = dictionary(vec![("Filter", name("FlateDecode"))]);
    let stored = zlib(&plain);
    assert_eq!(filters(&dict), Some(vec![b"FlateDecode".to_vec()]));
    assert!(is_inflated_alone(&dict));
    assert_eq!(decompressed_content_with_limit(&dict, &stored, 1000).unwrap(), plain);
    assert_eq!(
        decompressed_content_with_limit(&dict, &stored, 5),
        Err(Error::Decompress(DecompressError::MemoryLimitExceeded { limit: 5 }))
    );
    let twice = dictionary(vec![(
        "Filter",
        Object::Array(vec![name("FlateDecode"), name("FlateDecode")]),
    )]);
    assert!(!is_inflated_alone(&twice));
    assert_eq!(decompressed_content_with_limit(&twice, &zlib(&stored), 1000).unwrap(), plain);
    let other = dictionary(vec![("Filter", name("JPXDecode"))]);
    assert_eq!(
        decompressed_content_with_limit(&other, &stored, 1000),
        Err(Error::Decompress(DecompressError::UnsupportedFilter))
    );
    assert_eq!(plain_content(&Dictionary::new(), &stored, 5).unwrap(), stored);
}

/// The differences that a filter leaves of `rows`, with the filter's byte before each.
fn filtered(filter: u8, rows: &[Vec<u8>], pixel: usize) -> Vec<u8> {
    let mut out = Vec::new();
    let mut above = vec![0u8; rows[0].len()];
    for row in rows {
        out.push(filter);
        for i in 0..row.len() {
            let left = if i >= pixel { row[i - pixel] } else { 0 };
            let corner = if i >= pixel { above[i - pixel] } else { 0 };
            let up = above[i];
            let predicted = match filter {
                1 => left,
                2 => up,
                3 => ((left as u16 + up as u16) / 2) as u8,
                4 => {
                    let p = left as i32 + up as i32 - corner as i32;
                    let (a, b, c) = ((p - left as i32).abs(), (p - up as i32).abs(), (p - corner as i32).abs());
                    if a <= b && a <= c {
                        left
                    } else if b <= c {
                        up
                    } else {
                        corner
                    }
                }
                _ => 0,
            };
            out.push(row[i].wrapping_sub(predicted));
        }
        above = row.clone();
    }
    out
}

#[test]
fn rows_come_back_from_every_predictor() {
    let rows: Vec<Vec<u8>> = (0..5u32)
        .map(|y| (0..12u32).map(|x| (x * x * 7 + y * 31 + x * y) as u8).collect())
        .collect();
    for filter in 0..=4 {
        for pixel in [1, 3, 4] {
            let decoded = decode_frame(&filtered(filter, &rows, pixel), 12, pixel).unwrap();
            assert_eq!(decoded, rows.concat(), "filter {filter}, pixel {pixel}");
        }
    }
    assert_eq!(decode_frame(&[5, 1, 2], 2, 1), None);
    // A row cut short is left out.
    assert_eq!(decode_frame(&[0, 1, 2, 0, 3], 2, 1).unwrap(), [1, 2]);
    let dict = dictionary(vec![
        ("Filter", name("FlateDecode")),
        (
            "DecodeParms",
            Object::Dictionary(dictionary(vec![("Predictor", integer(12)), ("Columns", integer(12))])),
        ),
    ]);
    let stored = zlib(&filtered(2, &rows, 1));
    assert!(!is_inflated_alone(&dict));
    assert_eq!(decompressed_content_with_limit(&dict, &stored, 1000).unwrap(), rows.concat());
}

#[test]
fn object_streams_give_their_members() {
    let content = b"11 0 12 6 13 12 <</A 1>> (text) 7 0 R".to_vec();
    let dict = dictionary(vec![("Type", name("ObjStm")), ("N", integer(3)), ("First", integer(16))]);
    let content = [&content[..15], b" ", &content[16..]].concat();
    let stream = ObjectStream::new_with_limit(&dict, &content, 1000).unwrap();
    assert_eq!(
        stream.get(11),
        Some(Object::Dictionary(dictionary(vec![("A", integer(1))])))
    );
    assert_eq!(stream.get(99), None);
    let packed = dictionary(vec![
        ("N", integer(1)),
        ("First", integer(4)),
        ("Filter", name("FlateDecode")),
    ]);
    let stored = zlib(b"5 0 (abcdefgh)");
    assert_eq!(
        ObjectStream::new_with_limit(&packed, &stored, 1000).unwrap().get(5),
        Some(literal(b"abcdefgh"))
    );
    assert!(matches!(
        ObjectStream::new_with_limit(&packed, &stored, 3),
        Err(Error::Decompress(DecompressError::MemoryLimitExceeded { limit: 3 }))
    ));
}

#[test]
fn the_header_and_the_start_of_the_cross_references_are_found() {
    assert_eq!(header(b"%PDF-1.7\nrest").as_deref(), Some("1.7"));
    assert_eq!(header(b"%PSF-1.7\n"), None);
    assert_eq!(xref_start(b"junk startxref\n123\n%%EOF"), Some(123));
    assert_eq!(xref_start(b"startxref\n1\n%%EOF startxref\n2\n%%EOF"), Some(2));
    assert_eq!(xref_start(b"no marker"), None);
}

#[test]
fn stream_content_ends_where_its_length_or_its_marker_says() {
    let bytes = b"abcdef\nendstream";
    assert_eq!(content_of_stream(bytes, 0, Some(6), bytes.len()).unwrap(), b"abcdef");
    assert_eq!(content_of_stream(bytes, 0, Some(3), bytes.len()).unwrap(), b"abcdef");
    assert_eq!(content_of_stream(bytes, 0, None, bytes.len()).unwrap(), b"abcdef");
    assert_eq!(content_of_stream(bytes, 0, Some(100), 5), None);
}

#[test]
fn stored_bytes_come_in_chunks() {
    let bytes: Vec<u8> = (0..CHUNK + 10).map(|i| i as u8).collect();
    let mut stored = SliceBytes::new(&bytes);
    for _ in 0..2 {
        let mut output = Vec::new();
        let mut chunks = 0;
        while stored.read_chunk(&mut output).unwrap() {
            chunks += 1;
        }
        assert_eq!(output, bytes);
        assert_eq!(chunks, 2);
        stored.rewind().unwrap();
    }
}

fn page_with(contents: Vec<Object>) -> (Document, (u32, u16)) {
    let mut doc = Document::with_version("1.7");
    let ids: Vec<Object> = contents
        .into_iter()
        .map(|object| Object::Reference(doc.add_object(object)))
        .collect();
    let page = doc.add_object(Object::Dictionary(dictionary(vec![
        ("Type", name("Page")),
        ("Contents", Object::Array(ids)),
    ])));
    (doc, page)
}

fn stream(filter: Option<&str>, content: Vec<u8>) -> Object {
    let dict = match filter {
        Some(filter) => dictionary(vec![("Filter", name(filter))]),
        None => Dictionary::new(),
    };
    Object::Stream(Stream { dict, content })
}

#[test]
fn page_content_is_each_stream_and_a_newline() {
    let (doc, page) = page_with(vec![
        stream(None, b"one".to_vec()),
        stream(Some("FlateDecode"), zlib(b"two")),
        integer(7),
        stream(Some("JPXDecode"), b"as stored".to_vec()),
    ]);
    let mut content = PageContent::new(&doc, page, DecodeLimits::unbounded());
    let mut output = Vec::new();
    while content.read_into(&mut output).unwrap() {}
    assert_eq!(output, b"one\ntwo\nas stored\n");
    assert_eq!(content.len(), output.len());
    assert!(!content.read_into(&mut output).unwrap());
}

#[test]
fn page_content_keeps_within_its_limits() {
    let (doc, page) = page_with(vec![stream(Some("FlateDecode"), zlib(&vec![b'x'; 1000]))]);
    let limits = DecodeLimits {
        max_stream_size: 10,
        max_page_content_size: 999,
        ..DecodeLimits::unbounded()
    };
    let mut output = Vec::new();
    let failure = PageContent::new(&doc, page, limits).read_rest(&mut output);
    assert_eq!(
        failure,
        Some(Error::Decompress(DecompressError::MemoryLimitExceeded { limit: 999 }))
    );
    let mut output = Vec::new();
    assert_eq!(PageContent::new(&doc, page, DecodeLimits::uniform(1000)).read_rest(&mut output), None);
    assert_eq!(output.len(), 1001);
    // A stream decoded whole has a limit of its own.
    let twice = Object::Stream(Stream {
        dict: dictionary(vec![(
            "Filter",
            Object::Array(vec![name("FlateDecode"), name("FlateDecode")]),
        )]),
        content: zlib(&zlib(&vec![b'x'; 1000])),
    });
    let (doc, page) = page_with(vec![twice]);
    let mut output = Vec::new();
    let failure = PageContent::new(
        &doc,
        page,
        DecodeLimits {
            max_stream_size: 100,
            max_page_content_size: 5000,
            ..DecodeLimits::unbounded()
        },
    )
    .read_rest(&mut output);
    assert_eq!(
        failure,
        Some(Error::Decompress(DecompressError::MemoryLimitExceeded { limit: 100 }))
    );
}

#[test]
fn the_empty_password_is_tried_first() {
    assert_eq!(opening_password(true, Some("given"), true), Ok(Some("")));
    assert_eq!(opening_password(false, Some("given"), true), Ok(Some("given")));
    assert_eq!(opening_password(false, Some("given"), false), Err(Error::InvalidPassword));
    assert_eq!(opening_password(false, None, false), Ok(None));
}

#[test]
fn each_call_appends_a_chunk_until_there_is_no_more() {
    let (doc, page) = page_with(vec![
        stream(None, vec![b'a'; 70_000]),
        stream(Some("FlateDecode"), zlib(&vec![b'b'; 5])),
    ]);
    let mut content = PageContent::new(&doc, page, DecodeLimits::unbounded());
    let mut output = Vec::new();
    let mut lens = Vec::new();
    while content.read_into(&mut output).unwrap() {
        lens.push(output.len());
    }
    assert_eq!(lens, [65_536, 70_000, 70_001, 70_006, 70_007]);
    assert_eq!(output[69_999..], *b"a\nbbbbb\n");
    for _ in 0..3 {
        assert_eq!(content.read_into(&mut output), Ok(false));
    }
    assert_eq!(output.len(), 70_007);
}
