//! Documents read from their source an object at a time.

use std::cell::{Cell, RefCell};
use std::collections::BTreeMap;
use std::io::Write;

use flate2::read::ZlibDecoder;
use flate2::write::ZlibEncoder;
use flate2::Compression;
use lopdf::document::Document;
use lopdf::encryption::crypt_filters::{Aes128CryptFilter, Rc4CryptFilter};
use lopdf::encryption::rc4::Rc4;
use lopdf::encryption::security::{ObjectDecryption, SecurityHandler};
use lopdf::error::{DecompressError, DecryptionError, Error, IoError, ParseError, XrefError};
use lopdf::document_outline::DocumentOutline;
use lopdf::fixtures::build;
use lopdf::font_encoding::{FontEncodings, NamedEncodings, TextEncoding};
use lopdf::lazy::document::LazyDocument;
use lopdf::lazy::file::LoadOptions;
use lopdf::lazy::source::RandomAccessSource;
use lopdf::lazy::stored_stream::{Peeked, StoredContent};
use lopdf::number::Real;
use lopdf::object::{Dictionary, Object, ObjectId, ObjectKind, Stream, StringFormat};
use lopdf::page_content::{DecodeLimits, PageContent};
use lopdf::samples::positions;
use lopdf::stored_bytes::StoredBytes;
use lopdf::writer::{push_object, save_with_streams, save_with_table};
use lopdf::xref::XrefEntry;

fn integer(value: i64) -> Object {
    Object::Integer(value)
}

fn name(value: &str) -> Object {
    Object::Name(value.as_bytes().to_vec())
}


fn dictionary(entries: Vec<(&str, Object)>) -> Dictionary {
    let mut dictionary = Dictionary::new();
    for (key, value) in entries {
        dictionary.set(key.as_bytes().to_vec(), value);
    }
    dictionary
}

fn object(entries: Vec<(&str, Object)>) -> Object {
    Object::Dictionary(dictionary(entries))
}

#[test]
fn classic_xref_stream_and_object_stream_files_match_the_eager_reader() {
    for (label, object_streams, xref_streams) in [
        ("classic table", false, false),
        ("xref stream", false, true),
        ("object streams", true, true),
    ] {
        let doc = sample_document(7);
        let bytes = save(&doc, object_streams, xref_streams);
        let lazy = assert_matches_eager(&doc, &bytes, label);
        assert_eq!(lazy.page_count().unwrap(), 7, "{label}");
    }
}

#[test]
fn an_incremental_update_wins_over_the_earlier_revision() {
    let original = sample_document(4);
    let first_page = original.get_pages()[&1];
    let previous = save(&original, false, false);

    let mut page = original.get_dictionary(first_page).unwrap().clone();
    page.set(b"Rotate".to_vec(), integer(90));
    let mut latest = sample_document(4);
    latest.set_object(first_page, Object::Dictionary(page.clone()));
    let updated = with_update(&previous, &original, first_page, &Object::Dictionary(page));

    let lazy = assert_matches_eager(&latest, &updated, "incremental update");
    let rotate = lazy
        .get_dictionary(first_page)
        .unwrap()
        .get(b"Rotate")
        .unwrap()
        .as_i64()
        .unwrap();
    assert_eq!(rotate, 90);
}

#[test]
fn walking_the_pages_reads_a_small_part_of_a_large_file() {
    let mut doc = sample_document(6);
    // A large image the page tree never needs to read.
    let image_id = doc.add_object(Object::Stream(Stream {
        dict: dictionary(vec![
            ("Type", name("XObject")),
            ("Subtype", name("Image")),
            ("Width", integer(1024)),
            ("Height", integer(1024)),
        ]),
        content: vec![7; 4 * 1024 * 1024],
    }));
    let first_page = doc.get_pages()[&1];
    let mut page = doc.get_dictionary(first_page).unwrap().clone();
    page.set(
        b"Resources".to_vec(),
        object(vec![("XObject", object(vec![("Im1", Object::Reference(image_id))]))]),
    );
    doc.set_object(first_page, Object::Dictionary(page));
    let bytes = save(&doc, false, false);
    let source = CountingSource::new(bytes.clone());

    let lazy = LazyDocument::from_source(&source, LoadOptions::default()).unwrap();
    let pages = lazy.get_pages().unwrap();

    assert_eq!(pages, doc.get_pages());
    let read = source.bytes_read.get();
    assert!(read < 128 * 1024, "read {read} of {} bytes", bytes.len());
}

#[test]
fn page_tree_cycles_and_deep_trees_stop_where_the_eager_reader_stops() {
    let mut cyclic = sample_document(2);
    let root = cyclic.catalog().unwrap().get(b"Pages").unwrap().as_reference().unwrap();
    let mut node = cyclic.get_dictionary(root).unwrap().clone();
    let mut kids = node.get(b"Kids").unwrap().as_array().unwrap().clone();
    kids.push(Object::Reference(root));
    node.set(b"Kids".to_vec(), Object::Array(kids));
    cyclic.set_object(root, Object::Dictionary(node));
    assert_matches_eager(&cyclic, &save(&cyclic, false, false), "page tree cycle");

    // Each level holds a deeper node and a page. The walk stacks the page while it descends, so the
    // stack deepens by one per level and stops descending at its limit.
    let mut deep = Document::with_version("1.4");
    let bottom_page = deep.new_object_id();
    let mut child = bottom_page;
    let mut levels = Vec::new();
    for _ in 0..300 {
        let node_id = deep.new_object_id();
        let page_id = deep.add_object(object(vec![
            ("Type", name("Page")),
            ("Parent", Object::Reference(node_id)),
        ]));
        levels.push((node_id, child, page_id));
        child = node_id;
    }
    for (node_id, deeper, page_id) in &levels {
        deep.set_object(
            *node_id,
            object(vec![
                ("Type", name("Pages")),
                (
                    "Kids",
                    Object::Array(vec![Object::Reference(*deeper), Object::Reference(*page_id)]),
                ),
            ]),
        );
    }
    deep.set_object(
        bottom_page,
        object(vec![("Type", name("Page")), ("Parent", Object::Reference(levels[0].0))]),
    );
    let catalog_id = deep.add_object(object(vec![
        ("Type", name("Catalog")),
        ("Pages", Object::Reference(child)),
    ]));
    deep.trailer.set(b"Root".to_vec(), Object::Reference(catalog_id));
    let deep_bytes = save(&deep, false, false);
    let lazy = assert_matches_eager(&deep, &deep_bytes, "deep page tree");
    let pages = lazy.get_pages().unwrap();
    assert!(
        pages.len() < 300,
        "the depth limit stops the walk early: {} pages",
        pages.len()
    );
    assert!(!pages.values().any(|id| *id == bottom_page));
}

#[test]
fn a_wrong_neighbouring_offset_does_not_cut_an_object_short() {
    let long_title = "x".repeat(8 * 1024);
    let body = format!("<< /Type /Catalog /Pages 2 0 R /Title ({long_title}) >>");
    let objects = [
        (1, body.as_str()),
        (2, "<< /Type /Pages /Kids [3 0 R] /Count 1 >>"),
        (3, "<< /Type /Page /Parent 2 0 R >>"),
    ];
    // Object 2's entry points into the middle of object 1, so the bytes up to "the next object"
    // end inside object 1.
    let bytes = raw_pdf(
        &objects,
        "/Root 1 0 R",
        |id, offset| if id == 2 { offset - 4096 } else { offset },
    );

    let lazy = LazyDocument::from_source(bytes.as_slice(), LoadOptions::default()).unwrap();
    let catalog = lazy.catalog().unwrap();

    assert_eq!(
        catalog,
        dictionary(vec![
            ("Type", name("Catalog")),
            ("Pages", Object::Reference((2, 0))),
            (
                "Title",
                Object::String(long_title.as_bytes().to_vec(), StringFormat::Literal)
            ),
        ])
    );
    assert_eq!(catalog.get(b"Title").unwrap().as_str().unwrap().len(), long_title.len());
}

#[test]
fn malformed_input_returns_errors_without_panicking() {
    // A stream whose /Length is itself.
    let self_length = raw_pdf(
        &[
            (1, "<< /Type /Catalog /Pages 2 0 R >>"),
            (2, "<< /Type /Pages /Kids [] /Count 0 >>"),
            (3, "<< /Length 3 0 R >>\nstream\nabc\nendstream"),
        ],
        "/Root 1 0 R",
        |_, offset| offset,
    );
    let lazy = LazyDocument::from_source(self_length.as_slice(), LoadOptions::default()).unwrap();
    let _ = lazy.get_object((3, 0));
    assert!(matches!(lazy.get_object((9, 0)), Err(Error::MissingXrefEntry)));

    // startxref far from any xref section.
    let mut bad_start = save(&sample_document(1), false, false);
    let marker = find(&bad_start, b"startxref").unwrap();
    bad_start.truncate(marker);
    bad_start.extend_from_slice(b"startxref\n9\n%%EOF\n");
    assert!(LazyDocument::from_source(bad_start.as_slice(), LoadOptions::default()).is_err());

    // Cut in half.
    let whole = save(&sample_document(3), false, false);
    let half = &whole[..whole.len() / 2];
    assert!(LazyDocument::from_source(half, LoadOptions::default()).is_err());

    // Not a PDF.
    let text: &[u8] = b"just some text, no header here";
    assert!(matches!(
        LazyDocument::from_source(text, LoadOptions::default()),
        Err(Error::Parse(_))
    ));
}

#[test]
fn a_header_past_the_search_length_is_not_found() {
    let whole = save(&sample_document(1), false, false);
    let mut late = vec![b' '; 5000];
    late.extend_from_slice(&whole);
    assert!(matches!(
        LazyDocument::from_source(late.as_slice(), LoadOptions::default()),
        Err(Error::Parse(ParseError::InvalidFileHeader))
    ));
    // Offsets count from the header, so bytes in front of it do no harm.
    let mut early = b"some bytes in front\n".to_vec();
    early.extend_from_slice(&whole);
    let lazy = LazyDocument::from_source(early.as_slice(), LoadOptions::default()).unwrap();
    assert_eq!(lazy.page_count().unwrap(), 1);
    assert_eq!(lazy.version(), "1.5");
}

#[test]
fn a_missing_or_wrong_start_of_the_cross_references_is_an_error() {
    let whole = save(&sample_document(1), false, false);
    let marker = find(&whole, b"startxref").unwrap();
    assert!(matches!(
        LazyDocument::from_source(&whole[..marker], LoadOptions::default()),
        Err(Error::Xref(XrefError::Start))
    ));
    let mut outside = whole[..marker].to_vec();
    outside.extend_from_slice(b"startxref\n99999999\n%%EOF\n");
    assert!(matches!(
        LazyDocument::from_source(outside.as_slice(), LoadOptions::default()),
        Err(Error::Xref(XrefError::Start))
    ));
    let bad_previous = raw_pdf(
        &[(1, "<< /Type /Catalog >>")],
        "/Root 1 0 R /Prev 99999999",
        |_, offset| offset,
    );
    assert!(matches!(
        LazyDocument::from_source(bad_previous.as_slice(), LoadOptions::default()),
        Err(Error::Xref(XrefError::PrevStart))
    ));
}

#[test]
fn a_cross_reference_table_a_little_off_is_found_unless_reading_is_strict() {
    let whole = save(&sample_document(2), false, false);
    let marker = find(&whole, b"startxref").unwrap();
    let table = find(&whole, b"xref\n0 ").unwrap();
    let mut off = whole[..marker].to_vec();
    off.extend_from_slice(format!("startxref\n{}\n%%EOF\n", table - 3).as_bytes());
    let lazy = LazyDocument::from_source(off.as_slice(), LoadOptions::default()).unwrap();
    assert_eq!(lazy.page_count().unwrap(), 2);
    let strict = LoadOptions {
        strict: true,
        ..LoadOptions::default()
    };
    assert!(LazyDocument::from_source(off.as_slice(), strict).is_err());
}

#[test]
fn a_failure_of_the_source_is_not_hidden() {
    let bytes = save(&sample_document(3), false, false);
    let source = FailingSource {
        bytes,
        reads_left: Cell::new(1000),
    };
    let lazy = LazyDocument::from_source(&source, LoadOptions::default()).unwrap();
    source.reads_left.set(0);
    assert!(matches!(lazy.get_pages(), Err(Error::IO(IoError::Other))));
    source.reads_left.set(1000);
    assert_eq!(lazy.get_pages().unwrap().len(), 3);
    source.reads_left.set(0);
    assert!(matches!(
        LazyDocument::from_source(&source, LoadOptions::default()),
        Err(Error::IO(IoError::Other))
    ));
}

#[test]
fn an_object_read_again_comes_from_memory() {
    let bytes = save(&sample_document(1), false, false);
    let source = CountingSource::new(bytes);
    let lazy = LazyDocument::from_source(&source, LoadOptions::default()).unwrap();
    let page = lazy.get_pages().unwrap()[&1];
    let first = lazy.get_object(page).unwrap();
    let read = source.bytes_read.get();
    assert_eq!(lazy.get_object(page).unwrap(), first);
    assert_eq!(source.bytes_read.get(), read);
}

#[test]
fn references_are_followed_and_their_cycles_end() {
    let bytes = raw_pdf(
        &[
            (1, "<< /Type /Catalog >>"),
            (2, "3 0 R"),
            (3, "(end)"),
            (4, "5 0 R"),
            (5, "4 0 R"),
        ],
        "/Root 1 0 R",
        |_, offset| offset,
    );
    let lazy = LazyDocument::from_source(bytes.as_slice(), LoadOptions::default()).unwrap();
    let end = Object::String(b"end".to_vec(), StringFormat::Literal);
    assert_eq!(lazy.get_object((2, 0)).unwrap(), end);
    assert_eq!(lazy.dereference(&Object::Reference((2, 0))).unwrap(), end);
    assert_eq!(lazy.dereference(&integer(5)).unwrap(), integer(5));
    assert!(matches!(lazy.get_object((4, 0)), Err(Error::ReferenceLimit)));
    assert!(matches!(lazy.get_object((3, 1)), Err(Error::MissingXrefEntry)));
    assert!(matches!(lazy.get_dictionary((3, 0)), Err(Error::ObjectType { .. })));
}

#[test]
fn content_streams_are_found_without_their_content() {
    let doc = sample_document(2);
    let bytes = save(&doc, false, false);
    let lazy = LazyDocument::from_source(bytes.as_slice(), LoadOptions::default()).unwrap();
    for page in doc.get_pages().values() {
        let ids = lazy.page_content_ids(*page).unwrap();
        assert_eq!(ids, doc.get_page_contents(*page));
        match lazy.peek(ids[0]).unwrap() {
            Peeked::Stream { start, len, .. } => {
                let content = &bytes[start..start + len];
                assert!(content.starts_with(b"BT (page "));
                assert!(content.ends_with(b") Tj ET"));
            }
            _ => panic!("a content stream"),
        }
        assert!(matches!(lazy.peek(*page).unwrap(), Peeked::Object(Object::Dictionary(_))));
    }
    assert!(matches!(lazy.peek((99, 0)).unwrap(), Peeked::Missing));
}

#[test]
fn a_stream_whose_length_is_wrong_is_read_whole() {
    let bytes = raw_pdf(
        &[
            (1, "<< /Type /Catalog >>"),
            (2, "<< /Length 100 >>\nstream\nabc\nendstream"),
            (3, "<< /Length 4 0 R >>\nstream\nabcdef\nendstream"),
            (4, "6"),
        ],
        "/Root 1 0 R",
        |_, offset| offset,
    );
    let lazy = LazyDocument::from_source(bytes.as_slice(), LoadOptions::default()).unwrap();
    assert!(!matches!(lazy.peek((2, 0)).unwrap(), Peeked::Stream { .. }));
    assert!(matches!(lazy.peek((3, 0)).unwrap(), Peeked::Stream { len: 6, .. }));
    match lazy.get_object((3, 0)).unwrap() {
        Object::Stream(stream) => assert_eq!(stream.content, b"abcdef"),
        other => panic!("{other:?}"),
    }
}

#[test]
fn a_page_s_own_document_holds_its_fonts_and_nothing_else() {
    let mut doc = Document::with_version("1.7");
    let tree = doc.new_object_id();
    let program = doc.add_object(Object::Stream(Stream {
        dict: dictionary(vec![]),
        content: vec![1; 100],
    }));
    let descriptor = doc.add_object(object(vec![("FontFile2", Object::Reference(program))]));
    let cmap = doc.add_object(Object::Stream(Stream {
        dict: dictionary(vec![]),
        content: b"cmap".to_vec(),
    }));
    let font = doc.add_object(object(vec![
        ("Type", name("Font")),
        ("ToUnicode", Object::Reference(cmap)),
        ("FontDescriptor", Object::Reference(descriptor)),
    ]));
    let image = doc.add_object(Object::Stream(Stream {
        dict: dictionary(vec![]),
        content: vec![2; 100],
    }));
    let resources = doc.add_object(object(vec![
        ("Font", object(vec![("F1", Object::Reference(font))])),
        ("XObject", object(vec![("Im", Object::Reference(image))])),
    ]));
    let content = doc.add_object(Object::Stream(Stream {
        dict: dictionary(vec![]),
        content: b"BT ET".to_vec(),
    }));
    let page = doc.add_object(object(vec![
        ("Type", name("Page")),
        ("Parent", Object::Reference(tree)),
        ("Contents", Object::Reference(content)),
    ]));
    let other = doc.add_object(object(vec![("Type", name("Page")), ("Parent", Object::Reference(tree))]));
    doc.set_object(
        tree,
        object(vec![
            ("Type", name("Pages")),
            ("Kids", Object::Array(vec![Object::Reference(page), Object::Reference(other)])),
            ("Resources", Object::Reference(resources)),
        ]),
    );
    let catalog = doc.add_object(object(vec![("Type", name("Catalog")), ("Pages", Object::Reference(tree))]));
    doc.trailer.set(b"Root".to_vec(), Object::Reference(catalog));
    let bytes = save(&doc, false, false);
    let lazy = LazyDocument::from_source(bytes.as_slice(), LoadOptions::default()).unwrap();

    let alone = lazy.page_text_document(page).unwrap();

    for id in [page, tree, resources, font, cmap, descriptor] {
        assert_eq!(alone.get_object(id).unwrap(), &lazy.get_object(id).unwrap(), "{id:?}");
    }
    for id in [program, image, content, other, catalog] {
        assert!(alone.get_object(id).is_err(), "{id:?}");
    }
    assert_eq!(alone.version, "1.7");
}

#[test]
fn a_stream_is_decrypted_as_it_is_read() {
    let key: Vec<u8> = (1..=16).collect();
    let plain: Vec<u8> = (0..200_000u32).map(|i| (i * 7 % 251) as u8).collect();
    let mut doc = sample_document(1);
    let sealed = doc.add_object(Object::Stream(Stream {
        dict: dictionary(vec![("Kind", name("Sealed"))]),
        content: Rc4::new(&key).encrypt(&plain),
    }));
    let bytes = save(&doc, false, false);
    let lazy = LazyDocument::from_source(bytes.as_slice(), LoadOptions::default()).unwrap();

    let (dict, content) = lazy
        .open_content(sealed, Some((Rc4CryptFilter, key.clone())))
        .unwrap()
        .unwrap();

    assert_eq!(dict.get(b"Kind").unwrap(), &name("Sealed"));
    let mut content = match content {
        StoredContent::Read(content) => content,
        StoredContent::Held(_) => panic!("a stream in the source"),
    };
    for _ in 0..2 {
        let mut output = Vec::new();
        while content.read_chunk(&mut output).unwrap() {}
        assert!(output == plain);
        content.rewind().unwrap();
    }

    // Content that is no whole number of blocks cannot be AES, and is read as it is stored.
    let odd = doc.add_object(Object::Stream(Stream {
        dict: dictionary(vec![]),
        content: b"seventeen bytes..".to_vec(),
    }));
    let bytes = save(&doc, false, false);
    let lazy = LazyDocument::from_source(bytes.as_slice(), LoadOptions::default()).unwrap();
    let (_, content) = lazy.open_content(odd, Some((Aes128CryptFilter, key))).unwrap().unwrap();
    match content {
        StoredContent::Read(mut content) => {
            let mut output = Vec::new();
            while content.read_chunk(&mut output).unwrap() {}
            assert_eq!(output, b"seventeen bytes..");
        }
        StoredContent::Held(_) => panic!("a stream in the source"),
    }
    let page = doc.get_pages()[&1];
    assert!(lazy.open_content::<Rc4CryptFilter>(page, None).unwrap().is_none());
    assert!(!lazy.is_encrypted());
}

const LIMIT: usize = 16 * 1024 * 1024;

/// What each code of a font shows, read from the single letters that `/Differences` names or from
/// the single characters of a `/ToUnicode` CMap, and else as WinAnsi text.
struct Letters {
    code_len: usize,
    shown: BTreeMap<Vec<u8>, String>,
}

impl TextEncoding for Letters {
    fn reads_bytes(&self) -> bool {
        self.code_len == 1
    }

    fn decode(&self, codes: &[u8]) -> Option<String> {
        Some(
            codes
                .chunks(self.code_len)
                .map(|code| match self.shown.get(code) {
                    Some(text) => text.clone(),
                    None => (code[code.len() - 1] as char).to_string(),
                })
                .collect(),
        )
    }
}

struct FontLetters;

impl FontEncodings<Letters> for FontLetters {
    fn encoding(&self, document: &Document, font: &Dictionary, _limit: usize) -> Option<Letters> {
        let mut shown = BTreeMap::new();
        if let Ok(Object::Reference(id)) = font.get(b"ToUnicode") {
            let Ok(Object::Stream(cmap)) = document.get_object(*id) else {
                return None;
            };
            let mut text = Vec::new();
            std::io::Read::read_to_end(&mut ZlibDecoder::new(cmap.content.as_slice()), &mut text).unwrap();
            let text = String::from_utf8(text).unwrap();
            let bytes = |hex: &str| -> Vec<u8> {
                let digits = hex.trim_matches(|c| c == '<' || c == '>');
                (0..digits.len() / 2)
                    .map(|i| u8::from_str_radix(&digits[2 * i..2 * i + 2], 16).unwrap())
                    .collect()
            };
            let start = text.find("beginbfchar\n").unwrap() + 12;
            for line in text[start..text.find("endbfchar").unwrap()].lines() {
                let (code, units) = line.split_once(' ').unwrap();
                let units: Vec<u16> = bytes(units)
                    .chunks(2)
                    .map(|unit| u16::from_be_bytes([unit[0], unit[1]]))
                    .collect();
                shown.insert(bytes(code), String::from_utf16(&units).unwrap());
            }
            return Some(Letters { code_len: 2, shown });
        }
        if let Ok(Object::Reference(id)) = font.get(b"Encoding") {
            let Ok(encoding) = document.get_dictionary(*id) else {
                return None;
            };
            let mut code = 0;
            if let Ok(Object::Array(differences)) = encoding.get(b"Differences") {
                for item in differences {
                    match item {
                        Object::Integer(first) => code = *first as u8,
                        Object::Name(name) => {
                            shown.insert(vec![code], String::from_utf8(name.clone()).unwrap());
                            code += 1;
                        }
                        _ => {}
                    }
                }
            }
        }
        Some(Letters { code_len: 1, shown })
    }
}

/// Four pages under a tree whose `/Resources` the first page inherits:
/// 1. two content streams with a standard Type 1 font and a font with a `/Differences` encoding;
/// 2. its own resources with a Type 0 font, whose `/ToUnicode` CMap maps to non-Latin text and
///    whose descendant carries an embedded font program;
/// 3. only an image;
/// 4. contents given as a reference to an array of streams.
struct Fixture {
    document: Document,
    pages: Vec<ObjectId>,
    font_program: ObjectId,
    image: ObjectId,
}

fn compressed(dict: Dictionary, content: &[u8]) -> Object {
    let mut encoder = ZlibEncoder::new(Vec::new(), Compression::default());
    encoder.write_all(content).unwrap();
    let mut dict = dict;
    dict.set(b"Filter".to_vec(), name("FlateDecode"));
    Object::Stream(Stream {
        dict,
        content: encoder.finish().unwrap(),
    })
}

impl Fixture {
    fn build() -> Self {
        let mut doc = Document::with_version("1.7");
        let tree = doc.new_object_id();

        let helvetica = doc.add_object(object(vec![
            ("Type", name("Font")),
            ("Subtype", name("Type1")),
            ("BaseFont", name("Helvetica")),
            ("Encoding", name("WinAnsiEncoding")),
        ]));
        let swapped = doc.add_object(object(vec![
            ("Type", name("Encoding")),
            ("BaseEncoding", name("WinAnsiEncoding")),
            ("Differences", Object::Array(vec![integer(65), name("B"), name("A")])),
        ]));
        let differences_font = doc.add_object(object(vec![
            ("Type", name("Font")),
            ("Subtype", name("Type1")),
            ("BaseFont", name("Times-Roman")),
            ("Encoding", Object::Reference(swapped)),
        ]));
        let inherited = doc.add_object(object(vec![(
            "Font",
            object(vec![
                ("F1", Object::Reference(helvetica)),
                ("F2", Object::Reference(differences_font)),
            ]),
        )]));

        let font_program = doc.add_object(Object::Stream(Stream {
            dict: dictionary(vec![]),
            content: vec![0x5a; 4096],
        }));
        let descriptor = doc.add_object(object(vec![
            ("Type", name("FontDescriptor")),
            ("FontName", name("Embedded")),
            ("FontFile2", Object::Reference(font_program)),
        ]));
        let descendant = doc.add_object(object(vec![
            ("Type", name("Font")),
            ("Subtype", name("CIDFontType2")),
            ("BaseFont", name("Embedded")),
            ("FontDescriptor", Object::Reference(descriptor)),
        ]));
        let cmap = "/CIDInit /ProcSet findresource begin\n12 dict begin\nbegincmap\n\
            /CMapName /Adobe-Identity-UCS def\n/CMapType 2 def\n\
            1 begincodespacerange\n<0000> <FFFF>\nendcodespacerange\n\
            2 beginbfchar\n<0001> <00C700610020>\n<0002> <2713>\nendbfchar\n\
            endcmap\nCMapName currentdict /CMap defineresource pop\nend\nend\n";
        let to_unicode = doc.add_object(compressed(dictionary(vec![]), cmap.as_bytes()));
        let type0 = doc.add_object(object(vec![
            ("Type", name("Font")),
            ("Subtype", name("Type0")),
            ("BaseFont", name("Embedded")),
            ("Encoding", name("Identity-H")),
            ("DescendantFonts", Object::Array(vec![Object::Reference(descendant)])),
            ("ToUnicode", Object::Reference(to_unicode)),
        ]));

        let image = doc.add_object(Object::Stream(Stream {
            dict: dictionary(vec![
                ("Type", name("XObject")),
                ("Subtype", name("Image")),
                ("Width", integer(1)),
                ("Height", integer(1)),
                ("ColorSpace", name("DeviceGray")),
                ("BitsPerComponent", integer(8)),
            ]),
            content: vec![0x80],
        }));

        let mut content =
            |operations: &str| Object::Reference(doc.add_object(compressed(dictionary(vec![]), operations.as_bytes())));
        let show = |font: &str, text: &str| format!("BT\n/{font} 12 Tf\n72 700 Td\n{text} Tj\nET");
        let first_contents = Object::Array(vec![
            content(&show("F1", "(Hello)")),
            content(&show("F2", "(ABBA)")),
        ]);
        let second_contents = content(&show("F3", "<00010002>"));
        let third_contents = content("q\n10 0 0 10 0 0 cm\n/Im1 Do\nQ");
        let fourth_streams = vec![
            content(&show("F1", "(through an )")),
            content(&show("F1", "(indirect array)")),
        ];
        let fourth_contents = Object::Reference(doc.add_object(Object::Array(fourth_streams)));

        let mut page = |entries: Vec<(&str, Object)>| {
            let mut page = dictionary(vec![("Type", name("Page")), ("Parent", Object::Reference(tree))]);
            for (key, value) in entries {
                page.set(key.as_bytes().to_vec(), value);
            }
            doc.add_object(Object::Dictionary(page))
        };
        let pages = vec![
            page(vec![("Contents", first_contents)]),
            page(vec![
                ("Contents", second_contents),
                (
                    "Resources",
                    object(vec![("Font", object(vec![("F3", Object::Reference(type0))]))]),
                ),
            ]),
            page(vec![
                ("Contents", third_contents),
                (
                    "Resources",
                    object(vec![("XObject", object(vec![("Im1", Object::Reference(image))]))]),
                ),
            ]),
            page(vec![("Contents", fourth_contents)]),
        ];
        doc.set_object(
            tree,
            object(vec![
                ("Type", name("Pages")),
                ("Count", integer(pages.len() as i64)),
                ("Kids", Object::Array(pages.iter().map(|id| Object::Reference(*id)).collect())),
                ("Resources", Object::Reference(inherited)),
                (
                    "MediaBox",
                    Object::Array(vec![integer(0), integer(0), integer(612), integer(792)]),
                ),
            ]),
        );
        let catalog = doc.add_object(object(vec![("Type", name("Catalog")), ("Pages", Object::Reference(tree))]));
        doc.trailer.set(b"Root".to_vec(), Object::Reference(catalog));
        Self {
            document: doc,
            pages,
            font_program,
            image,
        }
    }
}

/// What the whole document gives as the text of page `id`.
fn whole_text(doc: &Document, id: ObjectId, limit: usize) -> Result<String, Error> {
    doc.page_text_runs(id, DecodeLimits::uniform(limit), &FontLetters)
        .map(|runs| runs.into_iter().map(|run| run.text).collect::<String>())
}

#[test]
fn the_text_of_a_page_is_that_of_the_whole_document() {
    let fixture = Fixture::build();
    for (label, object_streams, xref_streams) in [
        ("classic table", false, false),
        ("xref stream", false, true),
        ("object streams", true, true),
    ] {
        let bytes = save(&fixture.document, object_streams, xref_streams);
        let lazy = LazyDocument::from_source(bytes.as_slice(), LoadOptions::default()).unwrap();
        for (number, id) in fixture.document.get_pages() {
            let expected = whole_text(&fixture.document, id, LIMIT);
            let actual = lazy.extract_page_text_with_limits(id, DecodeLimits::uniform(LIMIT), &FontLetters);
            assert_eq!(format!("{actual:?}"), format!("{expected:?}"), "{label}, page {number}");
        }
    }

    let bytes = save(&fixture.document, true, true);
    let lazy = LazyDocument::from_source(bytes.as_slice(), LoadOptions::default()).unwrap();
    let text = |page: ObjectId| {
        lazy.extract_page_text_with_limits(page, DecodeLimits::uniform(LIMIT), &FontLetters)
            .unwrap()
    };
    assert!(text(fixture.pages[0]).contains("Hello"));
    assert!(text(fixture.pages[0]).contains("BAAB"));
    assert!(text(fixture.pages[1]).contains("\u{c7}a \u{2713}"));
    assert!(text(fixture.pages[3]).contains("indirect"));
}

/// Page text reads the page, its ancestors, fonts, and content, and nothing else: no font
/// program, no image, no other page. Content streams are read from the source a chunk at a time,
/// so no read is large even for a page with megabytes of content.
#[test]
fn page_text_reads_only_what_it_needs_and_never_a_large_block() {
    let mut fixture = Fixture::build();
    let first = fixture.pages[0];
    // Hex digits from xorshift, which deflate to about half their size.
    let mut state = 0x9e37_79b9_7f4a_7c15_u64;
    let noise: String = (0..3_000_000)
        .map(|_| {
            state ^= state << 13;
            state ^= state >> 7;
            state ^= state << 17;
            char::from(b"0123456789abcdef"[(state >> 60) as usize])
        })
        .collect();
    let large = fixture.document.add_object(compressed(
        dictionary(vec![]),
        format!("BT /F1 12 Tf <{noise}> Tj ET").as_bytes(),
    ));
    let mut page = fixture.document.get_dictionary(first).unwrap().clone();
    let Ok(Object::Array(contents)) = page.get(b"Contents") else {
        panic!("the contents are an array");
    };
    let mut contents = contents.clone();
    contents.push(Object::Reference(large));
    page.set(b"Contents".to_vec(), Object::Array(contents));
    fixture.document.set_object(first, Object::Dictionary(page));
    let bytes = save(&fixture.document, false, false);
    let file_len = bytes.len() as u64;
    let source = RecordingSource::new(bytes);
    let lazy = LazyDocument::from_source(&source, LoadOptions::default()).unwrap();
    let forbidden: Vec<(u64, u64)> = [fixture.font_program, fixture.image]
        .iter()
        .chain(&fixture.pages[1..])
        .map(|id| object_range(&lazy, *id, file_len))
        .collect();
    let (large_start, large_end) = object_range(&lazy, large, file_len);
    assert!(large_end - large_start > 1_000_000, "{}", large_end - large_start);
    source.reads.borrow_mut().clear();

    let text = lazy
        .extract_page_text_with_limits(first, DecodeLimits::uniform(LIMIT), &FontLetters)
        .unwrap();

    assert!(text.contains("Hello") && text.contains("BAAB"), "{text:?}");
    let reads = source.reads.borrow();
    for &(offset, len) in reads.iter() {
        assert!(len <= 64 * 1024, "a read of {len} bytes at {offset}");
        for &(start, end) in &forbidden {
            assert!(
                !(start..end).contains(&offset),
                "read at {offset} inside an object at {start}..{end}"
            );
        }
    }
    assert!(
        reads
            .iter()
            .any(|&(offset, _)| (large_start..large_end).contains(&offset))
    );
}

/// Where object `id` lies in a source of `len` bytes: from its offset to the next object's.
fn object_range<S: RandomAccessSource>(lazy: &LazyDocument<S>, id: ObjectId, len: u64) -> (u64, u64) {
    let table = lazy.reference_table();
    let offset = |id: u32| match table.get(id) {
        Some(XrefEntry::Normal { offset, .. }) => Some(u64::from(offset)),
        _ => None,
    };
    let Some(start) = offset(id.0) else {
        panic!("object {id:?} is not stored on its own");
    };
    let end = table
        .ids()
        .iter()
        .filter_map(|id| offset(*id))
        .filter(|&next| next > start)
        .min()
        .unwrap_or(len);
    (start, end)
}

/// A source that records every read.
struct RecordingSource {
    bytes: Vec<u8>,
    reads: RefCell<Vec<(u64, usize)>>,
}

impl RecordingSource {
    fn new(bytes: Vec<u8>) -> Self {
        Self {
            bytes,
            reads: RefCell::new(Vec::new()),
        }
    }
}

impl RandomAccessSource for RecordingSource {
    fn len(&self) -> u64 {
        self.bytes.len() as u64
    }

    fn read_exact_at(&self, offset: u64, buf: &mut Vec<u8>) -> Result<(), IoError> {
        self.reads.borrow_mut().push((offset, buf.len()));
        self.bytes.read_exact_at(offset, buf)
    }
}

/// The pages of one call share the total bound.
#[test]
fn the_pages_of_one_call_share_the_total_bound() {
    let fixture = Fixture::build();
    let bytes = save(&fixture.document, true, true);
    let lens: Vec<usize> = fixture
        .pages
        .iter()
        .map(|id| {
            let mut content = Vec::new();
            let failure =
                PageContent::new(&fixture.document, *id, DecodeLimits::unbounded()).read_rest(&mut content);
            assert_eq!(failure, None);
            content.len()
        })
        .collect();
    let limits = DecodeLimits {
        max_total_content_size: lens[0] + lens[1],
        ..DecodeLimits::uniform(LIMIT)
    };
    let lazy = LazyDocument::from_source(bytes.as_slice(), LoadOptions::default()).unwrap();

    let texts = lazy.extract_pages_text_with_limits(&fixture.pages, limits, &FontLetters);

    assert!(texts[0].is_ok() && texts[1].is_ok());
    assert_eq!(texts.len(), 4);
    for text in &texts[2..] {
        assert!(matches!(
            text,
            Err(Error::Decompress(DecompressError::MemoryLimitExceeded { limit }))
                if *limit == lens[0] + lens[1]
        ));
    }
    // Each page on its own is within the total.
    for page in fixture.pages {
        assert!(lazy.extract_page_text_with_limits(page, limits, &FontLetters).is_ok());
    }
}

#[test]
fn a_decompression_bomb_fails_the_page_as_in_the_eager_extractor() {
    let mut doc = Fixture::build().document;
    let bomb = doc.add_object(compressed(dictionary(vec![]), &vec![b' '; 4 * 1024 * 1024]));
    let first = doc.get_pages()[&1];
    let mut page = doc.get_dictionary(first).unwrap().clone();
    page.set(b"Contents".to_vec(), Object::Reference(bomb));
    doc.set_object(first, Object::Dictionary(page));
    let bytes = save(&doc, true, true);
    let limit = 1024 * 1024;

    let eager = whole_text(&doc, first, limit);
    let lazy = LazyDocument::from_source(bytes.as_slice(), LoadOptions::default())
        .unwrap()
        .extract_page_text_with_limits(first, DecodeLimits::uniform(limit), &FontLetters);

    assert!(matches!(
        lazy,
        Err(Error::Decompress(DecompressError::MemoryLimitExceeded { .. }))
    ));
    assert_eq!(format!("{lazy:?}"), format!("{eager:?}"));
}

/// Decrypts with RC4, under the password and the object's number.
struct NumberedRc4 {
    password: String,
}

impl NumberedRc4 {
    fn apply(&self, id: ObjectId, object: &mut Object) {
        let mut key = format!("key {} ", id.0).into_bytes();
        key.extend_from_slice(self.password.as_bytes());
        let apply = |bytes: &mut Vec<u8>| *bytes = Rc4::new(&key).decrypt(bytes);
        match object {
            Object::String(bytes, _) => apply(bytes),
            Object::Stream(stream) => apply(&mut stream.content),
            Object::Array(items) => items.iter_mut().for_each(|item| self.apply(id, item)),
            Object::Dictionary(dictionary) => {
                for name in ["ID", "Label"] {
                    if let Ok(value) = dictionary.get(name.as_bytes()) {
                        let mut value = value.clone();
                        self.apply(id, &mut value);
                        dictionary.set(name.as_bytes().to_vec(), value);
                    }
                }
            }
            _ => {}
        }
    }
}

impl ObjectDecryption for NumberedRc4 {
    fn decrypt(&self, id: ObjectId, object: Object) -> Object {
        let mut object = object;
        self.apply(id, &mut object);
        object
    }
}

/// Opens documents whose encryption dictionary spells the password, encrypted with itself.
struct SpelledPassword;

impl SecurityHandler<NumberedRc4> for SpelledPassword {
    fn authenticate(&self, trailer: &Dictionary, dictionary: &Option<Object>, password: &str) -> bool {
        assert!(trailer.get(b"Encrypt").is_ok());
        let Some(Object::Dictionary(dictionary)) = dictionary else {
            return false;
        };
        match dictionary.get(b"U") {
            Ok(Object::String(user, _)) => {
                *user == Rc4::new(format!("pass {password}").as_bytes()).encrypt(password.as_bytes())
            }
            _ => false,
        }
    }

    fn unlock(
        &self,
        _trailer: &Dictionary,
        _dictionary: &Option<Object>,
        password: &str,
    ) -> Result<NumberedRc4, Error> {
        if password == "broken" {
            return Err(Error::Decryption(DecryptionError::InvalidKeyLength));
        }
        Ok(NumberedRc4 {
            password: password.to_owned(),
        })
    }
}

/// A document of two pages with labels, and the same encrypted under `password`.
fn encrypted_document(password: &str) -> (Document, Vec<u8>) {
    let mut plain = sample_document(2);
    for id in plain.get_pages().into_values() {
        let mut page = plain.get_dictionary(id).unwrap().clone();
        page.set(
            b"Label".to_vec(),
            Object::String(format!("page {}", id.0).into_bytes(), StringFormat::Hexadecimal),
        );
        plain.set_object(id, Object::Dictionary(page));
    }
    let user = Rc4::new(format!("pass {password}").as_bytes()).encrypt(password.as_bytes());
    let dictionary = plain.add_object(object(vec![
        ("Filter", name("Standard")),
        ("U", Object::String(user, StringFormat::Hexadecimal)),
        ("Label", Object::String(b"not encrypted".to_vec(), StringFormat::Hexadecimal)),
    ]));
    plain.trailer.set(b"Encrypt".to_vec(), Object::Reference(dictionary));
    let mut encrypted = Document::with_version(&plain.version);
    encrypted.trailer = plain.trailer.clone();
    let cipher = NumberedRc4 {
        password: password.to_owned(),
    };
    for number in 1..=plain.max_id {
        let id = (number, 0);
        if let Some(object) = plain.objects.get(id) {
            let mut object = object.clone();
            if id != dictionary {
                cipher.apply(id, &mut object);
            }
            encrypted.set_object(id, object);
        }
    }
    let bytes = save(&encrypted, false, false);
    (plain, bytes)
}

fn spelled(password: Option<&str>) -> LoadOptions<SpelledPassword> {
    LoadOptions {
        strict: false,
        max_decompressed_size: None,
        password: password.map(str::to_owned),
        security: SpelledPassword,
    }
}

fn with_password(password: &str) -> LoadOptions<SpelledPassword> {
    spelled(Some(password))
}

#[test]
fn a_file_encrypted_with_an_empty_password_opens_decrypted() {
    let (plain, bytes) = encrypted_document("");
    for options in [spelled(None), with_password("anything")] {
        let lazy = LazyDocument::from_source(bytes.as_slice(), options).unwrap();
        assert!(lazy.is_encrypted());
        assert!(lazy.encryption_state().is_some());
        assert_eq!(lazy.get_pages().unwrap(), plain.get_pages());
        let clear = save(&plain, false, false);
        let clear = LazyDocument::from_source(clear.as_slice(), LoadOptions::default()).unwrap();
        for number in 1..=plain.max_id {
            assert_eq!(
                format!("{:?}", lazy.get_object((number, 0))),
                format!("{:?}", clear.get_object((number, 0)))
            );
        }
    }
}

#[test]
fn a_user_password_is_needed_to_decrypt_and_a_wrong_one_is_refused() {
    let (plain, bytes) = encrypted_document("secret");

    let without = LazyDocument::from_source(bytes.as_slice(), spelled(None)).unwrap();
    assert!(without.is_encrypted());
    assert!(without.encryption_state().is_none());
    let first = plain.get_pages()[&1];
    assert_ne!(
        without.get_dictionary(first).unwrap().get(b"Label"),
        plain.get_dictionary(first).unwrap().get(b"Label")
    );

    let with = LazyDocument::from_source(bytes.as_slice(), with_password("secret")).unwrap();
    assert!(with.encryption_state().is_some());
    assert_eq!(with.get_pages().unwrap(), plain.get_pages());
    for id in plain.get_pages().values() {
        assert_eq!(&with.get_dictionary(*id).unwrap(), plain.get_dictionary(*id).unwrap());
        let limits = DecodeLimits::unbounded();
        assert_eq!(
            with.extract_page_text_with_limits(*id, limits, &NamedEncodings),
            LazyDocument::from_source(save(&plain, false, false).as_slice(), LoadOptions::default())
                .unwrap()
                .extract_page_text_with_limits(*id, limits, &NamedEncodings)
        );
    }

    let wrong = LazyDocument::from_source(bytes.as_slice(), with_password("wrong"));
    assert!(matches!(wrong, Err(Error::InvalidPassword)));
    // A password may open a file and still unlock nothing.
    let (_, bytes) = encrypted_document("broken");
    assert!(matches!(
        LazyDocument::from_source(bytes.as_slice(), with_password("broken")),
        Err(Error::Decryption(DecryptionError::InvalidKeyLength))
    ));
}

/// A page that the source fails to give counts with the content in front of the failure.
#[test]
fn a_page_that_fails_on_the_source_counts_what_it_decoded() {
    let fixture = Fixture::build();
    let bytes = save(&fixture.document, false, false);
    let pages = [fixture.pages[3], fixture.pages[1]];
    let limits = |total: usize| DecodeLimits {
        max_total_content_size: total,
        ..DecodeLimits::uniform(LIMIT)
    };
    let mut content = Vec::new();
    PageContent::new(&fixture.document, pages[1], limits(LIMIT)).read_rest(&mut content);
    let second = content.len();
    // The second content stream of the first page is out of reach.
    let Ok(Object::Reference(array)) = fixture.document.get_dictionary(pages[0]).unwrap().get(b"Contents") else {
        panic!("the contents are indirect");
    };
    let Ok(Object::Array(streams)) = fixture.document.get_object(*array) else {
        panic!("the contents are an array");
    };
    let Object::Reference(last) = streams[1] else {
        panic!("a stream");
    };
    let place = {
        let lazy = LazyDocument::from_source(bytes.as_slice(), LoadOptions::default()).unwrap();
        object_range(&lazy, last, bytes.len() as u64)
    };
    let source = BrokenSource {
        bytes,
        place,
        broken: Cell::new(false),
    };
    let lazy = LazyDocument::from_source(&source, LoadOptions::default()).unwrap();
    source.broken.set(true);
    let read = |total: usize| lazy.extract_pages_text_with_limits(&pages.to_vec(), limits(total), &FontLetters);
    let failed = Err(Error::IO(IoError::Other));
    let texts = read(LIMIT);
    assert_eq!(texts[0], failed);
    assert!(texts[1].is_ok());
    // The first stream of the failed page takes its part of the total.
    let total = second + 20;
    let texts = read(total);
    assert_eq!(texts[0], failed);
    assert!(matches!(
        texts[1],
        Err(Error::Decompress(DecompressError::MemoryLimitExceeded { limit })) if limit == total
    ));
    // What is in front of the failure is already too much.
    let texts = read(3);
    for text in texts {
        assert!(matches!(
            text,
            Err(Error::Decompress(DecompressError::MemoryLimitExceeded { limit: 3 }))
        ));
    }
}

/// Serves bytes from memory, but once it is broken none of one place.
struct BrokenSource {
    bytes: Vec<u8>,
    place: (u64, u64),
    broken: Cell<bool>,
}

impl RandomAccessSource for BrokenSource {
    fn len(&self) -> u64 {
        self.bytes.len() as u64
    }

    fn read_exact_at(&self, offset: u64, buf: &mut Vec<u8>) -> Result<(), IoError> {
        // The head of the object can be read, and its content cannot.
        if self.broken.get() && (self.place.0 + 1..self.place.1).contains(&offset) {
            return Err(IoError::Other);
        }
        self.bytes.read_exact_at(offset, buf)
    }
}

/// A PDF whose cross-reference stream gives object `n` the entry `rows[n]`, where `bodies` stand at
/// the offsets that they are given.
fn with_rows(bodies: &[(u32, Vec<u8>)], rows: &dyn Fn(&BTreeMap<u32, u32>) -> Vec<(u8, u32, u16)>) -> Vec<u8> {
    let mut out = b"%PDF-1.5\n".to_vec();
    let mut offsets = BTreeMap::new();
    for (number, body) in bodies {
        offsets.insert(*number, out.len() as u32);
        out.extend_from_slice(format!("{number} 0 obj\n").as_bytes());
        out.extend_from_slice(body);
        out.extend_from_slice(b"\nendobj\n");
    }
    let start = out.len();
    let mut rows = rows(&offsets);
    let table = rows.len() as u32;
    rows.push((1, start as u32, 0));
    let mut content = Vec::new();
    for (kind, field, last) in &rows {
        content.push(*kind);
        content.extend_from_slice(&field.to_be_bytes());
        content.extend_from_slice(&last.to_be_bytes());
    }
    let dict = dictionary(vec![
        ("Type", name("XRef")),
        ("Size", integer(rows.len() as i64)),
        ("W", Object::Array(vec![integer(1), integer(4), integer(2)])),
        ("Root", Object::Reference((1, 0))),
    ]);
    out.extend_from_slice(format!("{table} 0 obj\n").as_bytes());
    write_object(&mut out, &Object::Stream(Stream { dict, content }));
    out.extend_from_slice(format!("\nendobj\nstartxref\n{start}\n%%EOF\n").as_bytes());
    out
}

fn object_stream_body(index: &str, held: &str, length: &str) -> Vec<u8> {
    let first = index.len();
    let count = index.split_whitespace().count() / 2;
    format!("<< /Type /ObjStm /N {count} /First {first} /Length {length} >>\nstream\n{index}{held}\nendstream")
        .into_bytes()
}

#[test]
fn an_object_stream_may_have_its_length_in_another_but_not_stand_in_one() {
    // Object stream 2 holds object 5, and its length is object 6, which object stream 3 holds. What
    // object stream 2 holds names the end of its content.
    let held = "(one endstream two)";
    let len = "5 0 ".len() + held.len();
    let bodies = [
        (1, b"<< /Type /Catalog >>".to_vec()),
        (2, object_stream_body("5 0 ", held, "6 0 R")),
        (3, object_stream_body("6 0 7 4 ", &format!("{len:<3} (in)"), "16")),
    ];
    let bytes = with_rows(&bodies, &|offsets| {
        vec![
            (0, 0, 0),
            (1, offsets[&1], 0),
            (1, offsets[&2], 0),
            (1, offsets[&3], 0),
            // An object stream that stands in object stream 3, as object 4 and 7.
            (2, 3, 1),
            (2, 2, 0),
            (2, 3, 0),
            (2, 3, 1),
            // An object of object stream 7, which is no stream, and one of object stream 4, which is
            // not there.
            (2, 7, 0),
            (2, 4, 0),
            // Two object streams that stand in each other.
            (2, 11, 0),
            (2, 10, 0),
        ]
    });
    let lazy = LazyDocument::from_source(bytes.as_slice(), LoadOptions::default()).unwrap();
    assert_eq!(
        lazy.get_object((5, 0)).unwrap(),
        Object::String(b"one endstream two".to_vec(), StringFormat::Literal)
    );
    assert_eq!(lazy.get_object((6, 0)).unwrap(), Object::Integer(len as i64));
    assert!(matches!(
        lazy.get_object((8, 0)),
        Err(Error::ObjectType {
            expected: ObjectKind::Stream,
            found: ObjectKind::String
        })
    ));
    assert!(matches!(lazy.get_object((9, 0)), Err(Error::MissingXrefEntry)));
    assert!(matches!(lazy.get_object((10, 0)), Err(Error::ReferenceCycle(_))));
}

/// A font that refers to its page, or to the resources it is named in, leads nowhere that text is read.
#[test]
fn a_font_may_refer_into_the_page_tree() {
    let mut fixture = Fixture::build();
    let first = fixture.pages[0];
    let doc = &mut fixture.document;
    let tree = doc.get_dictionary(first).unwrap().get(b"Parent").unwrap().clone();
    let Object::Reference(tree) = tree else {
        panic!("the parent is a reference");
    };
    let Object::Reference(inherited) = doc.get_dictionary(tree).unwrap().get(b"Resources").unwrap().clone() else {
        panic!("the resources are an object");
    };
    let Object::Dictionary(fonts) = doc.get_dictionary(inherited).unwrap().get(b"Font").unwrap().clone() else {
        panic!("the fonts are a dictionary");
    };
    let Object::Reference(font) = fonts.get(b"F1").unwrap().clone() else {
        panic!("the font is an object");
    };
    let mut dictionary = doc.get_dictionary(font).unwrap().clone();
    dictionary.set(b"Page".to_vec(), Object::Reference(first));
    dictionary.set(b"Named".to_vec(), Object::Reference(inherited));
    dictionary.set(b"Tree".to_vec(), Object::Reference(tree));
    doc.set_object(font, Object::Dictionary(dictionary));
    let bytes = save(doc, false, false);
    let lazy = LazyDocument::from_source(bytes.as_slice(), LoadOptions::default()).unwrap();
    for id in fixture.pages {
        let expected = whole_text(&fixture.document, id, LIMIT);
        let actual = lazy.extract_page_text_with_limits(id, DecodeLimits::uniform(LIMIT), &FontLetters);
        assert_eq!(format!("{actual:?}"), format!("{expected:?}"));
    }
}

#[test]
fn a_parsed_dictionary_names_no_key_twice() {
    let bytes = raw_pdf(
        &[(1, "<< /Type /Catalog /A 1 /B 2 /A 3 >>")],
        "/Root 1 0 R /Prev (no offset) /Prev (nor this)",
        |_, offset| offset,
    );
    let lazy = LazyDocument::from_source(bytes.as_slice(), LoadOptions::default()).unwrap();
    let catalog = lazy.get_dictionary((1, 0)).unwrap();
    assert_eq!(catalog.get(b"A"), Ok(&Object::Integer(3)));
    assert_eq!(catalog.entries.len(), 3);
    assert!(lazy.trailer().get(b"Prev").is_err());
}

#[test]
fn what_is_written_is_read_back() {
    let (pages, named, entries) = positions();
    let mut doc = build(&pages, &named, &entries);
    let every = doc.add_object(object(vec![
        ("A b", name("with #space")),
        ("Null", Object::Null),
        ("Flags", Object::Array(vec![Object::Boolean(true), Object::Boolean(false), integer(-7)])),
        ("Text", Object::String(b"(a\\b\rc\n)".to_vec(), StringFormat::Literal)),
        ("Bytes", Object::String(vec![0, 0xab, 0xff], StringFormat::Hexadecimal)),
        ("Empty", object(vec![])),
    ]));
    for bytes in [save_with_table(&doc).unwrap(), save_with_streams(&doc).unwrap()] {
        let lazy = LazyDocument::from_source(bytes.as_slice(), LoadOptions::default()).unwrap();
        assert_eq!(lazy.version(), "1.7");
        assert_eq!(lazy.get_pages().unwrap(), doc.get_pages());
        for number in 1..=doc.max_id {
            let written = doc.get_object((number, 0)).unwrap();
            let read = lazy.get_object((number, 0)).unwrap();
            match (written, &read) {
                (Object::Stream(written), Object::Stream(read)) => assert_eq!(written.content, read.content),
                (written, read) => assert_eq!(written, read),
            }
        }
        assert_eq!(&lazy.get_object(every).unwrap(), doc.get_object(every).unwrap());
        assert!(DocumentOutline::read(&lazy).unwrap() == DocumentOutline::read(&doc).unwrap());
    }
    doc.add_object(Object::Array(vec![Object::Real(Real { bits: 0 })]));
    assert!(save_with_table(&doc).is_none() && save_with_streams(&doc).is_none());
}

#[test]
fn a_written_object_is_its_text() {
    let mut out = Vec::new();
    push_object(
        &mut out,
        &object(vec![
            ("N", integer(-3)),
            ("S", Object::String(b"a)b".to_vec(), StringFormat::Literal)),
            ("R", Object::Reference((12, 3))),
        ]),
    );
    assert_eq!(out, b"<</N -3 /S (a\\)b) /R 12 3 R >>");
}

#[test]
fn the_trailer_is_without_the_older_revisions() {
    let doc = sample_document(2);
    let bytes = save(&doc, false, false);
    let first = doc.get_pages()[&1];
    let updated = with_update(&bytes, &doc, first, &object(vec![("Type", name("Page"))]));
    let lazy = LazyDocument::from_source(updated.as_slice(), LoadOptions::default()).unwrap();
    assert!(lazy.trailer().get(b"Prev").is_err());
    assert_eq!(lazy.trailer().get(b"Root"), doc.trailer.get(b"Root"));
}

#[test]
fn the_copy_of_a_page_knows_its_highest_number() {
    let fixture = Fixture::build();
    let bytes = save(&fixture.document, false, false);
    let lazy = LazyDocument::from_source(bytes.as_slice(), LoadOptions::default()).unwrap();
    let copy = lazy.page_text_document(fixture.pages[0]).unwrap();
    // The page is behind the objects of its fonts, and no other page is copied.
    assert_eq!(copy.max_id, fixture.pages[0].0);
}

#[test]
fn a_read_past_the_end_leaves_the_buffer_as_it_was() {
    let bytes = [1u8, 2, 3];
    let mut buf = vec![9u8; 2];
    assert_eq!(bytes.as_slice().read_exact_at(2, &mut buf), Err(IoError::UnexpectedEof));
    assert_eq!(buf, [9, 9]);
    assert_eq!(bytes.to_vec().read_exact_at(u64::MAX, &mut buf), Err(IoError::UnexpectedEof));
    assert_eq!(buf, [9, 9]);
    assert_eq!(bytes.as_slice().read_exact_at(1, &mut buf), Ok(()));
    assert_eq!(buf, [2, 3]);
}

#[test]
fn bytes_in_front_of_the_header_change_nothing() {
    let fixture = Fixture::build();
    let bytes = save(&fixture.document, false, false);
    let mut shifted = b"%PDF junk %PD\n".to_vec();
    shifted.extend_from_slice(&bytes);
    let plain = LazyDocument::from_source(bytes.as_slice(), LoadOptions::default()).unwrap();
    let lazy = LazyDocument::from_source(shifted.as_slice(), LoadOptions::default()).unwrap();
    assert_eq!(lazy.version(), plain.version());
    assert_eq!(lazy.trailer(), plain.trailer());
    assert_eq!(lazy.reference_table().size(), plain.reference_table().size());
    for number in 0..plain.reference_table().size() {
        assert_eq!(
            lazy.reference_table().get(number),
            plain.reference_table().get(number)
        );
        assert_eq!(
            format!("{:?}", lazy.get_object((number, 0))),
            format!("{:?}", plain.get_object((number, 0)))
        );
    }
    assert_eq!(plain.reference_table().size(), fixture.document.max_id + 1);
}

#[test]
fn the_text_of_each_page_is_read_from_the_source() {
    let fixture = Fixture::build();
    let bytes = save(&fixture.document, false, false);
    let lazy = LazyDocument::from_source(bytes.as_slice(), LoadOptions::default()).unwrap();
    let mut pages: Vec<ObjectId> = lazy.get_pages().unwrap().into_values().collect();
    pages.push((99, 0));
    let texts: Vec<String> = lazy
        .extract_pages_text_with_limits(&pages, DecodeLimits::unbounded(), &NamedEncodings)
        .into_iter()
        .map(|text| text.unwrap())
        .collect();
    assert_eq!(texts[0].lines().next(), Some("Hello"));
    assert_eq!(texts[2..], ["", "through an \nindirect array\n", ""]);
}

/// Opens `bytes` lazily and checks the version, the page map, the catalog, and every page
/// dictionary against `eager`.
fn assert_matches_eager<'a>(eager: &Document, bytes: &'a [u8], label: &str) -> LazyDocument<&'a [u8]> {
    let lazy = LazyDocument::from_source(bytes, LoadOptions::default())
        .unwrap_or_else(|error| panic!("{label}: lazy open failed: {error:?}"));

    assert_eq!(lazy.version(), eager.version, "{label}: version");
    let pages = lazy.get_pages().unwrap();
    assert_eq!(pages, eager.get_pages(), "{label}: pages");
    assert_eq!(&lazy.catalog().unwrap(), eager.catalog().unwrap(), "{label}: catalog");
    for id in pages.values() {
        assert_eq!(
            &lazy.get_dictionary(*id).unwrap(),
            eager.get_dictionary(*id).unwrap(),
            "{label}: page {id:?}"
        );
    }
    lazy
}

/// A document of `page_count` pages under two levels of `/Pages` nodes, so the page order depends
/// on following each node's `/Kids` in order.
fn sample_document(page_count: usize) -> Document {
    let mut doc = Document::with_version("1.5");
    let root_id = doc.new_object_id();
    let mut groups = Vec::new();
    let page_numbers: Vec<usize> = (1..=page_count).collect();
    for chunk in page_numbers.chunks(3) {
        let group_id = doc.new_object_id();
        let kids = chunk
            .iter()
            .map(|number| {
                let content_id = doc.add_object(Object::Stream(Stream {
                    dict: dictionary(vec![]),
                    content: format!("BT (page {number}) Tj ET").into_bytes(),
                }));
                Object::Reference(doc.add_object(object(vec![
                    ("Type", name("Page")),
                    ("Parent", Object::Reference(group_id)),
                    ("Contents", Object::Reference(content_id)),
                    (
                        "MediaBox",
                        Object::Array(vec![integer(0), integer(0), integer(612), integer(792)]),
                    ),
                ])))
            })
            .collect::<Vec<_>>();
        doc.set_object(
            group_id,
            object(vec![
                ("Type", name("Pages")),
                ("Parent", Object::Reference(root_id)),
                ("Count", integer(kids.len() as i64)),
                ("Kids", Object::Array(kids)),
            ]),
        );
        groups.push(Object::Reference(group_id));
    }
    doc.set_object(
        root_id,
        object(vec![
            ("Type", name("Pages")),
            ("Count", integer(page_count as i64)),
            ("Kids", Object::Array(groups)),
        ]),
    );
    let catalog_id = doc.add_object(object(vec![
        ("Type", name("Catalog")),
        ("Pages", Object::Reference(root_id)),
    ]));
    doc.trailer.set(b"Root".to_vec(), Object::Reference(catalog_id));
    doc
}

fn save(doc: &Document, object_streams: bool, xref_streams: bool) -> Vec<u8> {
    if xref_streams {
        saved_with_streams(doc, object_streams)
    } else {
        saved(doc)
    }
}

/// `previous`, the saved `doc`, with object `id` replaced in an update behind it.
fn with_update(previous: &[u8], doc: &Document, id: ObjectId, object: &Object) -> Vec<u8> {
    let mut out = previous.to_vec();
    let before = find(previous, b"xref\n0 ").unwrap();
    let offset = out.len();
    out.extend_from_slice(format!("{} 0 obj\n", id.0).as_bytes());
    write_object(&mut out, object);
    out.extend_from_slice(b"\nendobj\n");
    let start = out.len();
    out.extend_from_slice(format!("xref\n{} 1\n{offset:010} 00000 n \ntrailer\n", id.0).as_bytes());
    let mut trailer = doc.trailer.clone();
    trailer.set(b"Size".to_vec(), Object::Integer(doc.max_id as i64 + 1));
    trailer.set(b"Prev".to_vec(), Object::Integer(before as i64));
    write_dictionary(&mut out, &trailer);
    out.extend_from_slice(format!("\nstartxref\n{start}\n%%EOF\n").as_bytes());
    out
}

/// A classic PDF from numbered object bodies. `offset_of` may move an object's xref offset.
fn raw_pdf(objects: &[(u32, &str)], trailer: &str, offset_of: impl Fn(u32, usize) -> usize) -> Vec<u8> {
    let mut bytes = b"%PDF-1.4\n".to_vec();
    let mut offsets = BTreeMap::new();
    for (id, body) in objects {
        offsets.insert(*id, bytes.len());
        bytes.extend_from_slice(format!("{id} 0 obj\n{body}\nendobj\n").as_bytes());
    }
    let xref_start = bytes.len();
    let size = objects.iter().map(|(id, _)| id + 1).max().unwrap_or(1);
    bytes.extend_from_slice(format!("xref\n0 {size}\n0000000000 65535 f \n").as_bytes());
    for id in 1..size {
        let entry = match offsets.get(&id) {
            Some(&offset) => format!("{:010} 00000 n \n", offset_of(id, offset)),
            None => "0000000000 65535 f \n".to_owned(),
        };
        bytes.extend_from_slice(entry.as_bytes());
    }
    bytes.extend_from_slice(
        format!("trailer\n<< /Size {size} {trailer} >>\nstartxref\n{xref_start}\n%%EOF\n").as_bytes(),
    );
    bytes
}

fn find(haystack: &[u8], needle: &[u8]) -> Option<usize> {
    haystack.windows(needle.len()).rposition(|window| window == needle)
}

/// Serves bytes from memory and counts how many were read.
struct CountingSource {
    bytes: Vec<u8>,
    bytes_read: Cell<u64>,
}

impl CountingSource {
    fn new(bytes: Vec<u8>) -> Self {
        Self {
            bytes,
            bytes_read: Cell::new(0),
        }
    }
}

impl RandomAccessSource for CountingSource {
    fn len(&self) -> u64 {
        self.bytes.len() as u64
    }

    fn read_exact_at(&self, offset: u64, buf: &mut Vec<u8>) -> Result<(), IoError> {
        self.bytes_read.set(self.bytes_read.get() + buf.len() as u64);
        self.bytes.read_exact_at(offset, buf)
    }
}

/// Serves bytes from memory until its reads are used up.
struct FailingSource {
    bytes: Vec<u8>,
    reads_left: Cell<u64>,
}

impl RandomAccessSource for FailingSource {
    fn len(&self) -> u64 {
        self.bytes.len() as u64
    }

    fn read_exact_at(&self, offset: u64, buf: &mut Vec<u8>) -> Result<(), IoError> {
        if self.reads_left.get() == 0 {
            return Err(IoError::Other);
        }
        self.reads_left.set(self.reads_left.get() - 1);
        self.bytes.read_exact_at(offset, buf)
    }
}

/// Writes an object the way a PDF file holds it.
fn write_object(out: &mut Vec<u8>, object: &Object) {
    match object {
        Object::Null => out.extend_from_slice(b"null"),
        Object::Boolean(b) => out.extend_from_slice(if *b { b"true" } else { b"false" }),
        Object::Integer(i) => out.extend_from_slice(i.to_string().as_bytes()),
        Object::Real(r) => out.extend_from_slice(format!("{:?}", f32::from_bits(r.bits)).as_bytes()),
        Object::Name(name) => {
            out.push(b'/');
            out.extend_from_slice(name);
        }
        Object::String(bytes, _) => {
            out.push(b'<');
            for byte in bytes {
                out.extend_from_slice(format!("{byte:02X}").as_bytes());
            }
            out.push(b'>');
        }
        Object::Array(items) => {
            out.push(b'[');
            for item in items {
                write_object(out, item);
                out.push(b' ');
            }
            out.push(b']');
        }
        Object::Dictionary(dictionary) => write_dictionary(out, dictionary),
        Object::Stream(stream) => {
            let mut dict = stream.dict.clone();
            dict.set(b"Length".to_vec(), Object::Integer(stream.content.len() as i64));
            write_dictionary(out, &dict);
            out.extend_from_slice(b"\nstream\n");
            out.extend_from_slice(&stream.content);
            out.extend_from_slice(b"\nendstream");
        }
        Object::Reference(id) => out.extend_from_slice(format!("{} {} R", id.0, id.1).as_bytes()),
    }
}

fn write_dictionary(out: &mut Vec<u8>, dictionary: &Dictionary) {
    out.extend_from_slice(b"<<");
    for (key, value) in &dictionary.entries {
        out.push(b'/');
        out.extend_from_slice(key);
        out.push(b' ');
        write_object(out, value);
        out.push(b' ');
    }
    out.extend_from_slice(b">>");
}

/// Writes `doc` with a cross-reference table.
fn saved(doc: &Document) -> Vec<u8> {
    let mut out = format!("%PDF-{}\n", doc.version).into_bytes();
    let mut offsets = Vec::new();
    for number in 1..=doc.max_id {
        if let Some(object) = doc.objects.get((number, 0)) {
            offsets.push(Some(out.len()));
            out.extend_from_slice(format!("{number} 0 obj\n").as_bytes());
            write_object(&mut out, object);
            out.extend_from_slice(b"\nendobj\n");
        } else {
            offsets.push(None);
        }
    }
    let start = out.len();
    out.extend_from_slice(format!("xref\n0 {}\n0000000000 65535 f \n", doc.max_id + 1).as_bytes());
    for offset in offsets {
        match offset {
            Some(offset) => out.extend_from_slice(format!("{offset:010} 00000 n \n").as_bytes()),
            None => out.extend_from_slice(b"0000000000 00000 f \n"),
        }
    }
    let mut trailer = doc.trailer.clone();
    trailer.set(b"Size".to_vec(), Object::Integer(doc.max_id as i64 + 1));
    out.extend_from_slice(b"trailer\n");
    write_dictionary(&mut out, &trailer);
    out.extend_from_slice(format!("\nstartxref\n{start}\n%%EOF\n").as_bytes());
    out
}

/// Writes `doc` with a cross-reference stream, and with its objects in an object stream if `packed`.
fn saved_with_streams(doc: &Document, packed: bool) -> Vec<u8> {
    let mut out = format!("%PDF-{}\n", doc.version).into_bytes();
    let container = doc.max_id + 1;
    let table = doc.max_id + 2;
    let mut rows: Vec<(u8, u32, u16)> = vec![(0, 0, 0); table as usize + 1];
    let mut index = String::new();
    let mut held = Vec::new();
    let mut count = 0u16;
    for number in 1..=doc.max_id {
        let object = match doc.objects.get((number, 0)) {
            Some(object) => object,
            None => continue,
        };
        if packed && !matches!(object, Object::Stream(_)) {
            index.push_str(&format!("{number} {} ", held.len()));
            write_object(&mut held, object);
            held.push(b' ');
            rows[number as usize] = (2, container, count);
            count += 1;
        } else {
            rows[number as usize] = (1, out.len() as u32, 0);
            out.extend_from_slice(format!("{number} 0 obj\n").as_bytes());
            write_object(&mut out, object);
            out.extend_from_slice(b"\nendobj\n");
        }
    }
    if count > 0 {
        rows[container as usize] = (1, out.len() as u32, 0);
        let first = index.len();
        let mut content = index.into_bytes();
        content.extend_from_slice(&held);
        let mut dict = Dictionary::new();
        dict.set(b"Type".to_vec(), Object::Name(b"ObjStm".to_vec()));
        dict.set(b"N".to_vec(), Object::Integer(count as i64));
        dict.set(b"First".to_vec(), Object::Integer(first as i64));
        out.extend_from_slice(format!("{container} 0 obj\n").as_bytes());
        write_object(&mut out, &Object::Stream(Stream { dict, content }));
        out.extend_from_slice(b"\nendobj\n");
    }
    let start = out.len();
    rows[table as usize] = (1, start as u32, 0);
    let mut content = Vec::new();
    for (kind, field, last) in &rows {
        content.push(*kind);
        content.extend_from_slice(&field.to_be_bytes());
        content.extend_from_slice(&last.to_be_bytes());
    }
    let mut dict = doc.trailer.clone();
    dict.set(b"Type".to_vec(), Object::Name(b"XRef".to_vec()));
    dict.set(b"Size".to_vec(), Object::Integer(table as i64 + 1));
    dict.set(
        b"W".to_vec(),
        Object::Array(vec![Object::Integer(1), Object::Integer(4), Object::Integer(2)]),
    );
    out.extend_from_slice(format!("{table} 0 obj\n").as_bytes());
    write_object(&mut out, &Object::Stream(Stream { dict, content }));
    out.extend_from_slice(format!("\nendobj\nstartxref\n{start}\n%%EOF\n").as_bytes());
    out
}
