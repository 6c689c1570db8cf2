//! A page's text in runs, each with the font that set it, read into the forms the page draws.

use lopdf::document::Document;
use lopdf::error::{DecompressError, Error};
use lopdf::font_encoding::{decode_win_ansi_byte, Encoding, FontEncodings, NamedEncodings, TextEncoding};
use lopdf::object::{Dictionary, Object, ObjectId, Stream};
use lopdf::page_content::DecodeLimits;
use lopdf::parser::content::operations;

const LIMIT: usize = 16 * 1024 * 1024;

fn integer(value: i64) -> Object {
    Object::Integer(value)
}

fn name(value: &str) -> Object {
    Object::Name(value.as_bytes().to_vec())
}


fn dictionary(entries: Vec<(&str, Object)>) -> Dictionary {
    let mut dictionary = Dictionary::new();
    for (key, value) in entries {
        dictionary.set(key.as_bytes().to_vec(), value);
    }
    dictionary
}

fn object(entries: Vec<(&str, Object)>) -> Object {
    Object::Dictionary(dictionary(entries))
}

fn show(font: &str, text: &str) -> String {
    format!("BT\n/{font} 12 Tf\n({text}) Tj\nET\n")
}

fn draw(name: &str) -> String {
    format!("/{name} Do\n")
}

fn stream(dict: Dictionary, content: String) -> Object {
    Object::Stream(Stream {
        dict,
        content: content.into_bytes(),
    })
}

fn font(doc: &mut Document, base: &str) -> ObjectId {
    doc.add_object(object(vec![
        ("Type", name("Font")),
        ("Subtype", name("Type1")),
        ("BaseFont", name(base)),
        ("Encoding", name("WinAnsiEncoding")),
    ]))
}

fn form(resources: Option<Object>) -> Dictionary {
    let mut dict = dictionary(vec![
        ("Type", name("XObject")),
        ("Subtype", name("Form")),
        (
            "BBox",
            Object::Array(vec![integer(0), integer(0), integer(100), integer(100)]),
        ),
    ]);
    if let Some(resources) = resources {
        dict.set(b"Resources".to_vec(), resources);
    }
    dict
}

/// One page: text in two fonts, then a form with its own font, a form with no resources, a form
/// that draws itself, and an image.
fn fixture() -> (Document, ObjectId) {
    let mut doc = Document::with_version("1.7");
    let pages_id = doc.new_object_id();
    let body = font(&mut doc, "ABCDEF+TimesLTStd-Roman");
    let maths = font(&mut doc, "MathematicalPiLTStd-3");
    let form_font = font(&mut doc, "MathematicalPiLTStd-1");

    let own = doc.add_object(stream(
        form(Some(object(vec![(
            "Font",
            object(vec![("F9", Object::Reference(form_font))]),
        )]))),
        show("F9", "21"),
    ));
    let bare = doc.add_object(stream(form(None), show("F1", "inherited")));
    let looping = doc.new_object_id();
    doc.set_object(
        looping,
        stream(
            form(Some(object(vec![
                ("Font", object(vec![("F1", Object::Reference(body))])),
                ("XObject", object(vec![("Me", Object::Reference(looping))])),
            ]))),
            [show("F1", "once"), draw("Me")].concat(),
        ),
    );
    // Bytes that would read as text, were an image read as content.
    let image = doc.add_object(stream(
        dictionary(vec![
            ("Type", name("XObject")),
            ("Subtype", name("Image")),
            ("Width", integer(5)),
            ("Height", integer(5)),
            ("ColorSpace", name("DeviceGray")),
            ("BitsPerComponent", integer(8)),
        ]),
        show("F1", "pixels"),
    ));

    let content = doc.add_object(stream(
        dictionary(vec![]),
        [
            show("F1", "Hello"),
            show("F2", "sdk"),
            draw("Own"),
            draw("Bare"),
            draw("Loop"),
            draw("Img"),
        ]
        .concat(),
    ));
    let page = doc.add_object(object(vec![
        ("Type", name("Page")),
        ("Parent", Object::Reference(pages_id)),
        (
            "MediaBox",
            Object::Array(vec![integer(0), integer(0), integer(612), integer(792)]),
        ),
        ("Contents", Object::Reference(content)),
        (
            "Resources",
            object(vec![
                (
                    "Font",
                    object(vec![("F1", Object::Reference(body)), ("F2", Object::Reference(maths))]),
                ),
                (
                    "XObject",
                    object(vec![
                        ("Own", Object::Reference(own)),
                        ("Bare", Object::Reference(bare)),
                        ("Loop", Object::Reference(looping)),
                        ("Img", Object::Reference(image)),
                    ]),
                ),
            ]),
        ),
    ]));
    doc.set_object(
        pages_id,
        object(vec![
            ("Type", name("Pages")),
            ("Kids", Object::Array(vec![Object::Reference(page)])),
            ("Count", integer(1)),
        ]),
    );
    let catalog = doc.add_object(object(vec![
        ("Type", name("Catalog")),
        ("Pages", Object::Reference(pages_id)),
    ]));
    doc.trailer.set(b"Root".to_vec(), Object::Reference(catalog));
    (doc, page)
}

fn runs(doc: &Document, page: ObjectId) -> Vec<(String, String)> {
    doc.page_text_runs(page, DecodeLimits::uniform(LIMIT), &NamedEncodings)
        .unwrap()
        .into_iter()
        .map(|run| (String::from_utf8(run.font).unwrap(), run.text.trim().to_owned()))
        .collect()
}

#[test]
fn each_run_names_its_font_and_the_forms_a_page_draws_are_read() {
    let (doc, page) = fixture();

    assert_eq!(
        runs(&doc, page),
        [
            ("TimesLTStd-Roman", "Hello"),
            // A maths font's letters, which only its name tells apart from prose.
            ("MathematicalPiLTStd-3", "sdk"),
            // A form's text, in the form's own font.
            ("MathematicalPiLTStd-1", "21"),
            // A form with no resources of its own draws in the page's.
            ("TimesLTStd-Roman", "inherited"),
            // A form that draws itself is read once, and an image not at all.
            ("TimesLTStd-Roman", "once"),
        ]
        .map(|(font, text)| (font.to_owned(), text.to_owned()))
    );
}

/// A document of one page with `content`, whose only font is `F1` with `encoding`.
fn one_page(content: &str, encoding: Object) -> (Document, ObjectId) {
    let mut doc = Document::with_version("1.7");
    let tree = doc.new_object_id();
    let font = doc.add_object(object(vec![
        ("Type", name("Font")),
        ("BaseFont", name("Body")),
        ("Encoding", encoding),
    ]));
    let content = doc.add_object(stream(dictionary(vec![]), content.to_owned()));
    let page = doc.add_object(object(vec![
        ("Type", name("Page")),
        ("Parent", Object::Reference(tree)),
        ("Contents", Object::Reference(content)),
    ]));
    doc.set_object(
        tree,
        object(vec![
            ("Type", name("Pages")),
            ("Kids", Object::Array(vec![Object::Reference(page)])),
            ("Resources", object(vec![("Font", object(vec![("F1", Object::Reference(font))]))])),
        ]),
    );
    (doc, page)
}

fn text_of(content: &str) -> Vec<String> {
    let (doc, page) = one_page(content, name("WinAnsiEncoding"));
    doc.page_text_runs(page, DecodeLimits::uniform(LIMIT), &NamedEncodings)
        .unwrap()
        .into_iter()
        .map(|run| run.text)
        .collect()
}

#[test]
fn each_code_is_kept_with_the_place_of_its_character() {
    let (doc, page) = one_page("/F1 12 Tf <4180421FE9> Tj", name("WinAnsiEncoding"));
    let runs = doc.page_text_runs(page, DecodeLimits::uniform(LIMIT), &NamedEncodings).unwrap();
    assert_eq!(runs.len(), 1);
    assert_eq!(runs[0].text, "A\u{20ac}B\u{e9}");
    // The euro sign takes three bytes, and the control code decodes to nothing.
    assert_eq!(runs[0].codes, [(0, 0x41), (1, 0x80), (4, 0x42), (5, 0xe9)]);
    for (at, _) in &runs[0].codes {
        assert!(runs[0].text.is_char_boundary(*at));
    }
    assert!(runs[0].differences.is_empty());
}

#[test]
fn strings_are_set_apart_by_lines_arrays_and_large_moves() {
    assert_eq!(text_of("/F1 12 Tf (a) Tj T* (b) Tj T* T* (c) Tj"), ["a\nb\nc"]);
    assert_eq!(text_of("/F1 12 Tf [(a) -50 (b) -101 (c)] TJ (d) Tj"), ["ab c d"]);
    assert_eq!(text_of("/F1 12 Tf (a) Tj (b) ' 1 2 (c) \""), ["a\nb\nc"]);
    assert_eq!(text_of("/F1 12 Tf (a) Tj 1 2 \""), ["a\n"]);
    // Without a font nothing is shown.
    assert!(text_of("(a) Tj (b) '").is_empty());
    assert!(text_of("/F9 12 Tf (a) Tj").is_empty());
}

#[test]
fn the_font_is_saved_and_restored_with_the_graphics_state() {
    // The same font restored goes on with the run; another ends it.
    assert_eq!(text_of("/F1 12 Tf (a) Tj q (b) Tj Q (c) Tj"), ["abc"]);
    assert_eq!(text_of("/F1 12 Tf (a) Tj q /F9 12 Tf (b) Tj Q (c) Tj"), ["a", "c"]);
    assert_eq!(text_of("/F1 12 Tf (a) Tj Q (b) Tj"), ["ab"]);
}

#[test]
fn glyph_names_are_kept_as_the_font_spells_them() {
    let encoding = object(vec![
        ("BaseEncoding", name("WinAnsiEncoding")),
        (
            "Differences",
            Object::Array(vec![
                integer(65),
                name("H9251"),
                name("H9252"),
                integer(255),
                name("last"),
                name("dropped"),
                integer(300),
                name("out"),
            ]),
        ),
    ]);
    let (doc, page) = one_page("/F1 12 Tf (AB) Tj", encoding);
    let runs = doc.page_text_runs(page, DecodeLimits::uniform(LIMIT), &NamedEncodings).unwrap();
    let names: Vec<(u8, Vec<u8>)> = runs[0].differences.clone().into_iter().collect();
    assert_eq!(
        names,
        [
            (65, b"H9251".to_vec()),
            (66, b"H9252".to_vec()),
            (255, b"last".to_vec())
        ]
    );
    assert_eq!(runs[0].text, "AB");
    assert_eq!(runs[0].font, b"Body");
}

#[test]
fn a_font_whose_encoding_is_unknown_is_left_out() {
    let (doc, page) = one_page("/F1 12 Tf (AB) Tj", name("Identity-H"));
    assert!(doc.page_text_runs(page, DecodeLimits::uniform(LIMIT), &NamedEncodings).unwrap().is_empty());
}

#[test]
fn only_six_capitals_and_a_plus_name_a_subset() {
    for (base, expected) in [
        ("ABCDEF+Times", "Times"),
        ("ABCDEf+Times", "ABCDEf+Times"),
        ("ABCDE+Times", "ABCDE+Times"),
        ("ABCDEFG+Times", "ABCDEFG+Times"),
        ("ABCDEF+", ""),
        ("ABCDEF", "ABCDEF"),
    ] {
        let (mut doc, page) = one_page("/F1 12 Tf (x) Tj", name("WinAnsiEncoding"));
        let id = font(&mut doc, base);
        let mut dict = doc.get_dictionary(page).unwrap().clone();
        dict.set(
            b"Resources".to_vec(),
            object(vec![("Font", object(vec![("F1", Object::Reference(id))]))]),
        );
        doc.set_object(page, Object::Dictionary(dict));
        assert_eq!(runs(&doc, page), [(expected.to_owned(), "x".to_owned())]);
    }
}

#[test]
fn content_over_the_limits_fails_the_page_but_a_form_over_them_is_left_out() {
    let (doc, page) = fixture();
    let tight = DecodeLimits {
        max_stream_size: LIMIT,
        max_page_content_size: 40,
        ..DecodeLimits::unbounded()
    };
    assert!(matches!(
        doc.page_text_runs(page, tight, &NamedEncodings),
        Err(Error::Decompress(DecompressError::MemoryLimitExceeded { limit: 40 }))
    ));
    let page_alone = DecodeLimits {
        max_stream_size: LIMIT,
        max_page_content_size: 130,
        ..DecodeLimits::unbounded()
    };
    let read = doc.page_text_runs(page, page_alone, &NamedEncodings).unwrap();
    assert_eq!(read[0].text.trim(), "Hello");
    assert!(read.len() < 5);
    let short_operations = DecodeLimits {
        max_stream_size: 4,
        max_page_content_size: LIMIT,
        ..DecodeLimits::unbounded()
    };
    assert!(matches!(
        doc.page_text_runs(page, short_operations, &NamedEncodings),
        Err(Error::Decompress(DecompressError::MemoryLimitExceeded { limit: 4 }))
    ));
}

#[test]
fn operations_are_operands_and_an_operator() {
    let (read, failure) = operations(b" 1 0 0.5 rg\n% a comment\n[(a) 2] TJ f* 1 0 R d0 /N << /K 1 >> DP }", 100);
    assert!(failure.is_none());
    let read: Vec<(String, usize)> = read
        .into_iter()
        .map(|operation| (String::from_utf8(operation.operator).unwrap(), operation.operands.len()))
        .collect();
    let expected = [("rg", 3), ("TJ", 1), ("f*", 0), ("R", 2), ("d0", 0), ("DP", 2)];
    assert_eq!(read, expected.map(|(operator, count)| (operator.to_owned(), count)));
}

#[test]
fn the_data_of_an_inline_image_is_no_operation() {
    let (read, _) = operations(b"BI /W 2 /H 2 ID (Tj EIx\n EI\nQ", 100);
    let read: Vec<Vec<u8>> = read.into_iter().map(|operation| operation.operator).collect();
    assert_eq!(read, [b"BI".to_vec(), b"ID".to_vec(), b"Q".to_vec()]);
}

#[test]
fn win_ansi_codes_stand_for_their_characters() {
    assert_eq!(decode_win_ansi_byte(0x41), Some('A'));
    assert_eq!(decode_win_ansi_byte(0x80), Some('\u{20ac}'));
    assert_eq!(decode_win_ansi_byte(0x9f), Some('\u{178}'));
    assert_eq!(decode_win_ansi_byte(0xff), Some('\u{ff}'));
    assert_eq!(decode_win_ansi_byte(0x81), Some('\u{2022}'));
    assert_eq!(decode_win_ansi_byte(0x0a), None);
    assert_eq!(Encoding::named(b"PDFDocEncoding"), Some(Encoding::PdfDoc));
    assert_eq!(Encoding::PdfDoc.character(0x8b), Some('\u{2030}'));
    assert_eq!(Encoding::named(b"StandardEncoding"), None);
}

/// An encoding of pairs of bytes, or of bytes that may show several characters, and that cannot
/// decode `!`.
#[derive(Clone, Copy)]
struct Spelled {
    bytes: bool,
}

impl TextEncoding for Spelled {
    fn reads_bytes(&self) -> bool {
        self.bytes
    }

    fn decode(&self, codes: &[u8]) -> Option<String> {
        if codes.contains(&b'!') {
            return None;
        }
        let spelled = |code: &u8| match code {
            b'f' => "fi".to_owned(),
            b'n' => String::new(),
            code => (*code as char).to_string(),
        };
        Some(codes.iter().map(spelled).collect())
    }
}

impl FontEncodings<Spelled> for Spelled {
    fn encoding(&self, _document: &Document, _font: &Dictionary, _limit: usize) -> Option<Spelled> {
        Some(*self)
    }
}

#[test]
fn an_encoding_may_show_several_characters_or_none_or_fail() {
    let (doc, page) = one_page(
        "/F1 12 Tf (afnb) Tj [(c) (d!e) (f)] TJ (g) Tj",
        name("WinAnsiEncoding"),
    );
    let runs = |bytes: bool| {
        doc.page_text_runs(page, DecodeLimits::uniform(LIMIT), &Spelled { bytes })
            .unwrap()
    };
    // What comes before the code that cannot be decoded is kept, and nothing behind it.
    let read = runs(true);
    assert_eq!(read[0].text, "afibcdg");
    assert_eq!(read[0].codes, [(0, b'a'), (3, b'b'), (4, b'c'), (5, b'd'), (6, b'g')]);
    // Read whole, the string that cannot be decoded shows nothing, and no code is kept.
    let read = runs(false);
    assert_eq!(read[0].text, "afibcg");
    assert!(read[0].codes.is_empty());
}
