//! Text strings in each of their encodings.

use lopdf::common_data_structures::{decode_text_string, text_string};
use lopdf::encodings::string_to_bytes;
use lopdf::error::Error;
use lopdf::object::{Dictionary, Object, ObjectKind, StringFormat};
use lopdf::parser::objects::direct_object;

fn entry(key: &str, value: Object) -> Object {
    let mut dictionary = Dictionary::new();
    dictionary.set(key.as_bytes().to_vec(), value);
    Object::Dictionary(dictionary)
}

/// Writes an object the way a PDF file holds it.
fn written(object: &Object) -> Vec<u8> {
    let mut out = Vec::new();
    match object {
        Object::Dictionary(dictionary) => {
            out.extend_from_slice(b"<<");
            for (key, value) in &dictionary.entries {
                out.push(b'/');
                out.extend_from_slice(key);
                out.extend_from_slice(&written(value));
            }
            out.extend_from_slice(b">>");
        }
        Object::String(bytes, StringFormat::Literal) => {
            out.push(b'(');
            out.extend_from_slice(bytes);
            out.push(b')');
        }
        Object::String(bytes, StringFormat::Hexadecimal) => {
            out.push(b'<');
            for byte in bytes {
                out.extend_from_slice(format!("{byte:02X}").as_bytes());
            }
            out.push(b'>');
        }
        _ => unreachable!("only what these tests write"),
    }
    out
}

#[test]
fn spec_example1_encode() {
    let input = "text\u{2030}";
    let text_string = string_to_bytes(input);
    let dict = entry("Key", Object::String(text_string, StringFormat::Literal));
    let actual = written(&dict);
    // "\x8B" is equivalent to the escaped version "\\213".
    let expected = b"<</Key(text\x8B)>>";
    assert_eq!(actual.as_slice(), expected);
}

#[test]
fn pdf_doc_encoding_keeps_tab_line_feed_and_carriage_return() {
    let text = Object::String(b"Two\tpart\rheading\n".to_vec(), StringFormat::Literal);
    assert_eq!(decode_text_string(&text).unwrap(), "Two\tpart\rheading\n");
    assert_eq!(string_to_bytes("a\tb\nc\rd"), b"a\tb\nc\rd");
}

#[test]
fn utf8_text_strings_decode_without_their_byte_order_mark() {
    let text = Object::String(b"\xEF\xBB\xBFCaf\xC3\xA9".to_vec(), StringFormat::Literal);
    assert_eq!(decode_text_string(&text).unwrap(), "Caf\u{e9}");
}

#[test]
fn utf16_text_strings_decode_in_either_byte_order() {
    let big_endian = Object::String(b"\xFE\xFF\x00C\x00a\x00f\x00\xE9".to_vec(), StringFormat::Hexadecimal);
    let little_endian = Object::String(b"\xFF\xFEC\x00a\x00f\x00\xE9\x00".to_vec(), StringFormat::Hexadecimal);
    assert_eq!(decode_text_string(&big_endian).unwrap(), "Caf\u{e9}");
    assert_eq!(decode_text_string(&little_endian).unwrap(), "Caf\u{e9}");
}

#[test]
fn spec_example1_decode() {
    let input = b"<</Key(text\\213)>>";
    let dict = direct_object(input).unwrap();
    let dict = dict.as_dict().unwrap();
    let actual = decode_text_string(dict.get(b"Key").unwrap()).unwrap();
    let expected = "text\u{2030}";
    assert_eq!(&actual, expected);
}

#[test]
fn spec_example2_encode() {
    // Russian for "test"
    let input = "\u{442}\u{435}\u{441}\u{442}";
    let dict = entry("Key", text_string(input));
    let actual = written(&dict);
    let expected = b"<</Key<FEFF0442043504410442>>>";
    assert_eq!(actual.as_slice(), expected);
}

#[test]
fn spec_example2_decode() {
    let input = b"<</Key<FEFF0442043504410442>>>";
    let dict = direct_object(input).unwrap();
    let dict = dict.as_dict().unwrap();
    let actual = decode_text_string(dict.get(b"Key").unwrap()).unwrap();
    // Russian for "test"
    let expected = "\u{442}\u{435}\u{441}\u{442}";
    assert_eq!(&actual, expected);
}

#[test]
fn text_written_as_a_text_string_reads_back() {
    for text in ["plain, with\ttabs\r\n", "\u{e9}t\u{e9}", "\u{1f600} and \u{442}", ""] {
        assert_eq!(decode_text_string(&text_string(text)).unwrap(), text);
    }
    // Control characters are not part of PDFDocEncoding.
    assert_eq!(decode_text_string(&text_string("a\u{1}b\u{7f}")).unwrap(), "ab");
}

#[test]
fn undecodable_text_strings_and_other_objects_are_errors() {
    for bytes in [&b"\xFE\xFF\xD8\x00"[..], b"\xFE\xFF\xDC\x00\x00A", b"\xEF\xBB\xBF\xFF"] {
        let text = Object::String(bytes.to_vec(), StringFormat::Literal);
        assert_eq!(decode_text_string(&text), Err(Error::TextStringDecode));
    }
    assert_eq!(
        decode_text_string(&Object::Integer(3)),
        Err(Error::ObjectType { expected: ObjectKind::String, found: ObjectKind::Integer })
    );
}

#[test]
fn an_odd_last_byte_is_the_first_of_a_pair() {
    let text = Object::String(b"\xFE\xFF\x00A\x01".to_vec(), StringFormat::Literal);
    assert_eq!(decode_text_string(&text).unwrap(), "A\u{100}");
}
