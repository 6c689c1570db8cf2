//! Text strings.

use vstd::prelude::*;
use vstd::utf8::{
    char_u32_cast, decode_utf8, encode_utf8, is_ascii_chars, is_ascii_chars_encode_utf8, valid_utf8,
};

use crate::bytes::{starts_with, strip_prefix, to_vec};
use crate::encodings::{
    big_endian, byte_pairs, bytes_to_string, decode_utf16_units, encode_utf16_be,
    lemma_units_come_back, lemma_utf16_text_comes_back, pdf_doc_char, pdf_doc_text, units_of, utf16,
    utf16_text,
};
use crate::error::{Error, Result};
use crate::object::{string_of, wrong_kind, Object, ObjectKind, StringFormat, Value};
use crate::text::utf8_string;

verus! {

/// `text` as a text string: in PDFDocEncoding if it only has ASCII characters, otherwise in UTF-16
/// after a byte-order mark.
pub open spec fn encoded_text(text: Seq<char>) -> Value {
    if is_ascii_chars(text) {
        Value::String(encode_utf8(text), StringFormat::Literal)
    } else {
        Value::String(seq![0xfeu8, 0xff] + big_endian(utf16(text)), StringFormat::Hexadecimal)
    }
}

/// The text that the bytes of a text string stand for, in the encoding that the byte-order mark at
/// their start says, or in PDFDocEncoding without one.
pub open spec fn decoded_text(bytes: Seq<u8>) -> Option<Seq<char>> {
    if starts_with(bytes, seq![0xfeu8, 0xff]) {
        utf16_text(byte_pairs(bytes.skip(2), true))
    } else if starts_with(bytes, seq![0xffu8, 0xfe]) {
        utf16_text(byte_pairs(bytes.skip(2), false))
    } else if starts_with(bytes, seq![0xefu8, 0xbb, 0xbf]) {
        if valid_utf8(bytes.skip(3)) {
            Some(decode_utf8(bytes.skip(3)))
        } else {
            None
        }
    } else {
        Some(pdf_doc_text(bytes))
    }
}

/// Text written as a text string reads back as it was, where it is not ASCII, or each of its
/// characters is one that PDFDocEncoding writes as ASCII does.
pub proof fn lemma_text_comes_back(text: Seq<char>)
    requires
        !is_ascii_chars(text) || forall|i: int|
            0 <= i < text.len() ==> pdf_doc_char(#[trigger] text[i] as u8) == Some(text[i]),
    ensures
        match encoded_text(text) {
            Value::String(bytes, _) => decoded_text(bytes) == Some(text),
            _ => false,
        },
{
    if is_ascii_chars(text) {
        let bytes = encode_utf8(text);
        is_ascii_chars_encode_utf8(text);
        assert forall|i: int| 0 <= i < text.len() implies (#[trigger] bytes[i]) < 0x80
            && pdf_doc_char(bytes[i]) == Some(text[i]) by {
            assert(text[i] as u8 == bytes[i]);
            char_u32_cast(text[i], text[i] as u32);
        }
        if starts_with(bytes, seq![0xfeu8, 0xff]) {
            assert(bytes.take(2)[0] == 0xfe);
            assert(bytes[0] == 0xfe);
        }
        if starts_with(bytes, seq![0xffu8, 0xfe]) {
            assert(bytes.take(2)[0] == 0xff);
            assert(bytes[0] == 0xff);
        }
        if starts_with(bytes, seq![0xefu8, 0xbb, 0xbf]) {
            assert(bytes.take(3)[0] == 0xef);
            assert(bytes[0] == 0xef);
        }
        lemma_pdf_doc_text(bytes, text);
    } else {
        let bytes = seq![0xfeu8, 0xff] + big_endian(utf16(text));
        assert(bytes.take(2) =~= seq![0xfeu8, 0xff]);
        assert(bytes.skip(2) =~= big_endian(utf16(text)));
        lemma_units_come_back(utf16(text));
        lemma_utf16_text_comes_back(text);
    }
}

proof fn lemma_pdf_doc_text(bytes: Seq<u8>, text: Seq<char>)
    requires
        bytes.len() == text.len(),
        forall|i: int| 0 <= i < bytes.len() ==> pdf_doc_char(#[trigger] bytes[i]) == Some(text[i]),
    ensures
        pdf_doc_text(bytes) == text,
    decreases bytes.len(),
{
    if bytes.len() > 0 {
        assert(pdf_doc_char(bytes[bytes.len() - 1]) == Some(text[text.len() - 1]));
        lemma_pdf_doc_text(bytes.drop_last(), text.drop_last());
    }
    assert(pdf_doc_text(bytes) =~= text);
}

/// Creates a text string.
/// If the input only contains ASCII characters, the string is encoded in PDFDocEncoding, otherwise
/// in UTF-16BE.
pub fn text_string(text: &str) -> (r: Object)
    ensures
        r@ == encoded_text(text@),
{
    if text.is_ascii() {
        return Object::String(to_vec(text.as_bytes()), StringFormat::Literal);
    }
    let mut string: Vec<u8> = Vec::new();
    encode_utf16_be(text, &mut string);
    assert(string@ =~= seq![0xfeu8, 0xff] + big_endian(utf16(text@)));
    Object::String(string, StringFormat::Hexadecimal)
}

/// The text that `bytes` stand for as a text string.
pub fn decode_text_bytes(bytes: &[u8]) -> (r: Result<String>)
    ensures
        match r {
            Ok(text) => decoded_text(bytes@) == Some(text@),
            Err(error) => error == Error::TextStringDecode && decoded_text(bytes@) is None,
        },
{
    if let Some(rest) = strip_prefix(bytes, &[0xfe, 0xff]) {
        decode_utf16(rest, true)
    } else if let Some(rest) = strip_prefix(bytes, &[0xff, 0xfe]) {
        // A UTF-16LE byte-order mark is not allowed in a text string, but some producers write one
        // and other readers accept it.
        decode_utf16(rest, false)
    } else if let Some(rest) = strip_prefix(bytes, &[0xef, 0xbb, 0xbf]) {
        match utf8_string(to_vec(rest)) {
            Some(text) => Ok(text),
            None => Err(Error::TextStringDecode),
        }
    } else {
        Ok(bytes_to_string(bytes))
    }
}

/// Decodes a text string.
/// Depending on the byte-order mark at the start of the string, a different encoding is chosen.
/// All encodings of PDF 2.0 are supported (PDFDocEncoding, UTF-16BE, and UTF-8).
pub fn decode_text_string(obj: &Object) -> (r: Result<String>)
    ensures
        match string_of(obj@) {
            None => r == Err::<String, Error>(wrong_kind(ObjectKind::String, obj@)),
            Some(bytes) => match r {
                Ok(text) => decoded_text(bytes) == Some(text@),
                Err(error) => error == Error::TextStringDecode && decoded_text(bytes) is None,
            },
        },
{
    match obj.as_str() {
        Ok(bytes) => decode_text_bytes(bytes),
        Err(error) => Err(error),
    }
}

/// Decodes UTF-16 code units from byte pairs. A trailing odd byte is taken as the first byte of a
/// final pair padded with zero.
fn decode_utf16(bytes: &[u8], high_first: bool) -> (r: Result<String>)
    ensures
        match r {
            Ok(text) => utf16_text(byte_pairs(bytes@, high_first)) == Some(text@),
            Err(error) => error == Error::TextStringDecode && utf16_text(
                byte_pairs(bytes@, high_first),
            ) is None,
        },
{
    match decode_utf16_units(&units_of(bytes, high_first)) {
        Some(text) => Ok(text),
        None => Err(Error::TextStringDecode),
    }
}

} // verus!
