//! The encodings of fonts, which say what text a string shows.

use vstd::prelude::*;

use crate::bytes::{key, spells};
use crate::document::{reached_entry, Document};
use crate::encodings::{decode_pdf_doc_byte, pdf_doc_char};
use crate::object::{name_in, named_entry, Dictionary, Entries, Object, ObjectId, Value};

verus! {

/// What a font's encoding makes of the strings shown in it. An encoding outside the proof's reach
/// leaves open what it makes of them.
pub trait TextEncoding {
    /// Whether each byte of a string is a code of its own.
    closed spec fn byte_by_byte(&self) -> bool {
        arbitrary()
    }

    /// The text that codes show, or `None` when they cannot be decoded.
    closed spec fn text_of(&self, codes: Seq<u8>) -> Option<Seq<char>> {
        arbitrary()
    }

    fn reads_bytes(&self) -> (r: bool)
        ensures
            r == self.byte_by_byte(),
    ;

    fn decode(&self, codes: &[u8]) -> (r: Option<String>)
        ensures
            match r {
                Some(text) => self.text_of(codes@) == Some(text@),
                None => self.text_of(codes@) is None,
            },
    ;
}

/// Where fonts get their encodings from.
pub trait FontEncodings<E: TextEncoding> {
    /// The encoding of a font, or `None` when it cannot be read. `limit` bounds what a stream that
    /// the encoding is read from may decode to.
    closed spec fn encoding_of(
        &self,
        objects: Map<ObjectId, Value>,
        font: Entries,
        limit: usize,
    ) -> Option<E> {
        arbitrary()
    }

    fn encoding(&self, document: &Document, font: &Dictionary, limit: usize) -> (r: Option<E>)
        ensures
            r == self.encoding_of(document.stored(), font@, limit),
    ;
}

/// The encodings that this library knows by name.
#[derive(Clone, Copy, Debug)]
pub struct NamedEncodings;

/// A named encoding, which reads a byte at a time.
#[derive(Clone, Copy, Debug, PartialEq, Eq, Structural)]
pub enum Encoding {
    WinAnsi,
    PdfDoc,
}

/// The character that a byte stands for in WinAnsiEncoding. The codes above the space that stand
/// for nothing else show a bullet.
pub open spec fn win_ansi_char(byte: u8) -> Option<char> {
    if 0x20 <= byte <= 0x7e || 0xa0 <= byte {
        Some(byte as char)
    } else {
        match byte {
            0x80 => Some('\u{20ac}'),
            0x82 => Some('\u{201a}'),
            0x83 => Some('\u{0192}'),
            0x84 => Some('\u{201e}'),
            0x85 => Some('\u{2026}'),
            0x86 => Some('\u{2020}'),
            0x87 => Some('\u{2021}'),
            0x88 => Some('\u{02c6}'),
            0x89 => Some('\u{2030}'),
            0x8a => Some('\u{0160}'),
            0x8b => Some('\u{2039}'),
            0x8c => Some('\u{0152}'),
            0x8e => Some('\u{017d}'),
            0x91 => Some('\u{2018}'),
            0x92 => Some('\u{2019}'),
            0x93 => Some('\u{201c}'),
            0x94 => Some('\u{201d}'),
            0x95 => Some('\u{2022}'),
            0x96 => Some('\u{2013}'),
            0x97 => Some('\u{2014}'),
            0x98 => Some('\u{02dc}'),
            0x99 => Some('\u{2122}'),
            0x9a => Some('\u{0161}'),
            0x9b => Some('\u{203a}'),
            0x9c => Some('\u{0153}'),
            0x9e => Some('\u{017e}'),
            0x9f => Some('\u{0178}'),
            0x7f | 0x81 | 0x8d | 0x8f | 0x90 | 0x9d => Some('\u{2022}'),
            _ => None,
        }
    }
}

/// The character that code `code` stands for.
pub open spec fn encoded_char(encoding: Encoding, code: u8) -> Option<char> {
    match encoding {
        Encoding::WinAnsi => win_ansi_char(code),
        Encoding::PdfDoc => pdf_doc_char(code),
    }
}

/// The encoding of the name `name`.
pub open spec fn encoding_named(name: Seq<u8>) -> Option<Encoding> {
    if name == key("WinAnsiEncoding"@) {
        Some(Encoding::WinAnsi)
    } else if name == key("PDFDocEncoding"@) {
        Some(Encoding::PdfDoc)
    } else {
        None
    }
}

/// The character that `byte` stands for in WinAnsiEncoding.
pub fn decode_win_ansi_byte(byte: u8) -> (r: Option<char>)
    ensures
        r == win_ansi_char(byte),
{
    if (0x20 <= byte && byte <= 0x7e) || 0xa0 <= byte {
        return Some(byte as char);
    }
    match byte {
        0x80 => Some('\u{20ac}'),
        0x82 => Some('\u{201a}'),
        0x83 => Some('\u{0192}'),
        0x84 => Some('\u{201e}'),
        0x85 => Some('\u{2026}'),
        0x86 => Some('\u{2020}'),
        0x87 => Some('\u{2021}'),
        0x88 => Some('\u{02c6}'),
        0x89 => Some('\u{2030}'),
        0x8a => Some('\u{0160}'),
        0x8b => Some('\u{2039}'),
        0x8c => Some('\u{0152}'),
        0x8e => Some('\u{017d}'),
        0x91 => Some('\u{2018}'),
        0x92 => Some('\u{2019}'),
        0x93 => Some('\u{201c}'),
        0x94 => Some('\u{201d}'),
        0x95 => Some('\u{2022}'),
        0x96 => Some('\u{2013}'),
        0x97 => Some('\u{2014}'),
        0x98 => Some('\u{02dc}'),
        0x99 => Some('\u{2122}'),
        0x9a => Some('\u{0161}'),
        0x9b => Some('\u{203a}'),
        0x9c => Some('\u{0153}'),
        0x9e => Some('\u{017e}'),
        0x9f => Some('\u{0178}'),
        0x7f | 0x81 | 0x8d | 0x8f | 0x90 | 0x9d => Some('\u{2022}'),
        _ => None,
    }
}

impl Encoding {
    /// The encoding of the name `name`.
    pub fn named(name: &[u8]) -> (r: Option<Self>)
        ensures
            r == encoding_named(name@),
    {
        if spells(name, "WinAnsiEncoding") {
            Some(Encoding::WinAnsi)
        } else if spells(name, "PDFDocEncoding") {
            Some(Encoding::PdfDoc)
        } else {
            None
        }
    }

    /// The character that code `code` stands for.
    pub fn character(self, code: u8) -> (r: Option<char>)
        ensures
            r == encoded_char(self, code),
    {
        match self {
            Encoding::WinAnsi => decode_win_ansi_byte(code),
            Encoding::PdfDoc => decode_pdf_doc_byte(code),
        }
    }
}

/// The characters that `codes` stand for. Codes that stand for nothing are skipped.
pub open spec fn encoded_text(encoding: Encoding, codes: Seq<u8>) -> Seq<char>
    decreases codes.len(),
{
    if codes.len() == 0 {
        Seq::empty()
    } else {
        let head = encoded_text(encoding, codes.drop_last());
        match encoded_char(encoding, codes.last()) {
            Some(c) => head.push(c),
            None => head,
        }
    }
}

impl TextEncoding for Encoding {
    open spec fn byte_by_byte(&self) -> bool {
        true
    }

    open spec fn text_of(&self, codes: Seq<u8>) -> Option<Seq<char>> {
        Some(encoded_text(*self, codes))
    }

    fn reads_bytes(&self) -> (r: bool) {
        true
    }

    fn decode(&self, codes: &[u8]) -> (r: Option<String>) {
        let mut text = String::new();
        let mut i: usize = 0;
        assert(text@ =~= Seq::<char>::empty());
        while i < codes.len()
            invariant
                i <= codes@.len(),
                text@ == encoded_text(*self, codes@.take(i as int)),
            decreases codes@.len() - i,
        {
            assert(codes@.take(i + 1).drop_last() =~= codes@.take(i as int));
            if let Some(c) = self.character(codes[i]) {
                text.push(c);
            }
            i += 1;
        }
        assert(codes@.take(i as int) =~= codes@);
        Some(text)
    }
}

impl FontEncodings<Encoding> for NamedEncodings {
    /// The encoding that `/Encoding`, or its `/BaseEncoding`, names.
    open spec fn encoding_of(
        &self,
        objects: Map<ObjectId, Value>,
        font: Entries,
        limit: usize,
    ) -> Option<Encoding> {
        match reached_entry(objects, font, "Encoding"@) {
            Some(Value::Name(name)) => encoding_named(name),
            Some(Value::Dictionary(encoding)) => match name_in(
                named_entry(encoding, "BaseEncoding"@),
            ) {
                Some(name) => encoding_named(name),
                None => None,
            },
            _ => None,
        }
    }

    fn encoding(&self, document: &Document, font: &Dictionary, limit: usize) -> (r: Option<
        Encoding,
    >) {
        match document.reach_entry(font, "Encoding") {
            Some(Object::Name(name)) => Encoding::named(name.as_slice()),
            Some(Object::Dictionary(encoding)) => match encoding.named("BaseEncoding") {
                Some(Object::Name(name)) => Encoding::named(name.as_slice()),
                _ => None,
            },
            _ => None,
        }
    }
}

} // verus!
