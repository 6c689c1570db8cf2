//! The encodings of text strings: PDFDocEncoding and UTF-16.

use vstd::prelude::*;
use vstd::utf8::{char_is_scalar, char_u32_cast, is_scalar};

use crate::text::{chars_of, string_of};

verus! {

/// The character that a byte stands for in PDFDocEncoding.
pub open spec fn pdf_doc_char(byte: u8) -> Option<char> {
    if byte == 0x09 || byte == 0x0a || byte == 0x0d || 0x20 <= byte <= 0x7e || (0xa1 <= byte && byte
        != 0xad) {
        Some(byte as char)
    } else {
        match byte {
            0x18 => Some('\u{02d8}'),
            0x19 => Some('\u{02c7}'),
            0x1a => Some('\u{02c6}'),
            0x1b => Some('\u{02d9}'),
            0x1c => Some('\u{02dd}'),
            0x1d => Some('\u{02db}'),
            0x1e => Some('\u{02da}'),
            0x1f => Some('\u{02dc}'),
            0x80 => Some('\u{2022}'),
            0x81 => Some('\u{2020}'),
            0x82 => Some('\u{2021}'),
            0x83 => Some('\u{2026}'),
            0x84 => Some('\u{2014}'),
            0x85 => Some('\u{2013}'),
            0x86 => Some('\u{0192}'),
            0x87 => Some('\u{2044}'),
            0x88 => Some('\u{2039}'),
            0x89 => Some('\u{203a}'),
            0x8a => Some('\u{2212}'),
            0x8b => Some('\u{2030}'),
            0x8c => Some('\u{201e}'),
            0x8d => Some('\u{201c}'),
            0x8e => Some('\u{201d}'),
            0x8f => Some('\u{2018}'),
            0x90 => Some('\u{2019}'),
            0x91 => Some('\u{201a}'),
            0x92 => Some('\u{2122}'),
            0x93 => Some('\u{fb01}'),
            0x94 => Some('\u{fb02}'),
            0x95 => Some('\u{0141}'),
            0x96 => Some('\u{0152}'),
            0x97 => Some('\u{0160}'),
            0x98 => Some('\u{0178}'),
            0x99 => Some('\u{017d}'),
            0x9a => Some('\u{0131}'),
            0x9b => Some('\u{0142}'),
            0x9c => Some('\u{0153}'),
            0x9d => Some('\u{0161}'),
            0x9e => Some('\u{017e}'),
            0xa0 => Some('\u{20ac}'),
            _ => None,
        }
    }
}

/// The text that bytes in PDFDocEncoding stand for. Bytes that stand for nothing are skipped.
pub open spec fn pdf_doc_text(bytes: Seq<u8>) -> Seq<char>
    decreases bytes.len(),
{
    if bytes.len() == 0 {
        Seq::empty()
    } else {
        let head = pdf_doc_text(bytes.drop_last());
        match pdf_doc_char(bytes.last()) {
            Some(c) => head.push(c),
            None => head,
        }
    }
}

/// The character that `byte` stands for in PDFDocEncoding.
pub fn decode_pdf_doc_byte(byte: u8) -> (r: Option<char>)
    ensures
        r == pdf_doc_char(byte),
{
    if byte == 0x09 || byte == 0x0a || byte == 0x0d || (0x20 <= byte && byte <= 0x7e) || (0xa1
        <= byte && byte != 0xad) {
        return Some(byte as char);
    }
    match byte {
        0x18 => Some('\u{02d8}'),
        0x19 => Some('\u{02c7}'),
        0x1a => Some('\u{02c6}'),
        0x1b => Some('\u{02d9}'),
        0x1c => Some('\u{02dd}'),
        0x1d => Some('\u{02db}'),
        0x1e => Some('\u{02da}'),
        0x1f => Some('\u{02dc}'),
        0x80 => Some('\u{2022}'),
        0x81 => Some('\u{2020}'),
        0x82 => Some('\u{2021}'),
        0x83 => Some('\u{2026}'),
        0x84 => Some('\u{2014}'),
        0x85 => Some('\u{2013}'),
        0x86 => Some('\u{0192}'),
        0x87 => Some('\u{2044}'),
        0x88 => Some('\u{2039}'),
        0x89 => Some('\u{203a}'),
        0x8a => Some('\u{2212}'),
        0x8b => Some('\u{2030}'),
        0x8c => Some('\u{201e}'),
        0x8d => Some('\u{201c}'),
        0x8e => Some('\u{201d}'),
        0x8f => Some('\u{2018}'),
        0x90 => Some('\u{2019}'),
        0x91 => Some('\u{201a}'),
        0x92 => Some('\u{2122}'),
        0x93 => Some('\u{fb01}'),
        0x94 => Some('\u{fb02}'),
        0x95 => Some('\u{0141}'),
        0x96 => Some('\u{0152}'),
        0x97 => Some('\u{0160}'),
        0x98 => Some('\u{0178}'),
        0x99 => Some('\u{017d}'),
        0x9a => Some('\u{0131}'),
        0x9b => Some('\u{0142}'),
        0x9c => Some('\u{0153}'),
        0x9d => Some('\u{0161}'),
        0x9e => Some('\u{017e}'),
        0xa0 => Some('\u{20ac}'),
        _ => None,
    }
}

/// The text that `bytes` in PDFDocEncoding stand for. Bytes that stand for nothing are skipped.
pub fn bytes_to_string(bytes: &[u8]) -> (r: String)
    ensures
        r@ == pdf_doc_text(bytes@),
{
    let mut out = String::new();
    let mut i: usize = 0;
    while i < bytes.len()
        invariant
            i <= bytes@.len(),
            out@ == pdf_doc_text(bytes@.take(i as int)),
        decreases bytes@.len() - i,
    {
        assert(bytes@.take(i + 1).drop_last() =~= bytes@.take(i as int));
        if let Some(c) = decode_pdf_doc_byte(bytes[i]) {
            out.push(c);
        }
        i += 1;
    }
    assert(bytes@.take(i as int) =~= bytes@);
    out
}

/// Whether PDFDocEncoding has a byte for `c`.
pub open spec fn in_pdf_doc(c: char) -> bool {
    exists|byte: u8| #[trigger] pdf_doc_char(byte) == Some(c)
}

/// Whether `byte` stands for `c` in PDFDocEncoding.
pub open spec fn stands_for(byte: u8, c: char) -> bool {
    pdf_doc_char(byte) == Some(c)
}

/// No two bytes stand for one character in PDFDocEncoding.
pub proof fn lemma_pdf_doc_bytes_differ(a: u8, b: u8)
    requires
        pdf_doc_char(a) is Some,
        pdf_doc_char(a) == pdf_doc_char(b),
    ensures
        a == b,
{
}

/// Text in PDFDocEncoding, without the characters that it has no byte for.
pub open spec fn pdf_doc_bytes(text: Seq<char>) -> Seq<u8>
    decreases text.len(),
{
    if text.len() == 0 {
        Seq::empty()
    } else {
        let head = pdf_doc_bytes(text.drop_last());
        if in_pdf_doc(text.last()) {
            head.push(choose|byte: u8| stands_for(byte, text.last()))
        } else {
            head
        }
    }
}

/// Text that PDFDocEncoding has bytes for comes back from those bytes.
pub proof fn lemma_pdf_doc_text_comes_back(text: Seq<char>)
    requires
        forall|i: int| 0 <= i < text.len() ==> in_pdf_doc(#[trigger] text[i]),
    ensures
        pdf_doc_text(pdf_doc_bytes(text)) == text,
    decreases text.len(),
{
    if text.len() > 0 {
        let head = text.drop_last();
        lemma_pdf_doc_text_comes_back(head);
        assert(in_pdf_doc(text[text.len() - 1]));
        let found = choose|byte: u8| #[trigger] pdf_doc_char(byte) == Some(text.last());
        assert(stands_for(found, text.last()));
        let byte = choose|byte: u8| stands_for(byte, text.last());
        assert(pdf_doc_bytes(text).drop_last() =~= pdf_doc_bytes(head));
        assert(pdf_doc_bytes(text).last() == byte);
        assert(pdf_doc_text(pdf_doc_bytes(text)) =~= text);
    }
}

fn encode_pdf_doc_char(c: char) -> (r: Option<u8>)
    ensures
        match r {
            Some(byte) => stands_for(byte, c),
            None => !in_pdf_doc(c),
        },
{
    let mut byte: u8 = 0;
    loop
        invariant
            forall|b: u8| b < byte ==> !stands_for(b, c),
        decreases 255 - byte,
    {
        if let Some(found) = decode_pdf_doc_byte(byte) {
            if found == c {
                return Some(byte);
            }
        }
        assert(!stands_for(byte, c));
        if byte == 255 {
            assert forall|b: u8| #[trigger] pdf_doc_char(b) != Some(c) by {
                assert(!stands_for(b, c));
            }
            return None;
        }
        byte += 1;
    }
}

/// `text` in PDFDocEncoding, without the characters that it has no byte for.
pub fn string_to_bytes(text: &str) -> (r: Vec<u8>)
    ensures
        r@ == pdf_doc_bytes(text@),
{
    let chars = chars_of(text);
    let mut bytes: Vec<u8> = Vec::new();
    let mut i: usize = 0;
    while i < chars.len()
        invariant
            i <= chars@.len(),
            bytes@ == pdf_doc_bytes(chars@.take(i as int)),
        decreases chars@.len() - i,
    {
        assert(chars@.take(i + 1).drop_last() =~= chars@.take(i as int));
        if let Some(byte) = encode_pdf_doc_char(chars[i]) {
            proof {
                assert(pdf_doc_char(byte) == Some(chars@[i as int]));
                let chosen = choose|b: u8| stands_for(b, chars@[i as int]);
                assert(stands_for(byte, chars@[i as int]));
                lemma_pdf_doc_bytes_differ(byte, chosen);
            }
            bytes.push(byte);
        }
        i += 1;
    }
    assert(chars@.take(i as int) =~= text@);
    bytes
}

/// The UTF-16 code units of `c`.
pub open spec fn utf16_units(c: char) -> Seq<u16> {
    let code = c as u32;
    if code < 0x1_0000 {
        seq![code as u16]
    } else {
        let rest = (code - 0x1_0000) as u32;
        seq![(0xd800 + rest / 0x400) as u16, (0xdc00 + rest % 0x400) as u16]
    }
}

/// Text as UTF-16 code units.
pub open spec fn utf16(text: Seq<char>) -> Seq<u16>
    decreases text.len(),
{
    if text.len() == 0 {
        Seq::empty()
    } else {
        utf16_units(text[0]) + utf16(text.drop_first())
    }
}

/// Whether `unit` is the first half of a surrogate pair.
pub open spec fn leads(unit: u16) -> bool {
    0xd800 <= unit <= 0xdbff
}

/// Whether `unit` is the second half of a surrogate pair.
pub open spec fn trails(unit: u16) -> bool {
    0xdc00 <= unit <= 0xdfff
}

/// The code point of a surrogate pair.
pub open spec fn paired(first: u16, second: u16) -> int {
    0x1_0000 + (first - 0xd800) * 0x400 + (second - 0xdc00)
}

/// The text that UTF-16 code units stand for, where they stand for any.
pub open spec fn utf16_text(units: Seq<u16>) -> Option<Seq<char>>
    decreases units.len(),
{
    if units.len() == 0 {
        Some(Seq::empty())
    } else if leads(units[0]) {
        if units.len() > 1 && trails(units[1]) {
            match utf16_text(units.skip(2)) {
                Some(rest) => Some(seq![paired(units[0], units[1]) as char] + rest),
                None => None,
            }
        } else {
            None
        }
    } else if trails(units[0]) {
        None
    } else {
        match utf16_text(units.skip(1)) {
            Some(rest) => Some(seq![units[0] as char] + rest),
            None => None,
        }
    }
}

/// Text comes back from its UTF-16 code units.
pub proof fn lemma_utf16_text_comes_back(text: Seq<char>)
    ensures
        utf16_text(utf16(text)) == Some(text),
    decreases text.len(),
{
    if text.len() > 0 {
        let rest = text.drop_first();
        lemma_utf16_text_comes_back(rest);
        let units = utf16(text);
        let first = utf16_units(text[0]);
        assert(units.skip(first.len() as int) =~= utf16(rest));
        assert(seq![text[0]] + rest =~= text);
        let c: char = text[0];
        let code = c as u32;
        char_is_scalar(c);
        char_u32_cast(c, code);
        if code >= 0x1_0000 {
            let past = code - 0x1_0000;
            assert(past < 0x10_0000);
            assert(past / 0x400 < 0x400);
            assert(past / 0x400 * 0x400 + past % 0x400 == past);
            assert(units[0] == first[0]);
            assert(units[1] == first[1]);
            assert(units[0] == 0xd800 + past / 0x400);
            assert(units[1] == 0xdc00 + past % 0x400);
            assert(paired(units[0], units[1]) == code);
        }
    } else {
        assert(utf16(text) =~= Seq::<u16>::empty());
        assert(text =~= Seq::<char>::empty());
    }
}

/// The text that `units` stand for, or `None` where a surrogate is not one of a pair.
pub fn decode_utf16_units(units: &Vec<u16>) -> (r: Option<String>)
    ensures
        match r {
            Some(text) => utf16_text(units@) == Some(text@),
            None => utf16_text(units@) is None,
        },
{
    let mut chars: Vec<char> = Vec::new();
    let mut i: usize = 0;
    assert(units@.skip(0) =~= units@);
    while i < units.len()
        invariant
            i <= units@.len(),
            utf16_text(units@) is None <==> utf16_text(units@.skip(i as int)) is None,
            utf16_text(units@.skip(i as int)) matches Some(rest) ==> utf16_text(units@) == Some(
                chars@ + rest,
            ),
        decreases units@.len() - i,
    {
        let ghost left = units@.skip(i as int);
        let ghost before = chars@;
        let unit = units[i];
        let code: u32;
        if 0xd800 <= unit && unit <= 0xdbff {
            if i + 1 >= units.len() {
                return None;
            }
            let second = units[i + 1];
            assert(second == left[1]);
            if second < 0xdc00 || second > 0xdfff {
                return None;
            }
            code = 0x1_0000 + (unit as u32 - 0xd800) * 0x400 + (second as u32 - 0xdc00);
            assert(left.skip(2) =~= units@.skip(i + 2));
            i += 2;
        } else {
            if 0xdc00 <= unit && unit <= 0xdfff {
                return None;
            }
            code = unit as u32;
            assert(left.skip(1) =~= units@.skip(i + 1));
            i += 1;
        }
        match char::from_u32(code) {
            Some(c) => {
                chars.push(c);
                proof {
                    char_u32_cast(c, code);
                    if let Some(rest) = utf16_text(units@.skip(i as int)) {
                        assert(before + (seq![c] + rest) =~= chars@ + rest);
                    }
                }
            },
            None => {
                assert(is_scalar(code));
                return None;
            },
        }
    }
    assert(units@.skip(i as int) =~= Seq::<u16>::empty());
    assert(chars@ + Seq::<char>::empty() =~= chars@);
    Some(string_of(&chars))
}

/// The bytes of `units`, the high byte of each first.
pub open spec fn big_endian(units: Seq<u16>) -> Seq<u8>
    decreases units.len(),
{
    if units.len() == 0 {
        Seq::empty()
    } else {
        big_endian(units.drop_last()).push((units.last() / 256) as u8).push(
            (units.last() % 256) as u8,
        )
    }
}

/// The code units of `bytes`, read in pairs. An odd byte at the end is the first of a pair whose
/// second is zero.
pub open spec fn byte_pairs(bytes: Seq<u8>, high_first: bool) -> Seq<u16> {
    Seq::new(
        ((bytes.len() + 1) / 2) as nat,
        |i: int|
            {
                let first = bytes[2 * i];
                let second = if 2 * i + 1 < bytes.len() {
                    bytes[2 * i + 1]
                } else {
                    0
                };
                if high_first {
                    (first * 256 + second) as u16
                } else {
                    (second * 256 + first) as u16
                }
            },
    )
}

/// Code units come back from their bytes.
pub proof fn lemma_units_come_back(units: Seq<u16>)
    ensures
        big_endian(units).len() == 2 * units.len(),
        byte_pairs(big_endian(units), true) == units,
    decreases units.len(),
{
    if units.len() > 0 {
        let head = units.drop_last();
        lemma_units_come_back(head);
        let bytes = big_endian(units);
        let pairs = byte_pairs(bytes, true);
        assert forall|i: int| 0 <= i < units.len() implies pairs[i] == #[trigger] units[i] by {
            if i < head.len() {
                assert(byte_pairs(big_endian(head), true)[i] == head[i]);
            } else {
                let unit = units.last();
                assert(unit / 256 * 256 + unit % 256 == unit);
            }
        }
        assert(pairs =~= units);
    } else {
        assert(byte_pairs(big_endian(units), true) =~= units);
    }
}

/// The code units of `bytes`, read in pairs. An odd byte at the end is the first of a pair whose
/// second is zero.
pub fn units_of(bytes: &[u8], high_first: bool) -> (r: Vec<u16>)
    ensures
        r@ == byte_pairs(bytes@, high_first),
{
    let mut units: Vec<u16> = Vec::new();
    let mut i: usize = 0;
    while i < bytes.len()
        invariant
            i <= bytes@.len(),
            i % 2 == 0 || i == bytes@.len(),
            units@.len() == (i + 1) / 2,
            forall|j: int|
                0 <= j < units@.len() ==> units@[j] == byte_pairs(bytes@, high_first)[j],
        decreases bytes@.len() - i,
    {
        let first = bytes[i] as u16;
        let last = i + 1 >= bytes.len();
        let second: u16 = if last {
            0
        } else {
            bytes[i + 1] as u16
        };
        let unit = if high_first {
            first * 256 + second
        } else {
            second * 256 + first
        };
        assert(2 * units@.len() == i);
        assert(unit == byte_pairs(bytes@, high_first)[units@.len() as int]);
        units.push(unit);
        if last {
            i += 1;
        } else {
            i += 2;
        }
    }
    assert(units@ =~= byte_pairs(bytes@, high_first));
    units
}

fn push_unit(bytes: &mut Vec<u8>, unit: u16)
    ensures
        final(bytes)@ == old(bytes)@.push((unit / 256) as u8).push((unit % 256) as u8),
{
    bytes.push((unit / 256) as u8);
    bytes.push((unit % 256) as u8);
}

proof fn lemma_big_endian_push(units: Seq<u16>, unit: u16)
    ensures
        big_endian(units.push(unit)) == big_endian(units).push((unit / 256) as u8).push(
            (unit % 256) as u8,
        ),
{
    assert(units.push(unit).drop_last() =~= units);
}

/// Appends a byte-order mark and `text` in UTF-16, the high byte of each code unit first.
pub fn encode_utf16_be(text: &str, bytes: &mut Vec<u8>)
    ensures
        final(bytes)@ == old(bytes)@ + seq![0xfeu8, 0xff] + big_endian(utf16(text@)),
{
    let ghost before = bytes@;
    let chars = chars_of(text);
    bytes.push(0xfe);
    bytes.push(0xff);
    let ghost mut units: Seq<u16> = Seq::empty();
    let mut i: usize = 0;
    proof {
        assert(chars@.skip(0) =~= chars@);
        assert(units + utf16(chars@) =~= utf16(chars@));
        assert(bytes@ =~= before + seq![0xfeu8, 0xff] + big_endian(units));
    }
    while i < chars.len()
        invariant
            i <= chars@.len(),
            bytes@ == before + seq![0xfeu8, 0xff] + big_endian(units),
            units + utf16(chars@.skip(i as int)) == utf16(chars@),
        decreases chars@.len() - i,
    {
        let ghost left = chars@.skip(i as int);
        let ghost done = units;
        let code = chars[i] as u32;
        assert(left[0] == chars@[i as int]);
        assert(left.drop_first() =~= chars@.skip(i + 1));
        if code < 0x1_0000 {
            proof {
                lemma_big_endian_push(units, code as u16);
                units = units.push(code as u16);
            }
            push_unit(bytes, code as u16);
        } else {
            let rest = code - 0x1_0000;
            let first = (0xd800 + rest / 0x400) as u16;
            let second = (0xdc00 + rest % 0x400) as u16;
            proof {
                lemma_big_endian_push(units, first);
                lemma_big_endian_push(units.push(first), second);
                units = units.push(first).push(second);
            }
            push_unit(bytes, first);
            push_unit(bytes, second);
        }
        proof {
            assert(units =~= done + utf16_units(left[0]));
            assert(units + utf16(chars@.skip(i + 1)) =~= done + utf16(left));
            assert(bytes@ =~= before + seq![0xfeu8, 0xff] + big_endian(units));
        }
        i += 1;
    }
    assert(units + utf16(chars@.skip(i as int)) =~= units);
}

} // verus!
