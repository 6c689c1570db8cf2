//! Text strings, and the space in text.

use vstd::prelude::*;
use vstd::utf8::{encode_utf8, encode_utf8_decode_utf8, encode_utf8_valid_utf8};

use crate::bytes::starts_with;
use crate::common_data_structures::decoded_text;
use crate::document_outline::title_text;
use crate::encodings::{byte_pairs, pdf_doc_char, pdf_doc_text, utf16, utf16_text, utf16_units};
use crate::font_encoding::win_ansi_char;
use crate::object::{Entries, Value};
use crate::resolver::{followed_entry, Model};
use crate::text::{collapsed, is_space, leading_space, lossy_utf8, trailing_space, trimmed};

verus! {

/// Whether `units` are `c` in UTF-16: its code point, or the two halves of what it is past 0xffff, ten
/// bits each.
pub open spec fn is_coded(c: char, units: Seq<u16>) -> bool {
    let code = c as u32;
    if code <= 0xffff {
        units.len() == 1 && units[0] == code
    } else {
        &&& units.len() == 2
        &&& 0xd800 <= units[0] < 0xdc00
        &&& 0xdc00 <= units[1] < 0xe000
        &&& code == 0x1_0000 + 1024 * (units[0] - 0xd800) + (units[1] - 0xdc00)
    }
}

/// Each character is written as it is coded in UTF-16.
pub proof fn lemma_coded(c: char)
    ensures
        is_coded(c, utf16_units(c)),
{
    vstd::utf8::char_is_scalar(c);
}

/// Characters coded in UTF-16, one after the other, are read back.
pub proof fn lemma_coded_text(text: Seq<char>, parts: Seq<Seq<u16>>)
    requires
        parts.len() == text.len(),
        forall|i: int| 0 <= i < text.len() ==> is_coded(text[i], #[trigger] parts[i]),
    ensures
        utf16_text(parts.flatten()) == Some(text),
        utf16(text) == parts.flatten(),
    decreases text.len(),
{
    let units = parts.flatten();
    if text.len() == 0 {
        assert(units =~= Seq::empty());
        assert(text =~= Seq::empty());
    } else {
        let c: char = text[0];
        let part = parts[0];
        let rest = parts.drop_first();
        assert(is_coded(text[0], parts[0]));
        assert forall|i: int| 0 <= i < rest.len() implies is_coded(
            text.drop_first()[i],
            #[trigger] rest[i],
        ) by {
            assert(is_coded(text[i + 1], parts[i + 1]));
        }
        lemma_coded_text(text.drop_first(), rest);
        vstd::utf8::char_is_scalar(c);
        vstd::utf8::char_u32_cast(c, c as u32);
        assert(units == part + rest.flatten());
        assert(units.skip(part.len() as int) =~= rest.flatten());
        assert(seq![c] + text.drop_first() =~= text);
        lemma_coded(c);
        assert(utf16_units(c) =~= part);
        if c as u32 <= 0xffff {
            assert(units[0] == c as u32);
        } else {
            assert(units[0] == part[0] && units[1] == part[1]);
        }
    }
}

/// Bytes in pairs, the high one first or last.
pub open spec fn are_unit_bytes(bytes: Seq<u8>, units: Seq<u16>, high_first: bool) -> bool {
    &&& bytes.len() == 2 * units.len()
    &&& forall|i: int|
        0 <= i < units.len() ==> #[trigger] units[i] == if high_first {
            256 * bytes[2 * i] + bytes[2 * i + 1]
        } else {
            bytes[2 * i] + 256 * bytes[2 * i + 1]
        }
}

/// A text string says in its first bytes how it is written: `fe ff` for UTF-16 with the high bytes first,
/// `ff fe` for UTF-16 with the low bytes first, `ef bb bf` for UTF-8; without any of these it is in
/// PDFDocEncoding.
pub proof fn lemma_text_strings(bytes: Seq<u8>, units: Seq<u16>, text: Seq<char>)
    ensures
        are_unit_bytes(bytes, units, true) ==> decoded_text(seq![0xfeu8, 0xff] + bytes) == utf16_text(
            units,
        ),
        are_unit_bytes(bytes, units, false) ==> decoded_text(seq![0xffu8, 0xfe] + bytes)
            == utf16_text(units),
        decoded_text(seq![0xefu8, 0xbb, 0xbf] + encode_utf8(text)) == Some(text),
        !starts_with(bytes, seq![0xfeu8, 0xff]) && !starts_with(bytes, seq![0xffu8, 0xfe])
            && !starts_with(bytes, seq![0xefu8, 0xbb, 0xbf]) ==> decoded_text(bytes) == Some(
            pdf_doc_text(bytes),
        ),
{
    let high = seq![0xfeu8, 0xff] + bytes;
    assert(high.skip(2) =~= bytes);
    assert(high.take(2) =~= seq![0xfeu8, 0xff]);
    let low = seq![0xffu8, 0xfe] + bytes;
    assert(low.skip(2) =~= bytes);
    assert(low.take(2) =~= seq![0xffu8, 0xfe]);
    assert(low.take(2)[0] != seq![0xfeu8, 0xff][0]);
    if are_unit_bytes(bytes, units, true) {
        assert(byte_pairs(bytes, true) =~= units);
    }
    if are_unit_bytes(bytes, units, false) {
        assert(byte_pairs(bytes, false) =~= units);
    }
    let coded = encode_utf8(text);
    let marked = seq![0xefu8, 0xbb, 0xbf] + coded;
    assert(marked.skip(3) =~= coded);
    assert(marked.take(3) =~= seq![0xefu8, 0xbb, 0xbf]);
    assert(marked.take(2)[0] == 0xef);
    assert(seq![0xfeu8, 0xff][0] == 0xfe && seq![0xffu8, 0xfe][0] == 0xff);
    encode_utf8_decode_utf8(text);
    encode_utf8_valid_utf8(text);
}

/// Bytes in PDFDocEncoding are read one by one, each as its character, or as nothing.
pub proof fn lemma_pdf_doc_bytes(bytes: Seq<u8>, others: Seq<u8>)
    ensures
        pdf_doc_text(bytes + others) == pdf_doc_text(bytes) + pdf_doc_text(others),
    decreases others.len(),
{
    if others.len() == 0 {
        assert(bytes + others =~= bytes);
        assert(pdf_doc_text(bytes) + pdf_doc_text(others) =~= pdf_doc_text(bytes));
    } else {
        lemma_pdf_doc_bytes(bytes, others.drop_last());
        assert((bytes + others).drop_last() =~= bytes + others.drop_last());
        assert((bytes + others).last() == others.last());
        assert(pdf_doc_text(bytes + others) =~= pdf_doc_text(bytes) + pdf_doc_text(others));
    }
}

/// What PDFDocEncoding has from 0x18 on, before the space.
pub open spec fn accents() -> Seq<char> {
    seq![
        '\u{02d8}',
        '\u{02c7}',
        '\u{02c6}',
        '\u{02d9}',
        '\u{02dd}',
        '\u{02db}',
        '\u{02da}',
        '\u{02dc}',
    ]
}

/// What PDFDocEncoding has from 0x80 on, before the one code that it has nothing for.
pub open spec fn pdf_doc_marks() -> Seq<char> {
    seq![
        '\u{2022}',
        '\u{2020}',
        '\u{2021}',
        '\u{2026}',
        '\u{2014}',
        '\u{2013}',
        '\u{0192}',
        '\u{2044}',
        '\u{2039}',
        '\u{203a}',
        '\u{2212}',
        '\u{2030}',
        '\u{201e}',
        '\u{201c}',
        '\u{201d}',
        '\u{2018}',
        '\u{2019}',
        '\u{201a}',
        '\u{2122}',
        '\u{fb01}',
        '\u{fb02}',
        '\u{0141}',
        '\u{0152}',
        '\u{0160}',
        '\u{0178}',
        '\u{017d}',
        '\u{0131}',
        '\u{0142}',
        '\u{0153}',
        '\u{0161}',
        '\u{017e}',
    ]
}

/// PDFDocEncoding is ASCII, Latin-1 in its second half, accents and marks, and the euro sign at 0xa0.
pub proof fn lemma_pdf_doc_encoding(byte: u8)
    ensures
        0x20 <= byte <= 0x7e || (0xa1 <= byte && byte != 0xad) ==> pdf_doc_char(byte) == Some(
            byte as char,
        ),
        byte == 9 || byte == 10 || byte == 13 ==> pdf_doc_char(byte) == Some(byte as char),
        0x18 <= byte <= 0x1f ==> pdf_doc_char(byte) == Some(accents()[byte - 0x18]),
        0x80 <= byte <= 0x9e ==> pdf_doc_char(byte) == Some(pdf_doc_marks()[byte - 0x80]),
        byte == 0xa0 ==> pdf_doc_char(byte) == Some('\u{20ac}'),
        byte == 0x7f || byte == 0x9f || byte == 0xad || (byte < 0x18 && byte != 9 && byte != 10 && byte
            != 13) ==> pdf_doc_char(byte) is None,
{
}

/// What WinAnsiEncoding has from 0x80 to 0x9f, with a bullet for what it has nothing for.
pub open spec fn win_ansi_marks() -> Seq<char> {
    seq![
        '\u{20ac}',
        '\u{2022}',
        '\u{201a}',
        '\u{0192}',
        '\u{201e}',
        '\u{2026}',
        '\u{2020}',
        '\u{2021}',
        '\u{02c6}',
        '\u{2030}',
        '\u{0160}',
        '\u{2039}',
        '\u{0152}',
        '\u{2022}',
        '\u{017d}',
        '\u{2022}',
        '\u{2022}',
        '\u{2018}',
        '\u{2019}',
        '\u{201c}',
        '\u{201d}',
        '\u{2022}',
        '\u{2013}',
        '\u{2014}',
        '\u{02dc}',
        '\u{2122}',
        '\u{0161}',
        '\u{203a}',
        '\u{0153}',
        '\u{2022}',
        '\u{017e}',
        '\u{0178}',
    ]
}

/// WinAnsiEncoding is ASCII, Latin-1 in its second half, and the marks of Windows between them.
pub proof fn lemma_win_ansi_encoding(byte: u8)
    ensures
        0x20 <= byte <= 0x7e || 0xa0 <= byte ==> win_ansi_char(byte) == Some(byte as char),
        0x80 <= byte <= 0x9f ==> win_ansi_char(byte) == Some(win_ansi_marks()[byte - 0x80]),
        byte == 0x7f ==> win_ansi_char(byte) == Some('\u{2022}'),
        byte < 0x20 ==> win_ansi_char(byte) is None,
{
}

/// Whether every character of `text` is white space.
pub open spec fn is_all_space(text: Seq<char>) -> bool {
    forall|i: int| 0 <= i < text.len() ==> is_space(#[trigger] text[i])
}

proof fn lemma_leading(text: Seq<char>)
    ensures
        leading_space(text) <= text.len(),
        is_all_space(text.take(leading_space(text) as int)),
        leading_space(text) < text.len() ==> !is_space(text[leading_space(text) as int]),
    decreases text.len(),
{
    if text.len() > 0 && is_space(text[0]) {
        let rest = text.drop_first();
        lemma_leading(rest);
        let n = leading_space(text) as int;
        assert forall|i: int| 0 <= i < n implies is_space(#[trigger] text.take(n)[i]) by {
            if i > 0 {
                assert(rest.take(n - 1)[i - 1] == text[i]);
            }
        }
    }
}

proof fn lemma_trailing(text: Seq<char>)
    ensures
        trailing_space(text) <= text.len(),
        is_all_space(text.skip(text.len() - trailing_space(text))),
        trailing_space(text) < text.len() ==> !is_space(text[text.len() - trailing_space(text) - 1]),
    decreases text.len(),
{
    if text.len() > 0 && is_space(text.last()) {
        let rest = text.drop_last();
        lemma_trailing(rest);
        let n = trailing_space(text) as int;
        let end = text.skip(text.len() - n);
        assert forall|i: int| 0 <= i < end.len() implies is_space(#[trigger] end[i]) by {
            if i < n - 1 {
                assert(rest.skip(rest.len() - (n - 1))[i] == end[i]);
            }
        }
    }
}

/// Trimmed text is what is between the space in front and the space behind, and neither starts nor ends
/// with space.
pub proof fn lemma_trimmed(text: Seq<char>) -> (space: (Seq<char>, Seq<char>))
    ensures
        text == space.0 + trimmed(text) + space.1,
        is_all_space(space.0),
        is_all_space(space.1),
        trimmed(text).len() > 0 ==> !is_space(trimmed(text)[0]) && !is_space(trimmed(text).last()),
{
    lemma_leading(text);
    let n = leading_space(text) as int;
    let rest = text.skip(n);
    lemma_trailing(rest);
    let m = rest.len() - trailing_space(rest);
    assert(text =~= text.take(n) + rest.take(m) + rest.skip(m));
    (text.take(n), rest.skip(m))
}

/// White space is what Unicode calls so: the controls from tab to carriage return, the space, the next
/// line, the no-break space, and the spaces and separators of other scripts and of typesetting.
pub proof fn lemma_spaces(c: char)
    ensures
        is_space(c) <==> {
            ||| '\t' <= c <= '\r'
            ||| c == ' '
            ||| c == '\u{0085}'
            ||| c == '\u{00a0}'
            ||| c == '\u{1680}'
            ||| '\u{2000}' <= c <= '\u{200a}'
            ||| c == '\u{2028}'
            ||| c == '\u{2029}'
            ||| c == '\u{202f}'
            ||| c == '\u{205f}'
            ||| c == '\u{3000}'
        },
{
    vstd::utf8::char_u32_cast(c, c as u32);
}

/// Text collapses word by word: the space in front and behind goes, and the space between two words is
/// one space.
pub proof fn lemma_collapsed_words(before: Seq<char>, gap: Seq<char>, word: Seq<char>)
    requires
        is_all_space(gap),
        word.len() > 0,
        forall|i: int| 0 <= i < word.len() ==> !is_space(#[trigger] word[i]),
    ensures
        collapsed(gap) == Seq::<char>::empty(),
        collapsed(before + gap) == collapsed(before),
        collapsed(gap + word) == word,
        gap.len() > 0 && collapsed(before).len() > 0 ==> collapsed(before + gap + word) == collapsed(
            before,
        ).push(' ') + word,
{
    lemma_collapsed_gap(Seq::empty(), gap);
    assert(Seq::<char>::empty() + gap =~= gap);
    lemma_collapsed_gap(before, gap);
    lemma_collapsed_word(gap, word);
    lemma_collapsed_word(before + gap, word);
    if gap.len() > 0 {
        assert((before + gap).last() == gap[gap.len() - 1]);
    }
}

proof fn lemma_collapsed_gap(before: Seq<char>, gap: Seq<char>)
    requires
        is_all_space(gap),
    ensures
        collapsed(before + gap) == collapsed(before),
    decreases gap.len(),
{
    if gap.len() == 0 {
        assert(before + gap =~= before);
    } else {
        let fewer = gap.drop_last();
        assert forall|i: int| 0 <= i < fewer.len() implies is_space(#[trigger] fewer[i]) by {
            assert(fewer[i] == gap[i]);
        }
        lemma_collapsed_gap(before, fewer);
        assert((before + gap).drop_last() =~= before + fewer);
        assert((before + gap).last() == gap[gap.len() - 1]);
    }
}

proof fn lemma_collapsed_word(before: Seq<char>, word: Seq<char>)
    requires
        word.len() > 0,
        forall|i: int| 0 <= i < word.len() ==> !is_space(#[trigger] word[i]),
    ensures
        collapsed(before + word) == if collapsed(before).len() > 0 && is_space(before.last()) {
            collapsed(before).push(' ') + word
        } else {
            collapsed(before) + word
        },
    decreases word.len(),
{
    let text = before + word;
    let head = word.drop_last();
    assert(text.drop_last() =~= before + head);
    assert(text.last() == word[word.len() - 1]);
    if head.len() == 0 {
        assert(before + head =~= before);
        assert(before.len() > 0 ==> text[text.len() - 2] == before.last());
        assert(collapsed(before).push(' ').push(text.last()) =~= collapsed(before).push(' ') + word);
        assert(collapsed(before).push(text.last()) =~= collapsed(before) + word);
        if before.len() == 0 {
            assert(collapsed(before).len() == 0);
        }
    } else {
        assert forall|i: int| 0 <= i < head.len() implies !is_space(#[trigger] head[i]) by {
            assert(head[i] == word[i]);
        }
        lemma_collapsed_word(before, head);
        assert(text[text.len() - 2] == word[word.len() - 2]);
        assert((collapsed(before).push(' ') + head).push(text.last()) =~= collapsed(before).push(' ')
            + word);
        assert((collapsed(before) + head).push(text.last()) =~= collapsed(before) + word);
    }
}

/// An item's title is the text of its `/Title`, collapsed; what is no text string is read as UTF-8 as far
/// as it is, and what is no string is no title.
pub proof fn lemma_titles(model: Model, node: Entries)
    ensures
        match followed_entry(model, node, "Title"@) {
            Some(Value::String(bytes, _)) => match decoded_text(bytes) {
                Some(text) => title_text(model, node) == Some(collapsed(text)),
                None => title_text(model, node) == Some(collapsed(lossy_utf8(bytes))),
            },
            _ => title_text(model, node) is None,
        },
{
}

} // verus!
