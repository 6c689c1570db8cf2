//! What is written is read back.

use vstd::prelude::*;

use crate::bytes::key;
use crate::fixtures::{escape, escaped};
use crate::laws::composites::{
    lemma_keywords, lemma_names_and_strings, lemma_no_keyword, lemma_no_object, lemma_numbers,
};
use crate::laws::numbers::{are_digits, lemma_after_digits_at};
use crate::laws::numerals::{digits_worth as worth_of, lemma_digits_worth};
use crate::laws::stored_objects::{lemma_tagged, stands_at};
use crate::laws::syntax::{
    are_hex_digits, hex_count, is_blank, is_hex, is_literal, is_name_piece, is_piece,
    lemma_hexadecimal_strings, lemma_literal_strings, lemma_name_bytes, lemma_names, names_itself,
    nesting,
};
use crate::object::{
    distinct_keys, lemma_entry_absent, set_entry, Entries, ObjectId, StringFormat, Value,
};
use crate::parser::decimal::real_at;
use crate::parser::lexical::{
    after_digits, after_space, digits_worth, hexadecimal_at, integer_at, is_digit, literal_at,
    name_at, object_id_at,
};
use crate::parser::objects::{bare_at, dictionary_at, direct_at, entries_at, items_at};
use crate::text::{decimal, digits};
use crate::writer::{
    entries_bytes, hex_digit, hex_pair, hex_pairs, is_plain, items_bytes, name_text, number_text,
    object_bytes,
};

verus! {

/// The bytes of `text`, each written as `how` says.
pub open spec fn spelt(text: Seq<u8>, how: spec_fn(u8) -> Seq<u8>) -> Seq<u8>
    decreases text.len(),
{
    if text.len() == 0 {
        Seq::empty()
    } else {
        spelt(text.drop_last(), how) + how(text.last())
    }
}

proof fn lemma_spelt_at(text: Seq<u8>, how: spec_fn(u8) -> Seq<u8>, k: int)
    requires
        0 <= k < text.len(),
    ensures
        spelt(text.take(k + 1), how) == spelt(text.take(k), how) + how(text[k]),
        spelt(text.take(k + 1), how).len() <= spelt(text, how).len(),
        forall|j: int|
            0 <= j < how(text[k]).len() ==> spelt(text, how)[spelt(text.take(k), how).len() + j]
                == #[trigger] how(text[k])[j],
    decreases text.len(),
{
    let head = text.drop_last();
    assert(text.take(k + 1).drop_last() =~= text.take(k));
    assert(text.take(k + 1).last() == text[k]);
    if k == text.len() - 1 {
        assert(text.take(k) =~= head);
        assert(text.take(k + 1) =~= text);
    } else {
        lemma_spelt_at(head, how, k);
        assert(head.take(k) =~= text.take(k));
        assert(head.take(k + 1) =~= text.take(k + 1));
        assert(head[k] == text[k]);
        assert forall|j: int| 0 <= j < how(text[k]).len() implies spelt(text, how)[spelt(
            text.take(k),
            how,
        ).len() + j] == #[trigger] how(text[k])[j] by {
            assert(spelt(head, how)[spelt(head.take(k), how).len() + j] == how(head[k])[j]);
        }
    }
}

/// How a byte of a name is written.
pub open spec fn name_spelling(byte: u8) -> Seq<u8> {
    if is_plain(byte) {
        seq![byte]
    } else {
        seq![0x23u8] + hex_pair(byte)
    }
}

proof fn lemma_spellings(text: Seq<u8>)
    ensures
        escaped(text) == spelt(text, |byte: u8| escape(byte)),
        name_text(text) == spelt(text, |byte: u8| name_spelling(byte)),
        hex_pairs(text) == spelt(text, |byte: u8| hex_pair(byte)),
    decreases text.len(),
{
    if text.len() > 0 {
        lemma_spellings(text.drop_last());
    }
}

proof fn lemma_marks()
    ensures
        key("["@) == seq![0x5bu8],
        key("]"@) == seq![0x5du8],
        key("("@) == seq![0x28u8],
        key(")"@) == seq![0x29u8],
        key("<"@) == seq![0x3cu8],
        key(">"@) == seq![0x3eu8],
        key("<<"@) == seq![0x3cu8, 0x3c],
        key(">>"@) == seq![0x3eu8, 0x3e],
        key("/"@) == seq![0x2fu8],
        key(" "@) == seq![0x20u8],
        key(" R"@) == seq![0x20u8, 0x52],
        key("null"@) == seq![0x6eu8, 0x75, 0x6c, 0x6c],
        key("true"@) == seq![0x74u8, 0x72, 0x75, 0x65],
        key("false"@) == seq![0x66u8, 0x61, 0x6c, 0x73, 0x65],
{
    lemma_brackets();
    lemma_other_marks();
}

proof fn lemma_brackets()
    ensures
        key("["@) == seq![0x5bu8],
        key("]"@) == seq![0x5du8],
        key("("@) == seq![0x28u8],
        key(")"@) == seq![0x29u8],
        key("<"@) == seq![0x3cu8],
        key(">"@) == seq![0x3eu8],
        key("<<"@) == seq![0x3cu8, 0x3c],
        key(">>"@) == seq![0x3eu8, 0x3e],
{
    reveal_strlit("[");
    reveal_strlit("]");
    reveal_strlit("(");
    reveal_strlit(")");
    reveal_strlit("<");
    reveal_strlit(">");
    reveal_strlit("<<");
    reveal_strlit(">>");
    vstd::utf8::is_ascii_chars_encode_utf8("["@);
    vstd::utf8::is_ascii_chars_encode_utf8("]"@);
    vstd::utf8::is_ascii_chars_encode_utf8("("@);
    vstd::utf8::is_ascii_chars_encode_utf8(")"@);
    vstd::utf8::is_ascii_chars_encode_utf8("<"@);
    vstd::utf8::is_ascii_chars_encode_utf8(">"@);
    vstd::utf8::is_ascii_chars_encode_utf8("<<"@);
    vstd::utf8::is_ascii_chars_encode_utf8(">>"@);
    assert(key("["@) =~= seq![0x5bu8]);
    assert(key("]"@) =~= seq![0x5du8]);
    assert(key("("@) =~= seq![0x28u8]);
    assert(key(")"@) =~= seq![0x29u8]);
    assert(key("<"@) =~= seq![0x3cu8]);
    assert(key(">"@) =~= seq![0x3eu8]);
    assert(key("<<"@) =~= seq![0x3cu8, 0x3c]);
    assert(key(">>"@) =~= seq![0x3eu8, 0x3e]);
}

proof fn lemma_other_marks()
    ensures
        key("/"@) == seq![0x2fu8],
        key(" "@) == seq![0x20u8],
        key(" R"@) == seq![0x20u8, 0x52],
        key("null"@) == seq![0x6eu8, 0x75, 0x6c, 0x6c],
        key("true"@) == seq![0x74u8, 0x72, 0x75, 0x65],
        key("false"@) == seq![0x66u8, 0x61, 0x6c, 0x73, 0x65],
{
    reveal_strlit("/");
    reveal_strlit(" ");
    reveal_strlit(" R");
    reveal_strlit("null");
    reveal_strlit("true");
    reveal_strlit("false");
    vstd::utf8::is_ascii_chars_encode_utf8("/"@);
    vstd::utf8::is_ascii_chars_encode_utf8(" "@);
    vstd::utf8::is_ascii_chars_encode_utf8(" R"@);
    vstd::utf8::is_ascii_chars_encode_utf8("null"@);
    vstd::utf8::is_ascii_chars_encode_utf8("true"@);
    vstd::utf8::is_ascii_chars_encode_utf8("false"@);
    assert(key("/"@) =~= seq![0x2fu8]);
    assert(key(" "@) =~= seq![0x20u8]);
    assert(key(" R"@) =~= seq![0x20u8, 0x52]);
    assert(key("null"@) =~= seq![0x6eu8, 0x75, 0x6c, 0x6c]);
    assert(key("true"@) =~= seq![0x74u8, 0x72, 0x75, 0x65]);
    assert(key("false"@) =~= seq![0x66u8, 0x61, 0x6c, 0x73, 0x65]);
}

/// What stands behind one another stands each by itself.
pub proof fn lemma_stand_apart(bytes: Seq<u8>, at: int, first: Seq<u8>, second: Seq<u8>)
    requires
        stands_at(bytes, at, first + second),
    ensures
        stands_at(bytes, at, first),
        stands_at(bytes, at + first.len(), second),
{
    let both = first + second;
    assert forall|i: int| 0 <= i < first.len() implies bytes[at + i] == #[trigger] first[i] by {
        assert(bytes[at + i] == both[i]);
    }
    assert forall|i: int| 0 <= i < second.len() implies bytes[at + first.len() + i]
        == #[trigger] second[i] by {
        assert(bytes[at + (first.len() + i)] == both[first.len() + i]);
    }
}

proof fn lemma_flatten_singles(text: Seq<u8>, parts: Seq<Seq<u8>>)
    requires
        parts.len() == text.len(),
        forall|i: int| 0 <= i < text.len() ==> #[trigger] parts[i] == seq![text[i]],
    ensures
        parts.flatten() == text,
    decreases text.len(),
{
    if text.len() == 0 {
        assert(parts.flatten() =~= text);
    } else {
        let rest = parts.drop_first();
        assert forall|i: int| 0 <= i < rest.len() implies #[trigger] rest[i] == seq![
            text.drop_first()[i],
        ] by {
            assert(rest[i] == parts[i + 1]);
        }
        lemma_flatten_singles(text.drop_first(), rest);
        assert(parts[0] == seq![text[0]]);
        assert(parts.flatten() =~= seq![text[0]] + text.drop_first());
        assert(seq![text[0]] + text.drop_first() =~= text);
    }
}

/// A literal string is read back.
pub proof fn lemma_literal_comes_back(bytes: Seq<u8>, at: int, text: Seq<u8>)
    requires
        stands_at(bytes, at, seq![0x28u8] + escaped(text) + seq![0x29u8]),
    ensures
        literal_at(bytes, at) == Some((text, at + escaped(text).len() + 2)),
{
    let how = |byte: u8| escape(byte);
    lemma_spellings(text);
    let whole = spelt(text, how);
    lemma_stand_apart(bytes, at, seq![0x28u8] + whole, seq![0x29u8]);
    lemma_stand_apart(bytes, at, seq![0x28u8], whole);
    assert(bytes[at + 0] == seq![0x28u8][0]);
    let end = at + 1 + whole.len();
    assert(bytes[end + 0] == seq![0x29u8][0]);
    let places = Seq::new(text.len() + 1, |k: int| at + 1 + spelt(text.take(k), how).len());
    let meant = Seq::new(text.len(), |k: int| seq![text[k]]);
    assert(text.take(0) =~= Seq::empty());
    assert(text.take(text.len() as int) =~= text);
    assert forall|k: int| 0 <= k < meant.len() implies is_piece(
        bytes,
        places[k],
        places[k + 1],
        #[trigger] meant[k],
    ) && bytes[places[k]] != 0x28 && bytes[places[k]] != 0x29 by {
        lemma_spelt_at(text, how, k);
        let byte = text[k];
        let from = places[k];
        let offset = spelt(text.take(k), how).len() as int;
        assert(how(byte) == escape(byte));
        assert(bytes[at + 1 + offset] == whole[offset]);
        assert(whole[offset + 0] == how(text[k])[0]);
        if byte == 0x28 || byte == 0x29 || byte == 0x5c || byte == 0x0d {
            assert(whole[offset + 1] == how(text[k])[1]);
            assert(bytes[at + 1 + (offset + 1)] == whole[offset + 1]);
        }
    }
    assert forall|k: int| 0 <= k < places.len() - 1 implies bytes[#[trigger] places[k]] != 0x28
        && bytes[places[k]] != 0x29 by {
        assert(meant[k] == seq![text[k]]);
    }
    lemma_no_nesting(bytes, places, meant.len());
    assert forall|k: nat| k <= meant.len() implies 0 <= #[trigger] nesting(bytes, places, k) <= 100 by {
        lemma_no_nesting(bytes, places, k);
    }
    assert(is_literal(bytes, at, places, meant));
    lemma_literal_strings(bytes, at, places, meant);
    lemma_flatten_singles(text, meant);
}

proof fn lemma_no_nesting(bytes: Seq<u8>, places: Seq<int>, count: nat)
    requires
        count < places.len(),
        forall|k: int|
            0 <= k < places.len() - 1 ==> bytes[#[trigger] places[k]] != 0x28 && bytes[places[k]]
                != 0x29,
    ensures
        nesting(bytes, places, count) == 0,
    decreases count,
{
    if count > 0 {
        lemma_no_nesting(bytes, places, (count - 1) as nat);
    }
}

proof fn lemma_hex_digits(n: u8)
    requires
        n < 16,
    ensures
        is_hex(hex_digit(n)),
        hex_count(hex_digit(n)) == n,
{
}

/// A name is read back, whatever bytes it has.
pub proof fn lemma_name_comes_back(bytes: Seq<u8>, at: int, name: Seq<u8>)
    requires
        stands_at(bytes, at, seq![0x2fu8] + name_text(name)),
        at + 1 + name_text(name).len() < bytes.len() ==> is_blank(
            bytes[at + 1 + name_text(name).len()],
        ),
    ensures
        name_at(bytes, at) == Some((name, at + 1 + name_text(name).len())),
{
    let how = |byte: u8| name_spelling(byte);
    lemma_spellings(name);
    let whole = spelt(name, how);
    lemma_stand_apart(bytes, at, seq![0x2fu8], whole);
    assert(bytes[at + 0] == seq![0x2fu8][0]);
    let places = Seq::new(name.len() + 1, |k: int| at + 1 + spelt(name.take(k), how).len());
    assert(name.take(0) =~= Seq::empty());
    assert(name.take(name.len() as int) =~= name);
    assert forall|k: int| 0 <= k < name.len() implies is_name_piece(
        bytes,
        places[k],
        places[k + 1],
        #[trigger] name[k],
    ) by {
        lemma_spelt_at(name, how, k);
        let byte = name[k];
        let offset = spelt(name.take(k), how).len() as int;
        assert(how(byte) == name_spelling(byte));
        assert(bytes[at + 1 + offset] == whole[offset]);
        assert(whole[offset + 0] == how(name[k])[0]);
        if is_plain(byte) {
            lemma_plain_names_itself(byte);
        } else {
            assert(whole[offset + 1] == how(name[k])[1]);
            assert(whole[offset + 2] == how(name[k])[2]);
            assert(bytes[at + 1 + (offset + 1)] == whole[offset + 1]);
            assert(bytes[at + 1 + (offset + 2)] == whole[offset + 2]);
            lemma_hex_digits(byte / 16);
            lemma_hex_digits(byte % 16);
        }
    }
    if places.last() < bytes.len() {
        lemma_blank_names_nothing(bytes[places.last()]);
    }
    lemma_names(bytes, at, places, name);
}

proof fn lemma_plain_names_itself(byte: u8)
    requires
        is_plain(byte),
    ensures
        names_itself(byte),
        byte != 0x23,
{
    lemma_name_bytes();
}

proof fn lemma_blank_names_nothing(byte: u8)
    requires
        is_blank(byte),
    ensures
        !names_itself(byte),
        byte != 0x23,
{
    lemma_name_bytes();
}

/// A hexadecimal string is read back.
pub proof fn lemma_hexadecimal_comes_back(bytes: Seq<u8>, at: int, text: Seq<u8>)
    requires
        stands_at(bytes, at, seq![0x3cu8] + hex_pairs(text) + seq![0x3eu8]),
    ensures
        hexadecimal_at(bytes, at) == Some((text, at + hex_pairs(text).len() + 2)),
{
    let whole = hex_pairs(text);
    lemma_stand_apart(bytes, at, seq![0x3cu8] + whole, seq![0x3eu8]);
    lemma_stand_apart(bytes, at, seq![0x3cu8], whole);
    assert(bytes[at + 0] == seq![0x3cu8][0]);
    let end = at + 1 + whole.len();
    assert(bytes[end + 0] == seq![0x3eu8][0]);
    lemma_pairs_len(text);
    let places = Seq::new(2 * text.len(), |i: int| at + 1 + i);
    assert forall|i: int| 0 <= i < places.len() implies at < #[trigger] places[i] < end && is_hex(
        bytes[places[i]],
    ) by {
        lemma_pair_at(bytes, at + 1, text, i / 2);
    }
    assert forall|p: int| at < p < end implies is_blank(#[trigger] bytes[p]) || places.contains(p) by {
        assert(places[p - at - 1] == p);
    }
    assert(are_hex_digits(bytes, at, end, places));
    lemma_hexadecimal_strings(bytes, at, end, places);
    let (string, next) = hexadecimal_at(bytes, at)->Some_0;
    assert forall|i: int| 0 <= i < string.len() implies string[i] == text[i] by {
        lemma_pair_at(bytes, at + 1, text, i);
    }
    assert(string =~= text);
}

proof fn lemma_pairs_len(text: Seq<u8>)
    ensures
        hex_pairs(text).len() == 2 * text.len(),
    decreases text.len(),
{
    if text.len() > 0 {
        lemma_pairs_len(text.drop_last());
    }
}

proof fn lemma_pair_at(bytes: Seq<u8>, at: int, text: Seq<u8>, k: int)
    requires
        stands_at(bytes, at, hex_pairs(text)),
        0 <= k < text.len(),
    ensures
        is_hex(bytes[at + 2 * k]),
        is_hex(bytes[at + 2 * k + 1]),
        16 * hex_count(bytes[at + 2 * k]) + hex_count(bytes[at + 2 * k + 1]) == text[k],
    decreases text.len(),
{
    let head = text.drop_last();
    let whole = hex_pairs(text);
    lemma_pairs_len(head);
    lemma_stand_apart(bytes, at, hex_pairs(head), hex_pair(text.last()));
    if k < head.len() {
        lemma_pair_at(bytes, at, head, k);
    } else {
        let pair = hex_pair(text.last());
        let place = at + hex_pairs(head).len();
        assert(bytes[place + 0] == pair[0]);
        assert(bytes[place + 1] == pair[1]);
        lemma_hex_digits(text.last() / 16);
        lemma_hex_digits(text.last() % 16);
    }
}

/// Digits are written as their ASCII bytes.
pub proof fn lemma_digit_bytes(n: nat)
    ensures
        key(digits(n)).len() == digits(n).len(),
        digits(n).len() > 0,
        forall|i: int|
            0 <= i < digits(n).len() ==> #[trigger] key(digits(n))[i] as int == digits(n)[i] as int
                && 0x30 <= key(digits(n))[i] <= 0x39,
{
    lemma_digits_worth(n);
    let text = digits(n);
    assert(vstd::utf8::is_ascii_chars(text)) by {
        assert forall|i: int| 0 <= i < text.len() implies '\0' <= #[trigger] text[i] <= '\u{7f}' by {
            assert('0' <= digits(n)[i] <= '9');
        }
    }
    vstd::utf8::is_ascii_chars_encode_utf8(text);
    assert forall|i: int| 0 <= i < text.len() implies #[trigger] key(text)[i] as int == text[i] as int
        && 0x30 <= key(text)[i] <= 0x39 by {
        assert('0' <= digits(n)[i] <= '9');
    }
}

/// A number that stands somewhere is read there.
pub proof fn lemma_number_stands(bytes: Seq<u8>, at: int, n: nat)
    requires
        stands_at(bytes, at, key(digits(n))),
        at + key(digits(n)).len() < bytes.len() ==> !is_digit(bytes[at + key(digits(n)).len()]),
    ensures
        are_digits(bytes, at, at + key(digits(n)).len()),
        after_digits(bytes, at) == at + key(digits(n)).len(),
        digits_worth(bytes, at, at + key(digits(n)).len()) == n,
        key(digits(n)).len() > 0,
        0x30 <= bytes[at] <= 0x39,
{
    let text = key(digits(n));
    lemma_digit_bytes(n);
    lemma_digits_worth(n);
    let to = at + text.len();
    assert forall|p: int| at <= p < to implies 0x30 <= #[trigger] bytes[p] <= 0x39 by {
        assert(bytes[at + (p - at)] == text[p - at]);
        assert(0x30 <= key(digits(n))[p - at] <= 0x39);
    }
    lemma_after_digits_at(bytes, at, to);
    let shown = digits(n);
    assert forall|i: int| 0 <= i < shown.len() implies bytes[at + i] as int == #[trigger] shown[i] as int
        && '0' <= shown[i] <= '9' by {
        assert(bytes[at + i] == text[i]);
        assert(key(digits(n))[i] as int == digits(n)[i] as int);
        assert('0' <= digits(n)[i] <= '9');
    }
    lemma_same_worth(bytes, at, digits(n), digits(n).len());
    assert(digits(n).take(digits(n).len() as int) =~= digits(n));
}

proof fn lemma_same_worth(bytes: Seq<u8>, at: int, text: Seq<char>, k: nat)
    requires
        k <= text.len(),
        forall|i: int|
            0 <= i < text.len() ==> bytes[at + i] as int == #[trigger] text[i] as int && '0' <= text[i]
                <= '9',
    ensures
        digits_worth(bytes, at, at + k) == worth_of(text.take(k as int)),
    decreases k,
{
    if k > 0 {
        lemma_same_worth(bytes, at, text, (k - 1) as nat);
        assert(text.take(k as int).drop_last() =~= text.take(k - 1));
        assert(text.take(k as int).last() == text[k - 1]);
        assert(bytes[at + (k - 1)] as int == text[k - 1] as int);
    } else {
        assert(text.take(0).len() == 0);
    }
}

/// Whether what stands at `at` is no second half of a reference: no number with `R` behind it.
pub open spec fn is_calm(bytes: Seq<u8>, at: int) -> bool {
    is_digit(bytes[at]) ==> {
        let next = after_space(bytes, after_digits(bytes, at));
        !(0 <= next < bytes.len() && bytes[next] == 0x52)
    }
}

/// Whether one blank stands at `end`, and something else behind it that does not make a reference of a
/// number before it.
pub open spec fn is_ended(bytes: Seq<u8>, end: int) -> bool {
    &&& 0 <= end
    &&& end + 1 < bytes.len()
    &&& bytes[end] == 0x20 || bytes[end] == 0x0a
    &&& !is_blank(bytes[end + 1])
    &&& bytes[end + 1] != 0x25
    &&& bytes[end + 1] != 0x52
    &&& is_calm(bytes, end + 1)
}

proof fn lemma_one_blank(bytes: Seq<u8>, end: int)
    requires
        is_ended(bytes, end),
    ensures
        after_space(bytes, end) == end + 1,
        !is_digit(bytes[end]),
{
    assert(after_space(bytes, end + 1) == end + 1);
}

proof fn lemma_integer_comes_back(bytes: Seq<u8>, at: int, i: i64)
    requires
        stands_at(bytes, at, number_text(i as int)),
        is_ended(bytes, at + number_text(i as int).len()),
    ensures
        object_id_at(bytes, at) matches Some((_, end)) ==> !(0 <= end < bytes.len() && bytes[end]
            == 0x52),
        real_at(bytes, at) is None,
        integer_at(bytes, at) == Some((i, at + number_text(i as int).len())),
        number_text(i as int).len() > 0,
        bytes[at] == 0x2d || is_digit(bytes[at]),
{
    let text = number_text(i as int);
    let end = at + text.len();
    lemma_one_blank(bytes, end);
    if i < 0 {
        let n = (-i) as nat;
        lemma_digit_bytes(n);
        assert(decimal(i as int) == seq!['-'] + digits(n));
        lemma_minus(n);
        assert(text == seq![0x2du8] + key(digits(n)));
        lemma_stand_apart(bytes, at, seq![0x2du8], key(digits(n)));
        assert(bytes[at + 0] == seq![0x2du8][0]);
        lemma_number_stands(bytes, at + 1, n);
        assert(after_digits(bytes, at) == at);
    } else {
        let n = i as nat;
        lemma_number_stands(bytes, at, n);
        if let Some((_, next)) = object_id_at(bytes, at) {
            assert(is_digit(bytes[end + 1]));
            assert(next == after_space(bytes, after_digits(bytes, end + 1)));
        }
    }
}

proof fn lemma_minus(n: nat)
    ensures
        key(seq!['-'] + digits(n)) == seq![0x2du8] + key(digits(n)),
{
    lemma_digit_bytes(n);
    lemma_digits_worth(n);
    let text = seq!['-'] + digits(n);
    assert(vstd::utf8::is_ascii_chars(text)) by {
        assert forall|i: int| 0 <= i < text.len() implies '\0' <= #[trigger] text[i] <= '\u{7f}' by {
            if i > 0 {
                assert('0' <= digits(n)[i - 1] <= '9');
            }
        }
    }
    vstd::utf8::is_ascii_chars_encode_utf8(text);
    let bytes = key(text);
    let expected = seq![0x2du8] + key(digits(n));
    assert forall|i: int| 0 <= i < bytes.len() implies bytes[i] == expected[i] by {
        if i > 0 {
            assert(text[i] == digits(n)[i - 1]);
            assert(key(digits(n))[i - 1] as int == digits(n)[i - 1] as int);
        }
    }
    assert(bytes =~= expected);
}

proof fn lemma_reference_comes_back(bytes: Seq<u8>, at: int, id: ObjectId)
    requires
        stands_at(bytes, at, object_bytes(Value::Reference(id))),
    ensures
        object_id_at(bytes, at) == Some((id, at + object_bytes(Value::Reference(id)).len() - 1)),
        bytes[at + object_bytes(Value::Reference(id)).len() - 1] == 0x52,
        is_digit(bytes[at]),
        is_calm(bytes, at),
{
    lemma_marks();
    let number = key(digits(id.0 as nat));
    let generation = key(digits(id.1 as nat));
    let space = seq![0x20u8];
    let end = seq![0x20u8, 0x52];
    lemma_stand_apart(bytes, at, number + space + generation, end);
    lemma_stand_apart(bytes, at, number + space, generation);
    lemma_stand_apart(bytes, at, number, space);
    let first = at + number.len();
    let second = first + 1;
    let last = second + generation.len();
    assert(bytes[first + 0] == space[0]);
    assert(bytes[last + 0] == end[0]);
    assert(bytes[last + 1] == end[1]);
    lemma_number_stands(bytes, at, id.0 as nat);
    lemma_number_stands(bytes, second, id.1 as nat);
    assert(after_space(bytes, second) == second);
    assert(after_space(bytes, first) == second);
    assert(after_space(bytes, last + 1) == last + 1);
    assert(after_space(bytes, last) == last + 1);
}

/// Whether `value` can be written and read back: it holds no real numbers and no streams, its dictionaries
/// no key twice, and it is nested no deeper than `depth`.
pub open spec fn is_writable(value: Value, depth: nat) -> bool
    decreases value, 0int,
{
    match value {
        Value::Real(_) => false,
        Value::Stream(_, _) => false,
        Value::Array(items) => depth > 0 && items_are_writable(items, 0, (depth - 1) as nat),
        Value::Dictionary(entries) => depth > 0 && distinct_keys(entries) && entries_are_writable(
            entries,
            0,
            (depth - 1) as nat,
        ),
        _ => true,
    }
}

/// Whether `items` from `i` on can be written and read back.
pub open spec fn items_are_writable(items: Seq<Value>, i: nat, depth: nat) -> bool
    decreases items, items.len() - i,
{
    i < items.len() ==> is_writable(items[i as int], depth) && items_are_writable(items, i + 1, depth)
}

/// Whether `entries` from `i` on can be written and read back.
pub open spec fn entries_are_writable(entries: Entries, i: nat, depth: nat) -> bool
    decreases entries, entries.len() - i,
{
    i < entries.len() ==> is_writable(entries[i as int].1, depth) && entries_are_writable(
        entries,
        i + 1,
        depth,
    )
}

/// Whether an object can stand at `at`: no space, no comment, and no `R` of a reference.
pub open spec fn is_start(bytes: Seq<u8>, at: int) -> bool {
    &&& 0 <= at < bytes.len()
    &&& !is_blank(bytes[at])
    &&& bytes[at] != 0x25
    &&& bytes[at] != 0x52
    &&& is_calm(bytes, at)
}

/// What is written is read back, as it was.
pub proof fn lemma_written_comes_back(value: Value, bytes: Seq<u8>, at: int, depth: nat)
    requires
        is_writable(value, depth),
        stands_at(bytes, at, object_bytes(value)),
        is_ended(bytes, at + object_bytes(value).len()),
    ensures
        bare_at(bytes, at, depth) == Some((value, at + object_bytes(value).len())),
        object_bytes(value).len() > 0,
        is_start(bytes, at),
    decreases value, 0int, 0int,
{
    let end = at + object_bytes(value).len();
    lemma_marks();
    lemma_one_blank(bytes, end);
    match value {
        Value::Null => {
            lemma_tagged(bytes, at, key("null"@));
            assert(bytes[at + 0] == key("null"@)[0]);
            lemma_keywords(bytes, at, depth);
        },
        Value::Boolean(true) => {
            lemma_tagged(bytes, at, key("true"@));
            assert(bytes[at + 0] == key("true"@)[0]);
            lemma_keywords(bytes, at, depth);
        },
        Value::Boolean(false) => {
            lemma_tagged(bytes, at, key("false"@));
            assert(bytes[at + 0] == key("false"@)[0]);
            lemma_keywords(bytes, at, depth);
        },
        Value::Integer(i) => {
            lemma_integer_comes_back(bytes, at, i);
            lemma_numbers(bytes, at, depth);
            if is_digit(bytes[at]) {
                lemma_number_is_calm(bytes, at, i);
            }
        },
        Value::Name(name) => {
            lemma_name_comes_back(bytes, at, name);
            assert(bytes[at + 0] == (key("/"@) + name_text(name))[0]);
            lemma_names_and_strings(bytes, at, depth);
        },
        Value::String(text, StringFormat::Literal) => {
            lemma_literal_comes_back(bytes, at, text);
            assert(bytes[at + 0] == (key("("@) + escaped(text) + key(")"@))[0]);
            lemma_names_and_strings(bytes, at, depth);
        },
        Value::String(text, StringFormat::Hexadecimal) => {
            lemma_hexadecimal_comes_back(bytes, at, text);
            let whole = key("<"@) + hex_pairs(text) + key(">"@);
            assert(bytes[at + 0] == whole[0]);
            assert(bytes[at + 1] == whole[1]);
            lemma_second_of_hexadecimal(text);
            lemma_names_and_strings(bytes, at, depth);
        },
        Value::Reference(id) => {
            lemma_reference_comes_back(bytes, at, id);
            lemma_numbers(bytes, at, depth);
        },
        Value::Array(items) => {
            lemma_array_comes_back(items, bytes, at, depth);
        },
        Value::Dictionary(entries) => {
            lemma_dictionary_comes_back(entries, bytes, at, depth);
        },
        _ => {},
    }
}

proof fn lemma_second_of_hexadecimal(text: Seq<u8>)
    ensures
        (key("<"@) + hex_pairs(text) + key(">"@)).len() >= 2,
        (key("<"@) + hex_pairs(text) + key(">"@))[1] != 0x3c,
{
    lemma_marks();
    let whole = key("<"@) + hex_pairs(text) + key(">"@);
    lemma_pairs_len(text);
    if text.len() > 0 {
        let pairs = hex_pairs(text);
        assert(stands_at(pairs, 0, pairs));
        lemma_pair_at(pairs, 0, text, 0);
        assert(whole[1] == pairs[0]);
    }
}

proof fn lemma_number_is_calm(bytes: Seq<u8>, at: int, i: i64)
    requires
        stands_at(bytes, at, number_text(i as int)),
        is_ended(bytes, at + number_text(i as int).len()),
        is_digit(bytes[at]),
    ensures
        is_calm(bytes, at),
{
    let end = at + number_text(i as int).len();
    lemma_one_blank(bytes, end);
    if i < 0 {
        lemma_minus((-i) as nat);
        assert(bytes[at + 0] == number_text(i as int)[0]);
    } else {
        lemma_number_stands(bytes, at, i as nat);
    }
}

proof fn lemma_array_comes_back(items: Seq<Value>, bytes: Seq<u8>, at: int, depth: nat)
    requires
        is_writable(Value::Array(items), depth),
        stands_at(bytes, at, object_bytes(Value::Array(items))),
    ensures
        bare_at(bytes, at, depth) == Some(
            (Value::Array(items), at + object_bytes(Value::Array(items)).len()),
        ),
        is_start(bytes, at),
    decreases items, 2int, 0int,
{
    lemma_marks();
    let inner = items_bytes(items, 0);
    let whole = object_bytes(Value::Array(items));
    assert(whole =~= seq![0x5bu8] + (inner + seq![0x5du8]));
    lemma_stand_apart(bytes, at, seq![0x5bu8], inner + seq![0x5du8]);
    assert(bytes[at + 0] == seq![0x5bu8][0]);
    lemma_items_come_back(items, 0, bytes, at + 1, (depth - 1) as nat, Seq::empty());
    assert(after_space(bytes, at + 1) == at + 1);
    assert(Seq::<Value>::empty() + items.skip(0) =~= items);
    lemma_stand_apart(bytes, at + 1, inner, seq![0x5du8]);
    assert(bytes[at + 1 + inner.len() + 0] == seq![0x5du8][0]);
    lemma_no_keyword(bytes, at);
}

proof fn lemma_items_come_back(
    items: Seq<Value>,
    i: nat,
    bytes: Seq<u8>,
    at: int,
    depth: nat,
    done: Seq<Value>,
)
    requires
        i <= items.len(),
        items_are_writable(items, i, depth),
        stands_at(bytes, at, items_bytes(items, i) + seq![0x5du8]),
    ensures
        items_at(bytes, at, depth, done) == (
            done + items.skip(i as int),
            at + items_bytes(items, i).len(),
        ),
        is_start(bytes, at),
    decreases items, 1int, items.len() - i,
{
    let close = seq![0x5du8];
    if i == items.len() {
        assert(items_bytes(items, i) + close =~= close);
        assert(bytes[at + 0] == close[0]);
        lemma_no_object(bytes, at, depth);
        assert(done + items.skip(i as int) =~= done);
    } else {
        let item = items[i as int];
        let end = at + object_bytes(item).len();
        lemma_item_stands(items, i, bytes, at);
        lemma_items_come_back(items, i + 1, bytes, end + 1, depth, done.push(item));
        assert(is_ended(bytes, end));
        lemma_one_blank(bytes, end);
        lemma_written_comes_back(item, bytes, at, depth);
        assert(direct_at(bytes, at, depth) == Some((item, end + 1)));
        lemma_item_step(bytes, at, depth, done, item, end + 1);
        assert(done.push(item) + items.skip(i as int + 1) =~= done + items.skip(i as int));
    }
}

proof fn lemma_item_stands(items: Seq<Value>, i: nat, bytes: Seq<u8>, at: int)
    requires
        i < items.len(),
        stands_at(bytes, at, items_bytes(items, i) + seq![0x5du8]),
    ensures
        ({
            let end = at + object_bytes(items[i as int]).len();
            &&& stands_at(bytes, at, object_bytes(items[i as int]))
            &&& bytes[end] == 0x20
            &&& stands_at(bytes, end + 1, items_bytes(items, i + 1) + seq![0x5du8])
            &&& items_bytes(items, i).len() == object_bytes(items[i as int]).len() + 1 + items_bytes(
                items,
                i + 1,
            ).len()
        }),
{
    lemma_marks();
    let close = seq![0x5du8];
    let own = object_bytes(items[i as int]);
    let rest = items_bytes(items, i + 1);
    let space = seq![0x20u8];
    assert(items_bytes(items, i) == own + space + rest);
    assert(items_bytes(items, i) + close =~= own + (space + (rest + close)));
    lemma_stand_apart(bytes, at, own, space + (rest + close));
    let end = at + own.len();
    lemma_stand_apart(bytes, end, space, rest + close);
    assert(bytes[end + 0] == space[0]);
}

proof fn lemma_item_step(
    bytes: Seq<u8>,
    at: int,
    depth: nat,
    done: Seq<Value>,
    item: Value,
    next: int,
)
    requires
        direct_at(bytes, at, depth) == Some((item, next)),
        at < next <= bytes.len(),
    ensures
        items_at(bytes, at, depth, done) == items_at(bytes, next, depth, done.push(item)),
{
}

proof fn lemma_dictionary_comes_back(entries: Entries, bytes: Seq<u8>, at: int, depth: nat)
    requires
        is_writable(Value::Dictionary(entries), depth),
        stands_at(bytes, at, object_bytes(Value::Dictionary(entries))),
    ensures
        bare_at(bytes, at, depth) == Some(
            (Value::Dictionary(entries), at + object_bytes(Value::Dictionary(entries)).len()),
        ),
        is_start(bytes, at),
    decreases entries, 2int, 0int,
{
    lemma_marks();
    let inner = entries_bytes(entries, 0, false);
    let whole = object_bytes(Value::Dictionary(entries));
    let open = seq![0x3cu8, 0x3c];
    let close = seq![0x3eu8, 0x3e];
    assert(whole =~= open + (inner + close));
    lemma_stand_apart(bytes, at, open, inner + close);
    assert(bytes[at + 0] == open[0]);
    assert(bytes[at + 1] == open[1]);
    lemma_entries_come_back(entries, 0, bytes, at + 2, (depth - 1) as nat);
    assert(after_space(bytes, at + 2) == at + 2);
    assert(entries.take(0) =~= Seq::empty());
    lemma_stand_apart(bytes, at + 2, inner, close);
    let end = at + 2 + inner.len();
    assert(bytes[end + 0] == close[0]);
    assert(bytes[end + 1] == close[1]);
    assert(dictionary_at(bytes, at, (depth - 1) as nat) == Some((entries, end + 2)));
    lemma_no_keyword(bytes, at);
}

proof fn lemma_entries_come_back(entries: Entries, i: nat, bytes: Seq<u8>, at: int, depth: nat)
    requires
        i <= entries.len(),
        distinct_keys(entries),
        entries_are_writable(entries, i, depth),
        stands_at(bytes, at, entries_bytes(entries, i, false) + seq![0x3eu8, 0x3e]),
    ensures
        entries_at(bytes, at, depth, entries.take(i as int)) == (
            entries,
            at + entries_bytes(entries, i, false).len(),
        ),
        0 <= at < bytes.len(),
        bytes[at] == 0x2f || bytes[at] == 0x3e,
    decreases entries, 1int, entries.len() - i,
{
    lemma_marks();
    let close = seq![0x3eu8, 0x3e];
    if i == entries.len() {
        assert(entries_bytes(entries, i, false) + close =~= close);
        assert(bytes[at + 0] == close[0]);
        assert(entries.take(i as int) =~= entries);
    } else {
        let (name, value) = entries[i as int];
        let named = seq![0x2fu8] + name_text(name);
        let own = object_bytes(value);
        let rest = entries_bytes(entries, i + 1, false);
        let space = seq![0x20u8];
        assert(entries_bytes(entries, i, false) + close =~= named + (space + (own + (space + (rest
            + close)))));
        lemma_stand_apart(bytes, at, named, space + (own + (space + (rest + close))));
        let name_end = at + named.len();
        lemma_stand_apart(bytes, name_end, space, own + (space + (rest + close)));
        let start = name_end + 1;
        lemma_stand_apart(bytes, start, own, space + (rest + close));
        let end = start + own.len();
        lemma_stand_apart(bytes, end, space, rest + close);
        assert(bytes[at + 0] == named[0]);
        assert(bytes[name_end + 0] == space[0]);
        assert(bytes[end + 0] == space[0]);
        lemma_entries_come_back(entries, i + 1, bytes, end + 1, depth);
        assert(is_ended(bytes, end));
        lemma_one_blank(bytes, end);
        lemma_written_comes_back(value, bytes, start, depth);
        lemma_name_comes_back(bytes, at, name);
        assert(after_space(bytes, start) == start);
        assert(after_space(bytes, name_end) == start);
        assert(direct_at(bytes, start, depth) == Some((value, end + 1)));
        let done = entries.take(i as int);
        assert forall|j: int| 0 <= j < done.len() implies (#[trigger] done[j]).0 != name by {
            assert(done[j] == entries[j]);
            assert(entries[j].0 != entries[i as int].0);
        }
        lemma_entry_absent(done, name);
        assert(set_entry(done, name, value) == done.push((name, value)));
        assert(done.push((name, value)) =~= entries.take(i as int + 1));
    }
}

} // verus!
