//! How numbers, names, strings and the space between them are written.

use vstd::prelude::*;

use crate::parser::lexical::{
    after_space, eol_len, escape_at, hex_rest, hexadecimal_at, is_regular, line_end, literal_at,
    literal_rest, name_at, name_rest, octal_end, octal_worth, MAX_BRACKET,
};

verus! {

/// Whether `byte` is an octal digit.
pub open spec fn is_octal(byte: u8) -> bool {
    0x30 <= byte <= 0x37
}

/// Whether `byte` is the control character that the letter `letter` behind a backslash stands for, or
/// `letter` itself if it stands for none.
pub open spec fn is_escaped(letter: u8, byte: u8) -> bool {
    &&& letter == 0x6e ==> byte == 0x0a
    &&& letter == 0x72 ==> byte == 0x0d
    &&& letter == 0x74 ==> byte == 0x09
    &&& letter == 0x62 ==> byte == 0x08
    &&& letter == 0x66 ==> byte == 0x0c
    &&& letter != 0x6e && letter != 0x72 && letter != 0x74 && letter != 0x62 && letter != 0x66
        ==> byte == letter
}

/// Whether the bytes from `from` to `to` are one piece of a literal string that stands for `meant`: a byte
/// for itself; a backslash and up to three octal digits for the byte that they count to; a backslash and
/// the end of a line for nothing; or a backslash and a letter.
pub open spec fn is_piece(bytes: Seq<u8>, from: int, to: int, meant: Seq<u8>) -> bool {
    &&& 0 <= from < to < bytes.len()
    &&& if bytes[from] != 0x5c {
        to == from + 1 && meant == seq![bytes[from]]
    } else if is_octal(bytes[from + 1]) {
        ||| {
            &&& to == from + 2
            &&& !is_octal(bytes[to])
            &&& meant == seq![(bytes[from + 1] - 0x30) as u8]
        }
        ||| {
            &&& to == from + 3
            &&& is_octal(bytes[from + 2])
            &&& !is_octal(bytes[to])
            &&& meant == seq![(8 * (bytes[from + 1] - 0x30) + (bytes[from + 2] - 0x30)) as u8]
        }
        ||| {
            &&& to == from + 4
            &&& is_octal(bytes[from + 2])
            &&& is_octal(bytes[from + 3])
            &&& meant == seq![
                ((64 * (bytes[from + 1] - 0x30) + 8 * (bytes[from + 2] - 0x30) + (bytes[from + 3]
                    - 0x30)) % 256) as u8,
            ]
        }
    } else if bytes[from + 1] == 0x0d {
        &&& to == if bytes[from + 2] == 0x0a {
            from + 3
        } else {
            from + 2
        }
        &&& meant == Seq::<u8>::empty()
    } else if bytes[from + 1] == 0x0a {
        to == from + 2 && meant == Seq::<u8>::empty()
    } else {
        &&& to == from + 2
        &&& meant.len() == 1
        &&& is_escaped(bytes[from + 1], meant[0])
    }
}

/// How many parentheses are open behind the pieces that start at the first `count` of `places`: `(`
/// and `)` without a backslash come in pairs.
pub open spec fn nesting(bytes: Seq<u8>, places: Seq<int>, count: nat) -> int
    decreases count,
{
    if count == 0 {
        0
    } else {
        let byte = bytes[places[count - 1]];
        nesting(bytes, places, (count - 1) as nat) + if byte == 0x28 {
            1int
        } else if byte == 0x29 {
            -1
        } else {
            0
        }
    }
}

/// Whether the string between the parentheses at `at` and at the last of `places` is written in pieces
/// that stand for `meant`, one by one.
pub open spec fn is_literal(bytes: Seq<u8>, at: int, places: Seq<int>, meant: Seq<Seq<u8>>) -> bool {
    &&& 0 <= at < bytes.len()
    &&& bytes[at] == 0x28
    &&& places.len() == meant.len() + 1
    &&& places[0] == at + 1
    &&& places.last() < bytes.len()
    &&& bytes[places.last()] == 0x29
    &&& forall|k: int|
        0 <= k < meant.len() ==> is_piece(bytes, places[k], places[k + 1], #[trigger] meant[k])
    &&& forall|k: nat|
        k <= meant.len() ==> 0 <= #[trigger] nesting(bytes, places, k) <= MAX_BRACKET
    &&& nesting(bytes, places, meant.len()) == 0
}

proof fn lemma_piece(bytes: Seq<u8>, from: int, to: int, meant: Seq<u8>)
    requires
        is_piece(bytes, from, to, meant),
        bytes[from] == 0x5c,
    ensures
        escape_at(bytes, from + 1) == Some((meant, to)),
{
    let at = from + 1;
    if is_octal(bytes[at]) {
        reveal_with_fuel(octal_worth, 4);
        assert(octal_end(bytes, at) == to);
        let worth = octal_worth(bytes, at, to);
        if to == from + 2 {
            assert(worth == bytes[from + 1] - 0x30);
        } else if to == from + 3 {
            assert(worth == 8 * (bytes[from + 1] - 0x30) + (bytes[from + 2] - 0x30));
        } else {
            assert(worth == 64 * (bytes[from + 1] - 0x30) + 8 * (bytes[from + 2] - 0x30) + (
            bytes[from + 3] - 0x30));
        }
        assert(seq![(worth % 256) as u8] =~= meant);
    } else if eol_len(bytes, at) > 0 {
        assert(meant =~= Seq::empty());
    } else {
        assert(meant =~= seq![meant[0]]);
    }
}

proof fn lemma_literal_from(
    bytes: Seq<u8>,
    at: int,
    places: Seq<int>,
    meant: Seq<Seq<u8>>,
    k: nat,
)
    requires
        is_literal(bytes, at, places, meant),
        k <= meant.len(),
    ensures
        literal_rest(bytes, places[k as int], nesting(bytes, places, k) as nat) == Some(
            (meant.skip(k as int).flatten(), places.last() + 1),
        ),
    decreases meant.len() - k,
{
    let open = nesting(bytes, places, k);
    if k == meant.len() {
        assert(meant.skip(k as int) =~= Seq::empty());
        assert(Seq::<Seq<u8>>::empty().flatten() =~= Seq::<u8>::empty());
        if meant.len() > 0 {
            assert(is_piece(bytes, places[k - 1], places[k as int], meant[k - 1]));
        }
    } else {
        let piece = meant[k as int];
        let from = places[k as int];
        let to = places[k as int + 1];
        assert(is_piece(bytes, from, to, piece));
        lemma_literal_from(bytes, at, places, meant, k + 1);
        let rest = meant.skip(k as int + 1);
        assert(meant.skip(k as int).drop_first() =~= rest);
        assert(meant.skip(k as int)[0] == piece);
        assert(0 <= nesting(bytes, places, k + 1) <= MAX_BRACKET);
        assert(0 <= open <= MAX_BRACKET);
        if bytes[from] == 0x5c {
            lemma_piece(bytes, from, to, piece);
        }
    }
}

/// A literal string is what its pieces stand for, one after the other.
pub proof fn lemma_literal_strings(bytes: Seq<u8>, at: int, places: Seq<int>, meant: Seq<Seq<u8>>)
    requires
        is_literal(bytes, at, places, meant),
    ensures
        literal_at(bytes, at) == Some((meant.flatten(), places.last() + 1)),
{
    assert(nesting(bytes, places, 0) == 0);
    lemma_literal_from(bytes, at, places, meant, 0);
    assert(meant.skip(0) =~= meant);
}

/// Whether `byte` is a hexadecimal digit.
pub open spec fn is_hex(byte: u8) -> bool {
    0x30 <= byte <= 0x39 || 0x41 <= byte <= 0x46 || 0x61 <= byte <= 0x66
}

/// What a hexadecimal digit counts.
pub open spec fn hex_count(byte: u8) -> int {
    if byte <= 0x39 {
        byte - 0x30
    } else if byte <= 0x46 {
        10 + (byte - 0x41)
    } else {
        10 + (byte - 0x61)
    }
}

/// Whether `byte` can stand for itself in a name: it is neither white space nor a delimiter nor `#`.
pub open spec fn names_itself(byte: u8) -> bool {
    ![
        0x00u8,
        0x09u8,
        0x0au8,
        0x0cu8,
        0x0du8,
        0x20u8,
        0x28u8,
        0x29u8,
        0x3cu8,
        0x3eu8,
        0x5bu8,
        0x5du8,
        0x7bu8,
        0x7du8,
        0x2fu8,
        0x25u8,
        0x23u8,
    ]@.contains(byte)
}

/// Whether the bytes from `from` to `to` are one piece of a name that stands for `byte`: the byte
/// itself, or `#` and its two hexadecimal digits.
pub open spec fn is_name_piece(bytes: Seq<u8>, from: int, to: int, byte: u8) -> bool {
    &&& 0 <= from < to <= bytes.len()
    &&& if bytes[from] == 0x23 {
        &&& to == from + 3
        &&& is_hex(bytes[from + 1])
        &&& is_hex(bytes[from + 2])
        &&& byte == 16 * hex_count(bytes[from + 1]) + hex_count(bytes[from + 2])
    } else {
        &&& to == from + 1
        &&& names_itself(bytes[from])
        &&& byte == bytes[from]
    }
}

proof fn lemma_name_from(bytes: Seq<u8>, places: Seq<int>, name: Seq<u8>, k: nat)
    requires
        places.len() == name.len() + 1,
        forall|i: int|
            0 <= i < name.len() ==> is_name_piece(bytes, places[i], places[i + 1], #[trigger] name[i]),
        0 <= places.last() <= bytes.len(),
        places.last() < bytes.len() ==> bytes[places.last()] != 0x23 && !names_itself(
            bytes[places.last()],
        ),
        k <= name.len(),
    ensures
        name_rest(bytes, places[k as int]) == (name.skip(k as int), places.last()),
    decreases name.len() - k,
{
    let from = places[k as int];
    lemma_name_bytes();
    if k == name.len() {
        assert(name.skip(k as int) =~= Seq::empty());
    } else {
        assert(is_name_piece(bytes, from, places[k as int + 1], name[k as int]));
        lemma_name_from(bytes, places, name, k + 1);
        assert(name.skip(k as int) =~= seq![name[k as int]] + name.skip(k as int + 1));
    }
}

/// The bytes that stand for themselves in names are the regular ones, but for `#`.
pub proof fn lemma_name_bytes()
    ensures
        forall|byte: u8| #[trigger]
            names_itself(byte) <==> is_regular(byte) && byte != 0x23,
{
    let excluded = [
        0x00u8,
        0x09u8,
        0x0au8,
        0x0cu8,
        0x0du8,
        0x20u8,
        0x28u8,
        0x29u8,
        0x3cu8,
        0x3eu8,
        0x5bu8,
        0x5du8,
        0x7bu8,
        0x7du8,
        0x2fu8,
        0x25u8,
        0x23u8,
    ]@;
    assert(excluded[0] == 0 && excluded[1] == 9 && excluded[2] == 10 && excluded[3] == 12
        && excluded[4] == 13 && excluded[5] == 32 && excluded[6] == 0x28 && excluded[7] == 0x29
        && excluded[8] == 0x3c && excluded[9] == 0x3e && excluded[10] == 0x5b && excluded[11]
        == 0x5d && excluded[12] == 0x7b && excluded[13] == 0x7d && excluded[14] == 0x2f
        && excluded[15] == 0x25 && excluded[16] == 0x23);
}

/// A name is what its pieces stand for, up to the first byte that is none.
pub proof fn lemma_names(bytes: Seq<u8>, at: int, places: Seq<int>, name: Seq<u8>)
    requires
        0 <= at < bytes.len(),
        bytes[at] == 0x2f,
        places.len() == name.len() + 1,
        places[0] == at + 1,
        forall|i: int|
            0 <= i < name.len() ==> is_name_piece(bytes, places[i], places[i + 1], #[trigger] name[i]),
        places.last() <= bytes.len(),
        places.last() < bytes.len() ==> bytes[places.last()] != 0x23 && !names_itself(
            bytes[places.last()],
        ),
    ensures
        name_at(bytes, at) == Some((name, places.last())),
{
    if name.len() > 0 {
        assert(is_name_piece(
            bytes,
            places[name.len() - 1],
            places[name.len() - 1 + 1],
            name[name.len() - 1],
        ));
    }
    lemma_name_from(bytes, places, name, 0);
    assert(name.skip(0) =~= name);
}

/// Whether `byte` is white space: a null, a tab, a line feed, a form feed, a carriage return, or a space.
pub open spec fn is_blank(byte: u8) -> bool {
    byte == 0 || byte == 9 || byte == 10 || byte == 12 || byte == 13 || byte == 32
}

/// Whether `digits` are the places between `<` at `at` and `>` at `end` that are not white space, in
/// order, and hexadecimal digits are at them.
pub open spec fn are_hex_digits(bytes: Seq<u8>, at: int, end: int, digits: Seq<int>) -> bool {
    &&& 0 <= at < end < bytes.len()
    &&& forall|i: int| 0 <= i < digits.len() ==> at < #[trigger] digits[i] < end && is_hex(bytes[digits[i]])
    &&& forall|i: int, j: int| 0 <= i < j < digits.len() ==> #[trigger] digits[i] < #[trigger] digits[j]
    &&& forall|p: int| at < p < end ==> is_blank(#[trigger] bytes[p]) || digits.contains(p)
}

proof fn lemma_hex_from(bytes: Seq<u8>, at: int, end: int, digits: Seq<int>, k: nat, p: int)
    requires
        are_hex_digits(bytes, at, end, digits),
        bytes[end] == 0x3e,
        k <= digits.len(),
        at < p <= end,
        k < digits.len() ==> p <= digits[k as int],
        forall|q: int| p <= q < end && (k < digits.len() ==> q < digits[k as int]) ==> is_blank(
            #[trigger] bytes[q],
        ),
    ensures
        hex_rest(bytes, p) == Some(
            (
                Seq::new(
                    (digits.len() - k) as nat,
                    |i: int| hex_count(bytes[digits[k + i]]) as u8,
                ),
                end + 1,
            ),
        ),
    decreases end - p,
{
    let worths = Seq::new(
        (digits.len() - k) as nat,
        |i: int| hex_count(bytes[digits[k + i]]) as u8,
    );
    if p == end {
        assert(k == digits.len());
        assert(worths =~= Seq::empty());
    } else if k < digits.len() && p == digits[k as int] {
        assert(is_hex(bytes[p]));
        assert forall|q: int| p + 1 <= q < end && (k + 1 < digits.len() ==> q < digits[k as int + 1]) implies
            is_blank(#[trigger] bytes[q]) by {
            if digits.contains(q) {
                let i = digits.index_of(q);
                assert(digits[i] == q);
                if i < k {
                    assert(digits[i] < digits[k as int]);
                } else if i > k + 1 {
                    assert(digits[k as int + 1] < digits[i]);
                }
            }
        }
        if k + 1 < digits.len() {
            assert(digits[k as int] < digits[k as int + 1]);
        }
        lemma_hex_from(bytes, at, end, digits, k + 1, p + 1);
        let rest = Seq::new(
            (digits.len() - (k + 1)) as nat,
            |i: int| hex_count(bytes[digits[k + 1 + i]]) as u8,
        );
        assert(worths =~= seq![hex_count(bytes[p]) as u8] + rest);
    } else {
        assert(is_blank(bytes[p]));
        lemma_hex_from(bytes, at, end, digits, k, p + 1);
    }
}

/// A hexadecimal string is a byte for each two digits, whatever white space is among them, and for a last
/// one alone the byte with a 0 behind it.
pub proof fn lemma_hexadecimal_strings(bytes: Seq<u8>, at: int, end: int, digits: Seq<int>)
    requires
        are_hex_digits(bytes, at, end, digits),
        bytes[at] == 0x3c,
        bytes[end] == 0x3e,
    ensures
        hexadecimal_at(bytes, at) matches Some((string, next)) && {
            &&& next == end + 1
            &&& string.len() == (digits.len() + 1) / 2
            &&& forall|i: int|
                0 <= i < string.len() ==> #[trigger] string[i] == 16 * hex_count(bytes[digits[2 * i]])
                    + if 2 * i + 1 < digits.len() {
                    hex_count(bytes[digits[2 * i + 1]])
                } else {
                    0
                }
        },
{
    assert forall|q: int| at + 1 <= q < end && (0 < digits.len() ==> q < digits[0]) implies is_blank(
        #[trigger] bytes[q],
    ) by {
        if digits.contains(q) {
            let i = digits.index_of(q);
            assert(digits[i] == q);
            if i > 0 {
                assert(digits[0] < digits[i]);
            }
        }
    }
    lemma_hex_from(bytes, at, end, digits, 0, at + 1);
    let worths = Seq::new(digits.len(), |i: int| hex_count(bytes[digits[0 + i]]) as u8);
    let (string, next) = hexadecimal_at(bytes, at)->Some_0;
    assert forall|i: int| 0 <= i < string.len() implies #[trigger] string[i] == 16 * hex_count(
        bytes[digits[2 * i]],
    ) + if 2 * i + 1 < digits.len() {
        hex_count(bytes[digits[2 * i + 1]])
    } else {
        0
    } by {
        assert(worths[2 * i] == hex_count(bytes[digits[2 * i]]));
        assert(at < digits[2 * i] < end && is_hex(bytes[digits[2 * i]]));
        if 2 * i + 1 < digits.len() {
            assert(worths[2 * i + 1] == hex_count(bytes[digits[2 * i + 1]]));
            assert(at < digits[2 * i + 1] < end && is_hex(bytes[digits[2 * i + 1]]));
        }
    }
}

/// Whether the bytes from `from` to `to` are a blank, or a comment: `%`, the rest of the line, and its
/// end, which is a carriage return, a line feed, or both.
pub open spec fn is_gap(bytes: Seq<u8>, from: int, to: int) -> bool {
    &&& 0 <= from < to <= bytes.len()
    &&& if bytes[from] == 0x25 {
        exists|end: int| {
            &&& from < end < bytes.len()
            &&& forall|p: int| from < p < end ==> bytes[p] != 0x0a && bytes[p] != 0x0d
            &&& #[trigger] is_line_end(bytes, end, to)
        }
    } else {
        to == from + 1 && is_blank(bytes[from])
    }
}

/// Whether the bytes from `from` to `to` are the end of a line.
pub open spec fn is_line_end(bytes: Seq<u8>, from: int, to: int) -> bool {
    if bytes[from] == 0x0d && from + 1 < bytes.len() && bytes[from + 1] == 0x0a {
        to == from + 2
    } else {
        (bytes[from] == 0x0a || bytes[from] == 0x0d) && to == from + 1
    }
}

proof fn lemma_line_end_at(bytes: Seq<u8>, at: int, end: int)
    requires
        0 <= at <= end < bytes.len(),
        forall|p: int| at <= p < end ==> bytes[p] != 0x0a && bytes[p] != 0x0d,
        bytes[end] == 0x0a || bytes[end] == 0x0d,
    ensures
        line_end(bytes, at) == end,
    decreases end - at,
{
    if at < end {
        assert(bytes[at] != 0x0a && bytes[at] != 0x0d);
        lemma_line_end_at(bytes, at + 1, end);
    }
}

/// Space is blanks and comments, up to the first byte that is neither.
pub proof fn lemma_space(bytes: Seq<u8>, places: Seq<int>)
    requires
        places.len() > 0,
        forall|k: int| 0 <= k < places.len() - 1 ==> #[trigger] is_gap(bytes, places[k], places[k + 1]),
        0 <= places.last() <= bytes.len(),
        places.last() < bytes.len() ==> bytes[places.last()] != 0x25 && !is_blank(
            bytes[places.last()],
        ),
    ensures
        after_space(bytes, places[0]) == places.last(),
    decreases places.len(),
{
    if places.len() > 1 {
        let from = places[0];
        let to = places[0 + 1int];
        assert(is_gap(bytes, places[0], places[0 + 1int]));
        let rest = places.drop_first();
        assert forall|k: int| 0 <= k < rest.len() - 1 implies #[trigger] is_gap(
            bytes,
            rest[k],
            rest[k + 1],
        ) by {
            assert(is_gap(bytes, places[k + 1], places[k + 1 + 1]));
        }
        lemma_space(bytes, rest);
        if bytes[from] == 0x25 {
            let end = choose|end: int| {
                &&& from < end < bytes.len()
                &&& forall|p: int| from < p < end ==> bytes[p] != 0x0a && bytes[p] != 0x0d
                &&& #[trigger] is_line_end(bytes, end, to)
            };
            lemma_line_end_at(bytes, from + 1, end);
        }
    }
}

} // verus!
