//! The lexical level of PDF syntax: white space, comments, numbers, names, and strings.
//!
//! A parser here takes the bytes and where to start, and gives what it read and where it ended.

use vstd::prelude::*;

use crate::object::ObjectId;

verus! {

/// Deepest nesting of parentheses in a literal string.
pub const MAX_BRACKET: usize = 100;

pub open spec fn is_white(byte: u8) -> bool {
    byte == 0x20 || byte == 0x09 || byte == 0x0a || byte == 0x0d || byte == 0 || byte == 0x0c
}

pub open spec fn is_end_of_line(byte: u8) -> bool {
    byte == 0x0a || byte == 0x0d
}

/// `(`, `)`, `<`, `>`, `[`, `]`, `{`, `}`, `/`, or `%`.
pub open spec fn is_delimiter(byte: u8) -> bool {
    byte == 0x28 || byte == 0x29 || byte == 0x3c || byte == 0x3e || byte == 0x5b || byte == 0x5d
        || byte == 0x7b || byte == 0x7d || byte == 0x2f || byte == 0x25
}

pub open spec fn is_regular(byte: u8) -> bool {
    !is_white(byte) && !is_delimiter(byte)
}

pub open spec fn is_digit(byte: u8) -> bool {
    0x30 <= byte <= 0x39
}

pub fn white(byte: u8) -> (r: bool)
    ensures
        r == is_white(byte),
{
    byte == 0x20 || byte == 0x09 || byte == 0x0a || byte == 0x0d || byte == 0 || byte == 0x0c
}

pub fn end_of_line(byte: u8) -> (r: bool)
    ensures
        r == is_end_of_line(byte),
{
    byte == 0x0a || byte == 0x0d
}

pub fn regular(byte: u8) -> (r: bool)
    ensures
        r == is_regular(byte),
{
    !(white(byte) || byte == 0x28 || byte == 0x29 || byte == 0x3c || byte == 0x3e || byte == 0x5b
        || byte == 0x5d || byte == 0x7b || byte == 0x7d || byte == 0x2f || byte == 0x25)
}

pub fn digit(byte: u8) -> (r: bool)
    ensures
        r == is_digit(byte),
{
    0x30 <= byte && byte <= 0x39
}

/// Whether the bytes at `at` are those of `tag`.
pub open spec fn tagged(bytes: Seq<u8>, at: int, tag: Seq<u8>) -> bool {
    0 <= at && at + tag.len() <= bytes.len() && bytes.subrange(at, at + tag.len()) == tag
}

/// Whether the bytes at `at` are those of `tag`.
pub fn has_tag(bytes: &[u8], at: usize, tag: &[u8]) -> (r: bool)
    requires
        at <= bytes@.len(),
    ensures
        r == tagged(bytes@, at as int, tag@),
{
    if tag.len() > bytes.len() - at {
        return false;
    }
    let len = bytes.len();
    let mut i: usize = 0;
    while i < tag.len()
        invariant
            len == bytes@.len(),
            at + tag@.len() <= len,
            i <= tag@.len(),
            forall|j: int| 0 <= j < i ==> bytes@[at + j] == #[trigger] tag@[j],
        decreases tag@.len() - i,
    {
        if bytes[at + i] != tag[i] {
            proof {
                let part = bytes@.subrange(at as int, at + tag@.len());
                assert(part[i as int] == bytes@[at + i]);
            }
            return false;
        }
        i += 1;
    }
    assert(bytes@.subrange(at as int, at + tag@.len()) =~= tag@);
    true
}

/// Where the white space at `at` ends.
pub open spec fn after_white(bytes: Seq<u8>, at: int) -> int
    decreases bytes.len() - at,
{
    if 0 <= at < bytes.len() && is_white(bytes[at]) {
        after_white(bytes, at + 1)
    } else {
        at
    }
}

/// Where the line at `at` ends, before its end-of-line marker.
pub open spec fn line_end(bytes: Seq<u8>, at: int) -> int
    decreases bytes.len() - at,
{
    if 0 <= at < bytes.len() && !is_end_of_line(bytes[at]) {
        line_end(bytes, at + 1)
    } else {
        at
    }
}

/// How long the end-of-line marker at `at` is, or 0 without one.
pub open spec fn eol_len(bytes: Seq<u8>, at: int) -> int {
    if at < 0 || at >= bytes.len() || !is_end_of_line(bytes[at]) {
        0
    } else if bytes[at] == 0x0d && at + 1 < bytes.len() && bytes[at + 1] == 0x0a {
        2
    } else {
        1
    }
}

/// Where the white space and comments at `at` end. A comment ends with its line.
pub open spec fn after_space(bytes: Seq<u8>, at: int) -> int
    decreases bytes.len() - at,
{
    if at < 0 || at >= bytes.len() {
        at
    } else if is_white(bytes[at]) {
        after_space(bytes, at + 1)
    } else if bytes[at] == 0x25 {
        let end = line_end(bytes, at + 1);
        if at < end && eol_len(bytes, end) > 0 {
            after_space(bytes, end + eol_len(bytes, end))
        } else {
            at
        }
    } else {
        at
    }
}

pub proof fn lemma_after_white(bytes: Seq<u8>, at: int)
    requires
        0 <= at <= bytes.len(),
    ensures
        at <= after_white(bytes, at) <= bytes.len(),
    decreases bytes.len() - at,
{
    if at < bytes.len() && is_white(bytes[at]) {
        lemma_after_white(bytes, at + 1);
    }
}

pub proof fn lemma_line_end(bytes: Seq<u8>, at: int)
    requires
        0 <= at <= bytes.len(),
    ensures
        at <= line_end(bytes, at) <= bytes.len(),
        line_end(bytes, at) < bytes.len() ==> is_end_of_line(bytes[line_end(bytes, at)]),
    decreases bytes.len() - at,
{
    if at < bytes.len() && !is_end_of_line(bytes[at]) {
        lemma_line_end(bytes, at + 1);
    }
}

pub proof fn lemma_after_space(bytes: Seq<u8>, at: int)
    requires
        0 <= at <= bytes.len(),
    ensures
        at <= after_space(bytes, at) <= bytes.len(),
    decreases bytes.len() - at,
{
    if at < bytes.len() {
        if is_white(bytes[at]) {
            lemma_after_space(bytes, at + 1);
        } else if bytes[at] == 0x25 {
            lemma_line_end(bytes, at + 1);
            let end = line_end(bytes, at + 1);
            if eol_len(bytes, end) > 0 {
                lemma_after_space(bytes, end + eol_len(bytes, end));
            }
        }
    }
}

pub fn skip_white(bytes: &[u8], at: usize) -> (r: usize)
    requires
        at <= bytes@.len(),
    ensures
        r == after_white(bytes@, at as int),
        at <= r <= bytes@.len(),
{
    let mut i: usize = at;
    while i < bytes.len() && white(bytes[i])
        invariant
            at <= i <= bytes@.len(),
            after_white(bytes@, at as int) == after_white(bytes@, i as int),
        decreases bytes@.len() - i,
    {
        i += 1;
    }
    i
}

pub fn skip_line(bytes: &[u8], at: usize) -> (r: usize)
    requires
        at <= bytes@.len(),
    ensures
        r == line_end(bytes@, at as int),
        at <= r <= bytes@.len(),
{
    let mut i: usize = at;
    while i < bytes.len() && !end_of_line(bytes[i])
        invariant
            at <= i <= bytes@.len(),
            line_end(bytes@, at as int) == line_end(bytes@, i as int),
        decreases bytes@.len() - i,
    {
        i += 1;
    }
    i
}

pub fn end_of_line_len(bytes: &[u8], at: usize) -> (r: usize)
    requires
        at <= bytes@.len(),
    ensures
        r == eol_len(bytes@, at as int),
        at + r <= bytes@.len(),
{
    if at >= bytes.len() || !end_of_line(bytes[at]) {
        0
    } else if bytes[at] == 0x0d && at + 1 < bytes.len() && bytes[at + 1] == 0x0a {
        2
    } else {
        1
    }
}

pub fn skip_space(bytes: &[u8], at: usize) -> (r: usize)
    requires
        at <= bytes@.len(),
    ensures
        r == after_space(bytes@, at as int),
        at <= r <= bytes@.len(),
{
    let mut i: usize = at;
    while i < bytes.len()
        invariant
            at <= i <= bytes@.len(),
            after_space(bytes@, at as int) == after_space(bytes@, i as int),
        decreases bytes@.len() - i,
    {
        if white(bytes[i]) {
            i += 1;
        } else if bytes[i] == 0x25 {
            let end = skip_line(bytes, i + 1);
            let marker = end_of_line_len(bytes, end);
            if marker == 0 {
                return i;
            }
            i = end + marker;
        } else {
            return i;
        }
    }
    i
}

/// Where the digits at `at` end.
pub open spec fn after_digits(bytes: Seq<u8>, at: int) -> int
    decreases bytes.len() - at,
{
    if 0 <= at < bytes.len() && is_digit(bytes[at]) {
        after_digits(bytes, at + 1)
    } else {
        at
    }
}

/// What the digits from `from` to `to` are worth.
pub open spec fn digits_worth(bytes: Seq<u8>, from: int, to: int) -> nat
    decreases to - from,
{
    if from >= to {
        0
    } else {
        digits_worth(bytes, from, to - 1) * 10 + (bytes[to - 1] - 0x30) as nat
    }
}

pub proof fn lemma_after_digits(bytes: Seq<u8>, at: int)
    requires
        0 <= at <= bytes.len(),
    ensures
        at <= after_digits(bytes, at) <= bytes.len(),
        forall|i: int| at <= i < after_digits(bytes, at) ==> is_digit(#[trigger] bytes[i]),
        after_digits(bytes, at) < bytes.len() ==> !is_digit(bytes[after_digits(bytes, at)]),
    decreases bytes.len() - at,
{
    if at < bytes.len() && is_digit(bytes[at]) {
        lemma_after_digits(bytes, at + 1);
    }
}

pub fn skip_digits(bytes: &[u8], at: usize) -> (r: usize)
    requires
        at <= bytes@.len(),
    ensures
        r == after_digits(bytes@, at as int),
        at <= r <= bytes@.len(),
        forall|i: int| at <= i < r ==> is_digit(#[trigger] bytes@[i]),
{
    let mut i: usize = at;
    while i < bytes.len() && digit(bytes[i])
        invariant
            at <= i <= bytes@.len(),
            after_digits(bytes@, at as int) == after_digits(bytes@, i as int),
            forall|j: int| at <= j < i ==> is_digit(#[trigger] bytes@[j]),
        decreases bytes@.len() - i,
    {
        i += 1;
    }
    i
}

proof fn lemma_digits_worth_grows(bytes: Seq<u8>, from: int, middle: int, to: int)
    requires
        0 <= from <= middle <= to <= bytes.len(),
        forall|i: int| from <= i < to ==> is_digit(#[trigger] bytes[i]),
    ensures
        digits_worth(bytes, from, middle) <= digits_worth(bytes, from, to),
    decreases to - middle,
{
    if middle < to {
        lemma_digits_worth_grows(bytes, from, middle, to - 1);
    }
}

/// What the digits from `from` to `to` are worth, if that is no more than `most`.
pub fn worth_of_digits(bytes: &[u8], from: usize, to: usize, most: u64) -> (r: Option<u64>)
    requires
        from <= to <= bytes@.len(),
        forall|i: int| from <= i < to ==> is_digit(#[trigger] bytes@[i]),
        most <= 0x8000_0000_0000_0000,
    ensures
        match r {
            Some(worth) => worth == digits_worth(bytes@, from as int, to as int) && worth <= most,
            None => digits_worth(bytes@, from as int, to as int) > most,
        },
{
    let mut worth: u64 = 0;
    let mut i: usize = from;
    while i < to
        invariant
            from <= i <= to <= bytes@.len(),
            forall|j: int| from <= j < to ==> is_digit(#[trigger] bytes@[j]),
            most <= 0x8000_0000_0000_0000,
            worth == digits_worth(bytes@, from as int, i as int),
            worth <= most,
        decreases to - i,
    {
        let more = worth as u128 * 10 + (bytes[i] - 0x30) as u128;
        assert(more == digits_worth(bytes@, from as int, i + 1));
        if more > most as u128 {
            proof {
                lemma_digits_worth_grows(bytes@, from as int, i + 1, to as int);
            }
            return None;
        }
        worth = more as u64;
        i += 1;
    }
    Some(worth)
}

/// How long the sign at `at` is.
pub open spec fn sign_len(bytes: Seq<u8>, at: int) -> int {
    if 0 <= at < bytes.len() && (bytes[at] == 0x2b || bytes[at] == 0x2d) {
        1
    } else {
        0
    }
}

/// Whether there is a minus sign at `at`.
pub open spec fn is_negated(bytes: Seq<u8>, at: int) -> bool {
    0 <= at < bytes.len() && bytes[at] == 0x2d
}

/// An integer: a sign or none, then digits, worth what an `i64` holds.
pub open spec fn integer_at(bytes: Seq<u8>, at: int) -> Option<(i64, int)> {
    let from = at + sign_len(bytes, at);
    let to = after_digits(bytes, from);
    let worth = digits_worth(bytes, from, to);
    let signed = if is_negated(bytes, at) {
        -(worth as int)
    } else {
        worth as int
    };
    if to > from && i64::MIN <= signed <= i64::MAX {
        Some((signed as i64, to))
    } else {
        None
    }
}

pub fn integer(bytes: &[u8], at: usize) -> (r: Option<(i64, usize)>)
    requires
        at <= bytes@.len(),
    ensures
        match r {
            Some((value, end)) => integer_at(bytes@, at as int) == Some((value, end as int)) && at
                < end <= bytes@.len(),
            None => integer_at(bytes@, at as int) is None,
        },
{
    let negated = at < bytes.len() && bytes[at] == 0x2d;
    let from = if at < bytes.len() && (bytes[at] == 0x2b || bytes[at] == 0x2d) {
        at + 1
    } else {
        at
    };
    let to = skip_digits(bytes, from);
    if to == from {
        return None;
    }
    let most: u64 = if negated {
        0x8000_0000_0000_0000
    } else {
        0x7fff_ffff_ffff_ffff
    };
    match worth_of_digits(bytes, from, to, most) {
        Some(worth) => {
            let value = if negated {
                (-(worth as i128)) as i64
            } else {
                worth as i64
            };
            Some((value, to))
        },
        None => None,
    }
}

/// Digits worth no more than `most`.
pub open spec fn unsigned_at(bytes: Seq<u8>, at: int, most: nat) -> Option<(nat, int)> {
    let to = after_digits(bytes, at);
    let worth = digits_worth(bytes, at, to);
    if to > at && worth <= most {
        Some((worth, to))
    } else {
        None
    }
}

pub fn unsigned(bytes: &[u8], at: usize, most: u64) -> (r: Option<(u64, usize)>)
    requires
        at <= bytes@.len(),
        most <= 0x8000_0000_0000_0000,
    ensures
        match r {
            Some((value, end)) => unsigned_at(bytes@, at as int, most as nat) == Some(
                (value as nat, end as int),
            ) && at < end <= bytes@.len() && value <= most,
            None => unsigned_at(bytes@, at as int, most as nat) is None,
        },
{
    let to = skip_digits(bytes, at);
    if to == at {
        return None;
    }
    match worth_of_digits(bytes, at, to, most) {
        Some(worth) => Some((worth, to)),
        None => None,
    }
}

/// An object's number and generation, each followed by space.
pub open spec fn object_id_at(bytes: Seq<u8>, at: int) -> Option<(ObjectId, int)> {
    match unsigned_at(bytes, at, u32::MAX as nat) {
        Some((number, number_end)) => {
            let next = after_space(bytes, number_end);
            match unsigned_at(bytes, next, u16::MAX as nat) {
                Some((generation, end)) => Some(
                    ((number as u32, generation as u16), after_space(bytes, end)),
                ),
                None => None,
            }
        },
        None => None,
    }
}

pub fn object_id(bytes: &[u8], at: usize) -> (r: Option<(ObjectId, usize)>)
    requires
        at <= bytes@.len(),
    ensures
        match r {
            Some((id, end)) => object_id_at(bytes@, at as int) == Some((id, end as int)) && at < end
                <= bytes@.len(),
            None => object_id_at(bytes@, at as int) is None,
        },
{
    let (number, number_end) = match unsigned(bytes, at, u32::MAX as u64) {
        Some(read) => read,
        None => {
            return None;
        },
    };
    let next = skip_space(bytes, number_end);
    match unsigned(bytes, next, u16::MAX as u64) {
        Some((generation, end)) => Some(
            ((number as u32, generation as u16), skip_space(bytes, end)),
        ),
        None => None,
    }
}

/// What a hexadecimal digit is worth.
pub open spec fn hex_worth(byte: u8) -> Option<u8> {
    if is_digit(byte) {
        Some((byte - 0x30) as u8)
    } else if 0x41 <= byte <= 0x46 {
        Some((byte - 0x37) as u8)
    } else if 0x61 <= byte <= 0x66 {
        Some((byte - 0x57) as u8)
    } else {
        None
    }
}

pub fn hex_digit(byte: u8) -> (r: Option<u8>)
    ensures
        r == hex_worth(byte),
        r matches Some(worth) ==> worth < 16,
{
    if digit(byte) {
        Some(byte - 0x30)
    } else if 0x41 <= byte && byte <= 0x46 {
        Some(byte - 0x37)
    } else if 0x61 <= byte && byte <= 0x66 {
        Some(byte - 0x57)
    } else {
        None
    }
}

/// The next byte of a name: two hexadecimal digits behind `#`, or a regular character.
pub open spec fn name_byte(bytes: Seq<u8>, at: int) -> Option<(u8, int)> {
    if at < 0 || at >= bytes.len() {
        None
    } else if bytes[at] == 0x23 {
        if at + 2 < bytes.len() {
            match (hex_worth(bytes[at + 1]), hex_worth(bytes[at + 2])) {
                (Some(high), Some(low)) => Some(((high * 16 + low) as u8, at + 3)),
                _ => None,
            }
        } else {
            None
        }
    } else if is_regular(bytes[at]) {
        Some((bytes[at], at + 1))
    } else {
        None
    }
}

/// The bytes of a name from `at` on, and where it ends.
pub open spec fn name_rest(bytes: Seq<u8>, at: int) -> (Seq<u8>, int)
    decreases bytes.len() - at,
{
    match name_byte(bytes, at) {
        Some((byte, next)) => {
            let (rest, end) = name_rest(bytes, next);
            (seq![byte] + rest, end)
        },
        None => (Seq::empty(), at),
    }
}

/// A name: `/`, then its bytes.
pub open spec fn name_at(bytes: Seq<u8>, at: int) -> Option<(Seq<u8>, int)> {
    if 0 <= at < bytes.len() && bytes[at] == 0x2f {
        Some(name_rest(bytes, at + 1))
    } else {
        None
    }
}

pub fn name(bytes: &[u8], at: usize) -> (r: Option<(Vec<u8>, usize)>)
    requires
        at <= bytes@.len(),
    ensures
        match r {
            Some((name, end)) => name_at(bytes@, at as int) == Some((name@, end as int)) && at < end
                <= bytes@.len(),
            None => name_at(bytes@, at as int) is None,
        },
{
    if at >= bytes.len() || bytes[at] != 0x2f {
        return None;
    }
    let mut name: Vec<u8> = Vec::new();
    let mut i: usize = at + 1;
    let ghost expected = name_rest(bytes@, at + 1);
    assert(name@ + expected.0 =~= expected.0);
    loop
        invariant
            at < i <= bytes@.len(),
            expected == name_rest(bytes@, at + 1),
            name_at(bytes@, at as int) == Some(expected),
            expected.0 == name@ + name_rest(bytes@, i as int).0,
            expected.1 == name_rest(bytes@, i as int).1,
        decreases bytes@.len() - i,
    {
        let ghost left = name_rest(bytes@, i as int);
        if i >= bytes.len() {
            assert(name@ + left.0 =~= name@);
            return Some((name, i));
        }
        let byte: u8;
        let next: usize;
        if bytes[i] == 0x23 {
            if bytes.len() - i <= 2 {
                assert(name@ + left.0 =~= name@);
                return Some((name, i));
            }
            match (hex_digit(bytes[i + 1]), hex_digit(bytes[i + 2])) {
                (Some(high), Some(low)) => {
                    byte = high * 16 + low;
                    next = i + 3;
                },
                _ => {
                    assert(name@ + left.0 =~= name@);
                    return Some((name, i));
                },
            }
        } else if regular(bytes[i]) {
            byte = bytes[i];
            next = i + 1;
        } else {
            assert(name@ + left.0 =~= name@);
            return Some((name, i));
        }
        proof {
            assert(name_byte(bytes@, i as int) == Some((byte, next as int)));
            let rest = name_rest(bytes@, next as int);
            assert(name@ + (seq![byte] + rest.0) =~= name@.push(byte) + rest.0);
        }
        name.push(byte);
        i = next;
    }
}

/// Where up to three octal digits from `at` on end.
pub open spec fn octal_end(bytes: Seq<u8>, at: int) -> int {
    if at < bytes.len() && 0x30 <= bytes[at] <= 0x37 {
        if at + 1 < bytes.len() && 0x30 <= bytes[at + 1] <= 0x37 {
            if at + 2 < bytes.len() && 0x30 <= bytes[at + 2] <= 0x37 {
                at + 3
            } else {
                at + 2
            }
        } else {
            at + 1
        }
    } else {
        at
    }
}

/// What the octal digits from `at` to `end` are worth.
pub open spec fn octal_worth(bytes: Seq<u8>, at: int, end: int) -> int
    decreases end - at,
{
    if at >= end {
        0
    } else {
        octal_worth(bytes, at, end - 1) * 8 + (bytes[end - 1] - 0x30)
    }
}

/// What the escape whose backslash is before `at` stands for, and where it ends: octal digits,
/// whose overflow is ignored; nothing for an end-of-line marker; a control character; or the
/// character itself.
pub open spec fn escape_at(bytes: Seq<u8>, at: int) -> Option<(Seq<u8>, int)> {
    if at < 0 || at >= bytes.len() {
        None
    } else if octal_end(bytes, at) > at {
        let end = octal_end(bytes, at);
        Some((seq![(octal_worth(bytes, at, end) % 256) as u8], end))
    } else if eol_len(bytes, at) > 0 {
        Some((Seq::empty(), at + eol_len(bytes, at)))
    } else {
        let byte = match bytes[at] {
            0x6e => 0x0au8,
            0x72 => 0x0d,
            0x74 => 0x09,
            0x62 => 0x08,
            0x66 => 0x0c,
            other => other,
        };
        Some((seq![byte], at + 1))
    }
}

pub fn escape(bytes: &[u8], at: usize) -> (r: Option<(Option<u8>, usize)>)
    requires
        at <= bytes@.len(),
    ensures
        match r {
            Some((Some(byte), end)) => escape_at(bytes@, at as int) == Some(
                (seq![byte], end as int),
            ) && at < end <= bytes@.len(),
            Some((None, end)) => escape_at(bytes@, at as int) == Some(
                (Seq::<u8>::empty(), end as int),
            ) && at < end <= bytes@.len(),
            None => escape_at(bytes@, at as int) is None,
        },
{
    if at >= bytes.len() {
        return None;
    }
    let mut end: usize = at;
    let mut worth: u16 = 0;
    while end < bytes.len() && end - at < 3 && 0x30 <= bytes[end] && bytes[end] <= 0x37
        invariant
            at <= end <= bytes@.len(),
            end - at <= 3,
            forall|i: int| at <= i < end ==> 0x30 <= #[trigger] bytes@[i] <= 0x37,
            worth == octal_worth(bytes@, at as int, end as int),
            end == at ==> worth == 0,
            end == at + 1 ==> worth < 8,
            end == at + 2 ==> worth < 64,
            end == at + 3 ==> worth < 512,
        decreases bytes@.len() - end,
    {
        assert(octal_worth(bytes@, at as int, end + 1) == worth * 8 + (bytes@[end as int] - 0x30));
        worth = worth * 8 + (bytes[end] - 0x30) as u16;
        end += 1;
    }
    assert(end == octal_end(bytes@, at as int));
    if end > at {
        return Some((Some((worth % 256) as u8), end));
    }
    let marker = end_of_line_len(bytes, at);
    if marker > 0 {
        return Some((None, at + marker));
    }
    let byte = match bytes[at] {
        0x6e => 0x0au8,
        0x72 => 0x0d,
        0x74 => 0x09,
        0x62 => 0x08,
        0x66 => 0x0c,
        other => other,
    };
    Some((Some(byte), at + 1))
}

/// The rest of a literal string with `open` parentheses open inside it, and where it ends.
pub open spec fn literal_rest(bytes: Seq<u8>, at: int, open: nat) -> Option<(Seq<u8>, int)>
    decreases bytes.len() - at,
{
    if at < 0 || at >= bytes.len() {
        None
    } else if bytes[at] == 0x5c {
        match escape_at(bytes, at + 1) {
            Some((escaped, next)) => if next > at {
                match literal_rest(bytes, next, open) {
                    Some((rest, end)) => Some((escaped + rest, end)),
                    None => None,
                }
            } else {
                None
            },
            None => None,
        }
    } else if bytes[at] == 0x29 && open == 0 {
        Some((Seq::empty(), at + 1))
    } else if bytes[at] == 0x28 && open >= MAX_BRACKET {
        None
    } else {
        let opened = if bytes[at] == 0x28 {
            open + 1
        } else if bytes[at] == 0x29 {
            (open - 1) as nat
        } else {
            open
        };
        match literal_rest(bytes, at + 1, opened) {
            Some((rest, end)) => Some((seq![bytes[at]] + rest, end)),
            None => None,
        }
    }
}

/// A literal string: its characters in parentheses, which may nest, with escapes.
pub open spec fn literal_at(bytes: Seq<u8>, at: int) -> Option<(Seq<u8>, int)> {
    if 0 <= at < bytes.len() && bytes[at] == 0x28 {
        literal_rest(bytes, at + 1, 0)
    } else {
        None
    }
}

/// What `start` gives, when `left` is what is left of it after `done`.
pub open spec fn continues(
    start: Option<(Seq<u8>, int)>,
    done: Seq<u8>,
    left: Option<(Seq<u8>, int)>,
) -> bool {
    match left {
        Some((rest, end)) => start == Some((done + rest, end)),
        None => start is None,
    }
}

pub fn literal(bytes: &[u8], at: usize) -> (r: Option<(Vec<u8>, usize)>)
    requires
        at <= bytes@.len(),
    ensures
        match r {
            Some((string, end)) => literal_at(bytes@, at as int) == Some((string@, end as int))
                && at < end <= bytes@.len(),
            None => literal_at(bytes@, at as int) is None,
        },
{
    if at >= bytes.len() || bytes[at] != 0x28 {
        return None;
    }
    let mut string: Vec<u8> = Vec::new();
    let mut open: usize = 0;
    let mut i: usize = at + 1;
    let ghost start = literal_at(bytes@, at as int);
    proof {
        if let Some((rest, end)) = start {
            assert(string@ + rest =~= rest);
        }
    }
    while i < bytes.len()
        invariant
            at < i <= bytes@.len(),
            open <= MAX_BRACKET,
            start == literal_at(bytes@, at as int),
            continues(start, string@, literal_rest(bytes@, i as int, open as nat)),
        decreases bytes@.len() - i,
    {
        let ghost done = string@;
        let byte = bytes[i];
        if byte == 0x5c {
            match escape(bytes, i + 1) {
                Some((escaped, next)) => {
                    proof {
                        if let Some((rest, end)) = literal_rest(bytes@, next as int, open as nat) {
                            match escaped {
                                Some(byte) => {
                                    assert(done + (seq![byte] + rest) =~= done.push(byte) + rest);
                                },
                                None => {
                                    assert(done + (Seq::<u8>::empty() + rest) =~= done + rest);
                                },
                            }
                        }
                    }
                    if let Some(byte) = escaped {
                        string.push(byte);
                    }
                    i = next;
                },
                None => {
                    return None;
                },
            }
        } else if byte == 0x29 && open == 0 {
            assert(done + Seq::<u8>::empty() =~= done);
            return Some((string, i + 1));
        } else if byte == 0x28 && open >= MAX_BRACKET {
            return None;
        } else {
            if byte == 0x28 {
                open += 1;
            } else if byte == 0x29 {
                open -= 1;
            }
            proof {
                if let Some((rest, end)) = literal_rest(bytes@, i + 1, open as nat) {
                    assert(done + (seq![byte] + rest) =~= done.push(byte) + rest);
                }
            }
            string.push(byte);
            i += 1;
        }
    }
    None
}

/// The hexadecimal digits from `at` on, with white space between them, up to `>`, and where that
/// is.
pub open spec fn hex_rest(bytes: Seq<u8>, at: int) -> Option<(Seq<u8>, int)>
    decreases bytes.len() - at,
{
    if at < 0 || at >= bytes.len() {
        None
    } else if is_white(bytes[at]) {
        hex_rest(bytes, at + 1)
    } else if bytes[at] == 0x3e {
        Some((Seq::empty(), at + 1))
    } else {
        match (hex_worth(bytes[at]), hex_rest(bytes, at + 1)) {
            (Some(worth), Some((rest, end))) => Some((seq![worth] + rest, end)),
            _ => None,
        }
    }
}

/// The bytes that hexadecimal digits stand for, two each; a digit alone at the end is the first of
/// a pair whose second is zero.
pub open spec fn paired_digits(digits: Seq<u8>) -> Seq<u8> {
    Seq::new(
        ((digits.len() + 1) / 2) as nat,
        |i: int|
            {
                let low = if 2 * i + 1 < digits.len() {
                    digits[2 * i + 1]
                } else {
                    0
                };
                (digits[2 * i] * 16 + low) as u8
            },
    )
}

/// A hexadecimal string: digits between `<` and `>`.
pub open spec fn hexadecimal_at(bytes: Seq<u8>, at: int) -> Option<(Seq<u8>, int)> {
    if 0 <= at < bytes.len() && bytes[at] == 0x3c {
        match hex_rest(bytes, at + 1) {
            Some((digits, end)) => Some((paired_digits(digits), end)),
            None => None,
        }
    } else {
        None
    }
}

fn pair_digits(digits: &Vec<u8>) -> (r: Vec<u8>)
    requires
        forall|i: int| 0 <= i < digits@.len() ==> #[trigger] digits@[i] < 16,
    ensures
        r@ == paired_digits(digits@),
{
    let mut out: Vec<u8> = Vec::new();
    let mut i: usize = 0;
    while i < digits.len()
        invariant
            i <= digits@.len(),
            i % 2 == 0 || i == digits@.len(),
            forall|j: int| 0 <= j < digits@.len() ==> #[trigger] digits@[j] < 16,
            out@.len() == (i + 1) / 2,
            forall|j: int| 0 <= j < out@.len() ==> out@[j] == paired_digits(digits@)[j],
        decreases digits@.len() - i,
    {
        let last = i + 1 >= digits.len();
        let low: u8 = if last {
            0
        } else {
            digits[i + 1]
        };
        let byte = digits[i] * 16 + low;
        assert(2 * out@.len() == i);
        assert(byte == paired_digits(digits@)[out@.len() as int]);
        out.push(byte);
        if last {
            i += 1;
        } else {
            i += 2;
        }
    }
    assert(out@ =~= paired_digits(digits@));
    out
}

pub fn hexadecimal(bytes: &[u8], at: usize) -> (r: Option<(Vec<u8>, usize)>)
    requires
        at <= bytes@.len(),
    ensures
        match r {
            Some((string, end)) => hexadecimal_at(bytes@, at as int) == Some((string@, end as int))
                && at < end <= bytes@.len(),
            None => hexadecimal_at(bytes@, at as int) is None,
        },
{
    if at >= bytes.len() || bytes[at] != 0x3c {
        return None;
    }
    let mut digits: Vec<u8> = Vec::new();
    let mut i: usize = at + 1;
    let ghost start = hex_rest(bytes@, at + 1);
    proof {
        if let Some((rest, end)) = start {
            assert(digits@ + rest =~= rest);
        }
    }
    while i < bytes.len()
        invariant
            at < i <= bytes@.len(),
            bytes@[at as int] == 0x3c,
            start == hex_rest(bytes@, at + 1),
            continues(start, digits@, hex_rest(bytes@, i as int)),
            forall|j: int| 0 <= j < digits@.len() ==> #[trigger] digits@[j] < 16,
        decreases bytes@.len() - i,
    {
        let ghost done = digits@;
        if white(bytes[i]) {
            i += 1;
        } else if bytes[i] == 0x3e {
            assert(done + Seq::<u8>::empty() =~= done);
            return Some((pair_digits(&digits), i + 1));
        } else {
            match hex_digit(bytes[i]) {
                Some(worth) => {
                    proof {
                        if let Some((rest, end)) = hex_rest(bytes@, i + 1) {
                            assert(done + (seq![worth] + rest) =~= done.push(worth) + rest);
                        }
                    }
                    digits.push(worth);
                    i += 1;
                },
                None => {
                    return None;
                },
            }
        }
    }
    None
}

} // verus!
