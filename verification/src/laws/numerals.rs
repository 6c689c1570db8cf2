//! What the numbers of page labels are worth, read as such numbers are read.

use vstd::prelude::*;

use crate::bytes::key;
use crate::common_data_structures::decoded_text;
use crate::laws::lemma_keys_differ;
use crate::object::{named_entry, Entries, Value};
use crate::page_labels::{
    letter_numeral, range_label, range_prefix, repeated, roman_numeral, roman_place, styled,
    uppercase,
};
use crate::text::{decimal, digits};

verus! {

/// What a Roman letter is worth.
pub open spec fn letter_worth(letter: char) -> int {
    if letter == 'm' || letter == 'M' {
        1000
    } else if letter == 'd' || letter == 'D' {
        500
    } else if letter == 'c' || letter == 'C' {
        100
    } else if letter == 'l' || letter == 'L' {
        50
    } else if letter == 'x' || letter == 'X' {
        10
    } else if letter == 'v' || letter == 'V' {
        5
    } else if letter == 'i' || letter == 'I' {
        1
    } else {
        0
    }
}

/// What a Roman numeral is worth: a letter before a larger one is taken away, and any other is added.
pub open spec fn roman_worth(text: Seq<char>) -> int
    decreases text.len(),
{
    if text.len() == 0 {
        0
    } else {
        let rest = roman_worth(text.drop_first());
        if text.len() > 1 && letter_worth(text[0]) < letter_worth(text[1]) {
            rest - letter_worth(text[0])
        } else {
            rest + letter_worth(text[0])
        }
    }
}

/// Whether `text` is the digit `digit` of a Roman numeral, in the letters of its place.
pub open spec fn is_place(text: Seq<char>, digit: int, one: char, five: char, ten: char) -> bool {
    &&& digit == 0 ==> text == Seq::<char>::empty()
    &&& digit == 1 ==> text == seq![one]
    &&& digit == 2 ==> text == seq![one, one]
    &&& digit == 3 ==> text == seq![one, one, one]
    &&& digit == 4 ==> text == seq![one, five]
    &&& digit == 5 ==> text == seq![five]
    &&& digit == 6 ==> text == seq![five, one]
    &&& digit == 7 ==> text == seq![five, one, one]
    &&& digit == 8 ==> text == seq![five, one, one, one]
    &&& digit == 9 ==> text == seq![one, ten]
}

proof fn lemma_is_place(digit: int, one: char, five: char, ten: char)
    requires
        0 <= digit <= 9,
    ensures
        is_place(roman_place(digit, one, five, ten), digit, one, five, ten),
{
    let text = roman_place(digit, one, five, ten);
    assert(digit == 0 ==> text =~= Seq::<char>::empty());
    assert(digit == 1 ==> text =~= seq![one]);
    assert(digit == 2 ==> text =~= seq![one, one]);
    assert(digit == 3 ==> text =~= seq![one, one, one]);
    assert(digit == 5 ==> text =~= seq![five]);
    assert(digit == 6 ==> text =~= seq![five, one]);
    assert(digit == 7 ==> text =~= seq![five, one, one]);
    assert(digit == 8 ==> text =~= seq![five, one, one, one]);
}

proof fn lemma_digits(number: int)
    requires
        number > 0,
    ensures
        number % 1_000_000 / 100 % 10 == number / 100 % 10,
        number % 1_000_000 / 10 % 10 == number / 10 % 10,
        number % 1_000_000 % 10 == number % 10,
        number % 1_000_000 == 1000 * (number % 1_000_000 / 1000) + 100 * (number / 100 % 10) + 10 * (
        number / 10 % 10) + number % 10,
{
    let q = number / 1_000_000;
    let n = number % 1_000_000;
    assert(number == 1_000_000 * q + n);
    assert(number / 100 == 10_000 * q + n / 100);
    assert(number / 10 == 100_000 * q + n / 10);
    assert(n / 100 == 10 * (n / 1000) + n / 100 % 10);
    assert(n / 10 == 10 * (n / 100) + n / 10 % 10);
}

/// A Roman numeral is written place by place: an `m` for each thousand, and then the hundreds, tens and
/// ones, each as i, ii, iii, iv, v, vi, vii, viii or ix are in the letters of its place, and nothing for 0.
pub proof fn lemma_places(number: int) -> (places: (Seq<char>, Seq<char>, Seq<char>, Seq<char>))
    requires
        number > 0,
    ensures
        roman_numeral(number) == places.0 + places.1 + places.2 + places.3,
        places.0.len() == number % 1_000_000 / 1000,
        forall|i: int| 0 <= i < places.0.len() ==> places.0[i] == 'm',
        is_place(places.1, number / 100 % 10, 'c', 'd', 'm'),
        is_place(places.2, number / 10 % 10, 'x', 'l', 'c'),
        is_place(places.3, number % 10, 'i', 'v', 'x'),
{
    let n = number % 1_000_000;
    lemma_digits(number);
    lemma_is_place(n / 100 % 10, 'c', 'd', 'm');
    lemma_is_place(n / 10 % 10, 'x', 'l', 'c');
    lemma_is_place(n % 10, 'i', 'v', 'x');
    (
        repeated('m', (n / 1000) as nat),
        roman_place(n / 100 % 10, 'c', 'd', 'm'),
        roman_place(n / 10 % 10, 'x', 'l', 'c'),
        roman_place(n % 10, 'i', 'v', 'x'),
    )
}

/// A letter in front of what is no larger counts for what it is worth.
proof fn lemma_add_letter(letter: char, rest: Seq<char>)
    requires
        rest.len() > 0 ==> letter_worth(rest[0]) <= letter_worth(letter),
    ensures
        roman_worth(seq![letter] + rest) == letter_worth(letter) + roman_worth(rest),
{
    let text = seq![letter] + rest;
    assert(text.drop_first() =~= rest);
    assert(text[0] == letter);
    assert(rest.len() > 0 ==> text[1] == rest[0]);
}

proof fn lemma_take_letter(letter: char, rest: Seq<char>)
    requires
        rest.len() > 0,
        letter_worth(letter) < letter_worth(rest[0]),
    ensures
        roman_worth(seq![letter] + rest) == roman_worth(rest) - letter_worth(letter),
{
    let text = seq![letter] + rest;
    assert(text.drop_first() =~= rest);
    assert(text[0] == letter);
    assert(text[1] == rest[0]);
}

proof fn lemma_place_worth(
    text: Seq<char>,
    digit: int,
    one: char,
    five: char,
    ten: char,
    rest: Seq<char>,
)
    requires
        0 <= digit <= 9,
        is_place(text, digit, one, five, ten),
        letter_worth(five) == 5 * letter_worth(one),
        letter_worth(ten) == 10 * letter_worth(one),
        letter_worth(one) > 0,
        rest.len() > 0 ==> letter_worth(rest[0]) <= letter_worth(one),
    ensures
        roman_worth(text + rest) == digit * letter_worth(one) + roman_worth(rest),
        digit > 0 ==> letter_worth((text + rest)[0]) <= letter_worth(ten),
{
    let ones = seq![one] + rest;
    let twos = seq![one] + ones;
    let threes = seq![one] + twos;
    lemma_add_letter(one, rest);
    lemma_add_letter(one, ones);
    lemma_add_letter(one, twos);
    lemma_add_letter(five, rest);
    lemma_add_letter(five, ones);
    lemma_add_letter(five, twos);
    lemma_add_letter(five, threes);
    lemma_add_letter(ten, rest);
    lemma_take_letter(one, seq![five] + rest);
    lemma_take_letter(one, seq![ten] + rest);
    let all = text + rest;
    if digit == 0 {
        assert(all =~= rest);
    } else if digit == 1 {
        assert(all =~= ones);
    } else if digit == 2 {
        assert(all =~= twos);
    } else if digit == 3 {
        assert(all =~= threes);
    } else if digit == 4 {
        assert(all =~= seq![one] + (seq![five] + rest));
    } else if digit == 5 {
        assert(all =~= seq![five] + rest);
    } else if digit == 6 {
        assert(all =~= seq![five] + ones);
    } else if digit == 7 {
        assert(all =~= seq![five] + twos);
    } else if digit == 8 {
        assert(all =~= seq![five] + threes);
    } else {
        assert(all =~= seq![one] + (seq![ten] + rest));
    }
}

proof fn lemma_thousands_worth(thousands: Seq<char>, rest: Seq<char>)
    requires
        forall|i: int| 0 <= i < thousands.len() ==> thousands[i] == 'm',
        rest.len() > 0 ==> letter_worth(rest[0]) <= 1000,
    ensures
        roman_worth(thousands + rest) == 1000 * thousands.len() + roman_worth(rest),
    decreases thousands.len(),
{
    if thousands.len() == 0 {
        assert(thousands + rest =~= rest);
    } else {
        let fewer = thousands.drop_first();
        lemma_thousands_worth(fewer, rest);
        assert(fewer.len() > 0 ==> (fewer + rest)[0] == 'm');
        assert(fewer.len() == 0 ==> fewer + rest =~= rest);
        lemma_add_letter('m', fewer + rest);
        assert(thousands + rest =~= seq!['m'] + (fewer + rest));
    }
}

/// A Roman numeral, read by the usual rule, is worth its number, from the remainder by 1,000,000 on.
pub proof fn lemma_roman_worth(number: int)
    requires
        number > 0,
    ensures
        roman_worth(roman_numeral(number)) == number % 1_000_000,
{
    let (thousands, hundreds, tens, ones) = lemma_places(number);
    let nothing = Seq::<char>::empty();
    lemma_digits(number);
    assert(ones + nothing =~= ones);
    lemma_place_worth(ones, number % 10, 'i', 'v', 'x', nothing);
    assert(number % 10 == 0 ==> ones.len() == 0);
    lemma_place_worth(tens, number / 10 % 10, 'x', 'l', 'c', ones);
    assert(number / 10 % 10 == 0 ==> tens + ones =~= ones);
    lemma_place_worth(hundreds, number / 100 % 10, 'c', 'd', 'm', tens + ones);
    assert(number / 100 % 10 == 0 ==> hundreds + (tens + ones) =~= tens + ones);
    lemma_thousands_worth(thousands, hundreds + (tens + ones));
    assert(roman_numeral(number) =~= thousands + (hundreds + (tens + ones)));
}

/// Two numbers from 1 to 999,999 never have the same Roman numeral.
pub proof fn lemma_roman_numerals_differ(a: int, b: int)
    requires
        0 < a < 1_000_000,
        0 < b < 1_000_000,
        roman_numeral(a) == roman_numeral(b),
    ensures
        a == b,
{
    lemma_roman_worth(a);
    lemma_roman_worth(b);
}

/// What letters count: 26 for each one more than one, and the place of the letter in the alphabet.
pub open spec fn letters_worth(text: Seq<char>, first: char) -> int {
    26 * (text.len() - 1) + (text[0] as int - first as int) + 1
}

/// A number in letters is one letter of the alphabet, as often as the alphabet has been gone through, and
/// is worth its number.
pub proof fn lemma_letters_worth(number: i64)
    requires
        1 <= number <= 26 * 999,
    ensures
        letter_numeral(number).len() > 0,
        letters_worth(letter_numeral(number), 'a') == number,
        forall|i: int|
            0 <= i < letter_numeral(number).len() ==> 'a' <= #[trigger] letter_numeral(number)[i]
                <= 'z' && letter_numeral(number)[i] == letter_numeral(number)[0],
{
    let index = number - 1;
    assert((index / 26 + 1) % 1000 == index / 26 + 1);
    assert(26 * (index / 26) + index % 26 == index);
}

/// Whether `upper` is `lower` with each letter of the alphabet in upper case.
pub open spec fn is_upper(lower: Seq<char>, upper: Seq<char>) -> bool {
    &&& upper.len() == lower.len()
    &&& forall|i: int|
        0 <= i < lower.len() ==> if 'a' <= lower[i] <= 'z' {
            #[trigger] upper[i] as int == lower[i] as int - 32
        } else {
            upper[i] == lower[i]
        }
}

/// What digits are worth, read in base ten.
pub open spec fn digits_worth(text: Seq<char>) -> int
    decreases text.len(),
{
    if text.len() == 0 {
        0
    } else {
        10 * digits_worth(text.drop_last()) + (text.last() as int - '0' as int)
    }
}

/// What a decimal number is worth, with a minus sign or without.
pub open spec fn decimal_worth(text: Seq<char>) -> int {
    if text.len() > 0 && text[0] == '-' {
        -digits_worth(text.drop_first())
    } else {
        digits_worth(text)
    }
}

/// Digits are worth their number, and have no zero in front.
pub proof fn lemma_digits_worth(n: nat)
    ensures
        digits(n).len() > 0,
        digits_worth(digits(n)) == n,
        forall|i: int| 0 <= i < digits(n).len() ==> '0' <= #[trigger] digits(n)[i] <= '9',
        n > 0 ==> digits(n)[0] != '0',
    decreases n,
{
    let text = digits(n);
    if n >= 10 {
        lemma_digits_worth(n / 10);
        assert(text.drop_last() =~= digits(n / 10));
        assert(text[0] == digits(n / 10)[0]);
    } else {
        assert(text.drop_last() =~= Seq::empty());
        assert(digits_worth(text.drop_last()) == 0);
    }
}

/// A decimal number is digits without a zero in front, behind a minus sign below 0, and is worth its
/// number.
pub proof fn lemma_decimal_worth(n: int)
    ensures
        decimal_worth(decimal(n)) == n,
        decimal(n).len() > 0,
        n > 0 ==> '1' <= decimal(n)[0] <= '9',
        n == 0 ==> decimal(n) == seq!['0'],
        forall|i: int|
            0 < i < decimal(n).len() ==> '0' <= #[trigger] decimal(n)[i] <= '9',
{
    if n < 0 {
        lemma_digits_worth((-n) as nat);
        assert(decimal(n).drop_first() =~= digits((-n) as nat));
    } else {
        lemma_digits_worth(n as nat);
        if n == 0 {
            assert(decimal(n) =~= seq!['0']);
        }
    }
}

proof fn lemma_styles_differ()
    ensures
        key("D"@) != key("R"@),
        key("D"@) != key("r"@),
        key("D"@) != key("A"@),
        key("D"@) != key("a"@),
        key("R"@) != key("r"@),
        key("R"@) != key("A"@),
        key("R"@) != key("a"@),
        key("r"@) != key("A"@),
        key("r"@) != key("a"@),
        key("A"@) != key("a"@),
{
    reveal_strlit("D");
    reveal_strlit("R");
    reveal_strlit("r");
    reveal_strlit("A");
    reveal_strlit("a");
    assert("D"@[0] == 'D' && "R"@[0] == 'R' && "r"@[0] == 'r' && "A"@[0] == 'A' && "a"@[0] == 'a');
    lemma_keys_differ("D"@, "R"@);
    lemma_keys_differ("D"@, "r"@);
    lemma_keys_differ("D"@, "A"@);
    lemma_keys_differ("D"@, "a"@);
    lemma_keys_differ("R"@, "r"@);
    lemma_keys_differ("R"@, "A"@);
    lemma_keys_differ("R"@, "a"@);
    lemma_keys_differ("r"@, "A"@);
    lemma_keys_differ("r"@, "a"@);
    lemma_keys_differ("A"@, "a"@);
}

proof fn lemma_uppercase(text: Seq<char>)
    ensures
        is_upper(text, uppercase(text)),
{
    let upper = uppercase(text);
    assert forall|i: int| 0 <= i < text.len() implies if 'a' <= text[i] <= 'z' {
        #[trigger] upper[i] as int == text[i] as int - 32
    } else {
        upper[i] == text[i]
    } by {}
}

proof fn lemma_upper_worth(lower: Seq<char>, upper: Seq<char>)
    requires
        is_upper(lower, upper),
        forall|i: int| 0 <= i < lower.len() ==> 'a' <= #[trigger] lower[i] <= 'z',
    ensures
        roman_worth(upper) == roman_worth(lower),
    decreases lower.len(),
{
    if lower.len() > 0 {
        let l = lower.drop_first();
        let u = upper.drop_first();
        assert forall|i: int| 0 <= i < l.len() implies 'a' <= #[trigger] l[i] <= 'z' by {
            assert(l[i] == lower[i + 1]);
        }
        assert forall|i: int| 0 <= i < l.len() implies if 'a' <= l[i] <= 'z' {
            #[trigger] u[i] as int == l[i] as int - 32
        } else {
            u[i] == l[i]
        } by {
            assert(u[i] == upper[i + 1] && l[i] == lower[i + 1]);
        }
        lemma_upper_worth(l, u);
        assert(upper[0] as int == lower[0] as int - 32);
        assert('a' <= lower[0] <= 'z');
        if lower.len() > 1 {
            assert('a' <= lower[1] <= 'z');
            assert(upper[1] as int == lower[1] as int - 32);
        }
    }
}

proof fn lemma_roman_letters(number: int)
    requires
        number > 0,
    ensures
        forall|i: int|
            0 <= i < roman_numeral(number).len() ==> 'a' <= #[trigger] roman_numeral(number)[i]
                <= 'z',
{
    let (thousands, hundreds, tens, ones) = lemma_places(number);
    assert forall|i: int| 0 <= i < hundreds.len() implies 'a' <= #[trigger] hundreds[i] <= 'z' by {}
    assert forall|i: int| 0 <= i < tens.len() implies 'a' <= #[trigger] tens[i] <= 'z' by {}
    assert forall|i: int| 0 <= i < ones.len() implies 'a' <= #[trigger] ones[i] <= 'z' by {}
}

/// Whether `text` is `number` in the style `style`, by what it is worth.
pub open spec fn is_styled(style: Seq<u8>, number: i64, text: Seq<char>) -> bool {
    &&& style == key("D"@) ==> decimal_worth(text) == number
    &&& style == key("R"@) || style == key("r"@) ==> if number > 0 {
        roman_worth(text) == number % 1_000_000
    } else {
        text.len() == 0
    }
    &&& (style == key("A"@) && 1 <= number <= 26 * 999) ==> letters_worth(text, 'A') == number
    &&& (style == key("a"@) && 1 <= number <= 26 * 999) ==> letters_worth(text, 'a') == number
    &&& ![key("D"@), key("R"@), key("r"@), key("A"@), key("a"@)]@.contains(style) ==> text.len()
        == 0
}

/// The number of a label is worth its number in every style, and the upper-case styles are the lower-case
/// ones in upper case.
pub proof fn lemma_styles(style: Seq<u8>, number: i64)
    ensures
        is_styled(style, number, styled(style, number)),
        is_upper(styled(key("r"@), number), styled(key("R"@), number)),
        is_upper(styled(key("a"@), number), styled(key("A"@), number)),
        styled(key("r"@), number) == roman_numeral(number as int),
{
    lemma_styles_differ();
    let styles = [key("D"@), key("R"@), key("r"@), key("A"@), key("a"@)]@;
    assert(styles[0] == key("D"@) && styles[1] == key("R"@) && styles[2] == key("r"@) && styles[3]
        == key("A"@) && styles[4] == key("a"@));
    lemma_decimal_worth(number as int);
    lemma_uppercase(roman_numeral(number as int));
    lemma_uppercase(letter_numeral(number));
    if number > 0 {
        lemma_roman_worth(number as int);
        lemma_roman_letters(number as int);
        lemma_upper_worth(roman_numeral(number as int), uppercase(roman_numeral(number as int)));
    }
    if 1 <= number <= 26 * 999 {
        lemma_letters_worth(number);
        let lower = letter_numeral(number);
        assert('a' <= lower[0] <= 'z');
        assert(uppercase(lower)[0] as int == lower[0] as int - 32);
    }
}

/// The page `offset` pages into a range has the range's prefix and then the number that is `offset` past
/// the range's start, in the range's style; without a style it has the prefix alone.
pub proof fn lemma_range_labels(range: Entries, offset: i64, start: i64)
    requires
        0 <= offset,
        offset + start <= i64::MAX,
        named_entry(range, "St"@) == Some(Value::Integer(start)) || (named_entry(range, "St"@)
            is None && start == 1),
    ensures
        range_label(range, offset).take(range_prefix(range).len() as int) == range_prefix(range),
        match named_entry(range, "S"@) {
            Some(Value::Name(style)) => is_styled(
                style,
                (offset + start) as i64,
                range_label(range, offset).skip(range_prefix(range).len() as int),
            ),
            Some(Value::String(style, _)) => is_styled(
                style,
                (offset + start) as i64,
                range_label(range, offset).skip(range_prefix(range).len() as int),
            ),
            _ => range_label(range, offset) == range_prefix(range),
        },
        match named_entry(range, "P"@) {
            Some(Value::String(bytes, _)) => decoded_text(bytes) matches Some(text)
                ==> range_prefix(range) == text,
            Some(Value::Name(bytes)) => decoded_text(bytes) matches Some(text) ==> range_prefix(
                range,
            ) == text,
            _ => range_prefix(range).len() == 0,
        },
{
    let number = (offset + start) as i64;
    let prefix = range_prefix(range);
    let label = range_label(range, offset);
    assert(label.take(prefix.len() as int) =~= prefix);
    match named_entry(range, "S"@) {
        Some(Value::Name(style)) => {
            lemma_styles(style, number);
            assert(label.skip(prefix.len() as int) =~= styled(style, number));
        },
        Some(Value::String(style, _)) => {
            lemma_styles(style, number);
            assert(label.skip(prefix.len() as int) =~= styled(style, number));
        },
        _ => {
            assert(label =~= prefix);
        },
    }
}

/// Letters come again after 26,000 numbers; 0 and what is 25 or more below it have none, and the numbers
/// between have the characters before `a`.
pub proof fn lemma_letters_everywhere(number: i64)
    ensures
        1 <= number && number + 26_000 <= i64::MAX ==> letter_numeral((number + 26_000) as i64)
            == letter_numeral(number),
        number == 0 ==> letter_numeral(number).len() == 0,
        -25 < number < 0 ==> letter_numeral(number).len() == 1 && letter_numeral(number)[0] as int
            == 'a' as int + number - 1,
        i64::MIN < number <= -25 ==> letter_numeral(number).len() == 0,
{
    if 1 <= number && number + 26_000 <= i64::MAX {
        let index = number - 1;
        let later = index + 26_000;
        assert(later % 26 == index % 26);
        assert(later / 26 == index / 26 + 1000);
        assert((later / 26 + 1) % 1000 == (index / 26 + 1) % 1000);
    }
}

/// A number past the greatest one counts as the greatest, and one below the least as the least.
pub proof fn lemma_labels_at_the_ends(range: Entries, offset: i64, start: i64, style: Seq<u8>)
    requires
        named_entry(range, "St"@) == Some(Value::Integer(start)),
        named_entry(range, "S"@) == Some(Value::Name(style)),
    ensures
        offset + start > i64::MAX ==> is_styled(
            style,
            i64::MAX,
            range_label(range, offset).skip(range_prefix(range).len() as int),
        ),
        offset + start < i64::MIN ==> is_styled(
            style,
            i64::MIN,
            range_label(range, offset).skip(range_prefix(range).len() as int),
        ),
{
    let prefix = range_prefix(range);
    let label = range_label(range, offset);
    lemma_styles(style, i64::MAX);
    lemma_styles(style, i64::MIN);
    assert(offset + start > i64::MAX ==> label.skip(prefix.len() as int) =~= styled(style, i64::MAX));
    assert(offset + start < i64::MIN ==> label.skip(prefix.len() as int) =~= styled(style, i64::MIN));
}

} // verus!
