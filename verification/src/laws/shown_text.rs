//! The text that a page's text operators show.

use vstd::prelude::*;
use vstd::utf8::encode_utf8;

use crate::bytes::key;
use crate::font_encoding::TextEncoding;
use crate::laws::lemma_keys_differ;
use crate::object::{StringFormat, Value};
use crate::page_text_runs::{
    codes_shown, collected, operation_drawn, run_ended, shown, DrawModel, RunModel, ScopeModel,
};
use crate::parser::content::OperationModel;

verus! {

/// Whether `text` is what a string of `codes` shows: the text of each code in turn, for an encoding that
/// reads byte by byte, and the text of them all for another.
pub open spec fn is_text<E: TextEncoding>(encoding: E, codes: Seq<u8>, text: Seq<char>) -> bool {
    if encoding.byte_by_byte() {
        exists|letters: Seq<Seq<char>>| #[trigger] are_letters(encoding, codes, letters) && text
            == letters.flatten()
    } else {
        encoding.text_of(codes) == Some(text)
    }
}

/// Whether `letters` are the texts of `codes`, one by one.
pub open spec fn are_letters<E: TextEncoding>(
    encoding: E,
    codes: Seq<u8>,
    letters: Seq<Seq<char>>,
) -> bool {
    &&& letters.len() == codes.len()
    &&& forall|i: int|
        0 <= i < codes.len() ==> encoding.text_of(seq![codes[i]]) == Some(#[trigger] letters[i])
}

/// Whether `part` is what `item` adds to the text between the brackets of a `TJ`: a string its text, an
/// integer below -100 a space, and anything else nothing.
pub open spec fn is_part<E: TextEncoding>(encoding: E, item: Value, part: Seq<char>) -> bool {
    match item {
        Value::String(codes, _) => is_text(encoding, codes, part),
        Value::Integer(n) => part == if n < -100 {
            seq![' ']
        } else {
            Seq::<char>::empty()
        },
        Value::Array(_) => false,
        _ => part == Seq::<char>::empty(),
    }
}

/// Whether `parts` are what `items` add to the text, one by one.
pub open spec fn are_parts<E: TextEncoding>(
    encoding: E,
    items: Seq<Value>,
    parts: Seq<Seq<char>>,
) -> bool {
    &&& parts.len() == items.len()
    &&& forall|i: int| 0 <= i < items.len() ==> is_part(encoding, items[i], #[trigger] parts[i])
}

proof fn lemma_letters<E: TextEncoding>(
    encoding: E,
    codes: Seq<u8>,
    letters: Seq<Seq<char>>,
    run: RunModel,
)
    requires
        are_letters(encoding, codes, letters),
    ensures
        codes_shown(encoding, codes, run).1,
        codes_shown(encoding, codes, run).0.text == run.text + letters.flatten(),
    decreases codes.len(),
{
    if codes.len() == 0 {
        assert(run.text + letters.flatten() =~= run.text);
    } else {
        let front = letters.drop_last();
        assert forall|i: int| 0 <= i < front.len() implies encoding.text_of(
            seq![codes.drop_last()[i]],
        ) == Some(#[trigger] front[i]) by {
            assert(front[i] == letters[i]);
        }
        lemma_letters(encoding, codes.drop_last(), front, run);
        front.lemma_flatten_push(letters.last());
        assert(front.push(letters.last()) =~= letters);
        assert(encoding.text_of(seq![codes.last()]) == Some(letters[codes.len() - 1]));
        assert(run.text + front.flatten() + letters.last() =~= run.text + letters.flatten());
    }
}

/// A string shows its text, behind what is there.
pub proof fn lemma_string_shown<E: TextEncoding>(
    encoding: E,
    codes: Seq<u8>,
    text: Seq<char>,
    run: RunModel,
)
    requires
        is_text(encoding, codes, text),
    ensures
        shown(encoding, codes, run).1,
        shown(encoding, codes, run).0.text == run.text + text,
{
    if encoding.byte_by_byte() {
        let letters = choose|letters: Seq<Seq<char>>| #[trigger]
            are_letters(encoding, codes, letters) && text == letters.flatten();
        lemma_letters(encoding, codes, letters, run);
    }
}

proof fn lemma_parts_from<E: TextEncoding>(
    encoding: E,
    items: Seq<Value>,
    parts: Seq<Seq<char>>,
    i: nat,
    run: RunModel,
)
    requires
        are_parts(encoding, items, parts),
        i <= items.len(),
    ensures
        collected(encoding, items, i, run).1,
        collected(encoding, items, i, run).0.text == run.text + parts.skip(i as int).flatten(),
    decreases items.len() - i,
{
    if i == items.len() {
        assert(parts.skip(i as int) =~= Seq::empty());
        assert(run.text + parts.skip(i as int).flatten() =~= run.text);
    } else {
        let part = parts[i as int];
        assert(is_part(encoding, items[i as int], part));
        let rest = parts.skip(i as int + 1);
        assert(parts.skip(i as int).drop_first() =~= rest);
        assert(parts.skip(i as int)[0] == part);
        assert(parts.skip(i as int).flatten() == part + rest.flatten());
        let next = match items[i as int] {
            Value::String(codes, _) => {
                lemma_string_shown(encoding, codes, part, run);
                shown(encoding, codes, run).0
            },
            Value::Integer(n) if n < -100 => RunModel {
                text: run.text.push(' '),
                codes: run.codes,
            },
            _ => run,
        };
        assert(next.text =~= run.text + part);
        lemma_parts_from(encoding, items, parts, i + 1, next);
        assert(next.text + rest.flatten() =~= run.text + parts.skip(i as int).flatten());
    }
}

/// Strings and numbers show the text of the strings one after the other, with a space for each integer
/// below -100 and nothing else; in an array they show one space more, at its end.
pub proof fn lemma_text_shown<E: TextEncoding>(
    encoding: E,
    items: Seq<Value>,
    parts: Seq<Seq<char>>,
    run: RunModel,
)
    requires
        are_parts(encoding, items, parts),
    ensures
        collected(encoding, items, 0, run).1,
        collected(encoding, items, 0, run).0.text == run.text + parts.flatten(),
        collected(encoding, seq![Value::Array(items)], 0, run).1,
        collected(encoding, seq![Value::Array(items)], 0, run).0.text == run.text
            + parts.flatten() + seq![' '],
{
    lemma_parts_from(encoding, items, parts, 0, run);
    assert(parts.skip(0) =~= parts);
    let operands = seq![Value::Array(items)];
    let (after, _) = collected(encoding, items, 0, run);
    let end = RunModel { text: after.text.push(' '), codes: after.codes };
    assert(operands[0] == Value::Array(items));
    assert(collected(encoding, operands, 1, end) == (end, true));
    assert(collected(encoding, operands, 0, run) == collected(encoding, operands, 1, end));
    assert(end.text =~= run.text + parts.flatten() + seq![' ']);
}

/// Where a string has no text, what comes after it is not shown: the text ends with what was before it.
pub proof fn lemma_text_ends<E: TextEncoding>(
    encoding: E,
    items: Seq<Value>,
    parts: Seq<Seq<char>>,
    codes: Seq<u8>,
    rest: Seq<Value>,
    format: StringFormat,
    run: RunModel,
)
    requires
        are_parts(encoding, items, parts),
        !encoding.byte_by_byte(),
        encoding.text_of(codes) is None,
    ensures
        ({
            let all = items.push(Value::String(codes, format)) + rest;
            &&& !collected(encoding, all, 0, run).1
            &&& collected(encoding, all, 0, run).0.text == run.text + parts.flatten()
            &&& !collected(encoding, seq![Value::Array(all)], 0, run).1
            &&& collected(encoding, seq![Value::Array(all)], 0, run).0.text == run.text
                + parts.flatten()
        }),
{
    let all = items.push(Value::String(codes, format)) + rest;
    lemma_parts_from(encoding, items, parts, 0, run);
    assert(parts.skip(0) =~= parts);
    assert(all.take(items.len() as int) =~= items);
    lemma_same_items(encoding, items, all, 0, run);
    let after = collected(encoding, items, 0, run).0;
    assert(all[items.len() as int] == Value::String(codes, format));
    assert(collected(encoding, all, items.len(), after) == (after, false));
    assert(seq![Value::Array(all)][0] == Value::Array(all));
}

proof fn lemma_same_items<E: TextEncoding>(
    encoding: E,
    items: Seq<Value>,
    all: Seq<Value>,
    i: nat,
    run: RunModel,
)
    requires
        i <= items.len() <= all.len(),
        all.take(items.len() as int) == items,
        collected(encoding, items, i, run).1,
    ensures
        collected(encoding, all, i, run) == collected(
            encoding,
            all,
            items.len(),
            collected(encoding, items, i, run).0,
        ),
    decreases items.len() - i,
{
    if i < items.len() {
        assert(all.take(items.len() as int)[i as int] == all[i as int]);
        let next = match items[i as int] {
            Value::String(codes, _) => shown(encoding, codes, run).0,
            Value::Array(inner) => {
                let after = collected(encoding, inner, 0, run).0;
                RunModel { text: after.text.push(' '), codes: after.codes }
            },
            Value::Integer(n) if n < -100 => RunModel {
                text: run.text.push(' '),
                codes: run.codes,
            },
            _ => run,
        };
        lemma_same_items(encoding, items, all, i + 1, next);
    }
}

/// Each code that shows one character is kept with the place of that character, in bytes.
pub proof fn lemma_code_shown<E: TextEncoding>(encoding: E, code: u8, letter: Seq<char>, run: RunModel)
    requires
        encoding.byte_by_byte(),
        encoding.text_of(seq![code]) == Some(letter),
    ensures
        shown(encoding, seq![code], run) == (
            RunModel {
                text: run.text + letter,
                codes: if letter.len() == 1 {
                    run.codes.push((encode_utf8(run.text).len(), code))
                } else {
                    run.codes
                },
            },
            true,
        ),
{
    let codes = seq![code];
    assert(codes.drop_last() =~= Seq::empty());
    assert(codes_shown(encoding, codes.drop_last(), run) == (run, true));
    assert(codes.last() == code);
}

/// A string read byte by byte shows its first codes, then the others.
pub proof fn lemma_shown_in_two<E: TextEncoding>(encoding: E, a: Seq<u8>, b: Seq<u8>, run: RunModel)
    requires
        encoding.byte_by_byte(),
        shown(encoding, a, run).1,
    ensures
        shown(encoding, a + b, run) == shown(encoding, b, shown(encoding, a, run).0),
    decreases b.len(),
{
    if b.len() == 0 {
        assert(a + b =~= a);
    } else {
        lemma_shown_in_two(encoding, a, b.drop_last(), run);
        assert((a + b).drop_last() =~= a + b.drop_last());
        assert((a + b).last() == b.last());
    }
}

proof fn lemma_operators_differ()
    ensures
        forall|i: int, j: int|
            0 <= i < j < operators().len() ==> #[trigger] operators()[i] != #[trigger] operators()[j],
{
    reveal_strlit("Tf");
    reveal_strlit("q");
    reveal_strlit("Q");
    reveal_strlit("Tj");
    reveal_strlit("TJ");
    reveal_strlit("'");
    reveal_strlit("\"");
    reveal_strlit("T*");
    reveal_strlit("ET");
    let names = seq!["Tf"@, "q"@, "Q"@, "Tj"@, "TJ"@, "'"@, "\""@, "T*"@, "ET"@];
    assert forall|i: int, j: int| 0 <= i < j < operators().len() implies #[trigger] operators()[i]
        != #[trigger] operators()[j] by {
        assert(operators()[i] == key(names[i]));
        assert(operators()[j] == key(names[j]));
        lemma_keys_differ(names[i], names[j]);
        assert(names[i].len() != names[j].len() || names[i][0] != names[j][0] || names[i][1]
            != names[j][1]);
    }
}

/// The operators that text is read from.
pub open spec fn operators() -> Seq<Seq<u8>> {
    seq![
        key("Tf"@),
        key("q"@),
        key("Q"@),
        key("Tj"@),
        key("TJ"@),
        key("'"@),
        key("\""@),
        key("T*"@),
        key("ET"@),
    ]
}

/// Whether `after` is `before` but for the text of the run, which has `text` in place of its own, and for
/// the run's codes.
pub open spec fn with_run_text<E>(before: DrawModel<E>, after: DrawModel<E>, text: Seq<char>) -> bool {
    &&& after.font == before.font
    &&& after.saved == before.saved
    &&& after.reader == before.reader
    &&& after.run.text == text
}

/// `Tj` shows its string, and `TJ` the strings of its array with a space behind, in the font that is set;
/// with no font set they show nothing.
pub proof fn lemma_show_operators<E: TextEncoding>(
    scope: ScopeModel,
    d: DrawModel<E>,
    operands: Seq<Value>,
    parts: Seq<Seq<char>>,
)
    requires
        d.font matches Some(font) ==> are_parts(
            d.reader.fonts[font as int].encoding,
            operands,
            parts,
        ),
    ensures
        ({
            let string = operation_drawn(scope, OperationModel { operator: key("Tj"@), operands }, d);
            let array = operation_drawn(
                scope,
                OperationModel { operator: key("TJ"@), operands: seq![Value::Array(operands)] },
                d,
            );
            if d.font is Some {
                &&& with_run_text(d, string, d.run.text + parts.flatten())
                &&& with_run_text(d, array, d.run.text + parts.flatten() + seq![' '])
            } else {
                string == d && array == d
            }
        }),
{
    lemma_operators_differ();
    let names = operators();
    assert(names[3] != names[0] && names[3] != names[1] && names[3] != names[2]);
    assert(names[4] != names[0] && names[4] != names[1] && names[4] != names[2]);
    if let Some(font) = d.font {
        lemma_text_shown(d.reader.fonts[font as int].encoding, operands, parts, d.run);
    }
}

/// Whether `after` is `before` with a line end, unless it ends with one.
pub open spec fn is_line_end(before: Seq<char>, after: Seq<char>) -> bool {
    &&& after.len() > 0
    &&& after.last() == '\n'
    &&& after == before || (after == before.push('\n') && !(before.len() > 0 && before.last()
        == '\n'))
}

/// `T*` and `ET` end the line of text, once, whether or not a font is set.
pub proof fn lemma_line_operators<E: TextEncoding>(
    scope: ScopeModel,
    d: DrawModel<E>,
    operands: Seq<Value>,
)
    ensures
        ({
            let next = operation_drawn(scope, OperationModel { operator: key("T*"@), operands }, d);
            let end = operation_drawn(scope, OperationModel { operator: key("ET"@), operands }, d);
            &&& end == next
            &&& is_line_end(d.run.text, next.run.text)
            &&& with_run_text(d, next, next.run.text)
            &&& next.run.codes == d.run.codes
        }),
{
    lemma_operators_differ();
    let names = operators();
    assert forall|k: int| 0 <= k < 7 implies #[trigger] names[k] != names[7] && names[k] != names[8] by {}
    assert(names[0] == key("Tf"@) && names[1] == key("q"@) && names[2] == key("Q"@) && names[3]
        == key("Tj"@));
    assert(names[4] == key("TJ"@) && names[5] == key("'"@) && names[6] == key("\""@) && names[7]
        == key("T*"@) && names[8] == key("ET"@));
}

/// `'` ends the line and shows its first operand, and `"` its third, in the font that is set.
pub proof fn lemma_next_line_operators<E: TextEncoding>(
    scope: ScopeModel,
    d: DrawModel<E>,
    operand: Value,
    word: Value,
    letter: Value,
    part: Seq<char>,
)
    requires
        d.font matches Some(font) ==> is_part(d.reader.fonts[font as int].encoding, operand, part),
    ensures
        ({
            let quote = operation_drawn(
                scope,
                OperationModel { operator: key("'"@), operands: seq![operand] },
                d,
            );
            let quotes = operation_drawn(
                scope,
                OperationModel { operator: key("\""@), operands: seq![word, letter, operand] },
                d,
            );
            &&& quote == quotes
            &&& if d.font is Some {
                exists|broken: Seq<char>| #[trigger]
                    is_line_end(d.run.text, broken) && with_run_text(d, quote, broken + part)
            } else {
                quote == d
            }
        }),
{
    lemma_operators_differ();
    let names = operators();
    assert forall|k: int| 0 <= k < 5 implies #[trigger] names[k] != names[5] && names[k] != names[6] by {}
    assert(names[5] != names[6]);
    assert(names[0] == key("Tf"@) && names[1] == key("q"@) && names[2] == key("Q"@) && names[3]
        == key("Tj"@));
    assert(names[4] == key("TJ"@) && names[5] == key("'"@) && names[6] == key("\""@));
    assert(seq![word, letter, operand][2] == operand);
    assert(seq![operand][0] == operand);
    if let Some(font) = d.font {
        let encoding = d.reader.fonts[font as int].encoding;
        let broken = if d.run.text.len() > 0 && d.run.text.last() == '\n' {
            d.run
        } else {
            RunModel { text: d.run.text.push('\n'), codes: d.run.codes }
        };
        assert(are_parts(encoding, seq![operand], seq![part]));
        lemma_text_shown(encoding, seq![operand], seq![part], broken);
        seq![part].lemma_flatten_one_element();
        assert(is_line_end(d.run.text, broken.text));
    }
}

/// `Tf` ends the run, which is listed with the font that it was shown in if there is text in it, and sets
/// the font that its operand names, or none if the resources have none of that name.
pub proof fn lemma_font_operator<E: TextEncoding>(
    scope: ScopeModel,
    d: DrawModel<E>,
    name: Seq<u8>,
    size: Value,
)
    ensures
        ({
            let set = operation_drawn(
                scope,
                OperationModel { operator: key("Tf"@), operands: seq![Value::Name(name), size] },
                d,
            );
            &&& set.font == if scope.fonts.contains_key(name) {
                scope.fonts[name]
            } else {
                None
            }
            &&& set.saved == d.saved
            &&& is_run_ended(d, set)
        }),
{
    let operands = seq![Value::Name(name), size];
    assert(operands[0] == Value::Name(name));
    lemma_run_ended(d);
}

proof fn lemma_run_ended<E>(d: DrawModel<E>)
    ensures
        is_run_ended(d, run_ended(d)),
{
    assert(run_ended(d).reader.runs.len() > d.reader.runs.len() ==> run_ended(
        d,
    ).reader.runs.drop_last() =~= d.reader.runs);
}

/// Whether the run of `before`, if there is text in it, is the last one listed in `after`, with the name of
/// its font, and the run of `after` has nothing in it.
pub open spec fn is_run_ended<E>(before: DrawModel<E>, after: DrawModel<E>) -> bool {
    &&& after.run.text.len() == 0
    &&& after.reader.fonts == before.reader.fonts
    &&& after.reader.spent == before.reader.spent
    &&& if before.run.text.len() == 0 {
        after.reader.runs == before.reader.runs
    } else {
        &&& after.reader.runs.len() == before.reader.runs.len() + 1
        &&& after.reader.runs.drop_last() == before.reader.runs
        &&& after.reader.runs.last().text == before.run.text
        &&& after.reader.runs.last().codes == before.run.codes
        &&& match before.font {
            Some(font) => {
                &&& after.reader.runs.last().font == before.reader.fonts[font as int].name
                &&& after.reader.runs.last().differences
                    == before.reader.fonts[font as int].differences
            },
            None => {
                &&& after.reader.runs.last().font.len() == 0
                &&& after.reader.runs.last().differences == Map::<u8, Seq<u8>>::empty()
            },
        }
    }
}

/// `Q` sets the font that was set at the `q` that it belongs to: text between them, in whatever font, is
/// before them, and the run goes on behind them only if the font is still the same. A `Q` too many does
/// nothing.
pub proof fn lemma_saved_fonts<E: TextEncoding>(
    scope: ScopeModel,
    d: DrawModel<E>,
    between: DrawModel<E>,
    operands: Seq<Value>,
)
    ensures
        ({
            let save = OperationModel { operator: key("q"@), operands };
            let restore = OperationModel { operator: key("Q"@), operands };
            let saved = operation_drawn(scope, save, d);
            &&& saved.font == d.font
            &&& saved.run == d.run
            &&& saved.reader == d.reader
            &&& between.saved == saved.saved ==> {
                let restored = operation_drawn(scope, restore, between);
                &&& restored.font == d.font
                &&& restored.saved == d.saved
                &&& if between.font == d.font {
                    restored.run == between.run && restored.reader == between.reader
                } else {
                    is_run_ended(between, restored)
                }
            }
            &&& d.saved.len() == 0 ==> operation_drawn(scope, restore, d) == d
        }),
{
    lemma_operators_differ();
    let names = operators();
    assert(names[0] != names[1] && names[0] != names[2] && names[1] != names[2]);
    assert(d.saved.push(d.font).drop_last() =~= d.saved);
    lemma_run_ended(between);
}

/// Any other operator leaves the text, the fonts and the runs as they are.
pub proof fn lemma_other_operators<E: TextEncoding>(
    scope: ScopeModel,
    d: DrawModel<E>,
    operation: OperationModel,
)
    requires
        !operators().contains(operation.operator),
    ensures
        operation_drawn(scope, operation, d) == d,
{
    let names = operators();
    assert(names[0] == key("Tf"@) && names[1] == key("q"@) && names[2] == key("Q"@) && names[3]
        == key("Tj"@));
    assert(names[4] == key("TJ"@) && names[5] == key("'"@) && names[6] == key("\""@) && names[7]
        == key("T*"@) && names[8] == key("ET"@));
}

proof fn lemma_last_items<E: TextEncoding>(
    encoding: E,
    items: Seq<Value>,
    all: Seq<Value>,
    before: nat,
    i: nat,
    run: RunModel,
)
    requires
        i <= items.len(),
        all.len() == before + items.len(),
        all.skip(before as int) == items,
    ensures
        collected(encoding, all, before + i, run) == collected(encoding, items, i, run),
    decreases items.len() - i,
{
    if i < items.len() {
        assert(all.skip(before as int)[i as int] == all[before as int + i]);
        let item = items[i as int];
        let next = match item {
            Value::String(codes, _) => shown(encoding, codes, run).0,
            Value::Array(inner) => {
                let after = collected(encoding, inner, 0, run).0;
                RunModel { text: after.text.push(' '), codes: after.codes }
            },
            Value::Integer(n) if n < -100 => RunModel {
                text: run.text.push(' '),
                codes: run.codes,
            },
            _ => run,
        };
        lemma_last_items(encoding, items, all, before, i + 1, next);
    }
}

/// Operands show in turn what each of them does.
pub proof fn lemma_operands_in_turn<E: TextEncoding>(
    encoding: E,
    first: Seq<Value>,
    others: Seq<Value>,
    run: RunModel,
)
    requires
        collected(encoding, first, 0, run).1,
    ensures
        collected(encoding, first + others, 0, run) == collected(
            encoding,
            others,
            0,
            collected(encoding, first, 0, run).0,
        ),
{
    let all = first + others;
    assert(all.take(first.len() as int) =~= first);
    assert(all.skip(first.len() as int) =~= others);
    lemma_same_items(encoding, first, all, 0, run);
    lemma_last_items(
        encoding,
        others,
        all,
        first.len(),
        0,
        collected(encoding, first, 0, run).0,
    );
}

/// An array, inside another or not, shows what it holds and then a space, if all of it has text.
pub proof fn lemma_arrays_end_with_a_space<E: TextEncoding>(encoding: E, items: Seq<Value>, run: RunModel)
    ensures
        ({
            let (inside, decoded) = collected(encoding, items, 0, run);
            let (after, all) = collected(encoding, seq![Value::Array(items)], 0, run);
            &&& all == decoded
            &&& after.codes == inside.codes
            &&& after.text == if decoded {
                inside.text.push(' ')
            } else {
                inside.text
            }
        }),
{
    let operands = seq![Value::Array(items)];
    assert(operands[0] == Value::Array(items));
    let (inside, decoded) = collected(encoding, items, 0, run);
    let spaced = RunModel { text: inside.text.push(' '), codes: inside.codes };
    assert(collected(encoding, operands, 1, spaced) == (spaced, true));
}

/// A string read byte by byte ends at the first code without text.
pub proof fn lemma_undecodable_codes<E: TextEncoding>(
    encoding: E,
    codes: Seq<u8>,
    others: Seq<u8>,
    code: u8,
    run: RunModel,
)
    requires
        encoding.byte_by_byte(),
        shown(encoding, codes, run).1,
        encoding.text_of(seq![code]) is None,
    ensures
        shown(encoding, codes.push(code) + others, run) == (shown(encoding, codes, run).0, false),
    decreases others.len(),
{
    let all = codes.push(code) + others;
    if others.len() == 0 {
        assert(all =~= codes.push(code));
        assert(all.drop_last() =~= codes);
        assert(all.last() == code);
    } else {
        lemma_undecodable_codes(encoding, codes, others.drop_last(), code, run);
        assert(all.drop_last() =~= codes.push(code) + others.drop_last());
    }
}

/// Without the operand that they show, `'` and `"` end the line alone; and a `Tf` that names no font sets
/// none.
pub proof fn lemma_missing_operands<E: TextEncoding>(
    scope: ScopeModel,
    d: DrawModel<E>,
    operands: Seq<Value>,
)
    ensures
        d.font is Some ==> {
            let quote = operation_drawn(
                scope,
                OperationModel { operator: key("'"@), operands: Seq::empty() },
                d,
            );
            is_line_end(d.run.text, quote.run.text) && with_run_text(d, quote, quote.run.text)
        },
        d.font is Some && operands.len() < 3 ==> {
            let quotes = operation_drawn(scope, OperationModel { operator: key("\""@), operands }, d);
            is_line_end(d.run.text, quotes.run.text) && with_run_text(d, quotes, quotes.run.text)
        },
        operands.len() == 0 || !(operands[0] is Name) ==> operation_drawn(
            scope,
            OperationModel { operator: key("Tf"@), operands },
            d,
        ).font is None,
{
    lemma_operators_differ();
    let names = operators();
    assert forall|k: int| 0 <= k < 5 implies #[trigger] names[k] != names[5] && names[k] != names[6] by {}
    assert(names[5] != names[6]);
    assert(names[0] == key("Tf"@) && names[1] == key("q"@) && names[2] == key("Q"@) && names[3]
        == key("Tj"@));
    assert(names[4] == key("TJ"@) && names[5] == key("'"@) && names[6] == key("\""@));
}

} // verus!
