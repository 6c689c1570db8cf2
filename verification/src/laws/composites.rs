//! How objects, operations and cross-reference tables are put together from what they hold.

use vstd::prelude::*;

use crate::bytes::key;
use crate::laws::numbers::{are_digits, count_of, lemma_unsigned};
use crate::object::{
    distinct_keys, entry, lemma_set_then_get, set_entry, Entries, StringFormat, Value,
};
use crate::parser::content::{
    ends_image, image_end, operand_at, operands_at, operation_at, operation_too_long, operations_at,
    operations_of, operator_end, OperationModel,
};
use crate::parser::decimal::real_at;
use crate::parser::file::{
    last_tag, lemma_file_keywords, table_entries_at, table_entry_at, xref_start_of,
};
use crate::parser::lexical::{
    after_digits, after_space, after_white, hexadecimal_at, integer_at, is_white, literal_at,
    name_at, object_id_at, tagged,
};
use crate::parser::objects::{
    bare_at, dictionary_at, direct_at, entries_at, items_at, lemma_parsed_keys_are_distinct,
    reference_at,
};
use crate::xref::XrefEntry;

verus! {

proof fn lemma_keyword_bytes()
    ensures
        key("null"@) == seq![0x6eu8, 0x75, 0x6c, 0x6c],
        key("true"@) == seq![0x74u8, 0x72, 0x75, 0x65],
        key("false"@) == seq![0x66u8, 0x61, 0x6c, 0x73, 0x65],
        key("EI"@) == seq![0x45u8, 0x49],
        key("ID"@) == seq![0x49u8, 0x44],
{
    reveal_strlit("null");
    reveal_strlit("true");
    reveal_strlit("false");
    reveal_strlit("EI");
    reveal_strlit("ID");
    vstd::utf8::is_ascii_chars_encode_utf8("null"@);
    vstd::utf8::is_ascii_chars_encode_utf8("true"@);
    vstd::utf8::is_ascii_chars_encode_utf8("false"@);
    vstd::utf8::is_ascii_chars_encode_utf8("EI"@);
    vstd::utf8::is_ascii_chars_encode_utf8("ID"@);
    assert(key("null"@) =~= seq![0x6eu8, 0x75, 0x6c, 0x6c]);
    assert(key("true"@) =~= seq![0x74u8, 0x72, 0x75, 0x65]);
    assert(key("false"@) =~= seq![0x66u8, 0x61, 0x6c, 0x73, 0x65]);
    assert(key("EI"@) =~= seq![0x45u8, 0x49]);
    assert(key("ID"@) =~= seq![0x49u8, 0x44]);
}

/// What starts with another byte is none of `null`, `true` and `false`.
pub proof fn lemma_no_keyword(bytes: Seq<u8>, at: int)
    requires
        0 <= at < bytes.len(),
        bytes[at] != 0x6e,
        bytes[at] != 0x74,
        bytes[at] != 0x66,
    ensures
        !tagged(bytes, at, key("null"@)),
        !tagged(bytes, at, key("true"@)),
        !tagged(bytes, at, key("false"@)),
{
    lemma_keyword_bytes();
    if tagged(bytes, at, key("null"@)) {
        assert(bytes.subrange(at, at + 4)[0] == bytes[at]);
    }
    if tagged(bytes, at, key("true"@)) {
        assert(bytes.subrange(at, at + 4)[0] == bytes[at]);
    }
    if tagged(bytes, at, key("false"@)) {
        assert(bytes.subrange(at, at + 5)[0] == bytes[at]);
    }
}

/// `null`, `true` and `false` are what they say.
pub proof fn lemma_keywords(bytes: Seq<u8>, at: int, depth: nat)
    requires
        0 <= at < bytes.len(),
    ensures
        bytes.subrange(at, at + 4) == seq![0x6eu8, 0x75, 0x6c, 0x6c] && at + 4 <= bytes.len()
            ==> bare_at(bytes, at, depth) == Some((Value::Null, at + 4)),
        bytes.subrange(at, at + 4) == seq![0x74u8, 0x72, 0x75, 0x65] && at + 4 <= bytes.len()
            ==> bare_at(bytes, at, depth) == Some((Value::Boolean(true), at + 4)),
        bytes.subrange(at, at + 5) == seq![0x66u8, 0x61, 0x6c, 0x73, 0x65] && at + 5 <= bytes.len()
            ==> bare_at(bytes, at, depth) == Some((Value::Boolean(false), at + 5)),
{
    lemma_keyword_bytes();
    if at + 4 <= bytes.len() {
        assert(bytes.subrange(at, at + 4)[0] == bytes[at]);
    }
    if at + 5 <= bytes.len() {
        assert(bytes.subrange(at, at + 5)[0] == bytes[at]);
    }
}

/// A name, and a string in either form, is an object as it is written.
pub proof fn lemma_names_and_strings(bytes: Seq<u8>, at: int, depth: nat)
    requires
        0 <= at < bytes.len(),
    ensures
        bytes[at] == 0x2f ==> match name_at(bytes, at) {
            Some((name, end)) => bare_at(bytes, at, depth) == Some((Value::Name(name), end)),
            None => bare_at(bytes, at, depth) is None,
        },
        bytes[at] == 0x28 ==> match literal_at(bytes, at) {
            Some((string, end)) => bare_at(bytes, at, depth) == Some(
                (Value::String(string, StringFormat::Literal), end),
            ),
            None => bare_at(bytes, at, depth) is None,
        },
        bytes[at] == 0x3c && at + 1 < bytes.len() && bytes[at + 1] != 0x3c ==> match hexadecimal_at(
            bytes,
            at,
        ) {
            Some((string, end)) => bare_at(bytes, at, depth) == Some(
                (Value::String(string, StringFormat::Hexadecimal), end),
            ),
            None => bare_at(bytes, at, depth) is None,
        },
{
    if bytes[at] == 0x2f || bytes[at] == 0x28 || bytes[at] == 0x3c {
        lemma_no_keyword(bytes, at);
    }
}

/// Whether a number can start with `byte`: a digit, a sign, or a point.
pub open spec fn starts_a_number(byte: u8) -> bool {
    0x30 <= byte <= 0x39 || byte == 0x2b || byte == 0x2d || byte == 0x2e
}

/// What starts as a number does is a reference, where two numbers and `R` stand, or else a real number,
/// where there is a point, or else an integer.
pub proof fn lemma_numbers(bytes: Seq<u8>, at: int, depth: nat)
    requires
        0 <= at < bytes.len(),
        starts_a_number(bytes[at]),
    ensures
        match object_id_at(bytes, at) {
            Some((id, end)) if 0 <= end < bytes.len() && bytes[end] == 0x52 => bare_at(
                bytes,
                at,
                depth,
            ) == Some((Value::Reference(id), end + 1)),
            _ => match real_at(bytes, at) {
                Some((r, end)) => bare_at(bytes, at, depth) == Some((Value::Real(r), end)),
                None => match integer_at(bytes, at) {
                    Some((i, end)) => bare_at(bytes, at, depth) == Some((Value::Integer(i), end)),
                    None => bare_at(bytes, at, depth) is None,
                },
            },
        },
{
    lemma_no_keyword(bytes, at);
}

proof fn lemma_no_number(bytes: Seq<u8>, at: int)
    requires
        0 <= at < bytes.len(),
        !starts_a_number(bytes[at]),
    ensures
        reference_at(bytes, at) is None,
        real_at(bytes, at) is None,
        integer_at(bytes, at) is None,
{
    assert(after_digits(bytes, at) == at);
}

/// Where an array or a dictionary ends there is no object.
pub proof fn lemma_no_object(bytes: Seq<u8>, at: int, depth: nat)
    requires
        0 <= at <= bytes.len(),
        at < bytes.len() ==> bytes[at] == 0x5d || bytes[at] == 0x3e,
    ensures
        direct_at(bytes, at, depth) is None,
{
    if at < bytes.len() {
        lemma_no_keyword(bytes, at);
        lemma_no_number(bytes, at);
    }
}

/// Whether `items` stand at `starts`, each from its start to its end, with space behind each.
pub open spec fn stand_in_turn(
    bytes: Seq<u8>,
    starts: Seq<int>,
    ends: Seq<int>,
    items: Seq<Value>,
    depth: nat,
) -> bool {
    &&& starts.len() == items.len() + 1
    &&& ends.len() == items.len()
    &&& forall|k: int|
        0 <= k < items.len() ==> bare_at(bytes, starts[k], depth) == Some(
            (#[trigger] items[k], ends[k]),
        )
    &&& forall|k: int|
        0 <= k < items.len() ==> #[trigger] starts[k + 1] == after_space(bytes, ends[k])
    &&& forall|k: int|
        0 <= k < items.len() ==> 0 <= starts[k] < #[trigger] starts[k + 1] <= bytes.len()
}

proof fn lemma_items_from(
    bytes: Seq<u8>,
    starts: Seq<int>,
    ends: Seq<int>,
    items: Seq<Value>,
    depth: nat,
    k: int,
)
    requires
        stand_in_turn(bytes, starts, ends, items, depth),
        direct_at(bytes, starts.last(), depth) is None,
        0 <= k <= items.len(),
    ensures
        items_at(bytes, starts[k], depth, items.take(k)) == (items, starts.last()),
    decreases items.len() - k,
{
    if k == items.len() {
        assert(items.take(k) =~= items);
    } else {
        assert(bare_at(bytes, starts[k], depth) == Some((items[k], ends[k])));
        assert(starts[k + 1] == after_space(bytes, ends[k]));
        assert(starts[k] < starts[k + 1] <= bytes.len());
        assert(direct_at(bytes, starts[k], depth) == Some((items[k], starts[k + 1])));
        lemma_items_from(bytes, starts, ends, items, depth, k + 1);
        assert(items.take(k).push(items[k]) =~= items.take(k + 1));
    }
}

/// An array is the objects between its brackets, in order, however they are spaced.
pub proof fn lemma_arrays(
    bytes: Seq<u8>,
    at: int,
    starts: Seq<int>,
    ends: Seq<int>,
    items: Seq<Value>,
    depth: nat,
)
    requires
        0 <= at < bytes.len(),
        bytes[at] == 0x5b,
        depth > 0,
        stand_in_turn(bytes, starts, ends, items, (depth - 1) as nat),
        starts[0] == after_space(bytes, at + 1),
        0 <= starts.last() < bytes.len(),
        bytes[starts.last()] == 0x5d,
    ensures
        bare_at(bytes, at, depth) == Some((Value::Array(items), starts.last() + 1)),
{
    lemma_no_keyword(bytes, at);
    lemma_no_object(bytes, starts.last(), (depth - 1) as nat);
    lemma_items_from(bytes, starts, ends, items, (depth - 1) as nat, 0);
    assert(items.take(0) =~= Seq::empty());
}

/// Whether `names` stand at `starts`, each with the value of the same place behind it, and space behind
/// both.
pub open spec fn stand_in_pairs(
    bytes: Seq<u8>,
    starts: Seq<int>,
    name_ends: Seq<int>,
    ends: Seq<int>,
    names: Seq<Seq<u8>>,
    values: Seq<Value>,
    depth: nat,
) -> bool {
    &&& starts.len() == names.len() + 1
    &&& name_ends.len() == names.len()
    &&& ends.len() == names.len()
    &&& values.len() == names.len()
    &&& forall|k: int|
        0 <= k < names.len() ==> name_at(bytes, starts[k]) == Some(
            (#[trigger] names[k], name_ends[k]),
        )
    &&& forall|k: int|
        0 <= k < names.len() ==> bare_at(bytes, after_space(bytes, name_ends[k]), depth) == Some(
            (#[trigger] values[k], ends[k]),
        )
    &&& forall|k: int|
        0 <= k < names.len() ==> #[trigger] starts[k + 1] == after_space(bytes, ends[k])
    &&& forall|k: int|
        0 <= k < names.len() ==> 0 <= starts[k] < after_space(bytes, name_ends[k])
            < #[trigger] starts[k + 1] <= bytes.len()
}

/// Whether `value` is the last of `values` whose name is `name`, counting from `from` on.
pub open spec fn is_last_under(
    names: Seq<Seq<u8>>,
    values: Seq<Value>,
    from: int,
    name: Seq<u8>,
    value: Value,
) -> bool {
    exists|i: int|
        from <= i < names.len() && #[trigger] names[i] == name && values[i] == value && forall|j: int|
            i < j < names.len() ==> #[trigger] names[j] != name
}

proof fn lemma_entries_from(
    bytes: Seq<u8>,
    starts: Seq<int>,
    name_ends: Seq<int>,
    ends: Seq<int>,
    names: Seq<Seq<u8>>,
    values: Seq<Value>,
    depth: nat,
    k: int,
    done: Entries,
    name: Seq<u8>,
    value: Value,
)
    requires
        stand_in_pairs(bytes, starts, name_ends, ends, names, values, depth),
        name_at(bytes, starts.last()) is None,
        0 <= k <= names.len(),
    ensures
        entries_at(bytes, starts[k], depth, done).1 == starts.last(),
        is_last_under(names, values, k, name, value) ==> entry(
            entries_at(bytes, starts[k], depth, done).0,
            name,
        ) == Some(value),
        (forall|i: int| k <= i < names.len() ==> #[trigger] names[i] != name) ==> entry(
            entries_at(bytes, starts[k], depth, done).0,
            name,
        ) == entry(done, name),
    decreases names.len() - k,
{
    if k < names.len() {
        assert(name_at(bytes, starts[k]) == Some((names[k], name_ends[k])));
        assert(bare_at(bytes, after_space(bytes, name_ends[k]), depth) == Some((values[k], ends[k])));
        assert(starts[k + 1] == after_space(bytes, ends[k]));
        assert(starts[k] < after_space(bytes, name_ends[k]) < starts[k + 1] <= bytes.len());
        let next = after_space(bytes, name_ends[k]);
        assert(direct_at(bytes, next, depth) == Some((values[k], starts[k + 1])));
        let more = set_entry(done, names[k], values[k]);
        lemma_entries_from(
            bytes,
            starts,
            name_ends,
            ends,
            names,
            values,
            depth,
            k + 1,
            more,
            name,
            value,
        );
        lemma_set_then_get(done, names[k], values[k], name);
        if is_last_under(names, values, k, name, value) {
            let i = choose|i: int|
                k <= i < names.len() && #[trigger] names[i] == name && values[i] == value && forall|
                    j: int,
                |
                    i < j < names.len() ==> #[trigger] names[j] != name;
            if i > k {
                assert(is_last_under(names, values, k + 1, name, value));
            }
        }
    }
}

/// A dictionary holds under each name the value that stands behind it, the last one if the name is there
/// more than once, and nothing under any other name; and no name twice.
pub proof fn lemma_dictionaries(
    bytes: Seq<u8>,
    at: int,
    starts: Seq<int>,
    name_ends: Seq<int>,
    ends: Seq<int>,
    names: Seq<Seq<u8>>,
    values: Seq<Value>,
    depth: nat,
    name: Seq<u8>,
    value: Value,
)
    requires
        0 <= at,
        at + 2 <= bytes.len(),
        bytes[at] == 0x3c,
        bytes[at + 1] == 0x3c,
        depth > 0,
        stand_in_pairs(bytes, starts, name_ends, ends, names, values, (depth - 1) as nat),
        starts[0] == after_space(bytes, at + 2),
        at < starts[0] <= bytes.len(),
        0 <= starts.last(),
        starts.last() + 2 <= bytes.len(),
        bytes[starts.last()] == 0x3e,
        bytes[starts.last() + 1] == 0x3e,
    ensures
        bare_at(bytes, at, depth) matches Some((Value::Dictionary(entries), end)) && {
            &&& end == starts.last() + 2
            &&& distinct_keys(entries)
            &&& is_last_under(names, values, 0, name, value) ==> entry(entries, name) == Some(value)
            &&& !names.contains(name) ==> entry(entries, name) is None
        },
{
    lemma_no_keyword(bytes, at);
    lemma_entries_from(
        bytes,
        starts,
        name_ends,
        ends,
        names,
        values,
        (depth - 1) as nat,
        0,
        Seq::empty(),
        name,
        value,
    );
    lemma_parsed_keys_are_distinct(bytes, at, (depth - 1) as nat);
    assert(dictionary_at(bytes, at, (depth - 1) as nat) is Some);
}

/// In content an operand is a number or any other object, but no reference: two numbers and `R` are two
/// operands, and the operator `R`.
pub proof fn lemma_operands(bytes: Seq<u8>, at: int)
    requires
        0 <= at < bytes.len(),
    ensures
        !(operand_at(bytes, at) matches Some((Value::Reference(_), _))),
        operand_at(bytes, at) == match (real_at(bytes, at), integer_at(bytes, at)) {
            (Some((r, end)), _) => Some((Value::Real(r), end)),
            (None, Some((i, end))) => Some((Value::Integer(i), end)),
            (None, None) => bare_at(bytes, at, 256),
        },
{
    if real_at(bytes, at) is None && integer_at(bytes, at) is None {
        if reference_at(bytes, at) is Some {
            let to = after_digits(bytes, at);
            assert(object_id_at(bytes, at) is Some);
            lemma_digits_of_id(bytes, at);
        }
    }
}

proof fn lemma_digits_of_id(bytes: Seq<u8>, at: int)
    requires
        0 <= at < bytes.len(),
        object_id_at(bytes, at) is Some,
    ensures
        integer_at(bytes, at) is Some,
{
    let to = after_digits(bytes, at);
    assert(to > at);
    assert(0x30 <= bytes[at] <= 0x39);
}

/// Whether `operands` stand at `starts`, each from its start to its end, with space behind each, and at the
/// last start no operand.
pub open spec fn are_operands(
    bytes: Seq<u8>,
    starts: Seq<int>,
    ends: Seq<int>,
    operands: Seq<Value>,
) -> bool {
    &&& starts.len() == operands.len() + 1
    &&& ends.len() == operands.len()
    &&& forall|k: int|
        0 <= k < operands.len() ==> operand_at(bytes, starts[k]) == Some(
            (#[trigger] operands[k], ends[k]),
        )
    &&& forall|k: int|
        0 <= k < operands.len() ==> #[trigger] starts[k + 1] == after_space(bytes, ends[k])
    &&& forall|k: int|
        0 <= k < operands.len() ==> 0 <= starts[k] < #[trigger] starts[k + 1] <= bytes.len()
    &&& operand_at(bytes, starts.last()) is None
}

/// Whether a byte can be one of an operator: a letter, a digit, `*`, a quote or a double quote.
pub open spec fn names_an_operator(byte: u8) -> bool {
    (0x41 <= byte <= 0x5a) || (0x61 <= byte <= 0x7a) || (0x30 <= byte <= 0x39) || byte == 0x2a
        || byte == 0x27 || byte == 0x22
}

proof fn lemma_operands_from(
    bytes: Seq<u8>,
    starts: Seq<int>,
    ends: Seq<int>,
    operands: Seq<Value>,
    k: int,
)
    requires
        are_operands(bytes, starts, ends, operands),
        0 <= k <= operands.len(),
    ensures
        operands_at(bytes, starts[k], operands.take(k)) == (operands, starts.last()),
    decreases operands.len() - k,
{
    if k == operands.len() {
        assert(operands.take(k) =~= operands);
    } else {
        assert(operand_at(bytes, starts[k]) == Some((operands[k], ends[k])));
        assert(starts[k + 1] == after_space(bytes, ends[k]));
        assert(starts[k] < starts[k + 1] <= bytes.len());
        lemma_operands_from(bytes, starts, ends, operands, k + 1);
        assert(operands.take(k).push(operands[k]) =~= operands.take(k + 1));
    }
}

proof fn lemma_operator_end(bytes: Seq<u8>, from: int, to: int)
    requires
        0 <= from <= to <= bytes.len(),
        forall|p: int| from <= p < to ==> names_an_operator(#[trigger] bytes[p]),
        to < bytes.len() ==> !names_an_operator(bytes[to]),
    ensures
        operator_end(bytes, from) == to,
    decreases to - from,
{
    if from < to {
        assert(names_an_operator(bytes[from]));
        lemma_operator_end(bytes, from + 1, to);
    }
}

/// Whether `EI` stands by itself at `at`: white space before it, and white space or the end behind it.
pub open spec fn is_image_end(bytes: Seq<u8>, at: int) -> bool {
    &&& 0 < at
    &&& at + 2 <= bytes.len()
    &&& is_white(bytes[at - 1])
    &&& bytes[at] == 0x45
    &&& bytes[at + 1] == 0x49
    &&& at + 2 < bytes.len() ==> is_white(bytes[at + 2])
}

proof fn lemma_image_end(bytes: Seq<u8>, at: int, end: int)
    requires
        0 <= at < end,
        end + 2 <= bytes.len(),
        is_image_end(bytes, end),
        forall|p: int| at < p < end ==> !#[trigger] is_image_end(bytes, p),
    ensures
        image_end(bytes, at) == end + 2,
    decreases end - at,
{
    lemma_keyword_bytes();
    lemma_ends_image(bytes, at);
    if at + 1 == end {
        assert(ends_image(bytes, at));
    } else {
        assert(!is_image_end(bytes, at + 1));
        lemma_image_end(bytes, at + 1, end);
    }
}

proof fn lemma_ends_image(bytes: Seq<u8>, at: int)
    requires
        0 <= at < bytes.len(),
    ensures
        ends_image(bytes, at) <==> is_image_end(bytes, at + 1),
{
    lemma_keyword_bytes();
    if at + 3 <= bytes.len() {
        let part = bytes.subrange(at + 1, at + 3);
        assert(part[0] == bytes[at + 1] && part[1] == bytes[at + 2]);
        assert(bytes[at + 1] == 0x45 && bytes[at + 2] == 0x49 ==> part =~= seq![0x45u8, 0x49]);
    }
}

/// An operation is its operands and the operator behind them, with the space behind that; the data of an
/// inline image goes with its `ID`, up to the first `EI` that stands by itself.
pub proof fn lemma_operations(
    bytes: Seq<u8>,
    starts: Seq<int>,
    ends: Seq<int>,
    operands: Seq<Value>,
    to: int,
    end: int,
)
    requires
        are_operands(bytes, starts, ends, operands),
        0 <= starts.last() < to <= bytes.len(),
        forall|p: int| starts.last() <= p < to ==> names_an_operator(#[trigger] bytes[p]),
        to < bytes.len() ==> !names_an_operator(bytes[to]),
        bytes.subrange(starts.last(), to) == seq![0x49u8, 0x44] ==> {
            &&& to < end
            &&& is_image_end(bytes, end)
            &&& forall|p: int| to < p < end ==> !#[trigger] is_image_end(bytes, p)
        },
    ensures
        operation_at(bytes, starts[0]) == Some(
            (
                OperationModel { operator: bytes.subrange(starts.last(), to), operands },
                after_space(
                    bytes,
                    if bytes.subrange(starts.last(), to) == seq![0x49u8, 0x44] {
                        end + 2
                    } else {
                        to
                    },
                ),
            ),
        ),
{
    lemma_keyword_bytes();
    lemma_operands_from(bytes, starts, ends, operands, 0);
    assert(operands.take(0) =~= Seq::empty());
    lemma_operator_end(bytes, starts.last(), to);
    if bytes.subrange(starts.last(), to) == seq![0x49u8, 0x44] {
        lemma_image_end(bytes, to, end);
    }
}

/// Whether `operations` stand at `starts`, one behind the other, none of them longer than `max`, up to the
/// last start, where there is none.
pub open spec fn are_operations(
    bytes: Seq<u8>,
    starts: Seq<int>,
    operations: Seq<OperationModel>,
    max: usize,
) -> bool {
    &&& starts.len() == operations.len() + 1
    &&& forall|k: int|
        0 <= k < operations.len() ==> operation_at(bytes, starts[k]) == Some(
            (#[trigger] operations[k], starts[k + 1]),
        )
    &&& forall|k: int|
        0 <= k < operations.len() ==> starts[k] < #[trigger] starts[k + 1] <= bytes.len() && starts[k
            + 1] - starts[k] <= max
}

proof fn lemma_operations_from(
    bytes: Seq<u8>,
    starts: Seq<int>,
    operations: Seq<OperationModel>,
    max: usize,
    k: int,
)
    requires
        are_operations(bytes, starts, operations, max),
        0 <= k <= operations.len(),
    ensures
        operations_at(bytes, starts[k], max, operations.take(k)) == operations_at(
            bytes,
            starts.last(),
            max,
            operations,
        ),
    decreases operations.len() - k,
{
    if k == operations.len() {
        assert(operations.take(k) =~= operations);
    } else {
        assert(operation_at(bytes, starts[k]) == Some((operations[k], starts[k + 1])));
        assert(starts[k] < starts[k + 1] <= bytes.len());
        lemma_operations_from(bytes, starts, operations, max, k + 1);
        assert(operations.take(k).push(operations[k]) =~= operations.take(k + 1));
    }
}

/// Content is its operations, from the first to the last, up to where none stands or one is too long.
pub proof fn lemma_content(
    bytes: Seq<u8>,
    starts: Seq<int>,
    operations: Seq<OperationModel>,
    max: usize,
)
    requires
        are_operations(bytes, starts, operations, max),
        starts[0] == after_space(bytes, 0),
    ensures
        operations_of(bytes, max).0 == operations && operations_of(bytes, max).1 is None
            <== operation_at(bytes, starts.last()) is None,
        (operation_at(bytes, starts.last()) matches Some((_, next)) && starts.last() < next
            <= bytes.len() && next - starts.last() > max) ==> operations_of(bytes, max) == (
            operations,
            Some(operation_too_long(max)),
        ),
{
    lemma_operations_from(bytes, starts, operations, max, 0);
    assert(operations.take(0) =~= Seq::empty());
}

/// The place that a file says its cross-reference section is at is the number behind the last `startxref`.
pub proof fn lemma_last_start(bytes: Seq<u8>, at: int, to: int)
    requires
        0 <= at,
        tagged(bytes, at, key("startxref"@)),
        forall|p: int| at < p < bytes.len() ==> !#[trigger] tagged(bytes, p, key("startxref"@)),
        after_space(bytes, at + 9) < to,
        are_digits(bytes, after_space(bytes, at + 9), to),
    ensures
        if count_of(bytes, after_space(bytes, at + 9), to) <= 0x7fff_ffff {
            xref_start_of(bytes) == Some(count_of(bytes, after_space(bytes, at + 9), to) as nat)
        } else {
            xref_start_of(bytes) is None
        },
{
    lemma_file_keywords();
    lemma_unsigned(bytes, after_space(bytes, at + 9), to, 0x7fff_ffff);
    lemma_last_tag(bytes, bytes.len() as int, key("startxref"@), at);
}

/// The last place of a word is the one behind which it stands no more.
pub proof fn lemma_last_tag(bytes: Seq<u8>, before: int, tag: Seq<u8>, at: int)
    requires
        0 <= at < before <= bytes.len(),
        tagged(bytes, at, tag),
        forall|p: int| at < p < before ==> !#[trigger] tagged(bytes, p, tag),
    ensures
        last_tag(bytes, before, tag) == Some(at),
    decreases before,
{
    if before - 1 > at {
        assert(!tagged(bytes, before - 1, tag));
        lemma_last_tag(bytes, before - 1, tag, at);
    }
}

/// An entry of a cross-reference table is an offset, a generation, and `n` for an object that is in use or
/// `f` for one that is not, with white space behind each.
pub proof fn lemma_table_entry(
    bytes: Seq<u8>,
    at: int,
    offset_end: int,
    generation_end: int,
)
    requires
        at < offset_end,
        are_digits(bytes, at, offset_end),
        after_white(bytes, offset_end) < generation_end,
        are_digits(bytes, after_white(bytes, offset_end), generation_end),
        count_of(bytes, at, offset_end) <= 0xffff_ffff,
        count_of(bytes, after_white(bytes, offset_end), generation_end) <= 0xffff_ffff,
        0 <= after_white(bytes, generation_end) < bytes.len(),
    ensures
        ({
            let at_kind = after_white(bytes, generation_end);
            let offset = count_of(bytes, at, offset_end);
            let generation = count_of(bytes, after_white(bytes, offset_end), generation_end);
            if bytes[at_kind] == 0x6e || bytes[at_kind] == 0x66 {
                table_entry_at(bytes, at) == Some(
                    (
                        offset as nat,
                        generation as nat,
                        bytes[at_kind] == 0x6e,
                        after_white(bytes, at_kind + 1),
                    ),
                )
            } else {
                table_entry_at(bytes, at) is None
            }
        }),
{
    lemma_unsigned(bytes, at, offset_end, u32::MAX as nat);
    lemma_unsigned(bytes, after_white(bytes, offset_end), generation_end, u32::MAX as nat);
}

/// Whether the entries of a subsection stand at `starts`, one behind the other, with the offset, the
/// generation and the use of each.
pub open spec fn are_table_entries(
    bytes: Seq<u8>,
    starts: Seq<int>,
    entries: Seq<(nat, nat, bool)>,
) -> bool {
    &&& starts.len() == entries.len() + 1
    &&& forall|k: int|
        0 <= k < entries.len() ==> table_entry_at(bytes, starts[k]) == Some(
            ((#[trigger] entries[k]).0, entries[k].1, entries[k].2, starts[k + 1]),
        )
    &&& forall|k: int| 0 <= k < entries.len() ==> starts[k] < #[trigger] starts[k + 1] <= bytes.len()
    &&& table_entry_at(bytes, starts.last()) is None
}

/// A subsection lists its entries under the numbers from its first one on: those that are in use, with
/// their offset and generation. What was listed under other numbers before stays.
pub proof fn lemma_subsections(
    bytes: Seq<u8>,
    starts: Seq<int>,
    entries: Seq<(nat, nat, bool)>,
    first: nat,
    table: Map<u32, XrefEntry>,
    number: u32,
)
    requires
        are_table_entries(bytes, starts, entries),
        first + entries.len() <= u32::MAX,
    ensures
        ({
            let (listed, end) = table_entries_at(bytes, starts[0], first, table);
            &&& end == starts.last()
            &&& if first <= number < first + entries.len() && entries[number - first].2
                && entries[number - first].1 <= 0xffff {
                listed.contains_pair(
                    number,
                    XrefEntry::Normal {
                        offset: entries[number - first].0 as u32,
                        generation: entries[number - first].1 as u16,
                    },
                )
            } else {
                &&& listed.contains_key(number) <==> table.contains_key(number)
                &&& table.contains_key(number) ==> listed[number] == table[number]
            }
        }),
    decreases entries.len(),
{
    if entries.len() > 0 {
        let (offset, generation, used) = entries[0];
        assert(table_entry_at(bytes, starts[0]) == Some((offset, generation, used, starts[0 + 1int])));
        assert(starts[0] < starts[0 + 1int] <= bytes.len());
        let more = if used && generation <= 0xffff {
            table.insert(
                first as u32,
                XrefEntry::Normal { offset: offset as u32, generation: generation as u16 },
            )
        } else {
            table
        };
        let rest = entries.drop_first();
        let later = starts.drop_first();
        assert forall|k: int| 0 <= k < rest.len() implies table_entry_at(bytes, later[k]) == Some(
            ((#[trigger] rest[k]).0, rest[k].1, rest[k].2, later[k + 1]),
        ) by {
            assert(rest[k] == entries[k + 1]);
            assert(later[k] == starts[k + 1] && later[k + 1] == starts[k + 1 + 1]);
        }
        assert forall|k: int| 0 <= k < rest.len() implies later[k] < #[trigger] later[k + 1]
            <= bytes.len() by {
            assert(starts[k + 1] < starts[k + 1 + 1] <= bytes.len());
        }
        lemma_subsections(bytes, later, rest, first + 1, more, number);
        if number > first && number < first + entries.len() {
            assert(rest[number - (first + 1)] == entries[number - first]);
        }
    }
}

} // verus!
