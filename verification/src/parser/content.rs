//! Content streams: operations, each an operator behind its operands.

use vstd::prelude::*;
use vstd::slice::slice_subrange;

use crate::bytes::{key, spells, to_vec};
use crate::error::{DecompressError, Error};
use crate::object::{values, Object, Value};
use crate::parser::decimal::{real_at, real_number};
use crate::parser::lexical::{
    after_space, has_tag, integer, integer_at, is_white, skip_space, tagged, white,
};
use crate::parser::objects::{bare_at, bare_object, reads_object, MAX_NESTING};

verus! {

/// An operation: what it does, and what with.
pub struct Operation {
    pub operator: Vec<u8>,
    pub operands: Vec<Object>,
}

/// What an operation stands for.
pub struct OperationModel {
    pub operator: Seq<u8>,
    pub operands: Seq<Value>,
}

impl View for Operation {
    type V = OperationModel;

    open spec fn view(&self) -> OperationModel {
        OperationModel { operator: self.operator@, operands: values(self.operands@) }
    }
}

/// What each of `operations` stands for.
pub open spec fn operation_models(operations: Seq<Operation>) -> Seq<OperationModel> {
    operations.map_values(|operation: Operation| operation@)
}

/// An operand: a direct object, in which `1 0 R` is two numbers and an operator.
pub open spec fn operand_at(bytes: Seq<u8>, at: int) -> Option<(Value, int)> {
    match real_at(bytes, at) {
        Some((r, end)) => Some((Value::Real(r), end)),
        None => match integer_at(bytes, at) {
            Some((i, end)) => Some((Value::Integer(i), end)),
            None => bare_at(bytes, at, MAX_NESTING as nat),
        },
    }
}

/// Operands, as many as there are, behind those in `done`.
pub open spec fn operands_at(bytes: Seq<u8>, at: int, done: Seq<Value>) -> (Seq<Value>, int)
    decreases bytes.len() - at,
{
    match operand_at(bytes, at) {
        Some((operand, end)) => {
            let next = after_space(bytes, end);
            if at < next <= bytes.len() {
                operands_at(bytes, next, done.push(operand))
            } else {
                (done, at)
            }
        },
        None => (done, at),
    }
}

/// The bytes of operators: letters, digits, `*`, `'` and `"`.
pub open spec fn is_operator_byte(byte: u8) -> bool {
    ||| 0x41 <= byte <= 0x5a
    ||| 0x61 <= byte <= 0x7a
    ||| 0x30 <= byte <= 0x39
    ||| byte == 0x2a
    ||| byte == 0x27
    ||| byte == 0x22
}

/// Where the operator at `at` ends.
pub open spec fn operator_end(bytes: Seq<u8>, at: int) -> int
    decreases bytes.len() - at,
{
    if 0 <= at < bytes.len() && is_operator_byte(bytes[at]) {
        operator_end(bytes, at + 1)
    } else {
        at
    }
}

/// Whether white space, `EI`, and white space or the end stand at `at`.
pub open spec fn ends_image(bytes: Seq<u8>, at: int) -> bool {
    &&& is_white(bytes[at])
    &&& tagged(bytes, at + 1, key("EI"@))
    &&& at + 3 < bytes.len() ==> is_white(bytes[at + 3])
}

/// Where the data of an inline image ends: behind the first `EI` of its own, or with the content.
pub open spec fn image_end(bytes: Seq<u8>, at: int) -> int
    decreases bytes.len() - at,
{
    if at < 0 || at >= bytes.len() {
        bytes.len() as int
    } else if ends_image(bytes, at) {
        at + 3
    } else {
        image_end(bytes, at + 1)
    }
}

/// An operation, with the space behind it: operands, and an operator. The data of an inline image
/// belongs to the `ID` before it.
pub open spec fn operation_at(bytes: Seq<u8>, at: int) -> Option<(OperationModel, int)> {
    let (operands, from) = operands_at(bytes, at, Seq::empty());
    let end = operator_end(bytes, from);
    if end == from {
        None
    } else {
        let operator = bytes.subrange(from, end);
        let behind = if operator == key("ID"@) {
            image_end(bytes, end)
        } else {
            end
        };
        Some((OperationModel { operator, operands }, after_space(bytes, behind)))
    }
}

/// What is said of an operation of more than `max` bytes.
pub open spec fn operation_too_long(max: usize) -> Error {
    Error::Decompress(DecompressError::MemoryLimitExceeded { limit: max })
}

/// Operations, as many as there are, behind those in `done`, up to the first of more than `max`
/// bytes.
pub open spec fn operations_at(
    bytes: Seq<u8>,
    at: int,
    max: usize,
    done: Seq<OperationModel>,
) -> (Seq<OperationModel>, Option<Error>)
    decreases bytes.len() - at,
{
    match operation_at(bytes, at) {
        Some((operation, next)) => if !(at < next <= bytes.len()) {
            (done, None)
        } else if next - at > max {
            (done, Some(operation_too_long(max)))
        } else {
            operations_at(bytes, next, max, done.push(operation))
        },
        None => (done, None),
    }
}

/// The operations of a content stream, up to the first of more than `max` bytes.
pub open spec fn operations_of(bytes: Seq<u8>, max: usize) -> (Seq<OperationModel>, Option<Error>) {
    operations_at(bytes, after_space(bytes, 0), max, Seq::empty())
}

/// Nothing goes wrong with operations but that one is too long.
pub proof fn lemma_operation_errors(bytes: Seq<u8>, max: usize)
    ensures
        operations_of(bytes, max).1 matches Some(error) ==> error == operation_too_long(max),
{
    lemma_errors_at(bytes, after_space(bytes, 0), max, Seq::empty());
}

proof fn lemma_errors_at(bytes: Seq<u8>, at: int, max: usize, done: Seq<OperationModel>)
    ensures
        operations_at(bytes, at, max, done).1 matches Some(error) ==> error == operation_too_long(
            max,
        ),
    decreases bytes.len() - at,
{
    if let Some((operation, next)) = operation_at(bytes, at) {
        if at < next <= bytes.len() && next - at <= max {
            lemma_errors_at(bytes, next, max, done.push(operation));
        }
    }
}

fn operand(bytes: &[u8], at: usize) -> (r: Option<(Object, usize)>)
    requires
        at <= bytes@.len(),
    ensures
        reads_object(r, operand_at(bytes@, at as int), at, bytes@.len()),
{
    if let Some((r, end)) = real_number(bytes, at) {
        return Some((Object::Real(r), end));
    }
    if let Some((i, end)) = integer(bytes, at) {
        return Some((Object::Integer(i), end));
    }
    bare_object(bytes, at, MAX_NESTING)
}

fn operands(bytes: &[u8], at: usize) -> (r: (Vec<Object>, usize))
    requires
        at <= bytes@.len(),
    ensures
        operands_at(bytes@, at as int, Seq::empty()) == (values(r.0@), r.1 as int),
        at <= r.1 <= bytes@.len(),
{
    let mut operands: Vec<Object> = Vec::new();
    let mut i: usize = at;
    let ghost expected = operands_at(bytes@, at as int, Seq::empty());
    assert(values(operands@) =~= Seq::<Value>::empty());
    loop
        invariant
            at <= i <= bytes@.len(),
            expected == operands_at(bytes@, at as int, Seq::empty()),
            expected == operands_at(bytes@, i as int, values(operands@)),
        decreases bytes@.len() - i,
    {
        let ghost done = values(operands@);
        match operand(bytes, i) {
            Some((operand, end)) => {
                let ghost operand_value = operand@;
                let next = skip_space(bytes, end);
                operands.push(operand);
                assert(values(operands@) =~= done.push(operand_value));
                i = next;
            },
            None => {
                return (operands, i);
            },
        }
    }
}

fn skip_operator(bytes: &[u8], at: usize) -> (r: usize)
    requires
        at <= bytes@.len(),
    ensures
        r == operator_end(bytes@, at as int),
        at <= r <= bytes@.len(),
{
    let mut i: usize = at;
    while i < bytes.len()
        invariant
            at <= i <= bytes@.len(),
            operator_end(bytes@, at as int) == operator_end(bytes@, i as int),
        decreases bytes@.len() - i,
    {
        let byte = bytes[i];
        let part = (0x41 <= byte && byte <= 0x5a) || (0x61 <= byte && byte <= 0x7a) || (0x30 <= byte
            && byte <= 0x39) || byte == 0x2a || byte == 0x27 || byte == 0x22;
        if !part {
            return i;
        }
        i += 1;
    }
    i
}

fn skip_image(bytes: &[u8], at: usize) -> (r: usize)
    requires
        at <= bytes@.len(),
    ensures
        r == image_end(bytes@, at as int),
        at <= r <= bytes@.len(),
{
    proof {
        reveal_strlit("EI");
        vstd::utf8::is_ascii_chars_encode_utf8("EI"@);
    }
    let mut i: usize = at;
    while i < bytes.len()
        invariant
            at <= i <= bytes@.len(),
            key("EI"@).len() == 2,
            image_end(bytes@, at as int) == image_end(bytes@, i as int),
        decreases bytes@.len() - i,
    {
        if white(bytes[i]) && has_tag(bytes, i + 1, "EI".as_bytes()) {
            assert(i + 3 <= bytes@.len());
            if i + 3 == bytes.len() || white(bytes[i + 3]) {
                return i + 3;
            }
        }
        i += 1;
    }
    i
}

/// The operation at `at`, with the space behind it.
pub fn operation(bytes: &[u8], at: usize) -> (r: Option<(Operation, usize)>)
    requires
        at <= bytes@.len(),
    ensures
        match r {
            Some((operation, end)) => operation_at(bytes@, at as int) == Some(
                (operation@, end as int),
            ) && at < end <= bytes@.len(),
            None => operation_at(bytes@, at as int) is None,
        },
{
    let (operands, from) = operands(bytes, at);
    let end = skip_operator(bytes, from);
    if end == from {
        return None;
    }
    let operator = to_vec(slice_subrange(bytes, from, end));
    let behind = if spells(operator.as_slice(), "ID") {
        skip_image(bytes, end)
    } else {
        end
    };
    Some((Operation { operator, operands }, skip_space(bytes, behind)))
}

/// The operations of a content stream, up to the first of more than `max` bytes, and whether there
/// was such a one.
pub fn operations(bytes: &[u8], max: usize) -> (r: (Vec<Operation>, Option<Error>))
    ensures
        operations_of(bytes@, max) == (operation_models(r.0@), r.1),
{
    let mut operations: Vec<Operation> = Vec::new();
    let mut i: usize = skip_space(bytes, 0);
    let ghost expected = operations_of(bytes@, max);
    assert(operation_models(operations@) =~= Seq::<OperationModel>::empty());
    loop
        invariant
            i <= bytes@.len(),
            expected == operations_of(bytes@, max),
            expected == operations_at(bytes@, i as int, max, operation_models(operations@)),
        decreases bytes@.len() - i,
    {
        let ghost done = operation_models(operations@);
        match operation(bytes, i) {
            Some((operation, next)) => {
                if next - i > max {
                    return (
                        operations,
                        Some(Error::Decompress(DecompressError::MemoryLimitExceeded { limit: max })),
                    );
                }
                let ghost model = operation@;
                operations.push(operation);
                assert(operation_models(operations@) =~= done.push(model));
                i = next;
            },
            None => {
                return (operations, None);
            },
        }
    }
}

} // verus!
