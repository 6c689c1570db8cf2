//! The content streams of a page, and how content is drawn.

use vstd::prelude::*;

use crate::bytes::key;
use crate::document::{chased, DEREF_LIMIT};
use crate::error::Error;
use crate::font_encoding::{FontEncodings, TextEncoding};
use crate::laws::shown_text::is_run_ended;
use crate::object::{named_entry, Entries, ObjectId, Value};
use crate::page_content::{
    content_ids, content_rest, page_content_ids, page_limits, references_in, ContentModel,
    DecodeLimits,
};
use crate::page_text_runs::{
    content_drawn, form_drawn_by, form_read, form_scope, no_text, operation_drawn, operations_drawn,
    page_drawn, page_scope, resources_along, run_ended, text_runs, DrawModel, ReaderModel,
    ScopeModel, TextSource,
};
use crate::parser::content::{operations_of, OperationModel};

verus! {

/// Whether `ids` are what `items` refer to, one by one, leaving out what is no reference.
pub open spec fn are_references(items: Seq<Value>, parts: Seq<Seq<ObjectId>>) -> bool {
    &&& parts.len() == items.len()
    &&& forall|i: int|
        0 <= i < items.len() ==> #[trigger] parts[i] == match items[i] {
            Value::Reference(id) => seq![id],
            _ => Seq::empty(),
        }
}

/// The references among items are taken in their order.
pub proof fn lemma_references(items: Seq<Value>, parts: Seq<Seq<ObjectId>>)
    requires
        are_references(items, parts),
    ensures
        references_in(items) == parts.flatten(),
    decreases items.len(),
{
    if items.len() == 0 {
        assert(parts.flatten() =~= Seq::empty());
    } else {
        let front = parts.drop_last();
        assert forall|i: int| 0 <= i < front.len() implies #[trigger] front[i] == match items.drop_last()[i] {
            Value::Reference(id) => seq![id],
            _ => Seq::empty(),
        } by {
            assert(front[i] == parts[i]);
        }
        lemma_references(items.drop_last(), front);
        front.lemma_flatten_push(parts.last());
        assert(front.push(parts.last()) =~= parts);
        assert(parts[items.len() - 1] == parts.last());
        assert(references_in(items) =~= front.flatten() + parts.last());
    }
}

/// The content streams of a page are those that its `/Contents` refers to, in order, whether the array is
/// there or another object; or the one stream that it refers to.
pub proof fn lemma_content_streams(
    objects: Map<ObjectId, Value>,
    page: ObjectId,
    entries: Entries,
    contents: Value,
    items: Seq<Value>,
    parts: Seq<Seq<ObjectId>>,
)
    requires
        chased(objects, page, DEREF_LIMIT as nat) == Ok::<Value, Error>(Value::Dictionary(entries)),
        named_entry(entries, "Contents"@) == Some(contents),
    ensures
        are_references(items, parts) && (contents == Value::Array(items) || (contents matches
            Value::Reference(id) && objects.contains_pair(id, Value::Array(items))))
            ==> page_content_ids(objects, page) == parts.flatten(),
        (contents matches Value::Reference(id) && (!objects.contains_key(id) || objects[id] is Stream))
            ==> page_content_ids(objects, page) == seq![contents->Reference_0],
        !(contents is Reference) && !(contents is Array) ==> page_content_ids(objects, page).len() == 0,
{
    if are_references(items, parts) {
        lemma_references(items, parts);
        if let Value::Reference(id) = contents {
            if objects.contains_pair(id, Value::Array(items)) {
                assert(content_ids(objects, Value::Array(items), 127) == references_in(items));
                assert(content_ids(objects, contents, 128) == content_ids(objects, objects[id], 127));
            }
        }
    }
}

/// A page without `/Contents` has no content streams.
pub proof fn lemma_no_content_streams(objects: Map<ObjectId, Value>, page: ObjectId, entries: Entries)
    requires
        chased(objects, page, DEREF_LIMIT as nat) == Ok::<Value, Error>(Value::Dictionary(entries)),
        named_entry(entries, "Contents"@) is None,
    ensures
        page_content_ids(objects, page).len() == 0,
{
}

/// A page may decode to what its own bound and what is left of the total allow, whichever is less, and
/// that one is reported.
pub proof fn lemma_page_bounds(limits: DecodeLimits, spent: usize)
    ensures
        ({
            let page = page_limits(limits, spent);
            let left = limits.max_total_content_size - spent;
            &&& page.max_stream_size == limits.max_stream_size
            &&& left >= limits.max_page_content_size ==> page.max_content_size
                == limits.max_page_content_size && page.reported == limits.max_page_content_size
            &&& 0 <= left < limits.max_page_content_size ==> page.max_content_size == left
                && page.reported == limits.max_total_content_size
            &&& left < 0 ==> page.max_content_size == 0
        }),
{
}

/// Operations are drawn in turn: the first ones, and then the others on what these have drawn.
pub proof fn lemma_operations_in_turn<E: TextEncoding, C: FontEncodings<E>>(
    source: TextSource<C>,
    scope: ScopeModel,
    stack: Seq<ObjectId>,
    first: Seq<OperationModel>,
    others: Seq<OperationModel>,
    d: DrawModel<E>,
)
    ensures
        operations_drawn::<E, C>(source, scope, stack, first + others, 0, d) == operations_drawn::<E, C>(
            source,
            scope,
            stack,
            others,
            0,
            operations_drawn::<E, C>(source, scope, stack, first, 0, d),
        ),
{
    assert((first + others).take(first.len() as int) =~= first);
    assert((first + others).skip(first.len() as int) =~= others);
    lemma_first_operations::<E, C>(source, scope, stack, first, first + others, 0, d);
    lemma_last_operations::<E, C>(
        source,
        scope,
        stack,
        others,
        first + others,
        first.len(),
        0,
        operations_drawn::<E, C>(source, scope, stack, first, 0, d),
    );
}

proof fn lemma_first_operations<E: TextEncoding, C: FontEncodings<E>>(
    source: TextSource<C>,
    scope: ScopeModel,
    stack: Seq<ObjectId>,
    first: Seq<OperationModel>,
    all: Seq<OperationModel>,
    i: nat,
    d: DrawModel<E>,
)
    requires
        i <= first.len() <= all.len(),
        all.take(first.len() as int) == first,
    ensures
        operations_drawn::<E, C>(source, scope, stack, all, i, d) == operations_drawn::<E, C>(
            source,
            scope,
            stack,
            all,
            first.len(),
            operations_drawn::<E, C>(source, scope, stack, first, i, d),
        ),
    decreases first.len() - i,
{
    if i < first.len() {
        assert(all.take(first.len() as int)[i as int] == all[i as int]);
        let operation = first[i as int];
        let next = if source.forms && operation.operator == key("Do"@) {
            let ended = run_ended(d);
            match form_drawn_by(scope, stack, operation.operands) {
                Some(id) => DrawModel {
                    reader: form_read::<E, C>(source, scope, stack, id, d.font, ended.reader),
                    ..ended
                },
                None => ended,
            }
        } else {
            operation_drawn(scope, operation, d)
        };
        lemma_first_operations::<E, C>(source, scope, stack, first, all, i + 1, next);
        assert(operations_drawn::<E, C>(source, scope, stack, first, i, d) == operations_drawn::<E, C>(
            source,
            scope,
            stack,
            first,
            i + 1,
            next,
        ));
        assert(operations_drawn::<E, C>(source, scope, stack, all, i, d) == operations_drawn::<E, C>(
            source,
            scope,
            stack,
            all,
            i + 1,
            next,
        ));
    }
}

proof fn lemma_last_operations<E: TextEncoding, C: FontEncodings<E>>(
    source: TextSource<C>,
    scope: ScopeModel,
    stack: Seq<ObjectId>,
    others: Seq<OperationModel>,
    all: Seq<OperationModel>,
    before: nat,
    i: nat,
    d: DrawModel<E>,
)
    requires
        i <= others.len(),
        all.len() == before + others.len(),
        all.skip(before as int) == others,
    ensures
        operations_drawn::<E, C>(source, scope, stack, all, before + i, d) == operations_drawn::<E, C>(
            source,
            scope,
            stack,
            others,
            i,
            d,
        ),
    decreases others.len() - i,
{
    if i < others.len() {
        assert(all.skip(before as int)[i as int] == all[before as int + i]);
        let operation = others[i as int];
        let next = if source.forms && operation.operator == key("Do"@) {
            let ended = run_ended(d);
            match form_drawn_by(scope, stack, operation.operands) {
                Some(id) => DrawModel {
                    reader: form_read::<E, C>(source, scope, stack, id, d.font, ended.reader),
                    ..ended
                },
                None => ended,
            }
        } else {
            operation_drawn(scope, operation, d)
        };
        lemma_last_operations::<E, C>(source, scope, stack, others, all, before, i + 1, next);
        assert(operations_drawn::<E, C>(source, scope, stack, others, i, d) == operations_drawn::<E, C>(
            source,
            scope,
            stack,
            others,
            i + 1,
            next,
        ));
        assert(operations_drawn::<E, C>(source, scope, stack, all, before + i, d)
            == operations_drawn::<E, C>(source, scope, stack, all, before + i + 1, next));
    }
}

/// `Do` ends the run, and where it names a form that can be read its runs come next, read in the font that
/// is set and with what the form can name; the font stays set. A form that is being drawn, or one inside
/// eight others, adds nothing.
pub proof fn lemma_forms_are_drawn<E: TextEncoding, C: FontEncodings<E>>(
    source: TextSource<C>,
    scope: ScopeModel,
    stack: Seq<ObjectId>,
    name: Seq<u8>,
    d: DrawModel<E>,
)
    requires
        source.forms,
    ensures
        ({
            let operation = OperationModel { operator: key("Do"@), operands: seq![Value::Name(name)] };
            let ended = run_ended(d);
            let drawn = operations_drawn::<E, C>(source, scope, stack, seq![operation], 0, d);
            &&& is_run_ended(d, ended)
            &&& drawn.font == d.font
            &&& drawn.saved == d.saved
            &&& drawn.run.text.len() == 0
            &&& if scope.forms.contains_key(name) && !stack.contains(scope.forms[name]) && stack.len()
                < 8 {
                let id = scope.forms[name];
                match form_scope::<E, C>(source, id, scope, ended.reader.fonts) {
                    Some((inner, fonts)) => drawn.reader == content_drawn::<E, C>(
                        source,
                        inner,
                        stack.push(id),
                        ContentModel { streams: seq![id], current: None, len: ended.reader.spent },
                        d.font,
                        ReaderModel { fonts, ..ended.reader },
                    ).0,
                    None => drawn.reader == ended.reader,
                }
            } else {
                drawn.reader == ended.reader
            }
        }),
{
    let operation = OperationModel { operator: key("Do"@), operands: seq![Value::Name(name)] };
    let operations = seq![operation];
    assert(operations[0] == operation);
    assert(operation.operands[0] == Value::Name(name));
    let ended = run_ended(d);
    assert(ended.reader.runs.len() > d.reader.runs.len() ==> ended.reader.runs.drop_last()
        =~= d.reader.runs);
    let next = if scope.forms.contains_key(name) && !stack.contains(scope.forms[name]) && stack.len()
        < 8 {
        DrawModel {
            reader: form_read::<E, C>(source, scope, stack, scope.forms[name], d.font, ended.reader),
            ..ended
        }
    } else {
        ended
    };
    assert(operations_drawn::<E, C>(source, scope, stack, operations, 0, d) == operations_drawn::<E, C>(
        source,
        scope,
        stack,
        operations,
        1,
        next,
    ));
}

/// The text of a page is that of its content, from its first operation to its last, with no font set and
/// nothing saved at its start; its last run ends with it.
pub proof fn lemma_page_text<E: TextEncoding, C: FontEncodings<E>>(
    source: TextSource<C>,
    page: ObjectId,
    streams: Seq<ObjectId>,
    bytes: Seq<u8>,
    spent: usize,
    operations: Seq<OperationModel>,
)
    requires
        content_rest(
            source.content,
            source.limits,
            ContentModel { streams, current: None, len: 0 },
        ) == (bytes, spent, None::<Error>),
        operations_of(bytes, source.limits.max_stream_size) == (operations, None::<Error>),
    ensures
        ({
            let (scope, fonts) = page_scope::<E, C>(
                source,
                resources_along(source.objects, page, 256),
            );
            let drawn = operations_drawn::<E, C>(
                source,
                scope,
                Seq::empty(),
                operations,
                0,
                DrawModel {
                    font: None,
                    saved: Seq::empty(),
                    run: no_text(),
                    reader: ReaderModel { fonts, runs: Seq::empty(), spent },
                },
            );
            text_runs::<E, C>(source, page, streams) == Ok::<_, Error>(run_ended(drawn).reader.runs)
        }),
{
    reveal(page_drawn);
}

} // verus!
