//! A document of one page.
//!
//! Text extraction reads a page's fonts, their encodings and `/ToUnicode` CMaps, and the resources
//! inherited through the page tree. [`LazyDocument::page_text_document`] copies exactly those
//! objects, with their ids, into a document of one page, so extraction runs on it as on the whole
//! document, and a page's objects are dropped once its text is out.

use vstd::prelude::*;

use crate::bytes::{key, spells};
use crate::document::{chased, is_highest, reached, reached_entry, Document, DEREF_LIMIT};
use crate::encryption::security::ObjectDecryption;
use crate::error::{Error, Result};
use crate::font_encoding::{FontEncodings, TextEncoding};
use crate::ids::{lemma_unseen, unseen, IdSet};
use crate::lazy::document::{FileModel, LazyDocument};
use crate::lazy::source::RandomAccessSource;
use crate::lazy::stored_stream::{lazy_page_content_ids, opened};
use crate::object::{
    dictionary_in, named_entry, reference_in, value, values, Dictionary, Entries, Object, ObjectId, Value,
};
use crate::page_content::{
    content_read, content_rest, counted, lemma_chunks_end, page_limits, ContentModel, DecodeLimits,
    PageContent, PageLimits,
};
use crate::page_text_runs::{
    font_of, fonts_named, lemma_text_errors, lemma_text_without_forms, page_drawn, page_scope,
    resources_along, run_models, text_runs, text_spent, FontModel, PageTextRun, TextRunModel, TextSource,
};
use crate::parser::objects::MAX_NESTING;
use crate::resolver::{
    found, into_owned, skip_unless_io, source_failure, Model, ObjectResolver,
};
use crate::whole_content::{lemma_same_streams, lemma_streams_in_turn};
use crate::text::{append_chars, chars_of, string_of};

verus! {

/// Font entries that text extraction never reads and that can hold large streams: embedded font
/// programs, Type 3 glyph procedures, and Type 3 resources.
pub open spec fn is_skipped(name: Seq<u8>) -> bool {
    ||| name == key("FontFile"@)
    ||| name == key("FontFile2"@)
    ||| name == key("FontFile3"@)
    ||| name == key("CharProcs"@)
    ||| name == key("Resources"@)
}

/// `value`, or a stream's dictionary alone: its content refers to nothing, and can be large.
pub open spec fn without_content(value: Value) -> Value {
    match value {
        Value::Stream(entries, _) => Value::Dictionary(entries),
        _ => value,
    }
}

/// Whether `value` refers to object `id`, but for the entries that are skipped.
pub open spec fn mentions(value: Value, id: ObjectId) -> bool
    decreases value, 0int,
{
    match value {
        Value::Reference(other) => other == id,
        Value::Array(items) => items_mention(items, 0, id),
        Value::Dictionary(entries) => entries_mention(entries, 0, id),
        _ => false,
    }
}

/// Whether one of `items` from `i` on refers to object `id`.
pub open spec fn items_mention(items: Seq<Value>, i: nat, id: ObjectId) -> bool
    decreases items, items.len() - i,
{
    i < items.len() && (mentions(items[i as int], id) || items_mention(items, i + 1, id))
}

/// Whether one of `entries` from `i` on refers to object `id`, but for those that are skipped.
pub open spec fn entries_mention(entries: Entries, i: nat, id: ObjectId) -> bool
    decreases entries, entries.len() - i,
{
    i < entries.len() && ((!is_skipped(entries[i as int].0) && mentions(entries[i as int].1, id))
        || entries_mention(entries, i + 1, id))
}

/// Whether object `from` refers to object `to`.
pub open spec fn refers(model: Model, from: ObjectId, to: ObjectId) -> bool {
    match found(model, from) {
        Some(value) => mentions(without_content(value), to),
        None => false,
    }
}

/// The objects that `value` refers to, directly or through at most `n` other objects, none of them
/// in `seen`.
pub open spec fn reach(model: Model, seen: Set<ObjectId>, value: Value, n: nat) -> Set<ObjectId>
    decreases n,
{
    if n == 0 {
        Set::new(|id: ObjectId| !seen.contains(id) && mentions(value, id))
    } else {
        let nearer = reach(model, seen, value, (n - 1) as nat);
        nearer.union(
            Set::new(
                |id: ObjectId|
                    !seen.contains(id) && exists|middle: ObjectId|
                        nearer.contains(middle) && #[trigger] refers(model, middle, id),
            ),
        )
    }
}

/// Whether `value` refers to object `id`, directly or through other objects, none of them in `seen`.
pub open spec fn leads(model: Model, seen: Set<ObjectId>, value: Value, id: ObjectId) -> bool {
    exists|n: nat| #[trigger] reach(model, seen, value, n).contains(id)
}

/// The objects copied, and the ids that were tried.
pub struct CopyModel {
    pub objects: Map<ObjectId, Value>,
    pub copied: Set<ObjectId>,
}

/// `c` with the objects of `ids` that can be read.
pub open spec fn all_copied(model: Model, c: CopyModel, ids: Set<ObjectId>) -> CopyModel {
    CopyModel {
        objects: Map::new(
            |id: ObjectId| c.objects.contains_key(id) || (ids.contains(id) && found(model, id) is Some),
            |id: ObjectId|
                if ids.contains(id) {
                    found(model, id)->Some_0
                } else {
                    c.objects[id]
                },
        ),
        copied: c.copied.union(ids),
    }
}

/// `c` with every object that `value` refers to, directly or through other objects.
pub open spec fn closure_copied(model: Model, c: CopyModel, value: Value) -> CopyModel {
    all_copied(model, c, Set::new(|id: ObjectId| leads(model, c.copied, value, id)))
}

/// `c` with object `id`, and what refers onward from it, or `None` when it cannot be read.
pub open spec fn object_copied(model: Model, c: CopyModel, id: ObjectId) -> (
    CopyModel,
    Option<Value>,
) {
    let after = if c.copied.contains(id) {
        c
    } else {
        all_copied(model, c, set![id])
    };
    let onward = if after.objects.contains_key(id) {
        Some(without_content(after.objects[id]))
    } else {
        None
    };
    (after, onward)
}

/// `c` with the fonts of the `/Resources` of a page-tree node: the resources object when it is a
/// reference, and what its `/Font` entry refers to.
pub open spec fn fonts_copied(model: Model, c: CopyModel, node: Entries) -> CopyModel {
    let (after, resources) = match named_entry(node, "Resources"@) {
        Some(Value::Reference(id)) => object_copied(model, c, id),
        Some(Value::Dictionary(entries)) => (c, Some(Value::Dictionary(entries))),
        _ => (c, None),
    };
    match resources {
        Some(Value::Dictionary(entries)) => match named_entry(entries, "Font"@) {
            Some(fonts) => closure_copied(model, after, fonts),
            None => after,
        },
        _ => after,
    }
}

/// `c` with the fonts of `node` and of its ancestors, and no more than `left` of these.
pub open spec fn ancestors_copied(
    model: Model,
    c: CopyModel,
    node: Option<Value>,
    left: nat,
) -> CopyModel
    decreases left,
{
    match node {
        Some(Value::Dictionary(entries)) => {
            let after = fonts_copied(model, c, entries);
            match reference_in(named_entry(entries, "Parent"@)) {
                Some(parent) => if after.copied.contains(parent) || left == 0 {
                    after
                } else {
                    let (next, ancestor) = object_copied(model, after, parent);
                    ancestors_copied(model, next, ancestor, (left - 1) as nat)
                },
                None => after,
            }
        },
        _ => c,
    }
}

/// The objects that text extraction reads for page `page`.
#[verifier::opaque]
pub open spec fn page_objects(model: Model, page: ObjectId) -> Map<ObjectId, Value> {
    let none = CopyModel { objects: Map::empty(), copied: Set::empty() };
    let (c, node) = object_copied(model, none, page);
    ancestors_copied(model, c, node, (MAX_NESTING + 1) as nat).objects
}

/// Whether each object copied is as the document holds it.
pub open spec fn as_found(model: Model, objects: Map<ObjectId, Value>) -> bool {
    forall|id: ObjectId| #[trigger]
        objects.contains_key(id) ==> found(model, id) == Some(objects[id])
}

proof fn lemma_ancestors_as_found(model: Model, c: CopyModel, node: Option<Value>, left: nat)
    requires
        as_found(model, c.objects),
    ensures
        as_found(model, ancestors_copied(model, c, node, left).objects),
        c.objects.dom().subset_of(ancestors_copied(model, c, node, left).objects.dom()),
    decreases left,
{
    if let Some(Value::Dictionary(entries)) = node {
        let after = fonts_copied(model, c, entries);
        assert(as_found(model, after.objects));
        assert(c.objects.dom().subset_of(after.objects.dom()));
        if let Some(parent) = reference_in(named_entry(entries, "Parent"@)) {
            if !after.copied.contains(parent) && left > 0 {
                let (next, ancestor) = object_copied(model, after, parent);
                lemma_ancestors_as_found(model, next, ancestor, (left - 1) as nat);
            }
        }
    }
}

/// A document of one page holds the page, if it can be read, and each of its objects is the one that
/// the whole document holds under that id.
pub proof fn lemma_page_is_copied(model: Model, page: ObjectId)
    ensures
        as_found(model, page_objects(model, page)),
        found(model, page) is Some ==> page_objects(model, page).contains_key(page),
{
    reveal(page_objects);
    let none = CopyModel { objects: Map::empty(), copied: Set::empty() };
    let (c, node) = object_copied(model, none, page);
    lemma_ancestors_as_found(model, c, node, (MAX_NESTING + 1) as nat);
    if found(model, page) is Some {
        assert(c.objects.contains_key(page));
        assert(c.objects.dom().contains(page));
    }
}

/// After everything that a value refers to was copied, nothing that it, or an object copied with it,
/// refers to is left to be tried.
pub proof fn lemma_closure_is_closed(model: Model, c: CopyModel, value: Value, id: ObjectId)
    requires
        mentions(value, id) || exists|from: ObjectId|
            #![trigger refers(model, from, id)]
            closure_copied(model, c, value).copied.contains(from) && !c.copied.contains(from)
                && refers(model, from, id),
    ensures
        closure_copied(model, c, value).copied.contains(id),
{
    if !c.copied.contains(id) {
        if mentions(value, id) {
            assert(reach(model, c.copied, value, 0).contains(id));
        } else {
            let from = choose|from: ObjectId|
                #![trigger refers(model, from, id)]
                closure_copied(model, c, value).copied.contains(from) && !c.copied.contains(from)
                    && refers(model, from, id);
            let n = choose|n: nat| #[trigger] reach(model, c.copied, value, n).contains(from);
            assert(reach(model, c.copied, value, n + 1).contains(id));
        }
    }
}

proof fn lemma_pushed(ids: Seq<ObjectId>, id: ObjectId, other: ObjectId)
    ensures
        ids.push(id).contains(other) <==> ids.contains(other) || other == id,
{
    if ids.contains(other) {
        let k = choose|k: int| 0 <= k < ids.len() && ids[k] == other;
        assert(ids.push(id)[k] == other);
    }
    if ids.push(id).contains(other) {
        let k = choose|k: int| 0 <= k < ids.push(id).len() && ids.push(id)[k] == other;
        assert(k < ids.len() ==> ids[k] == other);
    }
    assert(ids.push(id)[ids.len() as int] == id);
}

/// Adds the ids that `object` refers to, but for the entries that are skipped.
fn collect(object: &Object, ids: &mut Vec<ObjectId>)
    ensures
        forall|id: ObjectId| #[trigger]
            final(ids)@.contains(id) <==> old(ids)@.contains(id) || mentions(object@, id),
    decreases object,
{
    let ghost before = ids@;
    match object {
        Object::Reference(id) => {
            ids.push(*id);
            assert forall|other: ObjectId| #[trigger] ids@.contains(other) <==> before.contains(
                other,
            ) || mentions(object@, other) by {
                lemma_pushed(before, *id, other);
            }
        },
        Object::Array(items) => {
            let ghost all = values(items@);
            let mut i: usize = 0;
            while i < items.len()
                invariant
                    i <= items@.len(),
                    before == old(ids)@,
                    all == values(items@),
                    *object == Object::Array(*items),
                    object@ == Value::Array(all),
                    forall|id: ObjectId|
                        #![trigger items_mention(all, 0, id)]
                        #![trigger ids@.contains(id)]
                        ids@.contains(id) || items_mention(all, i as nat, id) <==> before.contains(
                            id,
                        ) || items_mention(all, 0, id),
                decreases items@.len() - i,
            {
                assert(all[i as int] == value(items@[i as int]));
                collect(&items[i], ids);
                i += 1;
            }
        },
        Object::Dictionary(dictionary) => {
            let ghost all = dictionary@;
            let mut i: usize = 0;
            while i < dictionary.entries.len()
                invariant
                    i <= dictionary.entries@.len(),
                    before == old(ids)@,
                    all == dictionary@,
                    *object == Object::Dictionary(*dictionary),
                    object@ == Value::Dictionary(all),
                    forall|id: ObjectId|
                        #![trigger entries_mention(all, 0, id)]
                        #![trigger ids@.contains(id)]
                        ids@.contains(id) || entries_mention(all, i as nat, id)
                            <==> before.contains(id) || entries_mention(all, 0, id),
                decreases dictionary.entries@.len() - i,
            {
                let entry = &dictionary.entries[i];
                assert(all[i as int] == (entry.0@, entry.1@));
                if !skipped(entry.0.as_slice()) {
                    collect(&entry.1, ids);
                }
                i += 1;
            }
        },
        _ => {},
    }
}

fn skipped(name: &[u8]) -> (r: bool)
    ensures
        r == is_skipped(name@),
{
    spells(name, "FontFile") || spells(name, "FontFile2") || spells(name, "FontFile3") || spells(
        name,
        "CharProcs",
    ) || spells(name, "Resources")
}

/// What refers onward from `object`: a stream without its content.
fn onward(object: &Object) -> (r: Object)
    ensures
        r@ == without_content(object@),
{
    match object {
        Object::Stream(stream) => Object::Dictionary(stream.dict.clone()),
        _ => object.clone(),
    }
}

/// Copies objects from `source` into `document`.
struct Copier<'a, R: ObjectResolver> {
    source: &'a R,
    document: Document,
    copied: IdSet,
}

impl<R: ObjectResolver> View for Copier<'_, R> {
    type V = CopyModel;

    closed spec fn view(&self) -> CopyModel {
        CopyModel { objects: self.document.stored(), copied: self.copied@ }
    }
}

impl<'a, R: ObjectResolver> Copier<'a, R> {
    /// Only ids that were tried have objects, and nothing but objects was added to the document.
    spec fn continues(&self, before: &Self) -> bool {
        &&& self.source == before.source
        &&& self.document.version == before.document.version
        &&& self.document.trailer == before.document.trailer
        &&& self@.objects.dom().subset_of(self@.copied)
        &&& is_highest(self@.objects, self.document.max_id)
    }

    /// Copies object `id` alone, and returns what refers onward from it: the object, without the
    /// content if it is a stream. `None` when it cannot be read.
    fn copy_object(&mut self, id: ObjectId) -> (r: Result<Option<Object>>)
        requires
            old(self).continues(old(self)),
        ensures
            final(self).continues(old(self)),
            match r {
                Ok(onward) => (final(self)@, match onward {
                    Some(object) => Some(object@),
                    None => None,
                }) == object_copied(old(self).source.model(), old(self)@, id),
                Err(error) => source_failure(error, old(self).source.can_fail()),
            },
    {
        let ghost model = self.source.model();
        let ghost before = self@;
        if !self.copied.insert(id) {
            assert(self@.copied =~= before.copied);
            return match self.document.objects.get(id) {
                Some(object) => {
                    assert(self@.objects[id] == object@);
                    Ok(Some(onward(object)))
                },
                None => Ok(None),
            };
        }
        let object = match skip_unless_io(self.source.object(id)) {
            Ok(Some(object)) => into_owned(object),
            Ok(None) => {
                assert(self@.copied =~= before.copied.union(set![id]));
                assert(self@.objects =~= all_copied(model, before, set![id]).objects);
                return Ok(None);
            },
            Err(error) => {
                return Err(error);
            },
        };
        let rest = onward(&object);
        let ghost copy = object@;
        let ghost most = self.document.max_id;
        self.document.set_object(id, object);
        proof {
            if id.0 > most {
                assert(self@.objects.contains_key((self.document.max_id, id.1)));
            } else if most > 0 {
                let generation = choose|generation: u16| #[trigger]
                    before.objects.contains_key((most, generation));
                assert(self@.objects.contains_key((most, generation)));
            }
        }
        assert(self@.copied =~= before.copied.union(set![id]));
        assert(self@.objects =~= all_copied(model, before, set![id]).objects);
        Ok(Some(rest))
    }

    /// Copies every object that `object` refers to, directly or through other objects, except
    /// through the entries that are skipped.
    fn copy_closure(&mut self, object: &Object) -> (r: Result<()>)
        requires
            old(self).continues(old(self)),
        ensures
            final(self).continues(old(self)),
            match r {
                Ok(_) => final(self)@ == closure_copied(
                    old(self).source.model(),
                    old(self)@,
                    object@,
                ),
                Err(error) => source_failure(error, old(self).source.can_fail()),
            },
    {
        let ghost model = self.source.model();
        let ghost start = self@;
        let ghost from = object@;
        let mut pending: Vec<ObjectId> = Vec::new();
        collect(object, &mut pending);
        assert forall|id: ObjectId| #[trigger] pending@.contains(id) implies start.copied.contains(
            id,
        ) || leads(model, start.copied, from, id) by {
            if !start.copied.contains(id) {
                assert(reach(model, start.copied, from, 0).contains(id));
            }
        }
        assert(self@.objects =~= all_copied(
            model,
            start,
            self@.copied.difference(start.copied),
        ).objects);
        while pending.len() > 0
            invariant
                self.continues(old(self)),
                model == self.source.model(),
                old(self).source == self.source,
                start == old(self)@,
                from == object@,
                start.copied.subset_of(self@.copied),
                forall|id: ObjectId| #[trigger]
                    self@.copied.contains(id) && !start.copied.contains(id) ==> leads(
                        model,
                        start.copied,
                        from,
                        id,
                    ),
                forall|id: ObjectId| #[trigger]
                    pending@.contains(id) ==> start.copied.contains(id) || leads(
                        model,
                        start.copied,
                        from,
                        id,
                    ),
                forall|id: ObjectId|
                    #![trigger mentions(from, id)]
                    mentions(from, id) ==> self@.copied.contains(id) || pending@.contains(id),
                forall|a: ObjectId, b: ObjectId|
                    #![trigger refers(model, a, b)]
                    self@.copied.contains(a) && !start.copied.contains(a) && refers(model, a, b)
                        ==> self@.copied.contains(b) || pending@.contains(b),
                self@.objects == all_copied(
                    model,
                    start,
                    self@.copied.difference(start.copied),
                ).objects,
            decreases unseen(self@.copied), pending@.len(),
        {
            let ghost before = self@;
            let ghost waiting = pending@;
            let id = match pending.pop() {
                Some(id) => id,
                None => {
                    return Ok(());
                },
            };
            assert(waiting == pending@.push(id));
            assert forall|other: ObjectId| #[trigger] waiting.contains(other) <==> pending@.contains(
                other,
            ) || other == id by {
                lemma_pushed(pending@, id, other);
            }
            assert forall|other: ObjectId| #[trigger] pending@.contains(other) implies
                waiting.contains(other) by {
                lemma_pushed(pending@, id, other);
            }
            assert(waiting.contains(id));
            if self.copied.contains(id) {
                continue ;
            }
            let ghost rest = pending@;
            let onward = match self.copy_object(id) {
                Ok(onward) => onward,
                Err(error) => {
                    return Err(error);
                },
            };
            if let Some(object) = &onward {
                collect(object, &mut pending);
            }
            proof {
                lemma_unseen(before.copied, id);
                assert(self@.copied =~= before.copied.insert(id));
                assert(leads(model, start.copied, from, id));
                let n = choose|n: nat| #[trigger] reach(model, start.copied, from, n).contains(id);
                assert forall|other: ObjectId| #[trigger] pending@.contains(other) implies
                    rest.contains(other) || refers(model, id, other) by {
                }
                assert forall|other: ObjectId| #[trigger] pending@.contains(other) implies
                    start.copied.contains(other) || leads(model, start.copied, from, other) by {
                    if rest.contains(other) {
                        assert(waiting.contains(other));
                    } else if !start.copied.contains(other) {
                        assert(refers(model, id, other));
                        assert(reach(model, start.copied, from, n + 1).contains(other));
                    }
                }
                assert forall|other: ObjectId|
                    #![trigger mentions(from, other)]
                    mentions(from, other) implies self@.copied.contains(other) || pending@.contains(
                    other,
                ) by {
                    assert(before.copied.contains(other) || waiting.contains(other));
                    if rest.contains(other) {
                        assert(pending@.contains(other));
                    }
                }
                assert forall|a: ObjectId, b: ObjectId|
                    #![trigger refers(model, a, b)]
                    self@.copied.contains(a) && !start.copied.contains(a) && refers(
                        model,
                        a,
                        b,
                    ) implies self@.copied.contains(b) || pending@.contains(b) by {
                    if a == id {
                        assert(pending@.contains(b));
                    } else {
                        assert(before.copied.contains(b) || waiting.contains(b));
                        if rest.contains(b) {
                            assert(pending@.contains(b));
                        }
                    }
                }
                assert(self@.objects =~= all_copied(
                    model,
                    start,
                    self@.copied.difference(start.copied),
                ).objects);
            }
        }
        proof {
            assert(pending@.len() == 0);
            let ids = Set::new(|id: ObjectId| leads(model, start.copied, from, id));
            assert forall|id: ObjectId| ids.contains(id) implies self@.copied.contains(id) by {
                let n = choose|n: nat| #[trigger] reach(model, start.copied, from, n).contains(id);
                lemma_all_reached(model, start.copied, from, self@.copied, n);
            }
            assert forall|id: ObjectId| ids.contains(id) implies !start.copied.contains(id) by {
                let n = choose|n: nat| #[trigger] reach(model, start.copied, from, n).contains(id);
                lemma_reach_is_unseen(model, start.copied, from, n);
            }
            assert(self@.copied.difference(start.copied) =~= ids);
            assert(self@.copied =~= start.copied.union(ids));
        }
        Ok(())
    }

    /// Copies the fonts of the `/Resources` of a page-tree node: the resources object when it is a
    /// reference, and what its `/Font` entry refers to.
    fn copy_fonts(&mut self, node: &Dictionary) -> (r: Result<()>)
        requires
            old(self).continues(old(self)),
        ensures
            final(self).continues(old(self)),
            match r {
                Ok(_) => final(self)@ == fonts_copied(old(self).source.model(), old(self)@, node@),
                Err(error) => source_failure(error, old(self).source.can_fail()),
            },
    {
        let resources = match node.named("Resources") {
            Some(Object::Reference(id)) => match self.copy_object(*id) {
                Ok(resources) => resources,
                Err(error) => {
                    return Err(error);
                },
            },
            Some(Object::Dictionary(resources)) => Some(Object::Dictionary(resources.clone())),
            _ => None,
        };
        if let Some(Object::Dictionary(resources)) = &resources {
            if let Some(fonts) = resources.named("Font") {
                return self.copy_closure(fonts);
            }
        }
        Ok(())
    }
}

proof fn lemma_reach_is_unseen(model: Model, seen: Set<ObjectId>, value: Value, n: nat)
    ensures
        reach(model, seen, value, n).disjoint(seen),
    decreases n,
{
    if n > 0 {
        lemma_reach_is_unseen(model, seen, value, (n - 1) as nat);
    }
}

/// What is closed under reference, and holds all that `value` refers to, holds all that it leads to.
proof fn lemma_all_reached(
    model: Model,
    seen: Set<ObjectId>,
    value: Value,
    reached: Set<ObjectId>,
    n: nat,
)
    requires
        forall|id: ObjectId| #![trigger mentions(value, id)] mentions(value, id) ==> reached.contains(id),
        forall|a: ObjectId, b: ObjectId|
            #![trigger refers(model, a, b)]
            reached.contains(a) && !seen.contains(a) && refers(model, a, b) ==> reached.contains(b),
    ensures
        reach(model, seen, value, n).subset_of(reached),
    decreases n,
{
    if n > 0 {
        lemma_all_reached(model, seen, value, reached, (n - 1) as nat);
        lemma_reach_is_unseen(model, seen, value, (n - 1) as nat);
        let nearer = reach(model, seen, value, (n - 1) as nat);
        assert forall|id: ObjectId| reach(model, seen, value, n).contains(
            id,
        ) implies reached.contains(id) by {
            if !nearer.contains(id) {
                let middle = choose|middle: ObjectId|
                    nearer.contains(middle) && #[trigger] refers(model, middle, id);
                assert(reached.contains(middle));
            }
        }
    }
}

/// The streams of a file, with their content.
#[verifier::opaque]
pub open spec fn file_streams(file: FileModel) -> Map<ObjectId, Value> {
    Map::new(|id: ObjectId| opened(file, id) is Some, |id: ObjectId| opened(file, id)->Some_0)
}

/// The text of `runs`, one behind the other.
pub open spec fn joined(runs: Seq<TextRunModel>) -> Seq<char>
    decreases runs.len(),
{
    if runs.len() == 0 {
        Seq::empty()
    } else {
        joined(runs.drop_last()) + runs.last().text
    }
}

/// The text of page `page`, with the content of `streams`, or why it cannot be read.
pub open spec fn page_text<E: TextEncoding, C: FontEncodings<E>>(
    source: TextSource<C>,
    page: ObjectId,
    streams: Seq<ObjectId>,
) -> std::result::Result<Seq<char>, Error> {
    match text_runs::<E, C>(source, page, streams) {
        Ok(runs) => Ok(joined(runs)),
        Err(error) => Err(error),
    }
}

/// The content of `streams`, how much it decodes to, and what goes wrong with it.
#[verifier::opaque]
pub open spec fn content_of(
    objects: Map<ObjectId, Value>,
    limits: PageLimits,
    streams: Seq<ObjectId>,
) -> (Seq<u8>, usize, Option<Error>) {
    content_rest(objects, limits, ContentModel { streams, current: None, len: 0 })
}

/// How many bytes pages decoded to together, as far as a `usize` counts.
pub open spec fn total_spent(lens: Seq<usize>) -> usize
    decreases lens.len(),
{
    if lens.len() == 0 {
        0
    } else {
        counted(total_spent(lens.drop_last()), lens.last() as int)
    }
}

/// The first `count` of `ids`.
fn first_ids(ids: &Vec<ObjectId>, count: usize) -> (r: Vec<ObjectId>)
    requires
        count <= ids@.len(),
    ensures
        r@ == ids@.take(count as int),
{
    let mut first: Vec<ObjectId> = Vec::new();
    while first.len() < count
        invariant
            first@.len() <= count <= ids@.len(),
            first@ == ids@.take(first@.len() as int),
        decreases count - first@.len(),
    {
        first.push(ids[first.len()]);
        assert(first@ =~= ids@.take(first@.len() as int));
    }
    first
}

/// The text of page `page_id` without forms, with the content of `streams`, which `content` holds, and
/// how much was decoded for it.
fn text_of<E: TextEncoding, C: FontEncodings<E>>(
    document: &Document,
    page_id: ObjectId,
    content: &Document,
    streams: Vec<ObjectId>,
    limits: PageLimits,
    encodings: &C,
) -> (r: (Result<String>, usize))
    ensures
        ({
            let source = TextSource {
                objects: document.stored(),
                content: content.stored(),
                forms: false,
                limits,
                encodings: *encodings,
            };
            let expected = page_text::<E, C>(source, page_id, streams@);
            &&& match r.0 {
                Ok(text) => expected == Ok::<Seq<char>, Error>(text@),
                Err(error) => expected == Err::<Seq<char>, Error>(error),
            }
            &&& r.1 == text_spent::<E, C>(source, page_id, streams@)
        }),
{
    let (runs, len) = document.page_text_within(
        page_id,
        content,
        streams,
        false,
        limits,
        encodings,
    );
    match runs {
        Ok(runs) => (Ok(join(&runs)), len),
        Err(error) => (Err(error), len),
    }
}

/// How much the content of `streams` decodes to, or `None` when that is too much.
fn content_len(content: &Document, streams: Vec<ObjectId>, limits: PageLimits) -> (r: Option<usize>)
    ensures
        ({
            let (_, len, failure) = content_of(content.stored(), limits, streams@);
            r == if failure is None {
                Some(len)
            } else {
                None
            }
        }),
{
    proof {
        reveal(content_of);
    }
    let mut bytes: Vec<u8> = Vec::new();
    let mut front = PageContent::of_streams(content, streams, limits, 0);
    if front.read_rest(&mut bytes).is_none() {
        Some(front.len())
    } else {
        None
    }
}

/// The streams that were opened are those of the file.
proof fn lemma_opened_content(
    file: FileModel,
    stored: Map<ObjectId, Value>,
    streams: Seq<ObjectId>,
    limits: PageLimits,
)
    requires
        forall|id: ObjectId| #[trigger]
            stored.contains_key(id) <==> streams.contains(id) && opened(file, id) is Some,
        forall|id: ObjectId| #[trigger]
            stored.contains_key(id) ==> opened(file, id) == Some(stored[id]),
    ensures
        content_of(stored, limits, streams) == content_of(file_streams(file), limits, streams),
{
    reveal(content_of);
    reveal(file_streams);
    let all = file_streams(file);
    let at = ContentModel { streams, current: None, len: 0 };
    assert forall|i: int| 0 <= i < at.streams.len() implies chased(
        stored,
        #[trigger] at.streams[i],
        DEREF_LIMIT as nat,
    ) == chased(all, at.streams[i], DEREF_LIMIT as nat) || !(chased(
        stored,
        at.streams[i],
        DEREF_LIMIT as nat,
    ) is Ok) && !(chased(all, at.streams[i], DEREF_LIMIT as nat) is Ok) by {
        let id = at.streams[i];
        assert(streams.contains(id));
        assert(stored.contains_key(id) <==> all.contains_key(id));
        if stored.contains_key(id) {
            assert(stored[id] == all[id]);
        }
    }
    lemma_same_streams(stored, all, limits, at);
}

/// The text of a page read from the streams in front is that of all its streams, if there are no
/// others or those in front are already too much.
proof fn lemma_text_of_opened_content<E: TextEncoding, C: FontEncodings<E>>(
    stored: TextSource<C>,
    source: TextSource<C>,
    page: ObjectId,
    streams: Seq<ObjectId>,
    more: Seq<ObjectId>,
)
    requires
        stored == (TextSource { content: stored.content, ..source }),
        !source.forms,
        ({
            let front = content_of(source.content, source.limits, streams);
            &&& content_of(stored.content, source.limits, streams) == front
            &&& more.len() == 0 || front.2 is Some
        }),
    ensures
        text_runs::<E, C>(stored, page, streams) == text_runs::<E, C>(
            source,
            page,
            streams + more,
        ),
        text_spent::<E, C>(stored, page, streams) == text_spent::<E, C>(
            source,
            page,
            streams + more,
        ),
{
    reveal(page_drawn);
    reveal(content_of);
    let at = ContentModel { streams, current: None, len: 0 };
    lemma_scope_of_same_objects::<E, C>(
        stored,
        source,
        resources_along(source.objects, page, MAX_NESTING as nat),
    );
    lemma_text_without_forms::<E, C>(stored, source, page, streams);
    if more.len() == 0 {
        assert(streams + more =~= streams);
    } else {
        lemma_streams_in_turn(source.content, source.limits, at, more);
    }
}

/// What content can name does not depend on where the content is.
proof fn lemma_scope_of_same_objects<E: TextEncoding, C: FontEncodings<E>>(
    a: TextSource<C>,
    b: TextSource<C>,
    resources: Seq<Entries>,
)
    requires
        a == (TextSource { content: a.content, ..b }),
    ensures
        page_scope::<E, C>(a, resources) == page_scope::<E, C>(b, resources),
    decreases resources.len(),
{
    if resources.len() > 0 {
        lemma_scope_of_same_objects::<E, C>(a, b, resources.drop_first());
        if let Some(entries) = dictionary_in(reached_entry(a.objects, resources[0], "Font"@)) {
            let (scope, met) = page_scope::<E, C>(b, resources.drop_first());
            lemma_fonts_of_same_objects::<E, C>(a, b, entries, 0, scope.fonts, met);
        }
    }
}

proof fn lemma_fonts_of_same_objects<E: TextEncoding, C: FontEncodings<E>>(
    a: TextSource<C>,
    b: TextSource<C>,
    entries: Entries,
    i: nat,
    fonts: Map<Seq<u8>, Option<usize>>,
    met: Seq<FontModel<E>>,
)
    requires
        a == (TextSource { content: a.content, ..b }),
    ensures
        fonts_named::<E, C>(a, entries, i, fonts, met) == fonts_named::<E, C>(
            b,
            entries,
            i,
            fonts,
            met,
        ),
    decreases entries.len() - i,
{
    if i < entries.len() {
        let (name, value) = entries[i as int];
        match dictionary_in(reached(a.objects, value)) {
            Some(font) => match font_of::<E, C>(a, font) {
                Some(font) => {
                    lemma_fonts_of_same_objects::<E, C>(
                        a,
                        b,
                        entries,
                        i + 1,
                        fonts.insert(name, Some(met.len() as usize)),
                        met.push(font),
                    );
                },
                None => {
                    lemma_fonts_of_same_objects::<E, C>(
                        a,
                        b,
                        entries,
                        i + 1,
                        fonts.insert(name, None),
                        met,
                    );
                },
            },
            None => {
                lemma_fonts_of_same_objects::<E, C>(a, b, entries, i + 1, fonts, met);
            },
        }
    }
}

/// The text of `runs`, one behind the other.
fn join(runs: &Vec<PageTextRun>) -> (r: String)
    ensures
        r@ == joined(run_models(runs@)),
{
    let ghost models = run_models(runs@);
    let mut text: Vec<char> = Vec::new();
    let mut i: usize = 0;
    assert(text@ =~= joined(models.take(0)));
    while i < runs.len()
        invariant
            i <= runs@.len(),
            models == run_models(runs@),
            text@ == joined(models.take(i as int)),
        decreases runs@.len() - i,
    {
        assert(models.take(i + 1).drop_last() =~= models.take(i as int));
        assert(models.take(i + 1).last() == runs@[i as int]@);
        let chars = chars_of(runs[i].text.as_str());
        append_chars(&mut text, &chars);
        i += 1;
    }
    assert(models.take(i as int) =~= models);
    string_of(&text)
}

impl<S: RandomAccessSource, K: ObjectDecryption> LazyDocument<S, K> {
    /// What the text of page `page` is read from, once the pages before it decoded to `spent`
    /// bytes.
    #[verifier::opaque]
    pub open spec fn text_source<C>(
        &self,
        limits: DecodeLimits,
        encodings: C,
        page: ObjectId,
        spent: usize,
    ) -> TextSource<C> {
        TextSource {
            objects: page_objects(self.model(), page),
            content: file_streams(self.file()),
            forms: false,
            limits: page_limits(limits, spent),
            encodings,
        }
    }

    /// Whether `text` is the text of page `page`, once the pages before it decoded to `spent`
    /// bytes, or an error that is a failure of the source or says why it cannot be read.
    pub open spec fn reads_text<E: TextEncoding, C: FontEncodings<E>>(
        &self,
        limits: DecodeLimits,
        encodings: C,
        page: ObjectId,
        spent: usize,
        text: Result<String>,
    ) -> bool {
        let expected = page_text::<E, C>(
            self.text_source(limits, encodings, page, spent),
            page,
            lazy_page_content_ids(self.file(), page),
        );
        match text {
            Ok(text) => expected == Ok::<Seq<char>, Error>(text@),
            Err(error) => source_failure(error, self.source_can_fail()) || expected == Err::<
                Seq<char>,
                Error,
            >(error),
        }
    }

    /// The content of the first `count` content streams of page `page`, once the pages before it
    /// decoded to `spent` bytes, how much it decodes to, and what goes wrong with it.
    pub open spec fn content_in_front(
        &self,
        limits: DecodeLimits,
        page: ObjectId,
        spent: usize,
        count: nat,
    ) -> (Seq<u8>, usize, Option<Error>) {
        content_of(
            file_streams(self.file()),
            page_limits(limits, spent),
            lazy_page_content_ids(self.file(), page).take(count as int),
        )
    }

    /// Whether the source can fail to give page `page` behind content streams that decode to `len`
    /// bytes, which is within the limits.
    #[verifier::opaque]
    pub open spec fn can_stop_behind(
        &self,
        limits: DecodeLimits,
        page: ObjectId,
        spent: usize,
        len: usize,
    ) -> bool {
        exists|count: nat|
            count <= lazy_page_content_ids(self.file(), page).len()
                && #[trigger] self.content_in_front(limits, page, spent, count).1 == len
                && self.content_in_front(limits, page, spent, count).2 is None
    }

    /// Whether page `page`, of which `text` was read once the pages before it decoded to `spent`
    /// bytes, decoded to `len` more. A page that the source fails to give decoded to its content
    /// streams before the failure, which were within the limits.
    pub open spec fn decodes<E: TextEncoding, C: FontEncodings<E>>(
        &self,
        limits: DecodeLimits,
        encodings: C,
        page: ObjectId,
        spent: usize,
        text: Result<String>,
        len: usize,
    ) -> bool {
        if text matches Err(error) && source_failure(error, self.source_can_fail()) {
            self.can_stop_behind(limits, page, spent, len)
        } else {
            len == text_spent::<E, C>(
                self.text_source(limits, encodings, page, spent),
                page,
                lazy_page_content_ids(self.file(), page),
            )
        }
    }

    /// The text of page `page_id`, in the fonts whose encodings `encodings` gives. The text inside
    /// forms that the page draws is not part of it.
    pub fn extract_page_text_with_limits<E: TextEncoding, C: FontEncodings<E>>(
        &self,
        page_id: ObjectId,
        limits: DecodeLimits,
        encodings: &C,
    ) -> (r: Result<String>)
        ensures
            self.reads_text::<E, C>(limits, *encodings, page_id, 0, r),
    {
        self.extract_after(page_id, limits, 0, encodings).0
    }

    /// The source can fail before any content stream.
    proof fn lemma_nothing_in_front(&self, limits: DecodeLimits, page: ObjectId, spent: usize)
        ensures
            self.can_stop_behind(limits, page, spent, 0),
    {
        reveal(LazyDocument::can_stop_behind);
        reveal(content_of);
        let objects = file_streams(self.file());
        let at = ContentModel {
            streams: lazy_page_content_ids(self.file(), page).take(0),
            current: None,
            len: 0,
        };
        lemma_chunks_end(objects, page_limits(limits, spent), at);
        assert(content_read(objects, page_limits(limits, spent), at) == (
            at,
            Seq::<u8>::empty(),
            Ok::<bool, Error>(false),
        ));
        assert(self.content_in_front(limits, page, spent, 0).1 == 0);
    }

    /// The source can fail behind its first `count` content streams.
    proof fn lemma_stops_behind(
        &self,
        limits: DecodeLimits,
        page: ObjectId,
        spent: usize,
        count: nat,
    )
        requires
            count <= lazy_page_content_ids(self.file(), page).len(),
            self.content_in_front(limits, page, spent, count).2 is None,
        ensures
            self.can_stop_behind(
                limits,
                page,
                spent,
                self.content_in_front(limits, page, spent, count).1,
            ),
    {
        reveal(LazyDocument::can_stop_behind);
    }

    /// The text of page `page_id`, once the pages before it decoded to `spent` bytes, and how many
    /// it decoded to.
    fn extract_after<E: TextEncoding, C: FontEncodings<E>>(
        &self,
        page_id: ObjectId,
        limits: DecodeLimits,
        spent: usize,
        encodings: &C,
    ) -> (r: (Result<String>, usize))
        ensures
            self.reads_text::<E, C>(limits, *encodings, page_id, spent, r.0),
            self.decodes::<E, C>(limits, *encodings, page_id, spent, r.0, r.1),
    {
        proof {
            self.lemma_nothing_in_front(limits, page_id, spent);
        }
        let document = match self.page_text_document(page_id) {
            Ok(document) => document,
            Err(error) => {
                return (Err(error), 0);
            },
        };
        let ids = match self.page_content_ids(page_id) {
            Ok(ids) => ids,
            Err(error) => {
                return (Err(error), 0);
            },
        };
        proof {
            reveal(LazyDocument::text_source);
        }
        self.extract_content(&document, page_id, &ids, limits, spent, encodings)
    }

    /// The text that is expected of a page is what is read of it.
    proof fn lemma_extracted<E: TextEncoding, C: FontEncodings<E>>(
        &self,
        limits: DecodeLimits,
        encodings: C,
        page: ObjectId,
        spent: usize,
        text: Result<String>,
        len: usize,
    )
        requires
            ({
                let source = self.text_source(limits, encodings, page, spent);
                let all = lazy_page_content_ids(self.file(), page);
                let expected = page_text::<E, C>(source, page, all);
                &&& match text {
                    Ok(text) => expected == Ok::<Seq<char>, Error>(text@),
                    Err(error) => expected == Err::<Seq<char>, Error>(error),
                }
                &&& len == text_spent::<E, C>(source, page, all)
            }),
        ensures
            self.reads_text::<E, C>(limits, encodings, page, spent, text),
            self.decodes::<E, C>(limits, encodings, page, spent, text, len),
    {
        let source = self.text_source(limits, encodings, page, spent);
        lemma_text_errors::<E, C>(source, page, lazy_page_content_ids(self.file(), page));
    }

    /// What the text of a page is read from, but for its fonts.
    proof fn lemma_text_source<C>(
        &self,
        limits: DecodeLimits,
        encodings: C,
        page: ObjectId,
        spent: usize,
    )
        ensures
            ({
                let source = self.text_source(limits, encodings, page, spent);
                &&& source.content == file_streams(self.file())
                &&& !source.forms
                &&& source.limits == page_limits(limits, spent)
                &&& source.encodings == encodings
            }),
    {
        reveal(LazyDocument::text_source);
    }

    /// Text read of the copy of a page from its first `count` content streams is the text of the
    /// page, if those are all of them or already too much.
    proof fn lemma_front_suffices<E: TextEncoding, C: FontEncodings<E>>(
        &self,
        limits: DecodeLimits,
        encodings: C,
        page: ObjectId,
        spent: usize,
        stored: TextSource<C>,
        count: int,
    )
        requires
            stored == (TextSource {
                content: stored.content,
                ..self.text_source(limits, encodings, page, spent)
            }),
            0 <= count <= lazy_page_content_ids(self.file(), page).len(),
            ({
                let all = lazy_page_content_ids(self.file(), page);
                let front = content_of(
                    file_streams(self.file()),
                    stored.limits,
                    all.take(count),
                );
                &&& content_of(stored.content, stored.limits, all.take(count)) == front
                &&& count == all.len() || front.2 is Some
            }),
        ensures
            ({
                let source = self.text_source(limits, encodings, page, spent);
                let all = lazy_page_content_ids(self.file(), page);
                &&& page_text::<E, C>(stored, page, all.take(count)) == page_text::<E, C>(
                    source,
                    page,
                    all,
                )
                &&& text_spent::<E, C>(stored, page, all.take(count)) == text_spent::<E, C>(
                    source,
                    page,
                    all,
                )
            }),
    {
        self.lemma_text_source(limits, encodings, page, spent);
        let source = self.text_source(limits, encodings, page, spent);
        let all = lazy_page_content_ids(self.file(), page);
        assert(all.take(count) + all.skip(count) =~= all);
        lemma_text_of_opened_content::<E, C>(
            stored,
            source,
            page,
            all.take(count),
            all.skip(count),
        );
    }

    /// The text of page `page_id`, which `document` is a copy of, with the content streams `ids`.
    fn extract_content<E: TextEncoding, C: FontEncodings<E>>(
        &self,
        document: &Document,
        page_id: ObjectId,
        ids: &Vec<ObjectId>,
        limits: DecodeLimits,
        spent: usize,
        encodings: &C,
    ) -> (r: (Result<String>, usize))
        requires
            document.stored() == self.text_source(limits, *encodings, page_id, spent).objects,
            ids@ == lazy_page_content_ids(self.file(), page_id),
        ensures
            self.reads_text::<E, C>(limits, *encodings, page_id, spent, r.0),
            self.decodes::<E, C>(limits, *encodings, page_id, spent, r.0, r.1),
    {
        let bounds = limits.page_limits(spent);
        let (content, count) = match self.open_streams(ids, bounds) {
            Ok(opened) => opened,
            Err((error, len, count)) => {
                proof {
                    self.lemma_stops_behind(limits, page_id, spent, count as nat);
                }
                return (Err(error), len);
            },
        };
        let streams = first_ids(ids, count);
        let (text, len) = text_of(document, page_id, &content, streams, bounds, encodings);
        proof {
            self.lemma_text_source(limits, *encodings, page_id, spent);
            let stored = TextSource {
                objects: document.stored(),
                content: content.stored(),
                forms: false,
                limits: bounds,
                encodings: *encodings,
            };
            self.lemma_front_suffices::<E, C>(
                limits,
                *encodings,
                page_id,
                spent,
                stored,
                count as int,
            );
            self.lemma_extracted::<E, C>(limits, *encodings, page_id, spent, text, len);
        }
        (text, len)
    }

    /// The streams among `ids`, as far as the source gives them, and how many ids that is. They are
    /// all of them, or those in front of a failure are already too much. Where they are not, the
    /// failure is returned, with how much was in front of it, and how many ids.
    fn open_streams(&self, ids: &Vec<ObjectId>, limits: PageLimits) -> (r: std::result::Result<
        (Document, usize),
        (Error, usize, usize),
    >)
        ensures
            match r {
                Ok((content, count)) => {
                    let streams = ids@.take(count as int);
                    let front = content_of(file_streams(self.file()), limits, streams);
                    &&& count <= ids@.len()
                    &&& content_of(content.stored(), limits, streams) == front
                    &&& count == ids@.len() || front.2 is Some
                },
                Err((error, len, count)) => {
                    let streams = ids@.take(count as int);
                    let front = content_of(file_streams(self.file()), limits, streams);
                    &&& source_failure(error, self.source_can_fail())
                    &&& count <= ids@.len()
                    &&& front.1 == len
                    &&& front.2 is None
                },
            },
    {
        let (content, count, failure) = self.content_document(ids);
        proof {
            lemma_opened_content(
                self.file(),
                content.stored(),
                ids@.take(count as int),
                limits,
            );
        }
        if let Some(error) = failure {
            if let Some(len) = content_len(&content, first_ids(ids, count), limits) {
                return Err((error, len, count));
            }
        }
        Ok((content, count))
    }

    /// A document of the streams among `ids`, whose content is read a chunk at a time, as far as the
    /// source gives them, how many ids that is, and the failure that stopped it.
    fn content_document(&self, ids: &Vec<ObjectId>) -> (r: (Document, usize, Option<Error>))
        ensures
            r.1 <= ids@.len(),
            r.2 is None ==> r.1 == ids@.len(),
            r.2 matches Some(error) ==> source_failure(error, self.source_can_fail()),
            forall|id: ObjectId| #[trigger]
                r.0.stored().contains_key(id) <==> ids@.take(r.1 as int).contains(id) && opened(
                    self.file(),
                    id,
                ) is Some,
            forall|id: ObjectId| #[trigger]
                r.0.stored().contains_key(id) ==> opened(self.file(), id) == Some(
                    r.0.stored()[id],
                ),
    {
        let mut document = Document::with_version(self.version());
        let mut i: usize = 0;
        while i < ids.len()
            invariant
                i <= ids@.len(),
                forall|id: ObjectId| #[trigger]
                    document.stored().contains_key(id) <==> ids@.take(i as int).contains(id)
                        && opened(self.file(), id) is Some,
                forall|id: ObjectId| #[trigger]
                    document.stored().contains_key(id) ==> opened(self.file(), id) == Some(
                        document.stored()[id],
                    ),
            decreases ids@.len() - i,
        {
            proof {
                assert(ids@.take(i + 1) =~= ids@.take(i as int).push(ids@[i as int]));
                assert forall|id: ObjectId| #[trigger] ids@.take(i + 1).contains(id) <==> ids@.take(
                    i as int,
                ).contains(id) || id == ids@[i as int] by {
                    lemma_pushed(ids@.take(i as int), ids@[i as int], id);
                }
            }
            match self.read_stream(ids[i]) {
                Ok(Some(stream)) => {
                    document.set_object(ids[i], Object::Stream(stream));
                },
                Ok(None) => {},
                Err(error) => {
                    return (document, i, Some(error));
                },
            }
            i += 1;
        }
        (document, i, None)
    }

    /// The text of each of `page_ids` in turn. The pages share
    /// [`DecodeLimits::max_total_content_size`].
    pub fn extract_pages_text_with_limits<E: TextEncoding, C: FontEncodings<E>>(
        &self,
        page_ids: &Vec<ObjectId>,
        limits: DecodeLimits,
        encodings: &C,
    ) -> (r: Vec<Result<String>>)
        ensures
            exists|lens: Seq<usize>| #[trigger]
                self.reads_pages::<E, C>(limits, *encodings, page_ids@, r@, lens),
    {
        let mut texts: Vec<Result<String>> = Vec::new();
        // Content decoded by the pages read so far, against the total limit.
        let mut spent: usize = 0;
        let ghost mut lens: Seq<usize> = Seq::empty();
        while texts.len() < page_ids.len()
            invariant
                texts@.len() <= page_ids@.len(),
                lens.len() == texts@.len(),
                spent == total_spent(lens),
                forall|i: int|
                    0 <= i < texts@.len() ==> self.reads_page::<E, C>(
                        limits,
                        *encodings,
                        page_ids@[i],
                        total_spent(lens.take(i)),
                        #[trigger] texts@[i],
                        lens[i],
                    ),
            decreases page_ids@.len() - texts@.len(),
        {
            let ghost before = texts@;
            let ghost before_lens = lens;
            let page = page_ids[texts.len()];
            let (text, len) = self.extract_after(page, limits, spent, encodings);
            texts.push(text);
            spent = spent.saturating_add(len);
            proof {
                lens = lens.push(len);
                assert(lens.drop_last() =~= before_lens);
                assert forall|i: int| 0 <= i < texts@.len() implies self.reads_page::<E, C>(
                    limits,
                    *encodings,
                    page_ids@[i],
                    total_spent(lens.take(i)),
                    #[trigger] texts@[i],
                    lens[i],
                ) by {
                    if i < before.len() {
                        assert(texts@[i] == before[i]);
                        assert(lens.take(i) =~= before_lens.take(i));
                    } else {
                        assert(lens.take(i) =~= before_lens);
                    }
                }
            }
        }
        assert(self.reads_pages::<E, C>(limits, *encodings, page_ids@, texts@, lens));
        texts
    }

    /// Whether `text` is read of page `page`, which decoded to `len` bytes, once the pages before it
    /// decoded to `spent`.
    pub open spec fn reads_page<E: TextEncoding, C: FontEncodings<E>>(
        &self,
        limits: DecodeLimits,
        encodings: C,
        page: ObjectId,
        spent: usize,
        text: Result<String>,
        len: usize,
    ) -> bool {
        &&& self.reads_text::<E, C>(limits, encodings, page, spent, text)
        &&& self.decodes::<E, C>(limits, encodings, page, spent, text, len)
    }

    /// Whether `texts` are read of `pages` in turn, which decoded to so many bytes each. Where the
    /// source cannot fail there is one way to read them.
    pub open spec fn reads_pages<E: TextEncoding, C: FontEncodings<E>>(
        &self,
        limits: DecodeLimits,
        encodings: C,
        pages: Seq<ObjectId>,
        texts: Seq<Result<String>>,
        lens: Seq<usize>,
    ) -> bool {
        &&& texts.len() == pages.len()
        &&& lens.len() == pages.len()
        &&& forall|i: int|
            0 <= i < texts.len() ==> self.reads_page::<E, C>(
                limits,
                encodings,
                pages[i],
                total_spent(lens.take(i)),
                #[trigger] texts[i],
                lens[i],
            )
    }

    /// A document of the single page `page_id`, holding what text extraction reads besides the
    /// content: the page, its ancestors in the page tree, their `/Resources` down to the fonts, and
    /// each font with its encoding and `/ToUnicode` CMap. Objects keep their ids; entries that
    /// extraction never follows, such as images and the content streams, stay as references to
    /// objects that are not copied.
    pub fn page_text_document(&self, page_id: ObjectId) -> (r: Result<Document>)
        ensures
            match r {
                Ok(document) => {
                    &&& document.stored() == page_objects(self.model(), page_id)
                    &&& is_highest(document.stored(), document.max_id)
                    &&& document.version@ == self.version_text()
                    &&& document.trailer@ == Seq::<(Seq<u8>, Value)>::empty()
                },
                Err(error) => source_failure(error, self.source_can_fail()),
            },
    {
        proof {
            reveal(page_objects);
        }
        let ghost model = self.model();
        let mut copier = Copier {
            source: self,
            document: Document::with_version(self.version()),
            copied: IdSet::new(),
        };
        let ghost none = CopyModel { objects: Map::empty(), copied: Set::empty() };
        assert(copier@ == none);
        let ghost first = copier;
        let mut node = match copier.copy_object(page_id) {
            Ok(node) => node,
            Err(error) => {
                return Err(error);
            },
        };
        let mut left: usize = MAX_NESTING + 1;
        loop
            invariant_except_break
                page_objects(model, page_id) == ancestors_copied(
                    model,
                    copier@,
                    match node {
                        Some(object) => Some(object@),
                        None => None,
                    },
                    left as nat,
                ).objects,
            invariant
                model == self.model(),
                copier.source == self,
                copier.continues(&first),
                first.document.version@ == self.version_text(),
                first.document.trailer@ == Seq::<(Seq<u8>, Value)>::empty(),
            ensures
                page_objects(model, page_id) == copier@.objects,
            decreases left,
        {
            let dictionary = match node {
                Some(Object::Dictionary(dictionary)) => dictionary,
                _ => {
                    break ;
                },
            };
            match copier.copy_fonts(&dictionary) {
                Ok(_) => {},
                Err(error) => {
                    return Err(error);
                },
            }
            let parent = match dictionary.named("Parent") {
                Some(Object::Reference(parent)) => *parent,
                _ => {
                    break ;
                },
            };
            if copier.copied.contains(parent) || left == 0 {
                break ;
            }
            left -= 1;
            node = match copier.copy_object(parent) {
                Ok(ancestor) => ancestor,
                Err(error) => {
                    return Err(error);
                },
            };
        }
        Ok(copier.document)
    }
}

} // verus!
