//! A page's text in runs, each with the font that set it, read into the forms the page draws.
//!
//! A font whose glyphs are named after the letters at their codes reports characters it does not
//! draw: a maths font draws `⟨` at the code of `k`, and the text says `k`. Nothing in the text tells
//! the two apart; only the font it came from does, which is why each run carries its font's name.
//! The run also keeps each code it showed and the names the font's `/Differences` gives them, so a
//! caller that knows a font's glyphs can read them. A page drawn inside a Form XObject, as a third
//! of some textbooks' pages are, has its text in the form, read with the form's own resources.

use std::collections::BTreeMap;

use vstd::prelude::*;
use vstd::string::StrSliceExecFns;
use vstd::utf8::encode_utf8;

use crate::bytes::{key, same, spells, to_vec};
use crate::document::{chased, reached, reached_entry, Document, DEREF_LIMIT};
use crate::error::{Error, Result};
use crate::font_encoding::{FontEncodings, TextEncoding};
use crate::object::{
    array_in, dictionary_in, name_in, named_entry, reference_in, reference_of, value, values,
    Dictionary, Entries, Object, ObjectId, Value,
};
use crate::page_content::{
    content_rest, is_limit_error, lemma_content_errors, page_content_ids, page_limits, ContentModel,
    DecodeLimits, PageContent, PageLimits,
};
use crate::parser::content::{
    lemma_operation_errors, operation_models, operations, operations_of, Operation, OperationModel,
};
use crate::parser::objects::MAX_NESTING;
use crate::text::chars_of;

verus! {

/// How deep forms drawn inside forms are followed.
pub const MAX_FORM_DEPTH: usize = 8;

/// Values under names.
pub struct NameMap<T> {
    entries: Vec<(Vec<u8>, T)>,
}

/// What the last of `entries` under a name holds.
spec fn last_named<T>(entries: Seq<(Vec<u8>, T)>) -> Map<Seq<u8>, T>
    decreases entries.len(),
{
    if entries.len() == 0 {
        Map::empty()
    } else {
        last_named(entries.drop_last()).insert(entries.last().0@, entries.last().1)
    }
}

impl<T> View for NameMap<T> {
    type V = Map<Seq<u8>, T>;

    closed spec fn view(&self) -> Map<Seq<u8>, T> {
        last_named(self.entries@)
    }
}

impl<T: Copy> NameMap<T> {
    pub fn new() -> (r: Self)
        ensures
            r@ == Map::<Seq<u8>, T>::empty(),
    {
        NameMap { entries: Vec::new() }
    }

    /// Puts `value` under `name`.
    pub fn insert(&mut self, name: Vec<u8>, value: T)
        ensures
            final(self)@ == old(self)@.insert(name@, value),
    {
        let ghost before = self.entries@;
        self.entries.push((name, value));
        assert(self.entries@.drop_last() =~= before);
    }

    /// What is under `name`.
    pub fn get(&self, name: &[u8]) -> (r: Option<T>)
        ensures
            match r {
                Some(value) => self@.contains_pair(name@, value),
                None => !self@.contains_key(name@),
            },
    {
        let mut i: usize = self.entries.len();
        assert(self.entries@.take(i as int) =~= self.entries@);
        while i > 0
            invariant
                i <= self.entries@.len(),
                self@.contains_key(name@) <==> last_named(
                    self.entries@.take(i as int),
                ).contains_key(name@),
                self@.contains_key(name@) ==> self@[name@] == last_named(
                    self.entries@.take(i as int),
                )[name@],
            decreases i,
        {
            i -= 1;
            assert(self.entries@.take(i + 1).drop_last() =~= self.entries@.take(i as int));
            if same(self.entries[i].0.as_slice(), name) {
                return Some(self.entries[i].1);
            }
        }
        None
    }
}

/// A font a content stream names.
pub struct FontModel<E> {
    /// `/BaseFont` without a subset prefix.
    pub name: Seq<u8>,
    pub encoding: E,
    pub differences: Map<u8, Seq<u8>>,
}

/// What text is read from: the objects of a document, those that its content is read from, whether
/// the forms that it draws are read too, how much may be decoded, and where fonts get their encodings
/// from.
pub struct TextSource<C> {
    pub objects: Map<ObjectId, Value>,
    pub content: Map<ObjectId, Value>,
    pub forms: bool,
    pub limits: PageLimits,
    pub encodings: C,
}

/// What a content stream can name: its fonts, as places among the fonts met so far, and its forms.
/// A font whose encoding cannot be read has a name without a place.
pub struct ScopeModel {
    pub fonts: Map<Seq<u8>, Option<usize>>,
    pub forms: Map<Seq<u8>, ObjectId>,
}

/// Whether a font's name starts with the prefix of a subset: six capitals and `+`.
pub open spec fn names_subset(name: Seq<u8>) -> bool {
    &&& name.len() > 6
    &&& name[6] == 0x2b
    &&& forall|i: int| 0 <= i < 6 ==> 0x41 <= #[trigger] name[i] <= 0x5a
}

/// A font's `/BaseFont` without a subset's six-letter prefix.
pub open spec fn base_font_name(font: Entries) -> Seq<u8> {
    match name_in(named_entry(font, "BaseFont"@)) {
        Some(name) => if names_subset(name) {
            name.skip(7)
        } else {
            name
        },
        None => Seq::empty(),
    }
}

/// The names that `items` from `i` on give codes: a number says which code the next name is for,
/// and each name moves on to the next code.
pub open spec fn differences_listed(
    items: Seq<Value>,
    i: nat,
    code: Option<u8>,
    names: Map<u8, Seq<u8>>,
) -> Map<u8, Seq<u8>>
    decreases items.len() - i,
{
    if i >= items.len() {
        names
    } else {
        match items[i as int] {
            Value::Integer(at) => differences_listed(
                items,
                i + 1,
                if 0 <= at <= 255 {
                    Some(at as u8)
                } else {
                    None
                },
                names,
            ),
            Value::Name(name) => match code {
                Some(at) => differences_listed(
                    items,
                    i + 1,
                    if at < 255 {
                        Some((at + 1) as u8)
                    } else {
                        None
                    },
                    names.insert(at, name),
                ),
                None => differences_listed(items, i + 1, None, names),
            },
            _ => differences_listed(items, i + 1, code, names),
        }
    }
}

/// The names a font's `/Differences` gives its codes.
pub open spec fn differences_of(objects: Map<ObjectId, Value>, font: Entries) -> Map<u8, Seq<u8>> {
    match dictionary_in(reached_entry(objects, font, "Encoding"@)) {
        Some(encoding) => match array_in(reached_entry(objects, encoding, "Differences"@)) {
            Some(items) => differences_listed(items, 0, None, Map::empty()),
            None => Map::empty(),
        },
        None => Map::empty(),
    }
}

/// What a font's dictionary says of it, if its encoding can be read.
pub open spec fn font_of<E: TextEncoding, C: FontEncodings<E>>(
    source: TextSource<C>,
    font: Entries,
) -> Option<FontModel<E>> {
    match source.encodings.encoding_of(source.objects, font, source.limits.max_stream_size) {
        Some(encoding) => Some(
            FontModel {
                name: base_font_name(font),
                encoding,
                differences: differences_of(source.objects, font),
            },
        ),
        None => None,
    }
}

/// The fonts that `entries` from `i` on name, with those in `fonts` and `met`.
pub open spec fn fonts_named<E: TextEncoding, C: FontEncodings<E>>(
    source: TextSource<C>,
    entries: Entries,
    i: nat,
    fonts: Map<Seq<u8>, Option<usize>>,
    met: Seq<FontModel<E>>,
) -> (Map<Seq<u8>, Option<usize>>, Seq<FontModel<E>>)
    decreases entries.len() - i,
{
    if i >= entries.len() {
        (fonts, met)
    } else {
        let (name, value) = entries[i as int];
        match dictionary_in(reached(source.objects, value)) {
            Some(font) => match font_of::<E, C>(source, font) {
                Some(font) => fonts_named::<E, C>(
                    source,
                    entries,
                    i + 1,
                    fonts.insert(name, Some(met.len() as usize)),
                    met.push(font),
                ),
                None => fonts_named::<E, C>(source, entries, i + 1, fonts.insert(name, None), met),
            },
            None => fonts_named::<E, C>(source, entries, i + 1, fonts, met),
        }
    }
}

/// The forms that `entries` from `i` on name, with those in `forms`. Entries that are not forms are
/// told apart when drawn.
pub open spec fn forms_named(
    entries: Entries,
    i: nat,
    forms: Map<Seq<u8>, ObjectId>,
) -> Map<Seq<u8>, ObjectId>
    decreases entries.len() - i,
{
    if i >= entries.len() {
        forms
    } else {
        match reference_of(entries[i as int].1) {
            Some(id) => forms_named(entries, i + 1, forms.insert(entries[i as int].0, id)),
            None => forms_named(entries, i + 1, forms),
        }
    }
}

/// What a content stream with `resources` can name, in front of what `scope` names.
pub open spec fn scope_with<E: TextEncoding, C: FontEncodings<E>>(
    source: TextSource<C>,
    resources: Entries,
    scope: ScopeModel,
    met: Seq<FontModel<E>>,
) -> (ScopeModel, Seq<FontModel<E>>) {
    let (fonts, met) = match dictionary_in(reached_entry(source.objects, resources, "Font"@)) {
        Some(entries) => fonts_named::<E, C>(source, entries, 0, scope.fonts, met),
        None => (scope.fonts, met),
    };
    let forms = match dictionary_in(reached_entry(source.objects, resources, "XObject"@)) {
        Some(entries) => forms_named(entries, 0, scope.forms),
        None => scope.forms,
    };
    (ScopeModel { fonts, forms }, met)
}

/// The `/Resources` of page-tree node `node` and of its ancestors, no more than `left` of these,
/// nearest first.
pub open spec fn resources_along(
    objects: Map<ObjectId, Value>,
    node: ObjectId,
    left: nat,
) -> Seq<Entries>
    decreases left,
{
    match chased(objects, node, DEREF_LIMIT as nat) {
        Ok(Value::Dictionary(entries)) => {
            let own = match dictionary_in(reached_entry(objects, entries, "Resources"@)) {
                Some(resources) => seq![resources],
                None => Seq::empty(),
            };
            match reference_in(named_entry(entries, "Parent"@)) {
                Some(parent) if left > 0 => own + resources_along(
                    objects,
                    parent,
                    (left - 1) as nat,
                ),
                _ => own,
            }
        },
        _ => Seq::empty(),
    }
}

/// What content with `resources`, nearest first, can name, and the fonts met on the way.
pub open spec fn page_scope<E: TextEncoding, C: FontEncodings<E>>(
    source: TextSource<C>,
    resources: Seq<Entries>,
) -> (ScopeModel, Seq<FontModel<E>>)
    decreases resources.len(),
{
    if resources.len() == 0 {
        (ScopeModel { fonts: Map::empty(), forms: Map::empty() }, Seq::empty())
    } else {
        let (scope, met) = page_scope::<E, C>(source, resources.drop_first());
        scope_with::<E, C>(source, resources[0], scope, met)
    }
}

/// The dictionary of form `id`.
pub open spec fn form_entries(objects: Map<ObjectId, Value>, id: ObjectId) -> Option<Entries> {
    let entries = match chased(objects, id, DEREF_LIMIT as nat) {
        Ok(Value::Dictionary(entries)) => entries,
        Ok(Value::Stream(entries, _)) => entries,
        _ => Seq::empty(),
    };
    if name_in(named_entry(entries, "Subtype"@)) == Some(key("Form"@)) {
        Some(entries)
    } else {
        None
    }
}

/// What form `id` can name: the fonts and forms of its own `/Resources`, or, for a form with none,
/// what the content that draws it can name. `None` when `id` is not a form.
pub open spec fn form_scope<E: TextEncoding, C: FontEncodings<E>>(
    source: TextSource<C>,
    id: ObjectId,
    outer: ScopeModel,
    met: Seq<FontModel<E>>,
) -> Option<(ScopeModel, Seq<FontModel<E>>)> {
    match form_entries(source.objects, id) {
        Some(form) => match dictionary_in(reached_entry(source.objects, form, "Resources"@)) {
            Some(resources) => Some(
                scope_with::<E, C>(
                    source,
                    resources,
                    ScopeModel { fonts: Map::empty(), forms: Map::empty() },
                    met,
                ),
            ),
            None => Some((outer, met)),
        },
        None => None,
    }
}

/// The text of the run being read, and its codes, each with the place of its character's first byte.
pub struct RunModel {
    pub text: Seq<char>,
    pub codes: Seq<(nat, u8)>,
}

/// Text set in one font.
pub struct TextRunModel {
    pub font: Seq<u8>,
    pub text: Seq<char>,
    pub codes: Seq<(nat, u8)>,
    pub differences: Map<u8, Seq<u8>>,
}

/// A run with nothing in it.
pub open spec fn no_text() -> RunModel {
    RunModel { text: Seq::empty(), codes: Seq::empty() }
}

/// `run` with `text` behind its own.
pub open spec fn with_text(run: RunModel, text: Seq<char>) -> RunModel {
    RunModel { text: run.text + text, codes: run.codes }
}

/// `run` after the code `code`, whose place is kept if it shows one character, or `None` when it
/// cannot be decoded.
pub open spec fn code_shown<E: TextEncoding>(encoding: E, code: u8, run: RunModel) -> Option<
    RunModel,
> {
    match encoding.text_of(seq![code]) {
        Some(text) => Some(
            RunModel {
                codes: if text.len() == 1 {
                    run.codes.push((encode_utf8(run.text).len(), code))
                } else {
                    run.codes
                },
                ..with_text(run, text)
            },
        ),
        None => None,
    }
}

/// `run` after the codes `codes`, one at a time up to the first that cannot be decoded, and whether
/// there was none.
pub open spec fn codes_shown<E: TextEncoding>(encoding: E, codes: Seq<u8>, run: RunModel) -> (
    RunModel,
    bool,
)
    decreases codes.len(),
{
    if codes.len() == 0 {
        (run, true)
    } else {
        let (before, decoded) = codes_shown(encoding, codes.drop_last(), run);
        match code_shown(encoding, codes.last(), before) {
            Some(after) if decoded => (after, true),
            _ => (before, false),
        }
    }
}

/// `run` after the string `codes`, as far as it can be decoded, and whether it can be to its end.
pub open spec fn shown<E: TextEncoding>(encoding: E, codes: Seq<u8>, run: RunModel) -> (
    RunModel,
    bool,
) {
    if encoding.byte_by_byte() {
        codes_shown(encoding, codes, run)
    } else {
        match encoding.text_of(codes) {
            Some(text) => (with_text(run, text), true),
            None => (run, false),
        }
    }
}

/// `run` after a space.
pub open spec fn spaced(run: RunModel) -> RunModel {
    RunModel { text: run.text.push(' '), codes: run.codes }
}

/// `run` with its line ended, once.
pub open spec fn line_broken(run: RunModel) -> RunModel {
    if run.text.len() > 0 && run.text.last() == '\n' {
        run
    } else {
        RunModel { text: run.text.push('\n'), codes: run.codes }
    }
}

/// `run` after the strings among `operands` from `i` on, up to the first that cannot be decoded, and
/// whether there was none. An array ends with a space, and so does a large move to the right between
/// two strings.
pub open spec fn collected<E: TextEncoding>(
    encoding: E,
    operands: Seq<Value>,
    i: nat,
    run: RunModel,
) -> (RunModel, bool)
    decreases operands, operands.len() - i,
{
    if i >= operands.len() {
        (run, true)
    } else {
        match operands[i as int] {
            Value::String(codes, _) => {
                let (after, decoded) = shown(encoding, codes, run);
                if decoded {
                    collected(encoding, operands, i + 1, after)
                } else {
                    (after, false)
                }
            },
            Value::Array(items) => {
                let (after, decoded) = collected(encoding, items, 0, run);
                if decoded {
                    collected(encoding, operands, i + 1, spaced(after))
                } else {
                    (after, false)
                }
            },
            Value::Integer(n) if n < -100 => collected(encoding, operands, i + 1, spaced(run)),
            _ => collected(encoding, operands, i + 1, run),
        }
    }
}

/// The fonts met so far, the runs read, and how much content has been decoded.
pub struct ReaderModel<E> {
    pub fonts: Seq<FontModel<E>>,
    pub runs: Seq<TextRunModel>,
    pub spent: usize,
}

/// How far a content stream has been drawn: the font, which is part of the graphics state that `q`
/// saves and `Q` restores, the fonts saved, the run being read, and what has been read.
pub struct DrawModel<E> {
    pub font: Option<usize>,
    pub saved: Seq<Option<usize>>,
    pub run: RunModel,
    pub reader: ReaderModel<E>,
}

/// `d` with the run being read ended, if there is any text in it.
pub open spec fn run_ended<E>(d: DrawModel<E>) -> DrawModel<E> {
    if d.run.text.len() == 0 {
        d
    } else {
        let run = TextRunModel {
            font: match d.font {
                Some(font) => d.reader.fonts[font as int].name,
                None => Seq::empty(),
            },
            text: d.run.text,
            codes: d.run.codes,
            differences: match d.font {
                Some(font) => d.reader.fonts[font as int].differences,
                None => Map::empty(),
            },
        };
        DrawModel {
            run: no_text(),
            reader: ReaderModel { runs: d.reader.runs.push(run), ..d.reader },
            ..d
        }
    }
}

/// The name that an operation's first operand is.
pub open spec fn first_name(operands: Seq<Value>) -> Option<Seq<u8>> {
    if operands.len() > 0 {
        match operands[0] {
            Value::Name(name) => Some(name),
            _ => None,
        }
    } else {
        None
    }
}

/// `d` after the strings of a text operator, in the font that is set.
pub open spec fn text_shown<E: TextEncoding>(operands: Seq<Value>, d: DrawModel<E>) -> DrawModel<E> {
    match d.font {
        Some(font) => DrawModel {
            run: collected(d.reader.fonts[font as int].encoding, operands, 0, d.run).0,
            ..d
        },
        None => d,
    }
}

/// `d` after a text operator that first moves to the next line, showing the operand at `at`.
pub open spec fn line_shown<E: TextEncoding>(
    operands: Seq<Value>,
    at: int,
    d: DrawModel<E>,
) -> DrawModel<E> {
    match d.font {
        Some(_) => {
            let broken = DrawModel { run: line_broken(d.run), ..d };
            if at < operands.len() {
                text_shown(seq![operands[at]], broken)
            } else {
                broken
            }
        },
        None => d,
    }
}

/// `d` after any operation but `Do`.
pub open spec fn operation_drawn<E: TextEncoding>(
    scope: ScopeModel,
    operation: OperationModel,
    d: DrawModel<E>,
) -> DrawModel<E> {
    let operator = operation.operator;
    if operator == key("Tf"@) {
        let ended = run_ended(d);
        let font = match first_name(operation.operands) {
            Some(name) => if scope.fonts.contains_key(name) {
                scope.fonts[name]
            } else {
                None
            },
            None => None,
        };
        DrawModel { font, ..ended }
    } else if operator == key("q"@) {
        DrawModel { saved: d.saved.push(d.font), ..d }
    } else if operator == key("Q"@) {
        if d.saved.len() > 0 {
            let restored = d.saved.last();
            let ended = if restored == d.font {
                d
            } else {
                run_ended(d)
            };
            DrawModel { font: restored, saved: d.saved.drop_last(), ..ended }
        } else {
            d
        }
    } else if operator == key("Tj"@) || operator == key("TJ"@) {
        text_shown(operation.operands, d)
    } else if operator == key("'"@) {
        line_shown(operation.operands, 0, d)
    } else if operator == key("\""@) {
        line_shown(operation.operands, 2, d)
    } else if operator == key("T*"@) || operator == key("ET"@) {
        DrawModel { run: line_broken(d.run), ..d }
    } else {
        d
    }
}

/// The form that a `Do` draws, unless it is being drawn already, or too deep inside others.
pub open spec fn form_drawn_by(
    scope: ScopeModel,
    stack: Seq<ObjectId>,
    operands: Seq<Value>,
) -> Option<ObjectId> {
    match first_name(operands) {
        Some(name) => if scope.forms.contains_key(name) && !stack.contains(scope.forms[name])
            && stack.len() < MAX_FORM_DEPTH {
            Some(scope.forms[name])
        } else {
            None
        },
        None => None,
    }
}

/// `reader` after form `id`, drawn by content with `outer` while the forms of `stack` are drawn, in
/// the font `font`. A form that cannot be read to its end leaves the runs it completed.
pub open spec fn form_read<E: TextEncoding, C: FontEncodings<E>>(
    source: TextSource<C>,
    outer: ScopeModel,
    stack: Seq<ObjectId>,
    id: ObjectId,
    font: Option<usize>,
    reader: ReaderModel<E>,
) -> ReaderModel<E>
    decreases MAX_FORM_DEPTH - stack.len(), 0int, 0int,
{
    if stack.len() >= MAX_FORM_DEPTH {
        reader
    } else {
        match form_scope::<E, C>(source, id, outer, reader.fonts) {
            Some((inner, fonts)) => content_drawn::<E, C>(
                source,
                inner,
                stack.push(id),
                ContentModel { streams: seq![id], current: None, len: reader.spent },
                font,
                ReaderModel { fonts, ..reader },
            ).0,
            None => reader,
        }
    }
}

/// `d` after `operations` from `i` on, in content with `scope` drawn while the forms of `stack` are.
pub open spec fn operations_drawn<E: TextEncoding, C: FontEncodings<E>>(
    source: TextSource<C>,
    scope: ScopeModel,
    stack: Seq<ObjectId>,
    operations: Seq<OperationModel>,
    i: nat,
    d: DrawModel<E>,
) -> DrawModel<E>
    decreases MAX_FORM_DEPTH - stack.len(), 1int, operations.len() - i,
{
    if i >= operations.len() {
        d
    } else {
        let operation = operations[i as int];
        let next = if source.forms && operation.operator == key("Do"@) {
            let ended = run_ended(d);
            match form_drawn_by(scope, stack, operation.operands) {
                Some(id) => DrawModel {
                    reader: form_read::<E, C>(source, scope, stack, id, d.font, ended.reader),
                    ..ended
                },
                None => ended,
            }
        } else {
            operation_drawn(scope, operation, d)
        };
        operations_drawn::<E, C>(source, scope, stack, operations, i + 1, next)
    }
}

/// `reader` after the content at `at`, with `scope`, drawn in the font `font` while the forms of
/// `stack` are drawn, and what went wrong, if anything did.
pub open spec fn content_drawn<E: TextEncoding, C: FontEncodings<E>>(
    source: TextSource<C>,
    scope: ScopeModel,
    stack: Seq<ObjectId>,
    at: ContentModel,
    font: Option<usize>,
    reader: ReaderModel<E>,
) -> (ReaderModel<E>, Option<Error>)
    decreases MAX_FORM_DEPTH - stack.len(), 2int, 0int,
{
    let (bytes, spent, failure) = content_rest(source.content, source.limits, at);
    let (operations, too_long) = operations_of(bytes, source.limits.max_stream_size);
    let drawn = operations_drawn::<E, C>(
        source,
        scope,
        stack,
        operations,
        0,
        DrawModel {
            font,
            saved: Seq::empty(),
            run: no_text(),
            reader: ReaderModel { spent, ..reader },
        },
    );
    match (too_long, failure) {
        (Some(error), _) => (drawn.reader, Some(error)),
        (None, Some(error)) => (drawn.reader, Some(error)),
        (None, None) => (run_ended(drawn).reader, None),
    }
}

/// What has been read once page `page` has, with the content of `streams`, and what went wrong, if
/// anything did.
#[verifier::opaque]
pub open spec fn page_drawn<E: TextEncoding, C: FontEncodings<E>>(
    source: TextSource<C>,
    page: ObjectId,
    streams: Seq<ObjectId>,
) -> (ReaderModel<E>, Option<Error>) {
    let (scope, fonts) = page_scope::<E, C>(source, resources_along(source.objects, page, MAX_NESTING as nat));
    content_drawn::<E, C>(
        source,
        scope,
        Seq::empty(),
        ContentModel { streams, current: None, len: 0 },
        None,
        ReaderModel { fonts, runs: Seq::empty(), spent: 0 },
    )
}

/// The text of page `page`, with the content of `streams`, in runs, or why it cannot be read.
pub open spec fn text_runs<E: TextEncoding, C: FontEncodings<E>>(
    source: TextSource<C>,
    page: ObjectId,
    streams: Seq<ObjectId>,
) -> std::result::Result<Seq<TextRunModel>, Error> {
    match page_drawn::<E, C>(source, page, streams) {
        (_, Some(error)) => Err(error),
        (reader, None) => Ok(reader.runs),
    }
}

/// How much of the content of page `page` is decoded.
pub open spec fn text_spent<E: TextEncoding, C: FontEncodings<E>>(
    source: TextSource<C>,
    page: ObjectId,
    streams: Seq<ObjectId>,
) -> usize {
    page_drawn::<E, C>(source, page, streams).0.spent
}

/// Whether a character of `text` starts at byte `offset`.
pub open spec fn starts_char(text: Seq<char>, offset: nat) -> bool {
    exists|k: int| 0 <= k < text.len() && #[trigger] encode_utf8(text.take(k)).len() == offset
}

/// Whether each code is at a character of `text`, behind the code before it.
pub open spec fn codes_in_order(text: Seq<char>, codes: Seq<(nat, u8)>) -> bool {
    &&& forall|i: int| 0 <= i < codes.len() ==> starts_char(text, #[trigger] codes[i].0)
    &&& forall|i: int, j: int|
        0 <= i < j < codes.len() ==> (#[trigger] codes[i]).0 < (#[trigger] codes[j]).0
}

/// Whether each run has text, and codes in order.
pub open spec fn runs_in_order(runs: Seq<TextRunModel>) -> bool {
    forall|i: int|
        #![trigger runs[i]]
        0 <= i < runs.len() ==> runs[i].text.len() > 0 && codes_in_order(
            runs[i].text,
            runs[i].codes,
        )
}

proof fn lemma_utf8_grows(text: Seq<char>, k: int)
    requires
        0 <= k < text.len(),
    ensures
        encode_utf8(text.take(k)).len() < encode_utf8(text).len(),
    decreases k,
{
    if k > 0 {
        lemma_utf8_grows(text.drop_first(), k - 1);
        assert(text.take(k).drop_first() =~= text.drop_first().take(k - 1));
        assert(text.take(k)[0] == text[0]);
    }
}

/// A character added to the text leaves the codes in order.
proof fn lemma_char_keeps_order(text: Seq<char>, codes: Seq<(nat, u8)>, c: char)
    requires
        codes_in_order(text, codes),
    ensures
        codes_in_order(text.push(c), codes),
        forall|code: u8| #[trigger]
            codes_in_order(text.push(c), codes.push((encode_utf8(text).len(), code))),
{
    let grown = text.push(c);
    assert forall|i: int| 0 <= i < codes.len() implies starts_char(grown, #[trigger] codes[i].0) by {
        let k = choose|k: int|
            0 <= k < text.len() && #[trigger] encode_utf8(text.take(k)).len() == codes[i].0;
        assert(starts_char(text, codes[i].0));
        assert(grown.take(k) =~= text.take(k));
    }
    assert forall|code: u8| #[trigger]
        codes_in_order(grown, codes.push((encode_utf8(text).len(), code))) by {
        let more = codes.push((encode_utf8(text).len(), code));
        assert forall|i: int| 0 <= i < more.len() implies starts_char(grown, #[trigger] more[i].0) by {
            if i < codes.len() {
                assert(more[i] == codes[i]);
            } else {
                assert(grown.take(text.len() as int) =~= text);
            }
        }
        assert forall|i: int, j: int| 0 <= i < j < more.len() implies (#[trigger] more[i]).0 < (
        #[trigger] more[j]).0 by {
            if j < codes.len() {
                assert(codes[i].0 < codes[j].0);
            } else {
                assert(starts_char(text, codes[i].0));
                let k = choose|k: int|
                    0 <= k < text.len() && #[trigger] encode_utf8(text.take(k)).len() == codes[i].0;
                lemma_utf8_grows(text, k);
            }
        }
    }
}

/// Text added behind the codes leaves them in order.
proof fn lemma_text_keeps_order(text: Seq<char>, codes: Seq<(nat, u8)>, more: Seq<char>)
    requires
        codes_in_order(text, codes),
    ensures
        codes_in_order(text + more, codes),
    decreases more.len(),
{
    if more.len() == 0 {
        assert(text + more =~= text);
    } else {
        lemma_text_keeps_order(text, codes, more.drop_last());
        lemma_char_keeps_order(text + more.drop_last(), codes, more.last());
        assert(text + more =~= (text + more.drop_last()).push(more.last()));
    }
}

proof fn lemma_codes_in_order<E: TextEncoding>(encoding: E, codes: Seq<u8>, run: RunModel)
    requires
        codes_in_order(run.text, run.codes),
    ensures
        ({
            let after = codes_shown(encoding, codes, run).0;
            codes_in_order(after.text, after.codes)
        }),
    decreases codes.len(),
{
    if codes.len() > 0 {
        lemma_codes_in_order(encoding, codes.drop_last(), run);
        let before = codes_shown(encoding, codes.drop_last(), run).0;
        if let Some(text) = encoding.text_of(seq![codes.last()]) {
            lemma_text_keeps_order(before.text, before.codes, text);
            if text.len() == 1 {
                lemma_char_keeps_order(before.text, before.codes, text[0]);
                assert(before.text + text =~= before.text.push(text[0]));
                assert(codes_in_order(
                    before.text.push(text[0]),
                    before.codes.push((encode_utf8(before.text).len(), codes.last())),
                ));
            }
        }
    }
}

proof fn lemma_shown_in_order<E: TextEncoding>(encoding: E, codes: Seq<u8>, run: RunModel)
    requires
        codes_in_order(run.text, run.codes),
    ensures
        ({
            let after = shown(encoding, codes, run).0;
            codes_in_order(after.text, after.codes)
        }),
{
    lemma_codes_in_order(encoding, codes, run);
    if let Some(text) = encoding.text_of(codes) {
        lemma_text_keeps_order(run.text, run.codes, text);
    }
}

proof fn lemma_collected_in_order<E: TextEncoding>(
    encoding: E,
    operands: Seq<Value>,
    i: nat,
    run: RunModel,
)
    requires
        codes_in_order(run.text, run.codes),
    ensures
        ({
            let after = collected(encoding, operands, i, run).0;
            codes_in_order(after.text, after.codes)
        }),
    decreases operands, operands.len() - i,
{
    if i < operands.len() {
        match operands[i as int] {
            Value::String(codes, _) => {
                lemma_shown_in_order(encoding, codes, run);
                lemma_collected_in_order(
                    encoding,
                    operands,
                    i + 1,
                    shown(encoding, codes, run).0,
                );
            },
            Value::Array(items) => {
                lemma_collected_in_order(encoding, items, 0, run);
                let inner = collected(encoding, items, 0, run).0;
                lemma_char_keeps_order(inner.text, inner.codes, ' ');
                lemma_collected_in_order(encoding, operands, i + 1, spaced(inner));
            },
            Value::Integer(n) if n < -100 => {
                lemma_char_keeps_order(run.text, run.codes, ' ');
                lemma_collected_in_order(encoding, operands, i + 1, spaced(run));
            },
            _ => {
                lemma_collected_in_order(encoding, operands, i + 1, run);
            },
        }
    }
}

/// Whether the run being read and those completed have codes in order.
spec fn drawn_in_order<E>(d: DrawModel<E>) -> bool {
    codes_in_order(d.run.text, d.run.codes) && runs_in_order(d.reader.runs)
}

proof fn lemma_operation_in_order<E: TextEncoding>(
    scope: ScopeModel,
    operation: OperationModel,
    d: DrawModel<E>,
)
    requires
        drawn_in_order(d),
    ensures
        drawn_in_order(operation_drawn(scope, operation, d)),
{
    lemma_char_keeps_order(d.run.text, d.run.codes, '\n');
    let broken = line_broken(d.run);
    if let Some(font) = d.font {
        let encoding = d.reader.fonts[font as int].encoding;
        lemma_collected_in_order(encoding, operation.operands, 0, d.run);
        if operation.operands.len() > 0 {
            lemma_collected_in_order(encoding, seq![operation.operands[0]], 0, broken);
        }
        if operation.operands.len() > 2 {
            lemma_collected_in_order(encoding, seq![operation.operands[2]], 0, broken);
        }
    }
}

proof fn lemma_form_in_order<E: TextEncoding, C: FontEncodings<E>>(
    source: TextSource<C>,
    outer: ScopeModel,
    stack: Seq<ObjectId>,
    id: ObjectId,
    font: Option<usize>,
    reader: ReaderModel<E>,
)
    requires
        runs_in_order(reader.runs),
    ensures
        runs_in_order(form_read::<E, C>(source, outer, stack, id, font, reader).runs),
    decreases MAX_FORM_DEPTH - stack.len(), 0int, 0int,
{
    if stack.len() < MAX_FORM_DEPTH {
        if let Some((inner, fonts)) = form_scope::<E, C>(source, id, outer, reader.fonts) {
            lemma_content_in_order::<E, C>(
                source,
                inner,
                stack.push(id),
                ContentModel { streams: seq![id], current: None, len: reader.spent },
                font,
                ReaderModel { fonts, ..reader },
            );
        }
    }
}

proof fn lemma_operations_in_order<E: TextEncoding, C: FontEncodings<E>>(
    source: TextSource<C>,
    scope: ScopeModel,
    stack: Seq<ObjectId>,
    operations: Seq<OperationModel>,
    i: nat,
    d: DrawModel<E>,
)
    requires
        drawn_in_order(d),
    ensures
        drawn_in_order(operations_drawn::<E, C>(source, scope, stack, operations, i, d)),
    decreases MAX_FORM_DEPTH - stack.len(), 1int, operations.len() - i,
{
    if i < operations.len() {
        let operation = operations[i as int];
        let next = if source.forms && operation.operator == key("Do"@) {
            let ended = run_ended(d);
            match form_drawn_by(scope, stack, operation.operands) {
                Some(id) => {
                    lemma_form_in_order::<E, C>(source, scope, stack, id, d.font, ended.reader);
                    DrawModel {
                        reader: form_read::<E, C>(source, scope, stack, id, d.font, ended.reader),
                        ..ended
                    }
                },
                None => ended,
            }
        } else {
            lemma_operation_in_order(scope, operation, d);
            operation_drawn(scope, operation, d)
        };
        lemma_operations_in_order::<E, C>(source, scope, stack, operations, i + 1, next);
    }
}

proof fn lemma_content_in_order<E: TextEncoding, C: FontEncodings<E>>(
    source: TextSource<C>,
    scope: ScopeModel,
    stack: Seq<ObjectId>,
    at: ContentModel,
    font: Option<usize>,
    reader: ReaderModel<E>,
)
    requires
        runs_in_order(reader.runs),
    ensures
        runs_in_order(content_drawn::<E, C>(source, scope, stack, at, font, reader).0.runs),
    decreases MAX_FORM_DEPTH - stack.len(), 2int, 0int,
{
    let (bytes, spent, failure) = content_rest(source.content, source.limits, at);
    lemma_operations_in_order::<E, C>(
        source,
        scope,
        stack,
        operations_of(bytes, source.limits.max_stream_size).0,
        0,
        DrawModel {
            font,
            saved: Seq::empty(),
            run: no_text(),
            reader: ReaderModel { spent, ..reader },
        },
    );
}

/// Each run of a page has text, and each of its codes is at a character of that text, behind the
/// code before it.
pub proof fn lemma_runs_in_order<E: TextEncoding, C: FontEncodings<E>>(
    source: TextSource<C>,
    page: ObjectId,
    streams: Seq<ObjectId>,
)
    ensures
        text_runs::<E, C>(source, page, streams) matches Ok(runs) ==> runs_in_order(runs),
{
    reveal(page_drawn);
    let (scope, fonts) = page_scope::<E, C>(source, resources_along(source.objects, page, MAX_NESTING as nat));
    lemma_content_in_order::<E, C>(
        source,
        scope,
        Seq::empty(),
        ContentModel { streams, current: None, len: 0 },
        None,
        ReaderModel { fonts, runs: Seq::empty(), spent: 0 },
    );
}

/// A page whose text cannot be read decodes to more than it may.
pub proof fn lemma_text_errors<E: TextEncoding, C: FontEncodings<E>>(
    source: TextSource<C>,
    page: ObjectId,
    streams: Seq<ObjectId>,
)
    ensures
        text_runs::<E, C>(source, page, streams) matches Err(error) ==> is_limit_error(
            error,
            source.limits,
        ),
{
    reveal(page_drawn);
    let at = ContentModel { streams, current: None, len: 0 };
    lemma_content_errors(source.content, source.limits, at);
    let bytes = content_rest(source.content, source.limits, at).0;
    lemma_operation_errors(bytes, source.limits.max_stream_size);
}

/// Where forms are not read, operations draw the same whatever they could name but for fonts.
proof fn lemma_drawn_without_forms<E: TextEncoding, C: FontEncodings<E>>(
    a: TextSource<C>,
    b: TextSource<C>,
    scope: ScopeModel,
    other: ScopeModel,
    operations: Seq<OperationModel>,
    i: nat,
    d: DrawModel<E>,
)
    requires
        !a.forms || no_form_is_drawn(operations),
        !b.forms || no_form_is_drawn(operations),
        scope.fonts == other.fonts,
    ensures
        operations_drawn::<E, C>(a, scope, Seq::empty(), operations, i, d) == operations_drawn::<
            E,
            C,
        >(b, other, Seq::empty(), operations, i, d),
    decreases operations.len() - i,
{
    if i < operations.len() {
        let operation = operations[i as int];
        let next = operation_drawn(scope, operation, d);
        lemma_drawn_without_forms::<E, C>(a, b, scope, other, operations, i + 1, next);
    }
}

/// Whether none of `operations` draws a form or an image.
pub open spec fn no_form_is_drawn(operations: Seq<OperationModel>) -> bool {
    forall|i: int| 0 <= i < operations.len() ==> (#[trigger] operations[i]).operator != key("Do"@)
}

/// The operations of the content of `streams`.
pub open spec fn page_operations<C>(source: TextSource<C>, streams: Seq<ObjectId>) -> Seq<
    OperationModel,
> {
    let at = ContentModel { streams, current: None, len: 0 };
    operations_of(
        content_rest(source.content, source.limits, at).0,
        source.limits.max_stream_size,
    ).0
}

/// The text of a page depends on nothing but its fonts and its content where forms are not read or
/// none is drawn.
pub proof fn lemma_text_without_forms<E: TextEncoding, C: FontEncodings<E>>(
    a: TextSource<C>,
    b: TextSource<C>,
    page: ObjectId,
    streams: Seq<ObjectId>,
)
    requires
        a.limits == b.limits,
        !a.forms || no_form_is_drawn(page_operations(a, streams)),
        !b.forms || no_form_is_drawn(page_operations(a, streams)),
        ({
            let at = ContentModel { streams, current: None, len: 0 };
            content_rest(a.content, a.limits, at) == content_rest(b.content, b.limits, at)
        }),
        ({
            let ours = page_scope::<E, C>(
                a,
                resources_along(a.objects, page, MAX_NESTING as nat),
            );
            let theirs = page_scope::<E, C>(
                b,
                resources_along(b.objects, page, MAX_NESTING as nat),
            );
            ours.0.fonts == theirs.0.fonts && ours.1 == theirs.1
        }),
    ensures
        text_runs::<E, C>(a, page, streams) == text_runs::<E, C>(b, page, streams),
        text_spent::<E, C>(a, page, streams) == text_spent::<E, C>(b, page, streams),
{
    reveal(page_drawn);
    let (scope, fonts) = page_scope::<E, C>(
        a,
        resources_along(a.objects, page, MAX_NESTING as nat),
    );
    let (other, _) = page_scope::<E, C>(b, resources_along(b.objects, page, MAX_NESTING as nat));
    let at = ContentModel { streams, current: None, len: 0 };
    let spent = content_rest(a.content, a.limits, at).1;
    lemma_drawn_without_forms::<E, C>(
        a,
        b,
        scope,
        other,
        page_operations(a, streams),
        0,
        DrawModel {
            font: None,
            saved: Seq::empty(),
            run: no_text(),
            reader: ReaderModel { fonts, runs: Seq::empty(), spent },
        },
    );
}

/// A form that is being drawn is not drawn again inside itself: a `Do` that names it only ends the
/// run before it.
pub proof fn lemma_form_is_not_drawn_inside_itself<E: TextEncoding, C: FontEncodings<E>>(
    source: TextSource<C>,
    scope: ScopeModel,
    stack: Seq<ObjectId>,
    operation: OperationModel,
    name: Seq<u8>,
    d: DrawModel<E>,
)
    requires
        source.forms,
        operation.operator == key("Do"@),
        first_name(operation.operands) == Some(name),
        scope.forms.contains_key(name),
        stack.contains(scope.forms[name]),
    ensures
        operations_drawn::<E, C>(source, scope, stack, seq![operation], 0, d) == run_ended(d),
{
    reveal_with_fuel(operations_drawn, 2);
}

/// Text set in one font, in the order the content draws it.
pub struct PageTextRun {
    /// The font's `/BaseFont`, without a subset's `ABCDEF+` prefix; empty when it has none.
    pub font: Vec<u8>,
    /// The text as the font's encoding decodes it, with a break where a line ends and a space where
    /// the strings of one operation are set apart.
    pub text: String,
    /// Each code shown, with the byte offset in `text` of the one character it decoded to. A code
    /// that decoded to no character is left out.
    pub codes: Vec<(usize, u8)>,
    /// The glyph names the font's `/Differences` gives codes, spelt as in the file.
    pub differences: BTreeMap<u8, Vec<u8>>,
}

/// What each of `codes` stands for.
pub open spec fn code_models(codes: Seq<(usize, u8)>) -> Seq<(nat, u8)> {
    codes.map_values(|code: (usize, u8)| (code.0 as nat, code.1))
}

/// What each of `names` stands for.
pub open spec fn name_models(names: Map<u8, Vec<u8>>) -> Map<u8, Seq<u8>> {
    names.map_values(|name: Vec<u8>| name@)
}

impl View for PageTextRun {
    type V = TextRunModel;

    open spec fn view(&self) -> TextRunModel {
        TextRunModel {
            font: self.font@,
            text: self.text@,
            codes: code_models(self.codes@),
            differences: name_models(self.differences@),
        }
    }
}

/// What each of `runs` stands for.
pub open spec fn run_models(runs: Seq<PageTextRun>) -> Seq<TextRunModel> {
    runs.map_values(|run: PageTextRun| run@)
}

struct Font<E> {
    name: Vec<u8>,
    encoding: E,
    differences: BTreeMap<u8, Vec<u8>>,
}

impl<E> View for Font<E> {
    type V = FontModel<E>;

    closed spec fn view(&self) -> FontModel<E> {
        FontModel {
            name: self.name@,
            encoding: self.encoding,
            differences: name_models(self.differences@),
        }
    }
}

spec fn font_models<E>(fonts: Seq<Font<E>>) -> Seq<FontModel<E>> {
    fonts.map_values(|font: Font<E>| font@)
}

struct Scope {
    fonts: NameMap<Option<usize>>,
    forms: NameMap<ObjectId>,
}

impl View for Scope {
    type V = ScopeModel;

    closed spec fn view(&self) -> ScopeModel {
        ScopeModel { fonts: self.fonts@, forms: self.forms@ }
    }
}

/// Whether the places of fonts are below `count`.
spec fn places_below(scope: ScopeModel, count: nat) -> bool {
    forall|name: Seq<u8>|
        #![trigger scope.fonts[name]]
        scope.fonts.contains_key(name) ==> (scope.fonts[name] matches Some(place) ==> place < count)
}

/// Whether the place of a font is below `count`.
spec fn place_below(place: Option<usize>, count: nat) -> bool {
    place matches Some(place) ==> place < count
}

/// A copy of `names`.
fn copy_names(names: &BTreeMap<u8, Vec<u8>>) -> (r: BTreeMap<u8, Vec<u8>>)
    ensures
        name_models(r@) == name_models(names@),
{
    broadcast use vstd::std_specs::btree::group_btree_axioms;

    let mut copy: BTreeMap<u8, Vec<u8>> = BTreeMap::new();
    let mut code: u16 = 0;
    while code < 256
        invariant
            code <= 256,
            forall|at: u8|
                #![trigger copy@.contains_key(at)]
                copy@.contains_key(at) <==> at < code && names@.contains_key(at),
            forall|at: u8|
                #![trigger copy@[at]]
                copy@.contains_key(at) ==> copy@[at]@ == names@[at]@,
        decreases 256 - code,
    {
        let at = code as u8;
        if let Some(name) = names.get(&at) {
            copy.insert(at, to_vec(name.as_slice()));
        }
        code += 1;
    }
    assert(name_models(copy@) =~= name_models(names@));
    copy
}

/// A font's `/BaseFont` without a subset's six-letter prefix.
fn base_font(font: &Dictionary) -> (r: Vec<u8>)
    ensures
        r@ == base_font_name(font@),
{
    let name = match font.named("BaseFont") {
        Some(Object::Name(name)) => name,
        _ => {
            return Vec::new();
        },
    };
    let bytes = name.as_slice();
    if bytes.len() <= 6 || bytes[6] != 0x2b {
        return to_vec(bytes);
    }
    let mut i: usize = 0;
    while i < 6
        invariant
            i <= 6 < bytes@.len(),
            bytes@ == name@,
            Some(name@) == name_in(named_entry(font@, "BaseFont"@)),
            forall|j: int| 0 <= j < i ==> 0x41 <= #[trigger] bytes@[j] <= 0x5a,
        decreases 6 - i,
    {
        if bytes[i] < 0x41 || bytes[i] > 0x5a {
            return to_vec(bytes);
        }
        i += 1;
    }
    let rest = vstd::slice::slice_subrange(bytes, 7, bytes.len());
    assert(rest@ =~= name@.skip(7));
    to_vec(rest)
}

impl Document {
    /// The names a font's `/Differences` gives its codes.
    fn differences(&self, font: &Dictionary) -> (r: BTreeMap<u8, Vec<u8>>)
        ensures
            name_models(r@) == differences_of(self.stored(), font@),
    {
        broadcast use vstd::std_specs::btree::group_btree_axioms;

        let mut names: BTreeMap<u8, Vec<u8>> = BTreeMap::new();
        assert(name_models(names@) =~= Map::<u8, Seq<u8>>::empty());
        let items = match self.reach_dictionary(font, "Encoding") {
            Some(encoding) => match self.reach_entry(encoding, "Differences") {
                Some(Object::Array(items)) => items,
                _ => {
                    return names;
                },
            },
            None => {
                return names;
            },
        };
        let ghost all = values(items@);
        let mut code: Option<u8> = None;
        let mut i: usize = 0;
        while i < items.len()
            invariant
                i <= items@.len(),
                all == values(items@),
                differences_of(self.stored(), font@) == differences_listed(
                    all,
                    i as nat,
                    code,
                    name_models(names@),
                ),
            decreases items@.len() - i,
        {
            broadcast use vstd::std_specs::btree::group_btree_axioms;

            assert(all[i as int] == value(items@[i as int]));
            match &items[i] {
                Object::Integer(at) => {
                    code = if 0 <= *at && *at <= 255 {
                        Some(*at as u8)
                    } else {
                        None
                    };
                },
                Object::Name(name) => {
                    if let Some(at) = code {
                        let ghost before = names@;
                        names.insert(at, to_vec(name.as_slice()));
                        assert(name_models(names@) =~= name_models(before).insert(at, name@));
                        code = if at < 255 {
                            Some(at + 1)
                        } else {
                            None
                        };
                    }
                },
                _ => {},
            }
            i += 1;
        }
        names
    }

    /// Adds the forms that `entries` name to `forms`. Entries that are not forms are told apart when
    /// drawn.
    fn forms_of(&self, entries: &Dictionary, forms: &mut NameMap<ObjectId>)
        ensures
            final(forms)@ == forms_named(entries@, 0, old(forms)@),
    {
        let ghost expected = forms_named(entries@, 0, forms@);
        let mut i: usize = 0;
        while i < entries.entries.len()
            invariant
                i <= entries.entries@.len(),
                expected == forms_named(entries@, 0, old(forms)@),
                expected == forms_named(entries@, i as nat, forms@),
            decreases entries.entries@.len() - i,
        {
            let pair = &entries.entries[i];
            assert(entries@[i as int] == (pair.0@, pair.1@));
            if let Object::Reference(id) = &pair.1 {
                forms.insert(to_vec(pair.0.as_slice()), *id);
            }
            i += 1;
        }
    }

    /// The `/Resources` of page-tree node `node` and of its ancestors, nearest first.
    fn resources(&self, node: ObjectId) -> (r: Vec<&Dictionary>)
        ensures
            r@.map_values(|d: &Dictionary| d@) == resources_along(
                self.stored(),
                node,
                MAX_NESTING as nat,
            ),
    {
        let mut resources: Vec<&Dictionary> = Vec::new();
        let mut current = node;
        let mut left: usize = MAX_NESTING;
        let ghost objects = self.stored();
        let ghost expected = resources_along(objects, node, MAX_NESTING as nat);
        assert(resources@.map_values(|d: &Dictionary| d@) + expected =~= expected);
        loop
            invariant
                objects == self.stored(),
                expected == resources_along(objects, node, MAX_NESTING as nat),
                expected == resources@.map_values(|d: &Dictionary| d@) + resources_along(
                    objects,
                    current,
                    left as nat,
                ),
            decreases left,
        {
            let ghost before = resources@.map_values(|d: &Dictionary| d@);
            let dictionary = match self.get_object(current) {
                Ok(Object::Dictionary(dictionary)) => dictionary,
                _ => {
                    assert(before + Seq::<Entries>::empty() =~= before);
                    return resources;
                },
            };
            if let Some(own) = self.reach_dictionary(dictionary, "Resources") {
                resources.push(own);
                assert(resources@.map_values(|d: &Dictionary| d@) =~= before + seq![own@]);
            } else {
                assert(resources@.map_values(|d: &Dictionary| d@) =~= before
                    + Seq::<Entries>::empty());
            }
            match dictionary.named("Parent") {
                Some(Object::Reference(parent)) => {
                    if left == 0 {
                        return resources;
                    }
                    proof {
                        let rest = resources_along(objects, *parent, (left - 1) as nat);
                        let own = resources@.map_values(|d: &Dictionary| d@).skip(
                            before.len() as int,
                        );
                        assert(before + (own + rest) =~= (before + own) + rest);
                        assert(before + own =~= resources@.map_values(|d: &Dictionary| d@));
                    }
                    left -= 1;
                    current = *parent;
                },
                _ => {
                    return resources;
                },
            }
        }
    }

    /// The dictionary of form `id`.
    fn form(&self, id: ObjectId) -> (r: Option<&Dictionary>)
        ensures
            match r {
                Some(form) => form_entries(self.stored(), id) == Some(form@),
                None => form_entries(self.stored(), id) is None,
            },
    {
        let form = match self.get_object(id) {
            Ok(Object::Dictionary(form)) => form,
            Ok(Object::Stream(stream)) => &stream.dict,
            _ => {
                return None;
            },
        };
        match form.named("Subtype") {
            Some(Object::Name(subtype)) => if spells(subtype.as_slice(), "Form") {
                Some(form)
            } else {
                None
            },
            _ => None,
        }
    }

    /// The text of page `page_id` in runs, each set in one font, reading into the forms it draws. A
    /// form that cannot be read is left out, not the page, and so is text in a font whose encoding
    /// `encodings` cannot read.
    pub fn page_text_runs<E: TextEncoding, C: FontEncodings<E>>(
        &self,
        page_id: ObjectId,
        limits: DecodeLimits,
        encodings: &C,
    ) -> (r: Result<Vec<PageTextRun>>)
        ensures
            ({
                let source = TextSource {
                    objects: self.stored(),
                    content: self.stored(),
                    forms: true,
                    limits: page_limits(limits, 0),
                    encodings: *encodings,
                };
                let expected = text_runs::<E, C>(
                    source,
                    page_id,
                    page_content_ids(self.stored(), page_id),
                );
                match r {
                    Ok(runs) => expected == Ok::<Seq<TextRunModel>, Error>(run_models(runs@)),
                    Err(error) => expected == Err::<Seq<TextRunModel>, Error>(error),
                }
            }),
    {
        let streams = self.get_page_contents(page_id);
        self.page_text_within(page_id, self, streams, true, limits.page_limits(0), encodings).0
    }

    /// The text of page `page_id` in runs, as [`Document::page_text_runs`] reads it, but with the
    /// content of `streams`, which `content` holds, and into the forms it draws only if `forms` says
    /// so; and how much was decoded for it.
    pub fn page_text_within<E: TextEncoding, C: FontEncodings<E>>(
        &self,
        page_id: ObjectId,
        content: &Document,
        streams: Vec<ObjectId>,
        forms: bool,
        limits: PageLimits,
        encodings: &C,
    ) -> (r: (Result<Vec<PageTextRun>>, usize))
        ensures
            ({
                let source = TextSource {
                    objects: self.stored(),
                    content: content.stored(),
                    forms,
                    limits,
                    encodings: *encodings,
                };
                let expected = text_runs::<E, C>(source, page_id, streams@);
                &&& match r.0 {
                    Ok(runs) => expected == Ok::<Seq<TextRunModel>, Error>(run_models(runs@)),
                    Err(error) => expected == Err::<Seq<TextRunModel>, Error>(error),
                }
                &&& r.1 == text_spent::<E, C>(source, page_id, streams@)
            }),
    {
        proof {
            reveal(page_drawn);
        }
        let reading = Reading { document: self, content, forms, limits, encodings };
        let resources = self.resources(page_id);
        let mut fonts: Vec<Font<E>> = Vec::new();
        let scope = reading.page_scope(&resources, &mut fonts);
        let mut content = PageContent::of_streams(content, streams, limits, 0);
        let mut reader = RunReader {
            reading,
            fonts,
            runs: Vec::new(),
            spent: 0,
            stack: Vec::new(),
        };
        assert(run_models(reader.runs@) =~= Seq::<TextRunModel>::empty());
        match reader.read(&scope, &mut content, None) {
            Ok(_) => (Ok(reader.runs), reader.spent),
            Err(error) => (Err(error), reader.spent),
        }
    }
}

/// What text is read from.
struct Reading<'a, C> {
    document: &'a Document,
    /// What holds the content.
    content: &'a Document,
    /// Whether forms are read.
    forms: bool,
    limits: PageLimits,
    encodings: &'a C,
}

impl<C> View for Reading<'_, C> {
    type V = TextSource<C>;

    closed spec fn view(&self) -> TextSource<C> {
        TextSource {
            objects: self.document.stored(),
            content: self.content.stored(),
            forms: self.forms,
            limits: self.limits,
            encodings: *self.encodings,
        }
    }
}

impl<C> Reading<'_, C> {
    fn run_font<E: TextEncoding>(&self, font: &Dictionary) -> (r: Option<Font<E>>) where
        C: FontEncodings<E>,

        ensures
            match r {
                Some(model) => font_of::<E, C>(self@, font@) == Some(model@),
                None => font_of::<E, C>(self@, font@) is None,
            },
    {
        let limit = self.limits.max_stream_size;
        match self.encodings.encoding(self.document, font, limit) {
            Some(encoding) => Some(
                Font {
                    name: base_font(font),
                    encoding,
                    differences: self.document.differences(font),
                },
            ),
            None => None,
        }
    }

    /// Adds the fonts that `entries` name to `names`, and to `fonts`.
    fn fonts_of<E: TextEncoding>(
        &self,
        entries: &Dictionary,
        names: &mut NameMap<Option<usize>>,
        fonts: &mut Vec<Font<E>>,
    ) where C: FontEncodings<E>,
        requires
            places_below(
                ScopeModel { fonts: old(names)@, forms: Map::empty() },
                old(fonts)@.len(),
            ),
        ensures
            (final(names)@, font_models(final(fonts)@)) == fonts_named::<E, C>(
                self@,
                entries@,
                0,
                old(names)@,
                font_models(old(fonts)@),
            ),
            old(fonts)@.len() <= final(fonts)@.len(),
            places_below(
                ScopeModel { fonts: final(names)@, forms: Map::empty() },
                final(fonts)@.len(),
            ),
    {
        let ghost expected = fonts_named::<E, C>(
            self@,
            entries@,
            0,
            names@,
            font_models(fonts@),
        );
        let mut i: usize = 0;
        while i < entries.entries.len()
            invariant
                i <= entries.entries@.len(),
                expected == fonts_named::<E, C>(
                    self@,
                    entries@,
                    0,
                    old(names)@,
                    font_models(old(fonts)@),
                ),
                expected == fonts_named::<E, C>(
                    self@,
                    entries@,
                    i as nat,
                    names@,
                    font_models(fonts@),
                ),
                old(fonts)@.len() <= fonts@.len(),
                places_below(ScopeModel { fonts: names@, forms: Map::empty() }, fonts@.len()),
            decreases entries.entries@.len() - i,
        {
            let pair = &entries.entries[i];
            assert(entries@[i as int] == (pair.0@, pair.1@));
            if let Some(Object::Dictionary(font)) = self.document.reach(&pair.1) {
                let ghost before = ScopeModel { fonts: names@, forms: Map::empty() };
                let ghost met = font_models(fonts@);
                match self.run_font(font) {
                    Some(font) => {
                        let place = fonts.len();
                        let ghost model = font@;
                        names.insert(to_vec(pair.0.as_slice()), Some(place));
                        fonts.push(font);
                        assert(font_models(fonts@) =~= met.push(model));
                        assert forall|name: Seq<u8>|
                            #![trigger names@[name]]
                            names@.contains_key(name) implies (names@[name] matches Some(place)
                            ==> place < fonts@.len()) by {
                            assert(before.fonts.contains_key(name) ==> (
                            before.fonts[name] matches Some(place) ==> place < met.len()));
                        }
                    },
                    None => {
                        names.insert(to_vec(pair.0.as_slice()), None);
                        assert forall|name: Seq<u8>|
                            #![trigger names@[name]]
                            names@.contains_key(name) implies (names@[name] matches Some(place)
                            ==> place < fonts@.len()) by {
                            assert(before.fonts.contains_key(name) ==> (
                            before.fonts[name] matches Some(place) ==> place < met.len()));
                        }
                    },
                }
            }
            i += 1;
        }
    }

    /// Puts what `resources` name in front of what `scope` names.
    fn scope_with<E: TextEncoding>(
        &self,
        resources: &Dictionary,
        scope: &mut Scope,
        fonts: &mut Vec<Font<E>>,
    ) where C: FontEncodings<E>,
        requires
            places_below(old(scope)@, old(fonts)@.len()),
        ensures
            (final(scope)@, font_models(final(fonts)@)) == scope_with::<E, C>(
                self@,
                resources@,
                old(scope)@,
                font_models(old(fonts)@),
            ),
            old(fonts)@.len() <= final(fonts)@.len(),
            places_below(final(scope)@, final(fonts)@.len()),
    {
        if let Some(entries) = self.document.reach_dictionary(resources, "Font") {
            assert forall|name: Seq<u8>|
                #![trigger scope.fonts@[name]]
                scope.fonts@.contains_key(name) implies (scope.fonts@[name] matches Some(place)
                ==> place < fonts@.len()) by {
                assert(scope@.fonts[name] == scope.fonts@[name]);
            }
            self.fonts_of(entries, &mut scope.fonts, fonts);
        }
        if let Some(entries) = self.document.reach_dictionary(resources, "XObject") {
            self.document.forms_of(entries, &mut scope.forms);
        }
    }

    /// What content with `resources`, nearest first, can name.
    fn page_scope<E: TextEncoding>(
        &self,
        resources: &Vec<&Dictionary>,
        fonts: &mut Vec<Font<E>>,
    ) -> (r: Scope) where C: FontEncodings<E>,
        requires
            old(fonts)@.len() == 0,
        ensures
            (r@, font_models(final(fonts)@)) == page_scope::<E, C>(
                self@,
                resources@.map_values(|d: &Dictionary| d@),
            ),
            places_below(r@, final(fonts)@.len()),
    {
        let ghost all = resources@.map_values(|d: &Dictionary| d@);
        let mut scope = Scope { fonts: NameMap::new(), forms: NameMap::new() };
        let mut i: usize = resources.len();
        assert(font_models(fonts@) =~= Seq::<FontModel<E>>::empty());
        while i > 0
            invariant
                i <= resources@.len(),
                all == resources@.map_values(|d: &Dictionary| d@),
                (scope@, font_models(fonts@)) == page_scope::<E, C>(self@, all.skip(i as int)),
                places_below(scope@, fonts@.len()),
            decreases i,
        {
            i -= 1;
            assert(all.skip(i as int).drop_first() =~= all.skip(i + 1));
            assert(all.skip(i as int)[0] == resources@[i as int]@);
            self.scope_with(resources[i], &mut scope, fonts);
        }
        assert(all.skip(0) =~= all);
        scope
    }
}

/// The text of the run being read, and its codes.
struct Run {
    text: String,
    codes: Vec<(usize, u8)>,
}

impl View for Run {
    type V = RunModel;

    closed spec fn view(&self) -> RunModel {
        RunModel { text: self.text@, codes: code_models(self.codes@) }
    }
}

impl Run {
    fn new() -> (r: Self)
        ensures
            r@ == no_text(),
    {
        let run = Run { text: String::new(), codes: Vec::new() };
        assert(code_models(run.codes@) =~= Seq::<(nat, u8)>::empty());
        assert(run.text@ =~= Seq::<char>::empty());
        run
    }

    /// Reads the codes of a string one at a time, up to the first that cannot be decoded, and returns
    /// whether there was none.
    fn show_codes<E: TextEncoding>(&mut self, encoding: &E, codes: &[u8]) -> (r: bool)
        ensures
            (final(self)@, r) == codes_shown(*encoding, codes@, old(self)@),
    {
        let mut i: usize = 0;
        while i < codes.len()
            invariant
                i <= codes@.len(),
                (self@, true) == codes_shown(*encoding, codes@.take(i as int), old(self)@),
            decreases codes@.len() - i,
        {
            let code = codes[i];
            let ghost before = self@;
            assert(codes@.take(i + 1).drop_last() =~= codes@.take(i as int));
            let mut one: Vec<u8> = Vec::new();
            one.push(code);
            assert(one@ =~= seq![code]);
            match encoding.decode(one.as_slice()) {
                Some(text) => {
                    let at = self.text.as_str().as_bytes().len();
                    let chars = chars_of(text.as_str());
                    append(&mut self.text, &chars);
                    if chars.len() == 1 {
                        self.codes.push((at, code));
                        assert(code_models(self.codes@) =~= before.codes.push(
                            (encode_utf8(before.text).len(), code),
                        ));
                    }
                },
                None => {
                    proof {
                        lemma_rest_not_shown(*encoding, codes@, (i + 1) as int, old(self)@);
                    }
                    return false;
                },
            }
            i += 1;
        }
        assert(codes@.take(i as int) =~= codes@);
        true
    }

    /// Reads a string, byte by byte where the encoding reads a byte at a time, and returns whether it
    /// could be decoded to its end.
    fn show<E: TextEncoding>(&mut self, encoding: &E, codes: &[u8]) -> (r: bool)
        ensures
            (final(self)@, r) == shown(*encoding, codes@, old(self)@),
    {
        if encoding.reads_bytes() {
            return self.show_codes(encoding, codes);
        }
        match encoding.decode(codes) {
            Some(text) => {
                let chars = chars_of(text.as_str());
                append(&mut self.text, &chars);
                true
            },
            None => false,
        }
    }

    fn space(&mut self)
        ensures
            final(self)@ == spaced(old(self)@),
    {
        self.text.push(' ');
    }

    fn line_break(&mut self)
        ensures
            final(self)@ == line_broken(old(self)@),
    {
        let text = self.text.as_str();
        let len = text.unicode_len();
        if len == 0 || text.get_char(len - 1) != '\n' {
            self.text.push('\n');
        }
    }

    /// Reads the strings a text operator shows, up to the first that cannot be decoded, and returns
    /// whether there was none.
    fn collect<E: TextEncoding>(&mut self, encoding: &E, operands: &Vec<Object>) -> (r: bool)
        ensures
            (final(self)@, r) == collected(*encoding, values(operands@), 0, old(self)@),
        decreases operands,
    {
        let ghost all = values(operands@);
        let mut i: usize = 0;
        while i < operands.len()
            invariant
                i <= operands@.len(),
                all == values(operands@),
                collected(*encoding, all, 0, old(self)@) == collected(
                    *encoding,
                    all,
                    i as nat,
                    self@,
                ),
            decreases operands@.len() - i,
        {
            assert(all[i as int] == value(operands@[i as int]));
            match &operands[i] {
                Object::String(codes, _) => {
                    if !self.show(encoding, codes.as_slice()) {
                        return false;
                    }
                },
                Object::Array(items) => {
                    if !self.collect(encoding, items) {
                        return false;
                    }
                    self.space();
                },
                Object::Integer(n) => {
                    if *n < -100 {
                        self.space();
                    }
                },
                _ => {},
            }
            i += 1;
        }
        true
    }
}

/// Appends `chars` to `text`.
fn append(text: &mut String, chars: &Vec<char>)
    ensures
        final(text)@ == old(text)@ + chars@,
{
    let mut i: usize = 0;
    assert(text@ =~= old(text)@ + chars@.take(0));
    while i < chars.len()
        invariant
            i <= chars@.len(),
            text@ == old(text)@ + chars@.take(i as int),
        decreases chars@.len() - i,
    {
        text.push(chars[i]);
        i += 1;
        assert(text@ =~= old(text)@ + chars@.take(i as int));
    }
    assert(chars@.take(i as int) =~= chars@);
}

/// Codes behind one that cannot be decoded are not shown.
proof fn lemma_rest_not_shown<E: TextEncoding>(encoding: E, codes: Seq<u8>, n: int, run: RunModel)
    requires
        0 <= n <= codes.len(),
        !codes_shown(encoding, codes.take(n), run).1,
    ensures
        codes_shown(encoding, codes, run) == codes_shown(encoding, codes.take(n), run),
    decreases codes.len() - n,
{
    if n < codes.len() {
        assert(codes.take(n + 1).drop_last() =~= codes.take(n));
        lemma_rest_not_shown(encoding, codes, n + 1, run);
    } else {
        assert(codes.take(n) =~= codes);
    }
}

struct RunReader<'a, E: TextEncoding, C: FontEncodings<E>> {
    reading: Reading<'a, C>,
    fonts: Vec<Font<E>>,
    runs: Vec<PageTextRun>,
    /// Content decoded so far, page and forms together, against the limits.
    spent: usize,
    /// The forms being read, outermost first, so a form that draws itself is read once.
    stack: Vec<ObjectId>,
}

impl<E: TextEncoding, C: FontEncodings<E>> View for RunReader<'_, E, C> {
    type V = ReaderModel<E>;

    closed spec fn view(&self) -> ReaderModel<E> {
        ReaderModel {
            fonts: font_models(self.fonts@),
            runs: run_models(self.runs@),
            spent: self.spent,
        }
    }
}

impl<'a, E: TextEncoding, C: FontEncodings<E>> RunReader<'a, E, C> {
    /// Reads a content stream, starting in `font`, the font of the graphics state it is drawn in: a
    /// form inherits the font of the content that draws it.
    fn read(&mut self, scope: &Scope, content: &mut PageContent<'a>, font: Option<usize>) -> (r:
        Result<()>)
        requires
            old(content).well_formed(),
            old(content).document() == old(self).reading.content,
            old(content).limits() == old(self).reading.limits,
            places_below(scope@, old(self).fonts@.len()),
            place_below(font, old(self).fonts@.len()),
        ensures
            final(self).reading == old(self).reading,
            final(self).stack@ == old(self).stack@,
            old(self).fonts@.len() <= final(self).fonts@.len(),
            ({
                let (reader, failure) = content_drawn::<E, C>(
                    old(self).reading@,
                    scope@,
                    old(self).stack@,
                    old(content).progress(),
                    font,
                    old(self)@,
                );
                &&& final(self)@ == reader
                &&& match r {
                    Ok(_) => failure is None,
                    Err(error) => failure == Some(error),
                }
            }),
        decreases MAX_FORM_DEPTH - old(self).stack@.len(), 1int,
    {
        let ghost objects = self.reading.content.stored();
        let mut bytes: Vec<u8> = Vec::new();
        let failure = content.read_rest(&mut bytes);
        assert(bytes@ =~= content_rest(objects, self.reading.limits, old(content).progress()).0);
        self.spent = content.len();
        let (operations, too_long) = operations(bytes.as_slice(), self.reading.limits.max_stream_size);
        let ghost models = operation_models(operations@);
        let mut drawing = Drawing { font, saved: Vec::new(), run: Run::new() };
        assert(drawing.model(self@).saved =~= Seq::<Option<usize>>::empty());
        let ghost drawn = operations_drawn::<E, C>(
            self.reading@,
            scope@,
            self.stack@,
            models,
            0,
            drawing.model(self@),
        );
        let mut i: usize = 0;
        while i < operations.len()
            invariant
                i <= operations@.len(),
                models == operation_models(operations@),
                self.reading == old(self).reading,
                self.stack@ == old(self).stack@,
                old(self).fonts@.len() <= self.fonts@.len(),
                places_below(scope@, self.fonts@.len()),
                drawing.places_below(self.fonts@.len()),
                drawn == operations_drawn::<E, C>(
                    self.reading@,
                    scope@,
                    self.stack@,
                    models,
                    i as nat,
                    drawing.model(self@),
                ),
            decreases operations@.len() - i,
        {
            let operation = &operations[i];
            assert(models[i as int] == operation@);
            if self.reading.forms && spells(operation.operator.as_slice(), "Do") {
                self.push(&mut drawing);
                if let Some(id) = self.form_drawn(scope, &operation.operands) {
                    self.read_form(scope, id, drawing.font);
                }
            } else {
                self.draw(scope, operation, &mut drawing);
            }
            i += 1;
        }
        if let Some(error) = too_long {
            return Err(error);
        }
        if let Some(error) = failure {
            return Err(error);
        }
        self.push(&mut drawing);
        Ok(())
    }

    /// Reads form `id`, drawn by content with `outer` in the font `font`. One that cannot be read to
    /// its end leaves the runs it completed.
    fn read_form(&mut self, outer: &Scope, id: ObjectId, font: Option<usize>)
        requires
            old(self).stack@.len() < MAX_FORM_DEPTH,
            places_below(outer@, old(self).fonts@.len()),
            place_below(font, old(self).fonts@.len()),
        ensures
            final(self).reading == old(self).reading,
            final(self).stack@ == old(self).stack@,
            old(self).fonts@.len() <= final(self).fonts@.len(),
            final(self)@ == form_read::<E, C>(
                old(self).reading@,
                outer@,
                old(self).stack@,
                id,
                font,
                old(self)@,
            ),
        decreases MAX_FORM_DEPTH - old(self).stack@.len(), 0int,
    {
        let document = self.reading.document;
        let form = match document.form(id) {
            Some(form) => form,
            None => {
                return ;
            },
        };
        let mut streams: Vec<ObjectId> = Vec::new();
        streams.push(id);
        assert(streams@ =~= seq![id]);
        let mut content = PageContent::of_streams(
            self.reading.content,
            streams,
            self.reading.limits,
            self.spent,
        );
        let ghost stack = self.stack@;
        match document.reach_dictionary(form, "Resources") {
            Some(resources) => {
                let mut inner = Scope { fonts: NameMap::new(), forms: NameMap::new() };
                self.reading.scope_with(resources, &mut inner, &mut self.fonts);
                self.stack.push(id);
                assert(self.stack@ =~= stack.push(id));
                let _ = self.read(&inner, &mut content, font);
            },
            None => {
                self.stack.push(id);
                assert(self.stack@ =~= stack.push(id));
                let _ = self.read(outer, &mut content, font);
            },
        }
        let _ = self.stack.pop();
        assert(self.stack@ =~= stack);
    }

    /// The form that a `Do` draws, unless it is being drawn already, or too deep inside others.
    fn form_drawn(&self, scope: &Scope, operands: &Vec<Object>) -> (r: Option<ObjectId>)
        ensures
            r == form_drawn_by(scope@, self.stack@, values(operands@)),
            r is Some ==> self.stack@.len() < MAX_FORM_DEPTH,
    {
        let name = match name_first(operands) {
            Some(name) => name,
            None => {
                return None;
            },
        };
        let id = match scope.forms.get(name) {
            Some(id) => id,
            None => {
                return None;
            },
        };
        if self.stack.len() >= MAX_FORM_DEPTH {
            return None;
        }
        let mut i: usize = 0;
        while i < self.stack.len()
            invariant
                i <= self.stack@.len(),
                first_name(values(operands@)) == Some(name@),
                scope.forms@.contains_pair(name@, id),
                forall|j: int| 0 <= j < i ==> #[trigger] self.stack@[j] != id,
            decreases self.stack@.len() - i,
        {
            if self.stack[i].0 == id.0 && self.stack[i].1 == id.1 {
                assert(self.stack@.contains(self.stack@[i as int]));
                return None;
            }
            i += 1;
        }
        Some(id)
    }

    /// Draws any operation but `Do`.
    fn draw(&mut self, scope: &Scope, operation: &Operation, drawing: &mut Drawing)
        requires
            places_below(scope@, old(self).fonts@.len()),
            old(drawing).places_below(old(self).fonts@.len()),
        ensures
            final(self).reading == old(self).reading,
            final(self).stack == old(self).stack,
            final(self).fonts == old(self).fonts,
            final(drawing).places_below(final(self).fonts@.len()),
            final(drawing).model(final(self)@) == operation_drawn(
                scope@,
                operation@,
                old(drawing).model(old(self)@),
            ),
    {
        let operator = operation.operator.as_slice();
        if spells(operator, "Tf") {
            self.push(drawing);
            drawing.font = match name_first(&operation.operands) {
                Some(name) => match scope.fonts.get(name) {
                    Some(font) => {
                        assert(scope@.fonts[name@] == font);
                        font
                    },
                    None => None,
                },
                None => None,
            };
        } else if spells(operator, "q") {
            drawing.saved.push(drawing.font);
        } else if spells(operator, "Q") {
            if drawing.saved.len() > 0 {
                let restored = drawing.saved[drawing.saved.len() - 1];
                if !same_font(restored, drawing.font) {
                    self.push(drawing);
                }
                let ghost before = drawing.saved@;
                let _ = drawing.saved.pop();
                assert(drawing.saved@ =~= before.drop_last());
                drawing.font = restored;
            }
        } else if spells(operator, "Tj") || spells(operator, "TJ") {
            self.show(&operation.operands, drawing);
        } else if spells(operator, "'") {
            self.show_line(&operation.operands, 0, drawing);
        } else if spells(operator, "\"") {
            self.show_line(&operation.operands, 2, drawing);
        } else if spells(operator, "T*") || spells(operator, "ET") {
            drawing.run.line_break();
        }
    }

    /// Shows the strings of a text operator, in the font that is set.
    fn show(&self, operands: &Vec<Object>, drawing: &mut Drawing)
        requires
            old(drawing).places_below(self.fonts@.len()),
        ensures
            final(drawing).places_below(self.fonts@.len()),
            final(drawing).model(self@) == text_shown(values(operands@), old(drawing).model(self@)),
    {
        if let Some(font) = drawing.font {
            let _ = drawing.run.collect(&self.fonts[font].encoding, operands);
        }
    }

    /// Moves to the next line, and shows the operand at `at`.
    fn show_line(&self, operands: &Vec<Object>, at: usize, drawing: &mut Drawing)
        requires
            old(drawing).places_below(self.fonts@.len()),
        ensures
            final(drawing).places_below(self.fonts@.len()),
            final(drawing).model(self@) == line_shown(
                values(operands@),
                at as int,
                old(drawing).model(self@),
            ),
    {
        if drawing.font.is_some() {
            drawing.run.line_break();
            if at < operands.len() {
                let mut shown: Vec<Object> = Vec::new();
                shown.push(operands[at].clone());
                assert(values(shown@) =~= seq![values(operands@)[at as int]]);
                self.show(&shown, drawing);
            }
        }
    }

    /// Ends the run being read, if there is any text in it.
    fn push(&mut self, drawing: &mut Drawing)
        requires
            old(drawing).places_below(old(self).fonts@.len()),
        ensures
            final(self).reading == old(self).reading,
            final(self).stack == old(self).stack,
            final(self).fonts == old(self).fonts,
            final(drawing).font == old(drawing).font,
            final(drawing).saved == old(drawing).saved,
            final(drawing).model(final(self)@) == run_ended(old(drawing).model(old(self)@)),
    {
        if drawing.run.text.as_str().is_empty() {
            return ;
        }
        let mut run = Run::new();
        std::mem::swap(&mut run, &mut drawing.run);
        let ghost before = self@.runs;
        let (font, differences) = match drawing.font {
            Some(font) => (
                to_vec(self.fonts[font].name.as_slice()),
                copy_names(&self.fonts[font].differences),
            ),
            None => {
                let none: BTreeMap<u8, Vec<u8>> = BTreeMap::new();
                assert(name_models(none@) =~= Map::<u8, Seq<u8>>::empty());
                (Vec::new(), none)
            },
        };
        let ended = PageTextRun { font, text: run.text, codes: run.codes, differences };
        let ghost model = ended@;
        self.runs.push(ended);
        assert(run_models(self.runs@) =~= before.push(model));
    }
}

/// How far a content stream has been drawn.
struct Drawing {
    font: Option<usize>,
    /// The fonts that `q` saved.
    saved: Vec<Option<usize>>,
    run: Run,
}

impl Drawing {
    spec fn model<E>(&self, reader: ReaderModel<E>) -> DrawModel<E> {
        DrawModel { font: self.font, saved: self.saved@, run: self.run@, reader }
    }

    spec fn places_below(&self, count: nat) -> bool {
        &&& place_below(self.font, count)
        &&& forall|i: int| 0 <= i < self.saved@.len() ==> place_below(#[trigger] self.saved@[i], count)
    }
}

fn same_font(a: Option<usize>, b: Option<usize>) -> (r: bool)
    ensures
        r == (a == b),
{
    match (a, b) {
        (Some(a), Some(b)) => a == b,
        (None, None) => true,
        _ => false,
    }
}

/// The name that an operation's first operand is.
fn name_first(operands: &Vec<Object>) -> (r: Option<&[u8]>)
    ensures
        match r {
            Some(name) => first_name(values(operands@)) == Some(name@),
            None => first_name(values(operands@)) is None,
        },
{
    if operands.len() == 0 {
        return None;
    }
    assert(values(operands@)[0] == value(operands@[0]));
    match &operands[0] {
        Object::Name(name) => Some(name.as_slice()),
        _ => None,
    }
}

} // verus!
