//! The fonts that content can name, and what they say of their codes.

use vstd::prelude::*;

use crate::bytes::key;
use crate::document::{chased, reached, reached_entry, DEREF_LIMIT};
use crate::error::Error;
use crate::font_encoding::{
    encoded_text, win_ansi_char, Encoding, FontEncodings, NamedEncodings, TextEncoding,
};
use crate::laws::lemma_keys_differ;
use crate::object::{dictionary_in, distinct_keys, named_entry, Entries, ObjectId, Value};
use crate::page_text_runs::{
    base_font_name, differences_listed, differences_of, font_of, fonts_named, form_scope,
    forms_named, page_scope, resources_along, scope_with, FontModel, ScopeModel, TextSource,
};

verus! {

/// The name of a font is its `/BaseFont`, without the six capitals and the `+` that mark part of a font.
pub proof fn lemma_base_font(font: Entries, name: Seq<u8>, tag: Seq<u8>, rest: Seq<u8>)
    requires
        named_entry(font, "BaseFont"@) == Some(Value::Name(name)),
    ensures
        tag.len() == 6 && (forall|i: int| 0 <= i < 6 ==> 0x41 <= #[trigger] tag[i] <= 0x5a) && name
            == tag.push(0x2b) + rest ==> base_font_name(font) == rest,
        name.len() < 7 || name[6] != 0x2b || (exists|i: int|
            0 <= i < 6 && !(0x41 <= #[trigger] name[i] <= 0x5a)) ==> base_font_name(font) == name,
{
    if tag.len() == 6 && (forall|i: int| 0 <= i < 6 ==> 0x41 <= #[trigger] tag[i] <= 0x5a) && name
        == tag.push(0x2b) + rest {
        assert forall|i: int| 0 <= i < 6 implies 0x41 <= #[trigger] name[i] <= 0x5a by {
            assert(name[i] == tag[i]);
        }
        assert(name[6] == 0x2b);
        assert(name.skip(7) =~= rest);
    }
}

/// Whether `items` are a code and the names of the codes from it on.
pub open spec fn are_names_from(items: Seq<Value>, code: i64, names: Seq<Seq<u8>>) -> bool {
    &&& items.len() == names.len() + 1
    &&& items[0] == Value::Integer(code)
    &&& forall|k: int| 0 <= k < names.len() ==> items[k + 1] == Value::Name(#[trigger] names[k])
}

proof fn lemma_names_from(
    items: Seq<Value>,
    code: i64,
    names: Seq<Seq<u8>>,
    all: Seq<Value>,
    at: nat,
    k: nat,
    known: Map<u8, Seq<u8>>,
    c: u8,
) -> (next: (Map<u8, Seq<u8>>, Option<u8>))
    requires
        are_names_from(items, code, names),
        at + items.len() <= all.len(),
        all.subrange(at as int, at as int + items.len()) == items,
        0 <= code <= 255,
        k <= names.len(),
    ensures
        differences_listed(
            all,
            at + 1 + k,
            if code + k <= 255 {
                Some((code + k) as u8)
            } else {
                None
            },
            known,
        ) == differences_listed(all, at + items.len(), next.1, next.0),
        code + k <= c < code + names.len() ==> next.0.contains_pair(c, names[c - code]),
        !(code + k <= c < code + names.len()) ==> next.0.contains_key(c) == known.contains_key(c)
            && next.0[c] == known[c],
    decreases names.len() - k,
{
    let now: Option<u8> = if code + k <= 255 {
        Some((code + k) as u8)
    } else {
        None
    };
    if k == names.len() {
        (known, now)
    } else {
        assert(all[at as int + 1 + k] == all.subrange(at as int, at as int + items.len())[1 + k as int]);
        assert(items[k as int + 1] == Value::Name(names[k as int]));
        let more = match now {
            Some(code) => known.insert(code, names[k as int]),
            None => known,
        };
        lemma_names_from(items, code, names, all, at, k + 1, more, c)
    }
}

/// A number and names give the codes from the number on those names, as far as there are codes, over the
/// names that codes have before; and what comes next, if it starts with a number, goes over these.
pub proof fn lemma_differences_in_turn(
    items: Seq<Value>,
    code: i64,
    names: Seq<Seq<u8>>,
    all: Seq<Value>,
    at: nat,
    before: Option<u8>,
    known: Map<u8, Seq<u8>>,
    c: u8,
) -> (next: Map<u8, Seq<u8>>)
    requires
        are_names_from(items, code, names),
        at + items.len() <= all.len(),
        all.subrange(at as int, at as int + items.len()) == items,
        0 <= code <= 255,
        at + items.len() < all.len() ==> all[(at + items.len()) as int] is Integer,
    ensures
        differences_listed(all, at, before, known) == differences_listed(
            all,
            at + items.len(),
            None,
            next,
        ),
        code <= c < code + names.len() ==> next.contains_pair(c, names[c - code]),
        !(code <= c < code + names.len()) ==> next.contains_key(c) == known.contains_key(c) && next[c]
            == known[c],
{
    assert(all[at as int] == all.subrange(at as int, at as int + items.len())[0]);
    let (next, now) = lemma_names_from(items, code, names, all, at, 0, known, c);
    assert(differences_listed(all, at + items.len(), now, next) == differences_listed(
        all,
        at + items.len(),
        None,
        next,
    ));
    next
}

/// The names that a font gives its codes are those of its `/Encoding`'s `/Differences`.
pub proof fn lemma_differences(
    objects: Map<ObjectId, Value>,
    font: Entries,
    encoding: Entries,
    items: Seq<Value>,
    code: i64,
    names: Seq<Seq<u8>>,
    c: u8,
)
    requires
        reached_entry(objects, font, "Encoding"@) == Some(Value::Dictionary(encoding)),
        reached_entry(objects, encoding, "Differences"@) == Some(Value::Array(items)),
        are_names_from(items, code, names),
        0 <= code <= 255,
    ensures
        code <= c < code + names.len() ==> differences_of(objects, font).contains_pair(
            c,
            names[c - code],
        ),
        !(code <= c < code + names.len()) ==> !differences_of(objects, font).contains_key(c),
{
    assert(items.subrange(0, items.len() as int) =~= items);
    let next = lemma_differences_in_turn(items, code, names, items, 0, None, Map::empty(), c);
    assert(differences_listed(items, items.len(), None, next) == next);
}

/// A font without a dictionary of differences gives no code a name.
pub proof fn lemma_no_differences(objects: Map<ObjectId, Value>, font: Entries)
    requires
        !(reached_entry(objects, font, "Encoding"@) matches Some(Value::Dictionary(encoding))
            && reached_entry(objects, encoding, "Differences"@) is Some),
    ensures
        differences_of(objects, font) == Map::<u8, Seq<u8>>::empty(),
{
}

/// Whether the font under `name` in `entries` is `font`, or, where it has no encoding, none.
pub open spec fn gives_font<E: TextEncoding, C: FontEncodings<E>>(
    source: TextSource<C>,
    font: Entries,
    place: Option<usize>,
    met: Seq<FontModel<E>>,
) -> bool {
    match source.encodings.encoding_of(source.objects, font, source.limits.max_stream_size) {
        Some(encoding) => place matches Some(p) && p < met.len() && met[p as int].name
            == base_font_name(font) && met[p as int].encoding == encoding && met[p as int].differences
            == differences_of(source.objects, font),
        None => place is None,
    }
}

/// Whether one of `entries` from `i` on has the name `name`.
pub open spec fn named_from(entries: Entries, i: nat, name: Seq<u8>) -> bool {
    exists|k: int| i <= k < entries.len() && (#[trigger] entries[k]).0 == name
}

/// The fonts of a dictionary come in front of those known before: under a name that it has no font for is
/// the one known before, and fonts met before stay where they are.
pub proof fn lemma_other_fonts_stay<E: TextEncoding, C: FontEncodings<E>>(
    source: TextSource<C>,
    entries: Entries,
    i: nat,
    fonts: Map<Seq<u8>, Option<usize>>,
    met: Seq<FontModel<E>>,
    other: Seq<u8>,
)
    requires
        i <= entries.len(),
    ensures
        ({
            let (after, all) = fonts_named::<E, C>(source, entries, i, fonts, met);
            &&& met.len() <= all.len() <= met.len() + (entries.len() - i)
            &&& all.take(met.len() as int) == met
            &&& !named_from(entries, i, other) ==> (after.contains_key(other) <==> fonts.contains_key(
                other,
            )) && after[other] == fonts[other]
        }),
    decreases entries.len() - i,
{
    let (after, all) = fonts_named::<E, C>(source, entries, i, fonts, met);
    if i < entries.len() {
        let (name, value) = entries[i as int];
        let (next, more) = match dictionary_in(reached(source.objects, value)) {
            Some(font) => match font_of::<E, C>(source, font) {
                Some(font) => (fonts.insert(name, Some(met.len() as usize)), met.push(font)),
                None => (fonts.insert(name, None), met),
            },
            None => (fonts, met),
        };
        lemma_other_fonts_stay::<E, C>(source, entries, i + 1, next, more, other);
        assert((after, all) == fonts_named::<E, C>(source, entries, i + 1, next, more));
        assert(all.take(met.len() as int) =~= met) by {
            assert forall|k: int| 0 <= k < met.len() implies all[k] == met[k] by {
                assert(all.take(more.len() as int)[k] == more[k]);
            }
        }
        if !named_from(entries, i, other) {
            assert(entries[i as int].0 != other);
            assert(!named_from(entries, i + 1, other));
        }
    } else {
        assert(all.take(met.len() as int) =~= met);
    }
}

/// Under each name of a dictionary is the font that the dictionary has there, with its name, its encoding
/// and its differences.
pub proof fn lemma_fonts_in_front<E: TextEncoding, C: FontEncodings<E>>(
    source: TextSource<C>,
    entries: Entries,
    i: nat,
    fonts: Map<Seq<u8>, Option<usize>>,
    met: Seq<FontModel<E>>,
    at: int,
    font: Entries,
)
    requires
        distinct_keys(entries),
        met.len() + (entries.len() - i) <= usize::MAX,
        i <= at < entries.len(),
        reached(source.objects, entries[at].1) == Some(Value::Dictionary(font)),
    ensures
        ({
            let (after, all) = fonts_named::<E, C>(source, entries, i, fonts, met);
            after.contains_key(entries[at].0) && gives_font::<E, C>(
                source,
                font,
                after[entries[at].0],
                all,
            )
        }),
    decreases entries.len() - i,
{
    let (after, all) = fonts_named::<E, C>(source, entries, i, fonts, met);
    let (name, value) = entries[i as int];
    let (next, more) = match dictionary_in(reached(source.objects, value)) {
        Some(font) => match font_of::<E, C>(source, font) {
            Some(font) => (fonts.insert(name, Some(met.len() as usize)), met.push(font)),
            None => (fonts.insert(name, None), met),
        },
        None => (fonts, met),
    };
    assert((after, all) == fonts_named::<E, C>(source, entries, i + 1, next, more));
    if at > i {
        lemma_fonts_in_front::<E, C>(source, entries, i + 1, next, more, at, font);
    } else {
        lemma_other_fonts_stay::<E, C>(source, entries, i + 1, next, more, name);
        assert(!named_from(entries, i + 1, name)) by {
            assert forall|k: int| i + 1 <= k < entries.len() implies (#[trigger] entries[k]).0
                != name by {
                assert(entries[i as int].0 != entries[k].0);
            }
        }
        if more.len() > met.len() {
            assert(all.take(more.len() as int)[met.len() as int] == more[met.len() as int]);
        }
    }
}

/// The forms of a dictionary come in front of those known before: under a name that it does not have is the
/// one known before.
pub proof fn lemma_other_forms_stay(
    entries: Entries,
    i: nat,
    forms: Map<Seq<u8>, ObjectId>,
    other: Seq<u8>,
)
    requires
        i <= entries.len(),
        !named_from(entries, i, other),
    ensures
        forms_named(entries, i, forms).contains_key(other) <==> forms.contains_key(other),
        forms_named(entries, i, forms)[other] == forms[other],
    decreases entries.len() - i,
{
    if i < entries.len() {
        assert(entries[i as int].0 != other);
        assert(!named_from(entries, i + 1, other));
        let next = match entries[i as int].1 {
            Value::Reference(id) => forms.insert(entries[i as int].0, id),
            _ => forms,
        };
        assert(forms_named(entries, i, forms) == forms_named(entries, i + 1, next));
        lemma_other_forms_stay(entries, i + 1, next, other);
    }
}

/// Under each name of a dictionary is the object that the dictionary refers to there.
pub proof fn lemma_forms_in_front(
    entries: Entries,
    i: nat,
    forms: Map<Seq<u8>, ObjectId>,
    at: int,
    id: ObjectId,
)
    requires
        distinct_keys(entries),
        i <= at < entries.len(),
        entries[at].1 == Value::Reference(id),
    ensures
        forms_named(entries, i, forms).contains_pair(entries[at].0, id),
    decreases entries.len() - i,
{
    let name = entries[i as int].0;
    let next = match entries[i as int].1 {
        Value::Reference(id) => forms.insert(name, id),
        _ => forms,
    };
    assert(forms_named(entries, i, forms) == forms_named(entries, i + 1, next));
    if at > i {
        lemma_forms_in_front(entries, i + 1, next, at, id);
    } else {
        assert(!named_from(entries, i + 1, name)) by {
            assert forall|k: int| i + 1 <= k < entries.len() implies (#[trigger] entries[k]).0
                != name by {
                assert(entries[i as int].0 != entries[k].0);
            }
        }
        lemma_other_forms_stay(entries, i + 1, next, name);
    }
}

/// What content with `resources` can name is the fonts of their `/Font` and the forms of their `/XObject`,
/// in front of what is known before; and without one of these, what is known before.
pub proof fn lemma_scopes<E: TextEncoding, C: FontEncodings<E>>(
    source: TextSource<C>,
    resources: Entries,
    scope: ScopeModel,
    met: Seq<FontModel<E>>,
)
    ensures
        ({
            let (inner, all) = scope_with::<E, C>(source, resources, scope, met);
            &&& match reached_entry(source.objects, resources, "Font"@) {
                Some(Value::Dictionary(fonts)) => (inner.fonts, all) == fonts_named::<E, C>(
                    source,
                    fonts,
                    0,
                    scope.fonts,
                    met,
                ),
                _ => inner.fonts == scope.fonts && all == met,
            }
            &&& match reached_entry(source.objects, resources, "XObject"@) {
                Some(Value::Dictionary(forms)) => inner.forms == forms_named(forms, 0, scope.forms),
                _ => inner.forms == scope.forms,
            }
        }),
{
}

/// A form can name what its own resources do, and nothing else; without resources, what the content that
/// draws it can.
pub proof fn lemma_form_scopes<E: TextEncoding, C: FontEncodings<E>>(
    source: TextSource<C>,
    id: ObjectId,
    form: Entries,
    outer: ScopeModel,
    met: Seq<FontModel<E>>,
)
    requires
        chased(source.objects, id, DEREF_LIMIT as nat) matches Ok(object) && (object
            == Value::Dictionary(form) || (object matches Value::Stream(entries, _) && entries == form)),
    ensures
        named_entry(form, "Subtype"@) != Some(Value::Name(key("Form"@))) ==> form_scope::<E, C>(
            source,
            id,
            outer,
            met,
        ) is None,
        named_entry(form, "Subtype"@) == Some(Value::Name(key("Form"@))) ==> match reached_entry(
            source.objects,
            form,
            "Resources"@,
        ) {
            Some(Value::Dictionary(resources)) => form_scope::<E, C>(source, id, outer, met) == Some(
                scope_with::<E, C>(
                    source,
                    resources,
                    ScopeModel { fonts: Map::empty(), forms: Map::empty() },
                    met,
                ),
            ),
            _ => form_scope::<E, C>(source, id, outer, met) == Some((outer, met)),
        },
{
}

/// A page can name what its own resources do in front of what those of its ancestors do, the nearest
/// first.
pub proof fn lemma_nearest_resources_in_front<E: TextEncoding, C: FontEncodings<E>>(
    source: TextSource<C>,
    nearest: Entries,
    others: Seq<Entries>,
)
    ensures
        ({
            let (scope, met) = page_scope::<E, C>(source, others);
            page_scope::<E, C>(source, seq![nearest] + others) == scope_with::<E, C>(
                source,
                nearest,
                scope,
                met,
            )
        }),
        page_scope::<E, C>(source, Seq::empty()) == (
            ScopeModel { fonts: Map::<Seq<u8>, Option<usize>>::empty(), forms: Map::empty() },
            Seq::<FontModel<E>>::empty(),
        ),
{
    let all = seq![nearest] + others;
    assert(all[0] == nearest);
    assert(all.drop_first() =~= others);
}

/// Whether `ids` are a page and its ancestors, each the `/Parent` of the one before, up to the one
/// without, with `nodes` their dictionaries.
pub open spec fn are_ancestors(
    objects: Map<ObjectId, Value>,
    ids: Seq<ObjectId>,
    nodes: Seq<Entries>,
) -> bool {
    &&& ids.len() > 0
    &&& nodes.len() == ids.len()
    &&& forall|i: int|
        0 <= i < ids.len() ==> chased(objects, #[trigger] ids[i], DEREF_LIMIT as nat) == Ok::<
            Value,
            Error,
        >(Value::Dictionary(nodes[i]))
    &&& forall|i: int|
        0 <= i < nodes.len() - 1 ==> named_entry(#[trigger] nodes[i], "Parent"@) == Some(
            Value::Reference(ids[i + 1]),
        )
    &&& named_entry(nodes.last(), "Parent"@) is None
}

/// Whether `own` are the resources that a node has: its `/Resources`, if that is a dictionary, or none.
pub open spec fn are_own_resources(
    objects: Map<ObjectId, Value>,
    node: Entries,
    own: Seq<Entries>,
) -> bool {
    match reached_entry(objects, node, "Resources"@) {
        Some(Value::Dictionary(resources)) => own == seq![resources],
        _ => own == Seq::<Entries>::empty(),
    }
}

/// The resources along a page's ancestors are those of the page and of each ancestor that has any, the
/// page's first.
pub proof fn lemma_resources_along(
    objects: Map<ObjectId, Value>,
    ids: Seq<ObjectId>,
    nodes: Seq<Entries>,
    own: Seq<Seq<Entries>>,
    left: nat,
)
    requires
        are_ancestors(objects, ids, nodes),
        own.len() == nodes.len(),
        forall|i: int|
            0 <= i < nodes.len() ==> are_own_resources(objects, nodes[i], #[trigger] own[i]),
        ids.len() <= left + 1,
    ensures
        resources_along(objects, ids[0], left) == own.flatten(),
    decreases ids.len(),
{
    assert(chased(objects, ids[0], DEREF_LIMIT as nat) == Ok::<Value, Error>(
        Value::Dictionary(nodes[0]),
    ));
    assert(are_own_resources(objects, nodes[0], own[0]));
    let rest = own.drop_first();
    if ids.len() == 1 {
        assert(rest =~= Seq::empty());
        assert(own.flatten() =~= own[0] + rest.flatten());
        assert(rest.flatten() =~= Seq::empty());
        assert(own[0] + Seq::<Entries>::empty() =~= own[0]);
    } else {
        let later = ids.drop_first();
        let others = nodes.drop_first();
        assert(named_entry(nodes[0], "Parent"@) == Some(Value::Reference(ids[0 + 1int])));
        assert(later[0] == ids[1]);
        assert forall|i: int| 0 <= i < later.len() implies chased(
            objects,
            #[trigger] later[i],
            DEREF_LIMIT as nat,
        ) == Ok::<Value, Error>(Value::Dictionary(others[i])) by {
            assert(later[i] == ids[i + 1]);
        }
        assert forall|i: int| 0 <= i < others.len() - 1 implies named_entry(
            #[trigger] others[i],
            "Parent"@,
        ) == Some(Value::Reference(later[i + 1])) by {
            assert(others[i] == nodes[i + 1]);
        }
        assert(others.last() == nodes.last());
        assert forall|i: int| 0 <= i < others.len() implies are_own_resources(
            objects,
            others[i],
            #[trigger] rest[i],
        ) by {
            assert(are_own_resources(objects, nodes[i + 1], own[i + 1]));
        }
        lemma_resources_along(objects, later, others, rest, (left - 1) as nat);
        assert(own.flatten() == own[0] + rest.flatten());
    }
}

/// A code of a named encoding shows the character it stands for, or nothing, and a string the characters of
/// its codes, one after the other.
pub proof fn lemma_named_encodings(encoding: Encoding, codes: Seq<u8>, others: Seq<u8>)
    ensures
        encoding.byte_by_byte(),
        encoding.text_of(codes + others) == Some(
            encoding.text_of(codes)->Some_0 + encoding.text_of(others)->Some_0,
        ),
        encoding.text_of(Seq::empty()) == Some(Seq::<char>::empty()),
    decreases others.len(),
{
    let text = encoded_text(encoding, codes);
    if others.len() == 0 {
        assert(codes + others =~= codes);
        assert(text + encoded_text(encoding, others) =~= text);
    } else {
        let fewer = others.drop_last();
        lemma_named_encodings(encoding, codes, fewer);
        assert((codes + others).drop_last() =~= codes + fewer);
        assert((codes + others).last() == others.last());
        assert(encoded_text(encoding, codes + others) =~= text + encoded_text(encoding, others));
    }
}

/// In WinAnsiEncoding ASCII and the second half of Latin-1 are themselves.
pub proof fn lemma_win_ansi(code: u8)
    ensures
        0x20 <= code <= 0x7e || 0xa0 <= code ==> Encoding::WinAnsi.text_of(seq![code]) == Some(
            seq![code as char],
        ),
        code < 0x20 ==> Encoding::WinAnsi.text_of(seq![code]) == Some(Seq::<char>::empty()),
        code >= 0x20 ==> (Encoding::WinAnsi.text_of(seq![code]) matches Some(text) && text.len() == 1),
{
    let codes = seq![code];
    assert(codes.drop_last() =~= Seq::empty());
    assert(codes.last() == code);
    assert(encoded_text(Encoding::WinAnsi, codes.drop_last()) =~= Seq::empty());
    if let Some(c) = win_ansi_char(code) {
        assert(Seq::<char>::empty().push(c) =~= seq![c]);
    }
}

/// A font has the encoding that its `/Encoding` names, or, where that is a dictionary, its
/// `/BaseEncoding`.
pub proof fn lemma_encodings_of_fonts(
    objects: Map<ObjectId, Value>,
    font: Entries,
    limit: usize,
    name: Seq<u8>,
)
    requires
        reached_entry(objects, font, "Encoding"@) == Some(Value::Name(name)) || (reached_entry(
            objects,
            font,
            "Encoding"@,
        ) matches Some(Value::Dictionary(encoding)) && named_entry(encoding, "BaseEncoding"@) == Some(
            Value::Name(name),
        )),
    ensures
        name == key("WinAnsiEncoding"@) ==> NamedEncodings.encoding_of(objects, font, limit) == Some(
            Encoding::WinAnsi,
        ),
        name == key("PDFDocEncoding"@) ==> NamedEncodings.encoding_of(objects, font, limit) == Some(
            Encoding::PdfDoc,
        ),
        name != key("WinAnsiEncoding"@) && name != key("PDFDocEncoding"@) ==> NamedEncodings.encoding_of(
            objects,
            font,
            limit,
        ) is None,
{
    reveal_strlit("WinAnsiEncoding");
    reveal_strlit("PDFDocEncoding");
    lemma_keys_differ("WinAnsiEncoding"@, "PDFDocEncoding"@);
}

} // verus!
