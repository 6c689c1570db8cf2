//! Where destinations lead, and the views that they show.

use vstd::prelude::*;

use crate::bytes::{before, key};
use crate::destinations::{
    excluded, explicit_target, item_target, name_tree_value, name_tree_value_in, name_value,
    page_number, DestinationView,
};
use crate::laws::lemma_keys_differ;
use crate::number::{nearest, Real};
use crate::object::{entry, named_entry, Entries, ObjectId, StringFormat, Value};
use crate::resolver::{followed, followed_entry, found, Model};

verus! {

/// Whether `coordinate` is what the item at `index` of a destination array gives: a real itself, an
/// integer as a real, and nothing where there is no number.
pub open spec fn is_coordinate(array: Seq<Value>, index: int, coordinate: Option<Real>) -> bool {
    if index >= array.len() {
        coordinate is None
    } else {
        match array[index] {
            Value::Real(r) => coordinate == Some(r),
            Value::Integer(n) => coordinate == Some(nearest(n as int)),
            _ => coordinate is None,
        }
    }
}

/// Whether there is a number at `index` of a destination array.
pub open spec fn has_number(array: Seq<Value>, index: int) -> bool {
    index < array.len() && (array[index] is Real || array[index] is Integer)
}

proof fn lemma_view_names_differ()
    ensures
        forall|i: int, j: int|
            0 <= i < j < view_names().len() ==> #[trigger] view_names()[i]
                != #[trigger] view_names()[j],
{
    reveal_strlit("XYZ");
    reveal_strlit("Fit");
    reveal_strlit("FitH");
    reveal_strlit("FitV");
    reveal_strlit("FitR");
    reveal_strlit("FitB");
    reveal_strlit("FitBH");
    reveal_strlit("FitBV");
    let names = seq!["XYZ"@, "Fit"@, "FitH"@, "FitV"@, "FitR"@, "FitB"@, "FitBH"@, "FitBV"@];
    assert forall|i: int, j: int| 0 <= i < j < view_names().len() implies #[trigger] view_names()[i]
        != #[trigger] view_names()[j] by {
        assert(view_names()[i] == key(names[i]));
        assert(view_names()[j] == key(names[j]));
        lemma_keys_differ(names[i], names[j]);
        assert(names[i].len() != names[j].len() || names[i][0] != names[j][0] || names[i][3]
            != names[j][3] || names[i][4] != names[j][4]);
    }
}

/// The names of the views.
pub open spec fn view_names() -> Seq<Seq<u8>> {
    seq![
        key("XYZ"@),
        key("Fit"@),
        key("FitH"@),
        key("FitV"@),
        key("FitR"@),
        key("FitB"@),
        key("FitBH"@),
        key("FitBV"@),
    ]
}

/// Whether `view` is what a destination array with the name `name` behind its page shows.
pub open spec fn is_view(array: Seq<Value>, name: Seq<u8>, view: DestinationView) -> bool {
    &&& name == key("XYZ"@) ==> (view matches DestinationView::Xyz { left, top, zoom }
        && is_coordinate(array, 2, left) && is_coordinate(array, 3, top) && is_coordinate(
        array,
        4,
        zoom,
    ))
    &&& name == key("Fit"@) ==> view == DestinationView::Fit
    &&& name == key("FitH"@) ==> (view matches DestinationView::FitH { top } && is_coordinate(
        array,
        2,
        top,
    ))
    &&& name == key("FitV"@) ==> (view matches DestinationView::FitV { left } && is_coordinate(
        array,
        2,
        left,
    ))
    &&& name == key("FitR"@) ==> if has_number(array, 2) && has_number(array, 3) && has_number(
        array,
        4,
    ) && has_number(array, 5) {
        view matches DestinationView::FitR { left, bottom, right, top } && is_coordinate(
            array,
            2,
            Some(left),
        ) && is_coordinate(array, 3, Some(bottom)) && is_coordinate(array, 4, Some(right))
            && is_coordinate(array, 5, Some(top))
    } else {
        view == DestinationView::Unknown
    }
    &&& name == key("FitB"@) ==> view == DestinationView::FitB
    &&& name == key("FitBH"@) ==> (view matches DestinationView::FitBH { top } && is_coordinate(
        array,
        2,
        top,
    ))
    &&& name == key("FitBV"@) ==> (view matches DestinationView::FitBV { left } && is_coordinate(
        array,
        2,
        left,
    ))
    &&& !view_names().contains(name) ==> view == DestinationView::Unknown
}

/// The coordinates of a view are the numbers of its array, reals unchanged, and a coordinate is there
/// exactly when its item is a number; a view that is not named, or not known, is unknown.
pub proof fn lemma_views(pages: Seq<ObjectId>, array: Seq<Value>)
    ensures
        explicit_target(pages, array) matches Some(target) ==> {
            if array.len() > 1 && array[1] is Name {
                is_view(array, array[1]->Name_0, target.view)
            } else {
                target.view == DestinationView::Unknown
            }
        },
{
    lemma_view_names_differ();
    let names = view_names();
    assert(names[0] == key("XYZ"@) && names[1] == key("Fit"@) && names[2] == key("FitH"@)
        && names[3] == key("FitV"@));
    assert(names[4] == key("FitR"@) && names[5] == key("FitB"@) && names[6] == key("FitBH"@)
        && names[7] == key("FitBV"@));
    assert forall|i: int, j: int| 0 <= i < j < 8 implies #[trigger] names[i] != #[trigger] names[j] by {
    }
    if array.len() > 1 {
        if let Value::Name(name) = array[1] {
            assert forall|k: int| 0 <= k < 8 && name == names[k] implies names.contains(name) by {}
        }
    }
}

/// A destination is on the page that its first item refers to, at the last place where the document lists
/// it, or that it counts to from 0; with anything else in front it is nowhere.
pub proof fn lemma_destination_pages(pages: Seq<ObjectId>, array: Seq<Value>)
    requires
        pages.len() <= u32::MAX,
    ensures
        array.len() == 0 ==> explicit_target(pages, array) is None,
        array.len() > 0 ==> match array[0] {
            Value::Reference(id) => match explicit_target(pages, array) {
                Some(target) => {
                    &&& 1 <= target.page <= pages.len()
                    &&& pages[target.page - 1] == id
                    &&& forall|i: int| target.page <= i < pages.len() ==> pages[i] != id
                },
                None => !pages.contains(id),
            },
            Value::Integer(index) => match explicit_target(pages, array) {
                Some(target) => {
                    &&& target.page == index + 1
                    &&& 0 <= index < pages.to_set().len()
                },
                None => index < 0 || index >= pages.to_set().len() || index >= u32::MAX,
            },
            _ => explicit_target(pages, array) is None,
        },
        pages.no_duplicates() ==> pages.to_set().len() == pages.len(),
{
    if array.len() > 0 {
        if let Value::Reference(id) = array[0] {
            lemma_last_place(pages, id);
        }
    }
    if pages.no_duplicates() {
        pages.unique_seq_to_set();
    }
}

proof fn lemma_last_place(pages: Seq<ObjectId>, id: ObjectId)
    requires
        pages.len() <= u32::MAX,
    ensures
        match page_number(pages, id) {
            Some(page) => {
                &&& 1 <= page <= pages.len()
                &&& pages[page - 1] == id
                &&& forall|i: int| page <= i < pages.len() ==> pages[i] != id
            },
            None => !pages.contains(id),
        },
    decreases pages.len(),
{
    if pages.len() > 0 && pages.last() != id {
        let front = pages.drop_last();
        lemma_last_place(front, id);
        if let Some(page) = page_number(front, id) {
            assert(front[page - 1] == pages[page - 1]);
            assert forall|i: int| page <= i < pages.len() implies pages[i] != id by {
                if i < front.len() {
                    assert(front[i] != id);
                }
            }
        } else if pages.contains(id) {
            let i = pages.index_of(id);
            assert(front[i] == id);
        }
    }
}

/// Whether `node` says that it leads to `destination`: by its `/Dest`, or, without one, by the `/D` of its
/// `/GoTo` action.
pub open spec fn leads_to(model: Model, node: Entries, destination: Value) -> bool {
    ||| named_entry(node, "Dest"@) == Some(destination)
    ||| {
        &&& named_entry(node, "Dest"@) is None
        &&& followed_entry(model, node, "A"@) matches Some(Value::Dictionary(action))
            && named_entry(action, "S"@) == Some(Value::Name(key("GoTo"@)))
            && named_entry(action, "D"@) == Some(destination)
    }
}

/// An item with a destination array leads where the array says, whether it is its `/Dest` or the `/D` of
/// its `/GoTo` action, written there or referred to.
pub proof fn lemma_arrays_lead(
    model: Model,
    catalog: Entries,
    pages: Seq<ObjectId>,
    node: Entries,
    destination: Value,
    array: Seq<Value>,
)
    requires
        leads_to(model, node, destination),
        destination == Value::Array(array) || (destination matches Value::Reference(id)
            && model.objects.contains_pair(id, Value::Array(array))),
    ensures
        item_target(model, catalog, pages, node) == explicit_target(pages, array),
{
}

/// An item with any other action, or none, leads nowhere, and so does one whose destination is no array
/// and no name.
pub proof fn lemma_others_lead_nowhere(
    model: Model,
    catalog: Entries,
    pages: Seq<ObjectId>,
    node: Entries,
)
    requires
        forall|destination: Value| #[trigger]
            leads_to(model, node, destination) ==> match followed(model, destination) {
                Some(Value::Array(_)) => false,
                Some(Value::Name(_)) => false,
                Some(Value::String(_, _)) => false,
                _ => true,
            },
    ensures
        item_target(model, catalog, pages, node) is None,
{
    match named_entry(node, "Dest"@) {
        Some(destination) => {
            assert(leads_to(model, node, destination));
        },
        None => {
            if let Some(Value::Dictionary(action)) = followed_entry(model, node, "A"@) {
                if let Some(destination) = named_entry(action, "D"@) {
                    assert(named_entry(action, "S"@) == Some(Value::Name(key("GoTo"@)))
                        ==> leads_to(model, node, destination));
                }
            }
        },
    }
}

/// Whether `value` is the destination array `array`, or a dictionary with it under `/D`.
pub open spec fn gives_array(model: Model, value: Value, array: Seq<Value>) -> bool {
    ||| followed(model, value) == Some(Value::Array(array))
    ||| followed(model, value) matches Some(Value::Dictionary(entries)) && followed_entry(
        model,
        entries,
        "D"@,
    ) == Some(Value::Array(array))
}

/// A name leads where the catalog's `/Dests` says, and where these say nothing, where the tree under the
/// `/Dests` of its `/Names` says; written as a name or as a string.
pub proof fn lemma_names_lead(
    model: Model,
    catalog: Entries,
    pages: Seq<ObjectId>,
    node: Entries,
    name: Seq<u8>,
    format: StringFormat,
    value: Value,
    array: Seq<Value>,
)
    requires
        leads_to(model, node, Value::Name(name)) || leads_to(
            model,
            node,
            Value::String(name, format),
        ),
        gives_array(model, value, array),
    ensures
        (followed_entry(model, catalog, "Dests"@) matches Some(Value::Dictionary(dests)) && entry(
            dests,
            name,
        ) == Some(value)) ==> item_target(model, catalog, pages, node) == explicit_target(
            pages,
            array,
        ),
        (followed_entry(model, catalog, "Dests"@) matches Some(Value::Dictionary(dests)) ==> entry(
            dests,
            name,
        ) is None) && (followed_entry(model, catalog, "Names"@) matches Some(
            Value::Dictionary(names),
        ) && (named_entry(names, "Dests"@) matches Some(root) && name_tree_value(
            model,
            root,
            0,
            Set::empty(),
            name,
        ).0 == Some(value))) ==> item_target(model, catalog, pages, node) == explicit_target(
            pages,
            array,
        ),
{
}

/// A name that is listed under no `/Dests` leads nowhere.
pub proof fn lemma_unknown_names_lead_nowhere(
    model: Model,
    catalog: Entries,
    pages: Seq<ObjectId>,
    node: Entries,
    name: Seq<u8>,
)
    requires
        leads_to(model, node, Value::Name(name)),
        named_entry(catalog, "Dests"@) is None,
        named_entry(catalog, "Names"@) is None,
    ensures
        item_target(model, catalog, pages, node) is None,
{
}

/// The value of a name is the one behind the first place, counted in pairs, where the name is listed.
pub proof fn lemma_listed_name(names: Seq<Value>, name: Seq<u8>, k: int)
    requires
        0 <= k,
        2 * k + 1 < names.len(),
        names[2 * k] matches Value::String(listed, _) && listed == name,
        forall|j: int|
            0 <= j < k ==> (#[trigger] names[2 * j] matches Value::String(listed, _) ==> listed
                != name),
    ensures
        name_value(names, name) == Some(names[2 * k + 1]),
    decreases k,
{
    if k > 0 {
        let rest = names.skip(2);
        assert(names[2 * 0int] matches Value::String(listed, _) ==> listed != name);
        assert(rest[2 * (k - 1)] == names[2 * k]);
        assert forall|j: int| 0 <= j < k - 1 implies (#[trigger] rest[2 * j] matches Value::String(
            listed,
            _,
        ) ==> listed != name) by {
            assert(rest[2 * j] == names[2 * (j + 1)]);
        }
        lemma_listed_name(rest, name, k - 1);
        assert(rest[2 * (k - 1) + 1] == names[2 * k + 1]);
    }
}

/// A name that is listed at no place, counted in pairs, has no value.
pub proof fn lemma_unlisted_name(names: Seq<Value>, name: Seq<u8>)
    requires
        forall|j: int|
            0 <= 2 * j < names.len() - 1 ==> (#[trigger] names[2 * j] matches Value::String(
                listed,
                _,
            ) ==> listed != name),
    ensures
        name_value(names, name) is None,
    decreases names.len(),
{
    if names.len() >= 2 {
        let rest = names.skip(2);
        assert(names[2 * 0int] matches Value::String(listed, _) ==> listed != name);
        assert forall|j: int| 0 <= 2 * j < rest.len() - 1 implies (
        #[trigger] rest[2 * j] matches Value::String(listed, _) ==> listed != name) by {
            assert(rest[2 * j] == names[2 * (j + 1)]);
        }
        lemma_unlisted_name(rest, name);
    }
}

/// Bytes are in order when the first byte that differs is, or the shorter comes first.
pub proof fn lemma_order_of_bytes(a: Seq<u8>, b: Seq<u8>, common: nat)
    requires
        common <= a.len(),
        common <= b.len(),
        a.take(common as int) == b.take(common as int),
    ensures
        common == a.len() ==> (before(a, b) <==> common < b.len()),
        common == b.len() ==> !before(a, b),
        common < a.len() && common < b.len() && a[common as int] != b[common as int] ==> (before(
            a,
            b,
        ) <==> a[common as int] < b[common as int]),
    decreases common,
{
    if common > 0 {
        assert(a.take(common as int)[0] == a[0]);
        assert(b.take(common as int)[0] == b[0]);
        assert(a.drop_first().take(common - 1) =~= a.take(common as int).drop_first());
        assert(b.drop_first().take(common - 1) =~= b.take(common as int).drop_first());
        lemma_order_of_bytes(a.drop_first(), b.drop_first(), (common - 1) as nat);
    }
}

/// A node whose limits are two strings is passed over for the names before the first and behind the second
/// one, and for no others; a node without limits is passed over for none.
pub proof fn lemma_limits(
    node: Entries,
    name: Seq<u8>,
    low: Seq<u8>,
    high: Seq<u8>,
    low_format: StringFormat,
    high_format: StringFormat,
)
    ensures
        named_entry(node, "Limits"@) == Some(
            Value::Array(seq![Value::String(low, low_format), Value::String(high, high_format)]),
        ) ==> (excluded(node, name) <==> before(name, low) || before(high, name)),
        named_entry(node, "Limits"@) is None ==> !excluded(node, name),
        low == name && high == name ==> !before(name, low) && !before(high, name),
{
    lemma_order_of_bytes(name, name, name.len());
    let limits = seq![Value::String(low, low_format), Value::String(high, high_format)];
    assert(limits[0] == Value::String(low, low_format));
    assert(limits[1] == Value::String(high, high_format));
}

/// Whether a node, or an array of its names, has a value for `name`.
pub open spec fn node_lists(model: Model, node: Entries, name: Seq<u8>, value: Value) -> bool {
    &&& !excluded(node, name)
    &&& followed_entry(model, node, "Names"@) matches Some(Value::Array(names)) && name_value(
        names,
        name,
    ) == Some(value)
}

/// The value of a name in a tree is the one that the root lists.
pub proof fn lemma_name_in_the_root(
    model: Model,
    root: Value,
    node: Entries,
    name: Seq<u8>,
    value: Value,
)
    requires
        followed(model, root) == Some(Value::Dictionary(node)),
        node_lists(model, node, name, value),
    ensures
        name_tree_value(model, root, 0, Set::empty(), name).0 == Some(value),
{
}

/// The value of a name in a tree with kids is the one that the first of the leaves lists that lists one.
pub proof fn lemma_name_in_a_leaf(
    model: Model,
    root: Value,
    node: Entries,
    ids: Seq<ObjectId>,
    leaves: Seq<Entries>,
    k: int,
    name: Seq<u8>,
    value: Value,
)
    requires
        followed(model, root) == Some(Value::Dictionary(node)),
        !excluded(node, name),
        named_entry(node, "Names"@) is None,
        followed_entry(model, node, "Kids"@) == Some(
            Value::Array(ids.map_values(|id: ObjectId| Value::Reference(id))),
        ),
        ids.no_duplicates(),
        forall|id: ObjectId| root == Value::Reference(id) ==> !#[trigger] ids.contains(id),
        leaves.len() == ids.len(),
        forall|i: int|
            0 <= i < ids.len() ==> found(model, #[trigger] ids[i]) == Some(
                Value::Dictionary(leaves[i]),
            ),
        forall|i: int|
            0 <= i < leaves.len() ==> named_entry(#[trigger] leaves[i], "Kids"@) is None,
        0 <= k < leaves.len(),
        node_lists(model, leaves[k], name, value),
        forall|i: int, other: Value|
            0 <= i < k ==> !#[trigger] node_lists(model, leaves[i], name, other),
    ensures
        name_tree_value(model, root, 0, Set::empty(), name).0 == Some(value),
{
    let kids = ids.map_values(|id: ObjectId| Value::Reference(id));
    let seen = match root {
        Value::Reference(id) => Set::empty().insert(id),
        _ => Set::empty(),
    };
    assert forall|i: int| 0 <= i < ids.len() implies !seen.contains(#[trigger] ids[i]) by {
        assert(ids.contains(ids[i]));
    }
    lemma_leaves_from(model, ids, leaves, k, seen, name, value);
    assert(name_tree_value(model, root, 0, Set::empty(), name) == name_tree_value_in(
        model,
        kids,
        1,
        seen,
        name,
    ));
}

proof fn lemma_leaves_from(
    model: Model,
    ids: Seq<ObjectId>,
    leaves: Seq<Entries>,
    k: int,
    seen: Set<ObjectId>,
    name: Seq<u8>,
    value: Value,
)
    requires
        ids.no_duplicates(),
        forall|i: int| 0 <= i < ids.len() ==> !seen.contains(#[trigger] ids[i]),
        leaves.len() == ids.len(),
        forall|i: int|
            0 <= i < ids.len() ==> found(model, #[trigger] ids[i]) == Some(
                Value::Dictionary(leaves[i]),
            ),
        forall|i: int|
            0 <= i < leaves.len() ==> named_entry(#[trigger] leaves[i], "Kids"@) is None,
        0 <= k < leaves.len(),
        node_lists(model, leaves[k], name, value),
        forall|i: int, other: Value|
            0 <= i < k ==> !#[trigger] node_lists(model, leaves[i], name, other),
    ensures
        name_tree_value_in(
            model,
            ids.map_values(|id: ObjectId| Value::Reference(id)),
            1,
            seen,
            name,
        ).0 == Some(value),
    decreases k,
{
    let kids = ids.map_values(|id: ObjectId| Value::Reference(id));
    assert(kids[0] == Value::Reference(ids[0]));
    assert(found(model, ids[0]) == Some(Value::Dictionary(leaves[0])));
    let (first, after) = name_tree_value(model, kids[0], 1, seen, name);
    assert(after == seen.insert(ids[0]));
    if k == 0 {
        assert(first == Some(value));
    } else {
        if let Some(other) = first {
            assert(node_lists(model, leaves[0], name, other));
        }
        let rest = ids.drop_first();
        let others = leaves.drop_first();
        assert(kids.drop_first() =~= rest.map_values(|id: ObjectId| Value::Reference(id)));
        assert forall|i: int| 0 <= i < rest.len() implies !after.contains(#[trigger] rest[i]) by {
            assert(rest[i] == ids[i + 1]);
        }
        assert forall|i: int| 0 <= i < rest.len() implies found(model, #[trigger] rest[i]) == Some(
            Value::Dictionary(others[i]),
        ) by {
            assert(rest[i] == ids[i + 1]);
        }
        assert forall|i: int| 0 <= i < others.len() implies named_entry(
            #[trigger] others[i],
            "Kids"@,
        ) is None by {
            assert(others[i] == leaves[i + 1]);
        }
        assert forall|i: int, other: Value| 0 <= i < k - 1 implies !#[trigger] node_lists(
            model,
            others[i],
            name,
            other,
        ) by {
            assert(others[i] == leaves[i + 1]);
            assert(!node_lists(model, leaves[i + 1], name, other));
        }
        lemma_leaves_from(model, rest, others, k - 1, after, name, value);
    }
}

} // verus!
