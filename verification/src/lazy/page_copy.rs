//! A page's text, read from a document of that page alone, is the text that the whole document gives
//! it.
//!
//! The copy holds the page-tree nodes from the page upwards, their resources, and everything their
//! fonts lead to. An object is copied once, for the first of these reasons, and what a node or its
//! resources refer to besides fonts is not copied. So two things are left out of what is said here: a
//! font, or resources, that lead to an ancestor before the walk upwards comes to it, which ends the
//! walk there; and a font of which something is read that only a node or its resources lead to.

use vstd::prelude::*;
use vstd::utf8::encode_utf8_decode_utf8;

use crate::bytes::key;
use crate::document::{chased, reached, reached_entry, resolved, DEREF_LIMIT};
use crate::error::Error;
use crate::font_encoding::{Encoding, FontEncodings, NamedEncodings, TextEncoding};
use crate::lazy::single_page::{
    ancestors_copied, as_found, closure_copied, entries_mention, fonts_copied, is_skipped, leads,
    lemma_closure_is_closed, mentions, object_copied, page_objects, reach, refers,
    without_content, CopyModel,
};
use crate::object::{
    dictionary_in, entry, named_entry, reference_in, Entries, ObjectId, Value,
};
use crate::page_text_runs::{
    font_of, fonts_named, lemma_text_without_forms, no_form_is_drawn, page_operations, page_scope,
    resources_along, text_runs, text_spent, FontModel, TextSource,
};
use crate::parser::objects::MAX_NESTING;
use crate::resolver::{found, Model};

verus! {

/// What refers onward from object `id`.
pub open spec fn onward(model: Model, id: ObjectId) -> Option<Value> {
    match found(model, id) {
        Some(value) => Some(without_content(value)),
        None => None,
    }
}

/// The parent of page-tree node `node`.
pub open spec fn parent_of(model: Model, node: ObjectId) -> Option<ObjectId> {
    match onward(model, node) {
        Some(Value::Dictionary(entries)) => reference_in(named_entry(entries, "Parent"@)),
        _ => None,
    }
}

/// The object that is the `/Resources` of page-tree node `node`, if they are an object of their own.
pub open spec fn resources_id(model: Model, node: ObjectId) -> Option<ObjectId> {
    match onward(model, node) {
        Some(Value::Dictionary(entries)) => reference_in(named_entry(entries, "Resources"@)),
        _ => None,
    }
}

/// The `/Font` entry of the `/Resources` of page-tree node `node`.
pub open spec fn node_fonts(model: Model, node: ObjectId) -> Option<Value> {
    match onward(model, node) {
        Some(Value::Dictionary(entries)) => match named_entry(entries, "Resources"@) {
            Some(Value::Reference(id)) => match onward(model, id) {
                Some(Value::Dictionary(resources)) => named_entry(resources, "Font"@),
                _ => None,
            },
            Some(Value::Dictionary(resources)) => named_entry(resources, "Font"@),
            _ => None,
        },
        _ => None,
    }
}

/// Page-tree node `node` and its ancestors, no more than `left` of these, nearest first.
pub open spec fn nodes_along(model: Model, node: ObjectId, left: nat) -> Seq<ObjectId>
    decreases left,
{
    match parent_of(model, node) {
        Some(parent) if left > 0 => seq![node] + nodes_along(model, parent, (left - 1) as nat),
        _ => seq![node],
    }
}

/// The nodes from page `page` upwards.
pub open spec fn tree_nodes(model: Model, page: ObjectId) -> Seq<ObjectId> {
    nodes_along(model, page, (MAX_NESTING + 1) as nat)
}

/// `nodes` and their resources.
pub open spec fn with_resources(model: Model, nodes: Seq<ObjectId>) -> Set<ObjectId> {
    Set::new(
        |id: ObjectId|
            nodes.contains(id) || exists|node: ObjectId| #[trigger]
                nodes.contains(node) && resources_id(model, node) == Some(id),
    )
}

/// The nodes from page `page` upwards, and their resources. They are copied, and of what they refer to
/// only fonts are.
pub open spec fn copied_alone(model: Model, page: ObjectId) -> Set<ObjectId> {
    with_resources(model, tree_nodes(model, page))
}

/// Whether the walk from page `page` upwards comes to every node: what the fonts of a node lead to, past
/// the nodes and resources that were passed by then, is no node that was not, and neither are its
/// resources.
pub open spec fn walk_goes_on(model: Model, page: ObjectId) -> bool {
    let nodes = tree_nodes(model, page);
    forall|k: int, id: ObjectId|
        0 <= k < nodes.len() && nodes.contains(id) && !(#[trigger] nodes.take(k + 1).contains(id))
            ==> {
            &&& resources_id(model, nodes[k]) != Some(id)
            &&& node_fonts(model, nodes[k]) matches Some(fonts) ==> !leads(
                model,
                with_resources(model, nodes.take(k + 1)),
                fonts,
                id,
            )
        }
}

/// Whether `fonts` lead to object `id` by objects none of which is in `alone`, but for itself.
pub open spec fn near(model: Model, alone: Set<ObjectId>, fonts: Value, id: ObjectId) -> bool {
    mentions(fonts, id) || exists|from: ObjectId|
        #![trigger refers(model, from, id)]
        leads(model, alone, fonts, from) && refers(model, from, id)
}

/// Whether `c` holds what of its ids can be read, where `visited` are the nodes among them, and
/// whatever its objects refer to but for those that are copied alone.
spec fn sound(model: Model, page: ObjectId, c: CopyModel, visited: Seq<ObjectId>) -> bool {
    &&& forall|id: ObjectId| #[trigger]
        c.objects.contains_key(id) <==> c.copied.contains(id) && found(model, id) is Some
    &&& as_found(model, c.objects)
    &&& forall|id: ObjectId| #[trigger]
        c.copied.contains(id) && tree_nodes(model, page).contains(id) ==> visited.contains(id)
    &&& forall|id: ObjectId, to: ObjectId|
        c.copied.contains(id) && !copied_alone(model, page).contains(id) && #[trigger] refers(
            model,
            id,
            to,
        ) ==> c.copied.contains(to)
}

/// Whether `c` has node `node`, its resources, and what its fonts lead to.
spec fn has_node(model: Model, page: ObjectId, c: CopyModel, node: ObjectId) -> bool {
    &&& c.copied.contains(node)
    &&& resources_id(model, node) matches Some(resources) ==> c.copied.contains(resources)
    &&& node_fonts(model, node) matches Some(fonts) ==> forall|id: ObjectId| #[trigger]
        near(model, copied_alone(model, page), fonts, id) ==> c.copied.contains(id)
}

/// What is reached past more objects is reached past fewer.
proof fn lemma_reached_past_fewer(
    model: Model,
    fewer: Set<ObjectId>,
    more: Set<ObjectId>,
    value: Value,
    n: nat,
    id: ObjectId,
)
    requires
        fewer.subset_of(more),
        reach(model, more, value, n).contains(id),
    ensures
        reach(model, fewer, value, n).contains(id),
        leads(model, fewer, value, id),
    decreases n,
{
    if n > 0 {
        let nearer = reach(model, more, value, (n - 1) as nat);
        if nearer.contains(id) {
            lemma_reached_past_fewer(model, fewer, more, value, (n - 1) as nat, id);
        } else {
            let middle = choose|middle: ObjectId|
                nearer.contains(middle) && #[trigger] refers(model, middle, id);
            lemma_reached_past_fewer(model, fewer, more, value, (n - 1) as nat, middle);
        }
    }
    assert(reach(model, fewer, value, n).contains(id));
}

/// What is reached past objects is none of them.
proof fn lemma_reached_is_past(
    model: Model,
    seen: Set<ObjectId>,
    value: Value,
    n: nat,
    id: ObjectId,
)
    requires
        reach(model, seen, value, n).contains(id),
    ensures
        !seen.contains(id),
    decreases n,
{
    if n > 0 && reach(model, seen, value, (n - 1) as nat).contains(id) {
        lemma_reached_is_past(model, seen, value, (n - 1) as nat, id);
    }
}

/// Copying what a node's fonts refer to copies what they lead to.
proof fn lemma_fonts_lead_into_copy(
    model: Model,
    page: ObjectId,
    c: CopyModel,
    visited: Seq<ObjectId>,
    fonts: Value,
    n: nat,
    id: ObjectId,
)
    requires
        sound(model, page, c, visited),
        reach(model, copied_alone(model, page), fonts, n).contains(id),
    ensures
        closure_copied(model, c, fonts).copied.contains(id),
    decreases n,
{
    let alone = copied_alone(model, page);
    if mentions(fonts, id) {
        lemma_closure_is_closed(model, c, fonts, id);
    } else if n > 0 {
        let nearer = reach(model, alone, fonts, (n - 1) as nat);
        if nearer.contains(id) {
            lemma_fonts_lead_into_copy(model, page, c, visited, fonts, (n - 1) as nat, id);
        } else {
            let middle = choose|middle: ObjectId|
                nearer.contains(middle) && #[trigger] refers(model, middle, id);
            lemma_fonts_lead_into_copy(model, page, c, visited, fonts, (n - 1) as nat, middle);
            lemma_reached_is_past(model, alone, fonts, (n - 1) as nat, middle);
            lemma_referred_is_copied(model, page, c, visited, fonts, middle, id);
        }
    }
}

/// What an object of the copy refers to is copied, if that object is not copied alone.
proof fn lemma_referred_is_copied(
    model: Model,
    page: ObjectId,
    c: CopyModel,
    visited: Seq<ObjectId>,
    fonts: Value,
    from: ObjectId,
    id: ObjectId,
)
    requires
        sound(model, page, c, visited),
        closure_copied(model, c, fonts).copied.contains(from),
        !copied_alone(model, page).contains(from),
        refers(model, from, id),
    ensures
        closure_copied(model, c, fonts).copied.contains(id),
{
    if c.copied.contains(from) {
        assert(c.copied.contains(id));
    } else {
        lemma_closure_is_closed(model, c, fonts, id);
    }
}

proof fn lemma_closure_is_sound(
    model: Model,
    page: ObjectId,
    c: CopyModel,
    k: int,
    fonts: Value,
)
    requires
        walk_goes_on(model, page),
        0 <= k < tree_nodes(model, page).len(),
        sound(model, page, c, tree_nodes(model, page).take(k + 1)),
        with_resources(model, tree_nodes(model, page).take(k + 1)).subset_of(c.copied),
        node_fonts(model, tree_nodes(model, page)[k]) == Some(fonts),
    ensures
        sound(
            model,
            page,
            closure_copied(model, c, fonts),
            tree_nodes(model, page).take(k + 1),
        ),
        c.copied.subset_of(closure_copied(model, c, fonts).copied),
        forall|id: ObjectId| #[trigger]
            near(model, copied_alone(model, page), fonts, id) ==> closure_copied(
                model,
                c,
                fonts,
            ).copied.contains(id),
{
    let nodes = tree_nodes(model, page);
    let visited = nodes.take(k + 1);
    let alone = copied_alone(model, page);
    let after = closure_copied(model, c, fonts);
    assert forall|id: ObjectId| #[trigger] near(model, alone, fonts, id) implies after.copied.contains(
        id,
    ) by {
        if mentions(fonts, id) {
            lemma_closure_is_closed(model, c, fonts, id);
        } else {
            let from = choose|from: ObjectId|
                #![trigger refers(model, from, id)]
                leads(model, alone, fonts, from) && refers(model, from, id);
            let n = choose|n: nat| #[trigger] reach(model, alone, fonts, n).contains(from);
            lemma_fonts_lead_into_copy(model, page, c, visited, fonts, n, from);
            lemma_reached_is_past(model, alone, fonts, n, from);
            lemma_referred_is_copied(model, page, c, visited, fonts, from, id);
        }
    }
    assert forall|id: ObjectId| #[trigger] after.copied.contains(id) && nodes.contains(
        id,
    ) implies visited.contains(id) by {
        if !c.copied.contains(id) {
            let n = choose|n: nat| #[trigger] reach(model, c.copied, fonts, n).contains(id);
            lemma_reached_past_fewer(
                model,
                with_resources(model, visited),
                c.copied,
                fonts,
                n,
                id,
            );
            assert(leads(model, with_resources(model, visited), fonts, id));
        }
    }
    assert forall|id: ObjectId, to: ObjectId|
        after.copied.contains(id) && !alone.contains(id) && #[trigger] refers(
            model,
            id,
            to,
        ) implies after.copied.contains(to) by {
        lemma_referred_is_copied(model, page, c, visited, fonts, id, to);
    }
}

/// Copying object `id` alone, which is a node or the resources of one.
proof fn lemma_object_is_sound(
    model: Model,
    page: ObjectId,
    c: CopyModel,
    visited: Seq<ObjectId>,
    id: ObjectId,
)
    requires
        sound(model, page, c, visited),
        copied_alone(model, page).contains(id),
        tree_nodes(model, page).contains(id) ==> visited.contains(id),
    ensures
        ({
            let (after, value) = object_copied(model, c, id);
            &&& sound(model, page, after, visited)
            &&& c.copied.subset_of(after.copied)
            &&& after.copied.contains(id)
            &&& value == onward(model, id)
        }),
{
    let (after, value) = object_copied(model, c, id);
    assert(after.objects.contains_key(id) <==> after.copied.contains(id) && found(model, id)
        is Some);
}

/// Copying the fonts of the node at `k`.
proof fn lemma_node_is_sound(model: Model, page: ObjectId, c: CopyModel, k: int, entries: Entries)
    requires
        walk_goes_on(model, page),
        0 <= k < tree_nodes(model, page).len(),
        sound(model, page, c, tree_nodes(model, page).take(k + 1)),
        c.copied.contains(tree_nodes(model, page)[k]),
        forall|i: int|
            0 <= i < k ==> has_node(model, page, c, #[trigger] tree_nodes(model, page)[i]),
        onward(model, tree_nodes(model, page)[k]) == Some(Value::Dictionary(entries)),
    ensures
        sound(
            model,
            page,
            fonts_copied(model, c, entries),
            tree_nodes(model, page).take(k + 1),
        ),
        has_node(model, page, fonts_copied(model, c, entries), tree_nodes(model, page)[k]),
        c.copied.subset_of(fonts_copied(model, c, entries).copied),
{
    let nodes = tree_nodes(model, page);
    let visited = nodes.take(k + 1);
    let node = nodes[k];
    assert(nodes.contains(node));
    let after = match named_entry(entries, "Resources"@) {
        Some(Value::Reference(id)) => {
            assert(resources_id(model, node) == Some(id));
            assert(copied_alone(model, page).contains(id));
            if nodes.contains(id) && !visited.contains(id) {
                assert(resources_id(model, nodes[k]) != Some(id));
            }
            lemma_object_is_sound(model, page, c, visited, id);
            object_copied(model, c, id).0
        },
        _ => c,
    };
    if let Some(fonts) = node_fonts(model, node) {
        assert forall|id: ObjectId| #[trigger] with_resources(model, visited).contains(
            id,
        ) implies after.copied.contains(id) by {
            if visited.contains(id) {
                let i = choose|i: int| 0 <= i < visited.len() && visited[i] == id;
                assert(nodes[i] == id);
            } else {
                let owner = choose|owner: ObjectId| #[trigger]
                    visited.contains(owner) && resources_id(model, owner) == Some(id);
                let i = choose|i: int| 0 <= i < visited.len() && visited[i] == owner;
                assert(nodes[i] == owner);
            }
        }
        lemma_closure_is_sound(model, page, after, k, fonts);
    }
}

/// Nodes that are closed under parents hold all the nodes along.
proof fn lemma_nodes_within(model: Model, nodes: Set<ObjectId>, node: ObjectId, left: nat)
    requires
        nodes.contains(node),
        forall|id: ObjectId| #[trigger]
            nodes.contains(id) ==> (parent_of(model, id) matches Some(parent) ==> nodes.contains(
                parent,
            )),
    ensures
        forall|id: ObjectId| #[trigger]
            nodes_along(model, node, left).contains(id) ==> nodes.contains(id),
    decreases left,
{
    if let Some(parent) = parent_of(model, node) {
        if left > 0 {
            lemma_nodes_within(model, nodes, parent, (left - 1) as nat);
            lemma_nodes_above(model, node, left);
        }
    }
}

/// The nodes along are the node itself and those along its parent.
proof fn lemma_nodes_above(model: Model, node: ObjectId, left: nat)
    ensures
        nodes_along(model, node, left).contains(node),
        forall|id: ObjectId| #[trigger]
            nodes_along(model, node, left).contains(id) <==> id == node || (left > 0 && (parent_of(
                model,
                node,
            ) matches Some(parent) && nodes_along(model, parent, (left - 1) as nat).contains(id))),
{
    let nodes = nodes_along(model, node, left);
    assert(nodes[0] == node);
    if let Some(parent) = parent_of(model, node) {
        if left > 0 {
            let above = nodes_along(model, parent, (left - 1) as nat);
            assert forall|id: ObjectId| #[trigger] nodes.contains(id) <==> id == node
                || above.contains(id) by {
                if nodes.contains(id) && id != node {
                    let k = choose|k: int| 0 <= k < nodes.len() && nodes[k] == id;
                    assert(above[k - 1] == id);
                }
                if above.contains(id) {
                    let k = choose|k: int| 0 <= k < above.len() && above[k] == id;
                    assert(nodes[k + 1] == id);
                }
            }
        }
    }
}

/// The nodes along from the one at `k` are the nodes from there on.
proof fn lemma_nodes_from(model: Model, node: ObjectId, left: nat, k: int)
    requires
        0 <= k < nodes_along(model, node, left).len(),
    ensures
        k <= left,
        nodes_along(model, nodes_along(model, node, left)[k], (left - k) as nat) == nodes_along(
            model,
            node,
            left,
        ).skip(k),
        k + 1 < nodes_along(model, node, left).len() <==> k < left && parent_of(
            model,
            nodes_along(model, node, left)[k],
        ) is Some,
        k + 1 < nodes_along(model, node, left).len() ==> parent_of(
            model,
            nodes_along(model, node, left)[k],
        ) == Some(nodes_along(model, node, left)[k + 1]),
    decreases k,
{
    let nodes = nodes_along(model, node, left);
    assert(nodes[0] == node);
    if k == 0 {
        assert(nodes.skip(0) =~= nodes);
        if let Some(parent) = parent_of(model, node) {
            if left > 0 {
                let above = nodes_along(model, parent, (left - 1) as nat);
                assert(above.len() > 0 && above[0] == parent);
            }
        }
    } else {
        let parent = parent_of(model, node)->Some_0;
        let above = nodes_along(model, parent, (left - 1) as nat);
        assert(nodes == seq![node] + above);
        lemma_nodes_from(model, parent, (left - 1) as nat, k - 1);
        assert(nodes[k] == above[k - 1]);
        assert(nodes.skip(k) =~= above.skip(k - 1));
        if k + 1 < nodes.len() {
            assert(nodes[k + 1] == above[k]);
        }
    }
}

proof fn lemma_ancestors_are_sound(model: Model, page: ObjectId, c: CopyModel, k: int)
    requires
        walk_goes_on(model, page),
        0 <= k < tree_nodes(model, page).len(),
        sound(model, page, c, tree_nodes(model, page).take(k + 1)),
        c.copied.contains(tree_nodes(model, page)[k]),
        forall|i: int|
            0 <= i < k ==> has_node(model, page, c, #[trigger] tree_nodes(model, page)[i]),
    ensures
        ({
            let nodes = tree_nodes(model, page);
            let end = ancestors_copied(
                model,
                c,
                onward(model, nodes[k]),
                (MAX_NESTING + 1 - k) as nat,
            );
            &&& sound(model, page, end, nodes)
            &&& forall|i: int|
                0 <= i < nodes.len() ==> has_node(model, page, end, #[trigger] nodes[i])
        }),
    decreases tree_nodes(model, page).len() - k,
{
    let nodes = tree_nodes(model, page);
    let whole = (MAX_NESTING + 1) as nat;
    let node = nodes[k];
    let left = (whole - k) as nat;
    let end = ancestors_copied(model, c, onward(model, node), left);
    lemma_nodes_from(model, page, whole, k);
    let visited = nodes.take(k + 1);
    match onward(model, node) {
        Some(Value::Dictionary(entries)) => {
            let after = fonts_copied(model, c, entries);
            lemma_node_is_sound(model, page, c, k, entries);
            assert forall|i: int| 0 <= i <= k implies has_node(
                model,
                page,
                after,
                #[trigger] nodes[i],
            ) by {
                if i < k {
                    assert(has_node(model, page, c, nodes[i]));
                }
            }
            match parent_of(model, node) {
                Some(parent) => {
                    if left == 0 {
                        assert(visited =~= nodes);
                    } else {
                        assert(nodes[k + 1] == parent);
                        assert(nodes.contains(parent));
                        if after.copied.contains(parent) {
                            assert(visited.contains(parent));
                            lemma_walk_comes_back(model, page, k);
                            assert forall|i: int| 0 <= i < nodes.len() implies has_node(
                                model,
                                page,
                                after,
                                #[trigger] nodes[i],
                            ) by {
                                assert(visited.contains(nodes[i]));
                                let j = choose|j: int|
                                    0 <= j < visited.len() && visited[j] == nodes[i];
                                assert(nodes[j] == nodes[i]);
                            }
                        } else {
                            let further = nodes.take(k + 2);
                            assert(further =~= visited.push(parent));
                            assert forall|id: ObjectId| visited.contains(id) implies #[trigger] further.contains(
                                id,
                            ) by {
                                let j = choose|j: int| 0 <= j < visited.len() && visited[j] == id;
                                assert(further[j] == id);
                            }
                            assert(further[k + 1] == parent);
                            assert(sound(model, page, after, further));
                            lemma_object_is_sound(model, page, after, further, parent);
                            let next = object_copied(model, after, parent).0;
                            assert forall|i: int| 0 <= i < k + 1 implies has_node(
                                model,
                                page,
                                next,
                                #[trigger] nodes[i],
                            ) by {
                                assert(has_node(model, page, after, nodes[i]));
                            }
                            lemma_ancestors_are_sound(model, page, next, k + 1);
                        }
                    }
                },
                None => {
                    assert(visited =~= nodes);
                },
            }
        },
        _ => {
            assert(parent_of(model, node) is None);
            assert(visited =~= nodes);
            assert(has_node(model, page, c, node));
        },
    }
}

/// A walk that comes back to a node has passed all of them.
proof fn lemma_walk_comes_back(model: Model, page: ObjectId, k: int)
    requires
        0 <= k < tree_nodes(model, page).len(),
        parent_of(model, tree_nodes(model, page)[k]) matches Some(parent) && tree_nodes(
            model,
            page,
        ).take(k + 1).contains(parent),
    ensures
        forall|i: int|
            0 <= i < tree_nodes(model, page).len() ==> tree_nodes(model, page).take(
                k + 1,
            ).contains(#[trigger] tree_nodes(model, page)[i]),
{
    let nodes = tree_nodes(model, page);
    let whole = (MAX_NESTING + 1) as nat;
    let visited = nodes.take(k + 1);
    let passed = Set::new(|id: ObjectId| visited.contains(id));
    assert forall|id: ObjectId| #[trigger] passed.contains(id) implies (parent_of(model, id) matches Some(
        parent,
    ) ==> passed.contains(parent)) by {
        let j = choose|j: int| 0 <= j < visited.len() && visited[j] == id;
        if j < k {
            lemma_nodes_from(model, page, whole, j);
            if let Some(parent) = parent_of(model, id) {
                assert(visited[j + 1] == nodes[j + 1]);
            }
        }
    }
    assert(visited[0] == nodes[0]);
    assert(nodes[0] == page);
    lemma_nodes_within(model, passed, page, whole);
    assert forall|i: int| 0 <= i < nodes.len() implies visited.contains(#[trigger] nodes[i]) by {
        assert(nodes.contains(nodes[i]));
        assert(passed.contains(nodes[i]));
    }
}

/// What the copy of page `page` holds: all of its nodes, their resources, and what their fonts lead
/// to.
proof fn lemma_page_is_sound(model: Model, page: ObjectId) -> (c: CopyModel)
    requires
        walk_goes_on(model, page),
    ensures
        c.objects == page_objects(model, page),
        forall|id: ObjectId| #[trigger]
            c.objects.contains_key(id) <==> c.copied.contains(id) && found(model, id) is Some,
        as_found(model, c.objects),
        forall|i: int|
            0 <= i < tree_nodes(model, page).len() ==> has_node(
                model,
                page,
                c,
                #[trigger] tree_nodes(model, page)[i],
            ),
{
    reveal(page_objects);
    let none = CopyModel { objects: Map::empty(), copied: Set::empty() };
    let nodes = tree_nodes(model, page);
    let left = (MAX_NESTING + 1) as nat;
    assert(nodes.len() > 0 && nodes[0] == page);
    assert(nodes.contains(page));
    assert(nodes.take(1)[0] == page);
    lemma_object_is_sound(model, page, none, nodes.take(1), page);
    let c = object_copied(model, none, page).0;
    lemma_ancestors_are_sound(model, page, c, 0);
    ancestors_copied(model, c, onward(model, page), left)
}

/// Whether looking up object `id` in `copy` gives what it gives in `whole`.
pub open spec fn same_object(
    whole: Map<ObjectId, Value>,
    copy: Map<ObjectId, Value>,
    id: ObjectId,
) -> bool {
    reached(copy, Value::Reference(id)) == reached(whole, Value::Reference(id))
}

proof fn lemma_chased_to_the_end(objects: Map<ObjectId, Value>, id: ObjectId, left: nat)
    ensures
        chased(objects, id, left) matches Ok(value) ==> !(value is Reference),
    decreases left,
{
    if objects.contains_key(id) {
        if let Value::Reference(next) = objects[id] {
            if left > 0 {
                lemma_chased_to_the_end(objects, next, (left - 1) as nat);
            }
        }
    }
}

/// An object that the copy has is that of the whole document, and no other is found in the copy.
proof fn lemma_copied_object(
    model: Model,
    whole: Map<ObjectId, Value>,
    c: CopyModel,
    id: ObjectId,
)
    requires
        model.objects == resolved(whole),
        forall|id: ObjectId| #[trigger]
            c.objects.contains_key(id) <==> c.copied.contains(id) && found(model, id) is Some,
        as_found(model, c.objects),
    ensures
        c.copied.contains(id) ==> same_object(whole, c.objects, id),
        chased(c.objects, id, DEREF_LIMIT as nat) matches Ok(value) ==> chased(
            whole,
            id,
            DEREF_LIMIT as nat,
        ) == Ok::<Value, Error>(value),
        found(model, id) == match chased(whole, id, DEREF_LIMIT as nat) {
            Ok(value) => Some(value),
            Err(_) => None,
        },
{
    lemma_chased_to_the_end(whole, id, DEREF_LIMIT as nat);
    assert(resolved(whole).contains_key(id) <==> chased(whole, id, DEREF_LIMIT as nat) is Ok);
    if c.objects.contains_key(id) {
        assert(found(model, id) == Some(c.objects[id]));
    }
}

/// A dictionary mentions what its entries mention, but for those that are skipped.
proof fn lemma_entry_mentions(entries: Entries, i: nat, k: int, id: ObjectId)
    requires
        i <= k < entries.len(),
        !is_skipped(entries[k].0),
        mentions(entries[k].1, id),
    ensures
        entries_mention(entries, i, id),
    decreases k - i,
{
    if i < k {
        lemma_entry_mentions(entries, i + 1, k, id);
    }
}

/// Where the entry under a key is.
proof fn lemma_entry_place(entries: Entries, name: Seq<u8>) -> (k: int)
    requires
        entry(entries, name) is Some,
    ensures
        0 <= k < entries.len(),
        entries[k].0 == name,
        entry(entries, name) == Some(entries[k].1),
    decreases entries.len(),
{
    if entries[0].0 == name {
        0
    } else {
        let k = lemma_entry_place(entries.drop_first(), name);
        assert(entries.drop_first()[k] == entries[k + 1]);
        k + 1
    }
}

proof fn lemma_named_entry_mentions(entries: Entries, name: Seq<char>, id: ObjectId)
    requires
        named_entry(entries, name) matches Some(value) && mentions(value, id),
        !is_skipped(key(name)),
    ensures
        mentions(Value::Dictionary(entries), id),
{
    let k = lemma_entry_place(entries, key(name));
    lemma_entry_mentions(entries, 0, k, id);
}

/// `/Encoding` and `/Differences` are not skipped.
proof fn lemma_names_not_skipped()
    ensures
        !is_skipped(key("Encoding"@)),
        !is_skipped(key("Differences"@)),
{
    reveal_strlit("Encoding");
    reveal_strlit("Differences");
    reveal_strlit("FontFile");
    reveal_strlit("FontFile2");
    reveal_strlit("FontFile3");
    reveal_strlit("CharProcs");
    reveal_strlit("Resources");
    encode_utf8_decode_utf8("Encoding"@);
    encode_utf8_decode_utf8("Differences"@);
    encode_utf8_decode_utf8("FontFile"@);
    encode_utf8_decode_utf8("FontFile2"@);
    encode_utf8_decode_utf8("FontFile3"@);
    encode_utf8_decode_utf8("CharProcs"@);
    encode_utf8_decode_utf8("Resources"@);
    assert("Encoding"@[0] == 'E');
    assert("Differences"@[0] == 'D');
    assert("FontFile"@[0] == 'F');
    assert("FontFile2"@[0] == 'F');
    assert("FontFile3"@[0] == 'F');
    assert("CharProcs"@[0] == 'C');
    assert("Resources"@[0] == 'R');
}

/// Whether `copy` gives what `whole` gives for each object that is near `fonts`.
pub open spec fn same_near(
    model: Model,
    alone: Set<ObjectId>,
    fonts: Value,
    whole: Map<ObjectId, Value>,
    copy: Map<ObjectId, Value>,
) -> bool {
    forall|id: ObjectId| #[trigger]
        near(model, alone, fonts, id) ==> same_object(whole, copy, id)
}

/// Whether the encoding of a font depends on nothing but its dictionary and objects that are near
/// `fonts`.
pub open spec fn encoding_is_near<E: TextEncoding, C: FontEncodings<E>>(
    encodings: C,
    model: Model,
    alone: Set<ObjectId>,
    fonts: Value,
    whole: Map<ObjectId, Value>,
    font: Entries,
) -> bool {
    forall|copy: Map<ObjectId, Value>, limit: usize|
        same_near(model, alone, fonts, whole, copy) ==> #[trigger] encodings.encoding_of(
            copy,
            font,
            limit,
        ) == encodings.encoding_of(whole, font, limit)
}

/// Whether the object that an entry refers to, if it refers to one, is near `fonts`.
pub open spec fn entry_is_near(
    model: Model,
    alone: Set<ObjectId>,
    fonts: Value,
    entries: Entries,
    name: Seq<char>,
) -> bool {
    named_entry(entries, name) matches Some(Value::Reference(id)) ==> near(model, alone, fonts, id)
}

/// Whether what the text reads of a font, which `value` stands for, is near `fonts`: the font, its
/// `/Encoding`, the `/Differences` of that, and what its encoding depends on.
pub open spec fn font_is_near<E: TextEncoding, C: FontEncodings<E>>(
    model: Model,
    source: TextSource<C>,
    alone: Set<ObjectId>,
    fonts: Value,
    value: Value,
) -> bool {
    &&& value matches Value::Reference(id) ==> near(model, alone, fonts, id)
    &&& dictionary_in(reached(source.objects, value)) matches Some(font) ==> {
        &&& entry_is_near(model, alone, fonts, font, "Encoding"@)
        &&& dictionary_in(reached_entry(source.objects, font, "Encoding"@)) matches Some(encoding)
            ==> entry_is_near(model, alone, fonts, encoding, "Differences"@)
        &&& encoding_is_near::<E, C>(
            source.encodings,
            model,
            alone,
            fonts,
            source.objects,
            font,
        )
    }
}

/// Whether what the text reads of `fonts` is near them.
pub open spec fn fonts_are_near<E: TextEncoding, C: FontEncodings<E>>(
    model: Model,
    source: TextSource<C>,
    alone: Set<ObjectId>,
    fonts: Value,
) -> bool {
    dictionary_in(reached(source.objects, fonts)) matches Some(entries) ==> forall|k: int|
        0 <= k < entries.len() ==> font_is_near::<E, C>(
            model,
            source,
            alone,
            fonts,
            (#[trigger] entries[k]).1,
        )
}

/// Encodings by name depend on nothing but the `/Encoding` of their font.
pub proof fn lemma_named_encodings_are_near(
    model: Model,
    alone: Set<ObjectId>,
    fonts: Value,
    whole: Map<ObjectId, Value>,
    font: Entries,
)
    requires
        entry_is_near(model, alone, fonts, font, "Encoding"@),
    ensures
        encoding_is_near::<Encoding, NamedEncodings>(
            NamedEncodings,
            model,
            alone,
            fonts,
            whole,
            font,
        ),
{
}

/// What the text reads of fonts is near them, with encodings by name, if neither the fonts nor their
/// encodings are page-tree nodes or the resources of one, and no font has a name that is skipped.
pub proof fn lemma_plain_fonts_are_near(
    model: Model,
    source: TextSource<NamedEncodings>,
    alone: Set<ObjectId>,
    fonts: Value,
)
    requires
        model.objects == resolved(source.objects),
        fonts matches Value::Reference(id) ==> !alone.contains(id),
        dictionary_in(reached(source.objects, fonts)) matches Some(entries) ==> forall|k: int|
            0 <= k < entries.len() ==> {
                let (name, value) = #[trigger] entries[k];
                &&& !is_skipped(name)
                &&& value matches Value::Reference(id) ==> !alone.contains(id)
                &&& dictionary_in(reached(source.objects, value)) matches Some(font) ==> (
                named_entry(font, "Encoding"@) matches Some(Value::Reference(id))
                    ==> !alone.contains(id))
            },
    ensures
        fonts_are_near::<Encoding, NamedEncodings>(model, source, alone, fonts),
{
    lemma_names_not_skipped();
    if let Some(entries) = dictionary_in(reached(source.objects, fonts)) {
        assert forall|k: int| 0 <= k < entries.len() implies font_is_near::<
            Encoding,
            NamedEncodings,
        >(model, source, alone, fonts, (#[trigger] entries[k]).1) by {
            let value = entries[k].1;
            // What a font mentions is near.
            assert forall|id: ObjectId| #[trigger] mentions(value, id) implies near(
                model,
                alone,
                fonts,
                id,
            ) by {
                lemma_entry_mentions(entries, 0, k, id);
                lemma_mentioned_is_near(model, source.objects, alone, fonts, fonts, entries, id);
            }
            if let Value::Reference(id) = value {
                assert(mentions(value, id));
            }
            if let Some(font) = dictionary_in(reached(source.objects, value)) {
                assert forall|id: ObjectId| #[trigger] mentions(Value::Dictionary(font), id) implies near(
                    model,
                    alone,
                    fonts,
                    id,
                ) by {
                    lemma_mentioned_is_near(model, source.objects, alone, fonts, value, font, id);
                }
                if let Some(Value::Reference(id)) = named_entry(font, "Encoding"@) {
                    lemma_named_entry_mentions(font, "Encoding"@, id);
                }
                assert(entry_is_near(model, alone, fonts, font, "Encoding"@));
                if let Some(encoding) = dictionary_in(
                    reached_entry(source.objects, font, "Encoding"@),
                ) {
                    let held = named_entry(font, "Encoding"@)->Some_0;
                    assert forall|id: ObjectId| #[trigger] mentions(held, id) implies near(
                        model,
                        alone,
                        fonts,
                        id,
                    ) by {
                        lemma_named_entry_mentions(font, "Encoding"@, id);
                    }
                    if let Some(Value::Reference(id)) = named_entry(encoding, "Differences"@) {
                        lemma_named_entry_mentions(encoding, "Differences"@, id);
                        lemma_mentioned_is_near(
                            model,
                            source.objects,
                            alone,
                            fonts,
                            held,
                            encoding,
                            id,
                        );
                    }
                }
                lemma_named_encodings_are_near(model, alone, fonts, source.objects, font);
            }
        }
    }
}

/// What the dictionary that `value` stands for mentions is near, if what `value` mentions is.
proof fn lemma_mentioned_is_near(
    model: Model,
    whole: Map<ObjectId, Value>,
    alone: Set<ObjectId>,
    fonts: Value,
    value: Value,
    entries: Entries,
    id: ObjectId,
)
    requires
        model.objects == resolved(whole),
        value == fonts || forall|other: ObjectId| #[trigger]
            mentions(value, other) ==> near(model, alone, fonts, other),
        value matches Value::Reference(other) ==> !alone.contains(other),
        reached(whole, value) == Some(Value::Dictionary(entries)),
        mentions(Value::Dictionary(entries), id),
    ensures
        near(model, alone, fonts, id),
{
    if let Value::Reference(object) = value {
        assert(mentions(value, object));
        assert(near(model, alone, fonts, object));
        assert(resolved(whole).contains_key(object));
        assert(found(model, object) == Some(Value::Dictionary(entries)));
        assert(refers(model, object, id));
        if mentions(fonts, object) {
            assert(reach(model, alone, fonts, 0).contains(object));
        } else {
            let from = choose|from: ObjectId|
                #![trigger refers(model, from, object)]
                leads(model, alone, fonts, from) && refers(model, from, object);
            let n = choose|n: nat| #[trigger] reach(model, alone, fonts, n).contains(from);
            assert(reach(model, alone, fonts, n + 1).contains(object));
        }
        assert(leads(model, alone, fonts, object));
    }
}

proof fn lemma_font_is_same<E: TextEncoding, C: FontEncodings<E>>(
    model: Model,
    alone: Set<ObjectId>,
    whole: TextSource<C>,
    copy: TextSource<C>,
    fonts: Value,
    value: Value,
)
    requires
        copy == (TextSource { objects: copy.objects, forms: copy.forms, ..whole }),
        same_near(model, alone, fonts, whole.objects, copy.objects),
        font_is_near::<E, C>(model, whole, alone, fonts, value),
    ensures
        reached(copy.objects, value) == reached(whole.objects, value),
        dictionary_in(reached(whole.objects, value)) matches Some(font) ==> font_of::<E, C>(
            copy,
            font,
        ) == font_of::<E, C>(whole, font),
{
    if let Some(font) = dictionary_in(reached(whole.objects, value)) {
        let limit = whole.limits.max_stream_size;
        assert(whole.encodings.encoding_of(copy.objects, font, limit)
            == whole.encodings.encoding_of(whole.objects, font, limit));
        assert(reached_entry(copy.objects, font, "Encoding"@) == reached_entry(
            whole.objects,
            font,
            "Encoding"@,
        ));
        if let Some(encoding) = dictionary_in(reached_entry(whole.objects, font, "Encoding"@)) {
            assert(reached_entry(copy.objects, encoding, "Differences"@) == reached_entry(
                whole.objects,
                encoding,
                "Differences"@,
            ));
        }
    }
}

proof fn lemma_fonts_are_same<E: TextEncoding, C: FontEncodings<E>>(
    model: Model,
    alone: Set<ObjectId>,
    whole: TextSource<C>,
    copy: TextSource<C>,
    all: Value,
    entries: Entries,
    i: nat,
    fonts: Map<Seq<u8>, Option<usize>>,
    met: Seq<FontModel<E>>,
)
    requires
        copy == (TextSource { objects: copy.objects, forms: copy.forms, ..whole }),
        same_near(model, alone, all, whole.objects, copy.objects),
        forall|k: int|
            0 <= k < entries.len() ==> font_is_near::<E, C>(
                model,
                whole,
                alone,
                all,
                (#[trigger] entries[k]).1,
            ),
    ensures
        fonts_named::<E, C>(copy, entries, i, fonts, met) == fonts_named::<E, C>(
            whole,
            entries,
            i,
            fonts,
            met,
        ),
    decreases entries.len() - i,
{
    if i < entries.len() {
        let (name, value) = entries[i as int];
        lemma_font_is_same::<E, C>(model, alone, whole, copy, all, entries[i as int].1);
        let (next_fonts, next_met) = match dictionary_in(reached(whole.objects, value)) {
            Some(font) => match font_of::<E, C>(whole, font) {
                Some(font) => (fonts.insert(name, Some(met.len() as usize)), met.push(font)),
                None => (fonts.insert(name, None), met),
            },
            None => (fonts, met),
        };
        lemma_fonts_are_same::<E, C>(
            model,
            alone,
            whole,
            copy,
            all,
            entries,
            i + 1,
            next_fonts,
            next_met,
        );
    }
}

/// Whether what is near the fonts of `resources` is the same in the copy, and the text reads nothing
/// else of them.
spec fn fonts_lead_into<E: TextEncoding, C: FontEncodings<E>>(
    model: Model,
    alone: Set<ObjectId>,
    whole: TextSource<C>,
    copy: Map<ObjectId, Value>,
    resources: Entries,
) -> bool {
    named_entry(resources, "Font"@) matches Some(fonts) ==> same_near(
        model,
        alone,
        fonts,
        whole.objects,
        copy,
    ) && fonts_are_near::<E, C>(model, whole, alone, fonts)
}

/// Resources give the same fonts in the copy.
proof fn lemma_scope_is_same<E: TextEncoding, C: FontEncodings<E>>(
    model: Model,
    alone: Set<ObjectId>,
    whole: TextSource<C>,
    copy: TextSource<C>,
    resources: Seq<Entries>,
)
    requires
        copy == (TextSource { objects: copy.objects, forms: copy.forms, ..whole }),
        forall|k: int|
            0 <= k < resources.len() ==> fonts_lead_into::<E, C>(
                model,
                alone,
                whole,
                copy.objects,
                #[trigger] resources[k],
            ),
    ensures
        page_scope::<E, C>(copy, resources).1 == page_scope::<E, C>(whole, resources).1,
        page_scope::<E, C>(copy, resources).0.fonts == page_scope::<E, C>(
            whole,
            resources,
        ).0.fonts,
    decreases resources.len(),
{
    if resources.len() > 0 {
        let above = resources.drop_first();
        assert forall|k: int| 0 <= k < above.len() implies fonts_lead_into::<E, C>(
            model,
            alone,
            whole,
            copy.objects,
            #[trigger] above[k],
        ) by {
            assert(above[k] == resources[k + 1]);
        }
        lemma_scope_is_same::<E, C>(model, alone, whole, copy, above);
        let own = resources[0];
        let (scope, met) = page_scope::<E, C>(whole, above);
        assert(fonts_lead_into::<E, C>(model, alone, whole, copy.objects, own));
        if let Some(fonts) = named_entry(own, "Font"@) {
            if let Value::Reference(id) = fonts {
                assert(mentions(fonts, id));
                assert(near(model, alone, fonts, id));
            }
            assert(reached(copy.objects, fonts) == reached(whole.objects, fonts));
            if let Some(entries) = dictionary_in(reached(whole.objects, fonts)) {
                lemma_fonts_are_same::<E, C>(
                    model,
                    alone,
                    whole,
                    copy,
                    fonts,
                    entries,
                    0,
                    scope.fonts,
                    met,
                );
            }
        }
    }
}

/// Whether what the text of page `page` reads of fonts is near them.
pub open spec fn text_reads_near<E: TextEncoding, C: FontEncodings<E>>(
    model: Model,
    source: TextSource<C>,
    page: ObjectId,
) -> bool {
    forall|node: ObjectId| #[trigger]
        tree_nodes(model, page).contains(node) ==> (node_fonts(model, node) matches Some(fonts)
            ==> fonts_are_near::<E, C>(model, source, copied_alone(model, page), fonts))
}

/// The copy has the resources along, and what their fonts lead to.
proof fn lemma_resources_are_same<E: TextEncoding, C: FontEncodings<E>>(
    model: Model,
    whole: TextSource<C>,
    page: ObjectId,
    c: CopyModel,
    node: ObjectId,
    nodes: nat,
    left: nat,
)
    requires
        model.objects == resolved(whole.objects),
        text_reads_near::<E, C>(model, whole, page),
        forall|id: ObjectId| #[trigger]
            c.objects.contains_key(id) <==> c.copied.contains(id) && found(model, id) is Some,
        as_found(model, c.objects),
        left <= nodes,
        forall|id: ObjectId| #[trigger]
            nodes_along(model, node, nodes).contains(id) ==> tree_nodes(model, page).contains(id)
                && has_node(model, page, c, id),
    ensures
        resources_along(c.objects, node, left) == resources_along(whole.objects, node, left),
        forall|k: int|
            0 <= k < resources_along(whole.objects, node, left).len() ==> fonts_lead_into::<E, C>(
                model,
                copied_alone(model, page),
                whole,
                c.objects,
                #[trigger] resources_along(whole.objects, node, left)[k],
            ),
    decreases left,
{
    let alone = copied_alone(model, page);
    lemma_nodes_above(model, node, nodes);
    assert(has_node(model, page, c, node));
    lemma_copied_object(model, whole.objects, c, node);
    match chased(whole.objects, node, DEREF_LIMIT as nat) {
        Ok(Value::Dictionary(entries)) => {
            assert(chased(c.objects, node, DEREF_LIMIT as nat) == chased(
                whole.objects,
                node,
                DEREF_LIMIT as nat,
            ));
            if let Some(Value::Reference(id)) = named_entry(entries, "Resources"@) {
                assert(resources_id(model, node) == Some(id));
                lemma_copied_object(model, whole.objects, c, id);
            }
            assert(reached_entry(c.objects, entries, "Resources"@) == reached_entry(
                whole.objects,
                entries,
                "Resources"@,
            ));
            let held = dictionary_in(reached_entry(whole.objects, entries, "Resources"@));
            let own = match held {
                Some(resources) => seq![resources],
                None => Seq::empty(),
            };
            if let Some(resources) = held {
                assert(node_fonts(model, node) == named_entry(resources, "Font"@));
                if let Some(fonts) = named_entry(resources, "Font"@) {
                    assert forall|id: ObjectId| #[trigger]
                        near(model, alone, fonts, id) implies same_object(
                        whole.objects,
                        c.objects,
                        id,
                    ) by {
                        lemma_copied_object(model, whole.objects, c, id);
                    }
                }
                assert(fonts_lead_into::<E, C>(model, alone, whole, c.objects, resources));
            }
            match reference_in(named_entry(entries, "Parent"@)) {
                Some(parent) => {
                    if left > 0 {
                        assert(parent_of(model, node) == Some(parent));
                        assert forall|id: ObjectId| #[trigger]
                            nodes_along(model, parent, (nodes - 1) as nat).contains(
                                id,
                            ) implies tree_nodes(model, page).contains(id) && has_node(
                            model,
                            page,
                            c,
                            id,
                        ) by {
                            assert(nodes_along(model, node, nodes).contains(id));
                        }
                        lemma_resources_are_same::<E, C>(
                            model,
                            whole,
                            page,
                            c,
                            parent,
                            (nodes - 1) as nat,
                            (left - 1) as nat,
                        );
                        let above = resources_along(whole.objects, parent, (left - 1) as nat);
                        assert(resources_along(whole.objects, node, left) == own + above);
                        assert forall|k: int|
                            0 <= k < (own + above).len() implies fonts_lead_into::<E, C>(
                            model,
                            alone,
                            whole,
                            c.objects,
                            #[trigger] (own + above)[k],
                        ) by {
                            if k >= own.len() {
                                assert((own + above)[k] == above[k - own.len()]);
                            }
                        }
                    }
                },
                None => {},
            }
        },
        _ => {},
    }
}

/// The text of a page read from its copy, without the forms that it draws, is the text that the whole
/// document gives it without them, with as much of its content decoded: the copy leaves out nothing
/// that the text depends on, if the walk from the page upwards comes to every node, and what is read of
/// the page's fonts is not behind a page-tree node or its resources.
pub proof fn lemma_page_text_is_that_of_the_whole_document<E: TextEncoding, C: FontEncodings<E>>(
    model: Model,
    whole: TextSource<C>,
    page: ObjectId,
    streams: Seq<ObjectId>,
)
    requires
        model.objects == resolved(whole.objects),
        walk_goes_on(model, page),
        text_reads_near::<E, C>(model, whole, page),
        !whole.forms || no_form_is_drawn(page_operations(whole, streams)),
    ensures
        ({
            let copy = TextSource {
                objects: page_objects(model, page),
                forms: false,
                ..whole
            };
            &&& text_runs::<E, C>(copy, page, streams) == text_runs::<E, C>(whole, page, streams)
            &&& text_spent::<E, C>(copy, page, streams) == text_spent::<E, C>(whole, page, streams)
        }),
{
    let copy = TextSource { objects: page_objects(model, page), forms: false, ..whole };
    let c = lemma_page_is_sound(model, page);
    let nodes = tree_nodes(model, page);
    let count = (MAX_NESTING + 1) as nat;
    assert forall|id: ObjectId| #[trigger] nodes_along(model, page, count).contains(id) implies has_node(
        model,
        page,
        c,
        id,
    ) by {
        let i = choose|i: int| 0 <= i < nodes.len() && nodes[i] == id;
        assert(has_node(model, page, c, nodes[i]));
    }
    lemma_resources_are_same::<E, C>(model, whole, page, c, page, count, MAX_NESTING as nat);
    let resources = resources_along(whole.objects, page, MAX_NESTING as nat);
    lemma_scope_is_same::<E, C>(model, copied_alone(model, page), whole, copy, resources);
    lemma_text_without_forms::<E, C>(whole, copy, page, streams);
}

} // verus!
