//! Outlines as the standard has them, and their reading order.

use vstd::prelude::*;

use crate::destinations::item_target;
use crate::document_outline::{
    after_node, empty_outline, first_node, outline_of, outline_walk, title_text, too_deep, with_node,
    ItemModel, OutlineLimits, OutlineModel,
};
use crate::ids::lemma_unseen;
use crate::object::{
    dictionary_in, named_entry, reference_in, Entries, ObjectId,
};
use crate::resolver::{catalog_of, found, Model};

verus! {

/// An outline item with its children.
pub struct OutlineTree {
    pub id: ObjectId,
    pub children: Seq<OutlineTree>,
}

/// The first of `siblings`.
pub open spec fn first_of(siblings: Seq<OutlineTree>) -> Option<ObjectId> {
    if siblings.len() > 0 {
        Some(siblings[0].id)
    } else {
        None
    }
}

/// The dictionary of an item.
pub open spec fn node_of(model: Model, tree: OutlineTree) -> Option<Entries> {
    dictionary_in(found(model, tree.id))
}

/// Whether a document holds `siblings` and what is under them: each item has a readable title, and
/// leads to its first child and to the sibling behind it.
pub open spec fn holds(model: Model, siblings: Seq<OutlineTree>) -> bool
    decreases siblings, siblings.len(),
{
    siblings.len() > 0 ==> {
        let rest = siblings.drop_first();
        &&& node_of(model, siblings[0]) matches Some(node) && {
            &&& title_text(model, node) is Some
            &&& reference_in(named_entry(node, "First"@)) == first_of(siblings[0].children)
            &&& reference_in(named_entry(node, "Next"@)) == first_of(rest)
        }
        &&& holds(model, siblings[0].children)
        &&& holds(model, rest)
    }
}

/// The objects that `siblings` and the items under them are.
pub open spec fn objects_of(siblings: Seq<OutlineTree>) -> Set<ObjectId>
    decreases siblings, siblings.len(),
{
    if siblings.len() == 0 {
        Set::empty()
    } else {
        objects_of(siblings[0].children).insert(siblings[0].id).union(
            objects_of(siblings.drop_first()),
        )
    }
}

/// Whether `siblings` and the items under them are objects of their own, none of them in `seen`.
pub open spec fn distinct(siblings: Seq<OutlineTree>, seen: Set<ObjectId>) -> bool
    decreases siblings, siblings.len(),
{
    siblings.len() > 0 ==> {
        let entered = seen.insert(siblings[0].id);
        let below = siblings[0].children;
        &&& !seen.contains(siblings[0].id)
        &&& distinct(below, entered)
        &&& distinct(siblings.drop_first(), entered.union(objects_of(below)))
    }
}

/// How many items there are.
pub open spec fn item_count(siblings: Seq<OutlineTree>) -> nat
    decreases siblings, siblings.len(),
{
    if siblings.len() == 0 {
        0
    } else {
        1 + item_count(siblings[0].children) + item_count(siblings.drop_first())
    }
}

/// How many items lie on the longest way down.
pub open spec fn nesting(siblings: Seq<OutlineTree>) -> nat
    decreases siblings, siblings.len(),
{
    if siblings.len() == 0 {
        0
    } else {
        let own = 1 + nesting(siblings[0].children);
        let rest = nesting(siblings.drop_first());
        if own > rest {
            own
        } else {
            rest
        }
    }
}

/// What an item is at `depth`.
pub open spec fn item_of(model: Model, catalog: Entries, node: Entries, depth: nat) -> ItemModel {
    ItemModel {
        title: title_text(model, node)->Some_0,
        depth,
        target: item_target(model, catalog, model.pages, node),
    }
}

/// The items in reading order: each item, then its children, then its next sibling.
pub open spec fn in_reading_order(
    model: Model,
    catalog: Entries,
    siblings: Seq<OutlineTree>,
    depth: nat,
) -> Seq<ItemModel>
    decreases siblings, siblings.len(),
{
    if siblings.len() == 0 {
        Seq::empty()
    } else {
        let node = node_of(model, siblings[0])->Some_0;
        seq![item_of(model, catalog, node, depth)] + in_reading_order(
            model,
            catalog,
            siblings[0].children,
            depth + 1,
        ) + in_reading_order(model, catalog, siblings.drop_first(), depth)
    }
}

/// `others` with the first of `siblings` to be read next.
pub open spec fn pending_with(
    others: Seq<(ObjectId, nat)>,
    siblings: Seq<OutlineTree>,
    depth: nat,
) -> Seq<(ObjectId, nat)> {
    match first_of(siblings) {
        Some(first) => others.push((first, depth)),
        None => others,
    }
}

/// `outline` with `items` behind its own.
pub open spec fn with_items(outline: OutlineModel, items: Seq<ItemModel>) -> OutlineModel {
    OutlineModel { items: outline.items + items, ..outline }
}

proof fn lemma_siblings_read(
    model: Model,
    catalog: Entries,
    limits: OutlineLimits,
    siblings: Seq<OutlineTree>,
    depth: nat,
    others: Seq<(ObjectId, nat)>,
    seen: Set<ObjectId>,
    outline: OutlineModel,
)
    requires
        holds(model, siblings),
        distinct(siblings, seen),
        outline.items.len() + item_count(siblings) <= limits.max_items,
        depth + nesting(siblings) <= limits.max_depth,
    ensures
        outline_walk(
            model,
            catalog,
            limits,
            pending_with(others, siblings, depth),
            seen,
            outline,
        ) == outline_walk(
            model,
            catalog,
            limits,
            others,
            seen.union(objects_of(siblings)),
            with_items(outline, in_reading_order(model, catalog, siblings, depth)),
        ),
    decreases siblings, siblings.len(),
{
    if siblings.len() == 0 {
        assert(seen.union(objects_of(siblings)) =~= seen);
        assert(outline.items + Seq::<ItemModel>::empty() =~= outline.items);
    } else {
        let tree = siblings[0];
        let rest = siblings.drop_first();
        let below = tree.children;
        let node = node_of(model, tree)->Some_0;
        let item = item_of(model, catalog, node, depth);
        let pending = pending_with(others, siblings, depth);
        let entered = seen.insert(tree.id);
        let read = with_items(outline, seq![item]);
        assert(nesting(siblings) >= 1 + nesting(below));
        assert(nesting(siblings) >= nesting(rest));
        assert(pending.last() == (tree.id, depth));
        assert(pending.drop_last() =~= others);
        lemma_unseen(seen, tree.id);
        let behind = pending_with(others, rest, depth);
        if below.len() > 0 {
            assert(nesting(below) >= 1);
        }
        assert(after_node(node, depth, limits.max_depth as nat, others) =~= pending_with(
            behind,
            below,
            depth + 1,
        ));
        assert(!too_deep(node, depth, limits.max_depth as nat));
        assert(with_node(model, catalog, node, depth, outline).items =~= read.items);
        assert(outline_walk(model, catalog, limits, pending, seen, outline) == outline_walk(
            model,
            catalog,
            limits,
            pending_with(behind, below, depth + 1),
            entered,
            read,
        ));
        lemma_siblings_read(model, catalog, limits, below, depth + 1, behind, entered, read);
        let inner = in_reading_order(model, catalog, below, depth + 1);
        let last = in_reading_order(model, catalog, rest, depth);
        let read_below = with_items(read, inner);
        let seen_below = entered.union(objects_of(below));
        lemma_order_len(model, catalog, below, depth + 1);
        lemma_siblings_read(model, catalog, limits, rest, depth, others, seen_below, read_below);
        assert(seen_below.union(objects_of(rest)) =~= seen.union(objects_of(siblings)));
        assert(with_items(read_below, last).items =~= with_items(
            outline,
            in_reading_order(model, catalog, siblings, depth),
        ).items);
    }
}

proof fn lemma_order_len(model: Model, catalog: Entries, siblings: Seq<OutlineTree>, depth: nat)
    ensures
        in_reading_order(model, catalog, siblings, depth).len() == item_count(siblings),
    decreases siblings, siblings.len(),
{
    if siblings.len() > 0 {
        lemma_order_len(model, catalog, siblings[0].children, depth + 1);
        lemma_order_len(model, catalog, siblings.drop_first(), depth);
    }
}

/// An outline of items that are objects of their own, each with a title, is read whole and in
/// reading order, each item at its depth, if it keeps within the limits.
pub proof fn lemma_outline_in_reading_order(
    model: Model,
    catalog: Entries,
    limits: OutlineLimits,
    items: Seq<OutlineTree>,
)
    requires
        catalog_of(model) == Some(catalog),
        first_node(model, catalog) == first_of(items),
        holds(model, items),
        distinct(items, Set::empty()),
        item_count(items) <= limits.max_items,
        nesting(items) <= limits.max_depth,
    ensures
        outline_of(model, limits) == (OutlineModel {
            items: in_reading_order(model, catalog, items, 0),
            skipped: 0,
            truncated: false,
        }),
{
    let none = Seq::<(ObjectId, nat)>::empty();
    let order = in_reading_order(model, catalog, items, 0);
    lemma_siblings_read(model, catalog, limits, items, 0, none, Set::empty(), empty_outline());
    assert(empty_outline().items + order =~= order);
    if items.len() > 0 {
        assert(pending_with(none, items, 0) =~= seq![(items[0].id, 0nat)]);
    }
}

} // verus!
