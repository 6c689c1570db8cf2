//! Name trees as the standard has them, and what is stored in them.

use vstd::prelude::*;

use crate::destinations::{
    excluded, name_tree_value, name_tree_value_in, name_value, MAX_NAME_TREE_DEPTH,
};
use crate::object::{
    array_in, dictionary_in, reference_of, Entries, ObjectId, Value,
};
use crate::resolver::{followed, followed_entry, Model};

verus! {

/// A name-tree node: where it is, the names it lists with their values, and the nodes under it.
pub struct NameTree {
    /// The node itself, or a reference to it.
    pub place: Value,
    pub names: Seq<Value>,
    pub kids: Seq<NameTree>,
}

/// The objects that the nodes of `tree` are.
pub open spec fn node_ids(tree: NameTree) -> Seq<ObjectId>
    decreases tree, 0nat,
{
    let own = match reference_of(tree.place) {
        Some(id) => seq![id],
        None => Seq::empty(),
    };
    own + node_ids_in(tree.kids)
}

/// The objects that the nodes of `kids` are.
pub open spec fn node_ids_in(kids: Seq<NameTree>) -> Seq<ObjectId>
    decreases kids, kids.len(),
{
    if kids.len() == 0 {
        Seq::empty()
    } else {
        node_ids(kids[0]) + node_ids_in(kids.drop_first())
    }
}

/// How many nodes lie on the longest way down from `tree`, itself not counted.
pub open spec fn height(tree: NameTree) -> nat
    decreases tree, 0nat,
{
    if tree.kids.len() == 0 {
        0
    } else {
        1 + height_of(tree.kids)
    }
}

/// The height of the highest of `kids`.
pub open spec fn height_of(kids: Seq<NameTree>) -> nat
    decreases kids, kids.len(),
{
    if kids.len() == 0 {
        0
    } else {
        let rest = height_of(kids.drop_first());
        if height(kids[0]) > rest {
            height(kids[0])
        } else {
            rest
        }
    }
}

/// What `tree` stores under `name`: what the node itself lists, or the first of its kids that stores
/// anything.
pub open spec fn stored_under(tree: NameTree, name: Seq<u8>) -> Option<Value>
    decreases tree, 0nat,
{
    match name_value(tree.names, name) {
        Some(value) => Some(value),
        None => stored_in(tree.kids, name),
    }
}

/// What the first of `kids` that stores anything under `name` stores.
pub open spec fn stored_in(kids: Seq<NameTree>, name: Seq<u8>) -> Option<Value>
    decreases kids, kids.len(),
{
    if kids.len() == 0 {
        None
    } else {
        match stored_under(kids[0], name) {
            Some(value) => Some(value),
            None => stored_in(kids.drop_first(), name),
        }
    }
}

/// Where each of `kids` is.
pub open spec fn places(kids: Seq<NameTree>) -> Seq<Value> {
    Seq::new(kids.len(), |i: int| kids[i].place)
}

/// An array that is there, or none where there is nothing in it.
pub open spec fn array_or_none(model: Model, node: Entries, entry: Seq<char>, items: Seq<Value>) -> bool {
    match array_in(followed_entry(model, node, entry)) {
        Some(array) => array == items,
        None => items.len() == 0,
    }
}

/// Whether a document holds `tree`, and the limits of its nodes leave out no name that they store.
pub open spec fn holds(model: Model, tree: NameTree) -> bool
    decreases tree, 0nat,
{
    &&& dictionary_in(followed(model, tree.place)) matches Some(node) && {
        &&& array_or_none(model, node, "Names"@, tree.names)
        &&& array_or_none(model, node, "Kids"@, places(tree.kids))
        &&& forall|name: Seq<u8>| #[trigger]
            excluded(node, name) ==> stored_under(tree, name) is None
    }
    &&& holds_all(model, tree.kids)
}

/// Whether a document holds each of `kids`.
pub open spec fn holds_all(model: Model, kids: Seq<NameTree>) -> bool
    decreases kids, kids.len(),
{
    kids.len() > 0 ==> holds(model, kids[0]) && holds_all(model, kids.drop_first())
}

/// Whether no two of `ids` are the same, and none is in `seen`.
pub open spec fn fresh(ids: Seq<ObjectId>, seen: Set<ObjectId>) -> bool {
    &&& forall|i: int, j: int| 0 <= i < j < ids.len() ==> #[trigger] ids[i] != #[trigger] ids[j]
    &&& forall|i: int| 0 <= i < ids.len() ==> !seen.contains(#[trigger] ids[i])
}

proof fn lemma_fresh_parts(a: Seq<ObjectId>, b: Seq<ObjectId>, seen: Set<ObjectId>, more: Set<ObjectId>)
    requires
        fresh(a + b, seen),
        forall|id: ObjectId| #[trigger] more.contains(id) ==> seen.contains(id) || a.contains(id),
    ensures
        fresh(a, seen),
        fresh(b, more),
{
    let whole = a + b;
    assert forall|i: int, j: int| 0 <= i < j < a.len() implies #[trigger] a[i] != #[trigger] a[j] by {
        assert(whole[i] != whole[j]);
    }
    assert forall|i: int| 0 <= i < a.len() implies !seen.contains(#[trigger] a[i]) by {
        assert(whole[i] == a[i]);
    }
    assert forall|i: int, j: int| 0 <= i < j < b.len() implies #[trigger] b[i] != #[trigger] b[j] by {
        assert(whole[a.len() + i] != whole[a.len() + j]);
    }
    assert forall|i: int| 0 <= i < b.len() implies !more.contains(#[trigger] b[i]) by {
        assert(whole[a.len() + i] == b[i]);
        if a.contains(b[i]) {
            let k = choose|k: int| 0 <= k < a.len() && a[k] == b[i];
            assert(whole[k] != whole[a.len() + i]);
        }
    }
}

proof fn lemma_lookup(model: Model, tree: NameTree, depth: nat, seen: Set<ObjectId>, name: Seq<u8>)
    requires
        holds(model, tree),
        fresh(node_ids(tree), seen),
        depth + height(tree) <= MAX_NAME_TREE_DEPTH,
    ensures
        name_tree_value(model, tree.place, depth, seen, name).0 == stored_under(tree, name),
        forall|id: ObjectId| #[trigger]
            name_tree_value(model, tree.place, depth, seen, name).1.contains(id)
                ==> seen.contains(id) || node_ids(tree).contains(id),
    decreases tree, 0nat,
{
    let node = dictionary_in(followed(model, tree.place))->Some_0;
    let ids = node_ids(tree);
    let below = node_ids_in(tree.kids);
    let own = match reference_of(tree.place) {
        Some(id) => seq![id],
        None => Seq::empty(),
    };
    let entered = match reference_of(tree.place) {
        Some(id) => seen.insert(id),
        None => seen,
    };
    assert(ids == own + below);
    assert forall|id: ObjectId| #[trigger] entered.contains(id) implies seen.contains(id)
        || own.contains(id) by {
        if let Some(place) = reference_of(tree.place) {
            assert(own[0] == place);
        }
    }
    if let Some(place) = reference_of(tree.place) {
        assert(ids[0] == place);
    }
    lemma_fresh_parts(own, below, seen, entered);
    assert forall|id: ObjectId| own.contains(id) || below.contains(id) implies #[trigger] ids.contains(
        id,
    ) by {
        if own.contains(id) {
            let k = choose|k: int| 0 <= k < own.len() && own[k] == id;
            assert(ids[k] == id);
        } else {
            let k = choose|k: int| 0 <= k < below.len() && below[k] == id;
            assert(ids[own.len() + k] == id);
        }
    }
    if tree.kids.len() > 0 {
        assert(height(tree) == 1 + height_of(tree.kids));
        lemma_kids_lookup(model, tree.kids, depth + 1, entered, name);
    } else {
        assert(places(tree.kids) =~= Seq::<Value>::empty());
        assert(stored_in(tree.kids, name) is None);
        assert(name_tree_value_in(model, Seq::empty(), depth + 1, entered, name) == (
            None::<Value>,
            entered,
        ));
    }
    if tree.names.len() == 0 {
        assert(name_value(tree.names, name) is None);
    }
}

proof fn lemma_kids_lookup(
    model: Model,
    kids: Seq<NameTree>,
    depth: nat,
    seen: Set<ObjectId>,
    name: Seq<u8>,
)
    requires
        holds_all(model, kids),
        fresh(node_ids_in(kids), seen),
        depth + height_of(kids) <= MAX_NAME_TREE_DEPTH,
    ensures
        name_tree_value_in(model, places(kids), depth, seen, name).0 == stored_in(kids, name),
        forall|id: ObjectId| #[trigger]
            name_tree_value_in(model, places(kids), depth, seen, name).1.contains(id)
                ==> seen.contains(id) || node_ids_in(kids).contains(id),
    decreases kids, kids.len(),
{
    if kids.len() > 0 {
        let first = node_ids(kids[0]);
        let rest = node_ids_in(kids.drop_first());
        let all = node_ids_in(kids);
        assert(all == first + rest);
        assert(places(kids)[0] == kids[0].place);
        assert(places(kids).drop_first() =~= places(kids.drop_first()));
        let after = name_tree_value(model, kids[0].place, depth, seen, name).1;
        assert(holds(model, kids[0]));
        lemma_fresh_parts(first, rest, seen, seen);
        lemma_lookup(model, kids[0], depth, seen, name);
        lemma_fresh_parts(first, rest, seen, after);
        lemma_kids_lookup(model, kids.drop_first(), depth, after, name);
        assert forall|id: ObjectId| first.contains(id) || rest.contains(id) implies #[trigger] all.contains(
            id,
        ) by {
            if first.contains(id) {
                let k = choose|k: int| 0 <= k < first.len() && first[k] == id;
                assert(all[k] == id);
            } else {
                let k = choose|k: int| 0 <= k < rest.len() && rest[k] == id;
                assert(all[first.len() + k] == id);
            }
        }
    }
}

/// A lookup in a name tree finds what is stored under the name, and nothing where nothing is. The
/// tree is no deeper than is followed, and each of its nodes is an object of its own.
pub proof fn lemma_name_is_found(model: Model, tree: NameTree, name: Seq<u8>)
    requires
        holds(model, tree),
        fresh(node_ids(tree), Set::empty()),
        height(tree) <= MAX_NAME_TREE_DEPTH,
    ensures
        name_tree_value(model, tree.place, 0, Set::empty(), name).0 == stored_under(tree, name),
{
    lemma_lookup(model, tree, 0, Set::empty(), name);
}

} // verus!
