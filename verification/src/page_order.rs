//! Page trees as the standard has them, and the order of their pages.

use vstd::prelude::*;
use vstd::utf8::encode_utf8_decode_utf8;

use crate::bytes::key;
use crate::object::{
    dictionary_in, name_in, named_entry, reference_in, reference_of, ObjectId, Value,
};
use crate::page_tree::{
    kids_of, page_order, page_walk, visits, PAGE_TREE_DEPTH_LIMIT,
};
use crate::resolver::{catalog_of, found, Model};

verus! {

/// A page, or a node with the pages and nodes under it.
pub enum PageTree {
    Page(ObjectId),
    Node(ObjectId, Seq<PageTree>),
}

/// The object that a page or a node is.
pub open spec fn tree_id(tree: PageTree) -> ObjectId {
    match tree {
        PageTree::Page(id) => id,
        PageTree::Node(id, _) => id,
    }
}

/// References to each of `kids`.
pub open spec fn references_to(kids: Seq<PageTree>) -> Seq<Value> {
    Seq::new(kids.len(), |i: int| Value::Reference(tree_id(kids[i])))
}

/// What object `id` says it is.
pub open spec fn type_of(model: Model, id: ObjectId) -> Option<Seq<u8>> {
    match dictionary_in(found(model, id)) {
        Some(node) => name_in(named_entry(node, "Type"@)),
        None => None,
    }
}

/// Whether a document holds `tree`: its pages are pages, and its nodes have the kids they should.
pub open spec fn holds(model: Model, tree: PageTree) -> bool
    decreases tree, 0nat,
{
    match tree {
        PageTree::Page(id) => type_of(model, id) == Some(key("Page"@)),
        PageTree::Node(id, kids) => {
            &&& type_of(model, id) == Some(key("Pages"@))
            &&& kids_of(model, id) == references_to(kids)
            &&& holds_all(model, kids)
        },
    }
}

/// Whether a document holds each of `kids`.
pub open spec fn holds_all(model: Model, kids: Seq<PageTree>) -> bool
    decreases kids, kids.len(),
{
    kids.len() > 0 ==> holds(model, kids[0]) && holds_all(model, kids.drop_first())
}

/// The pages of a tree from left to right.
pub open spec fn leaves(tree: PageTree) -> Seq<ObjectId>
    decreases tree, 0nat,
{
    match tree {
        PageTree::Page(id) => seq![id],
        PageTree::Node(_, kids) => leaves_of(kids),
    }
}

/// The pages of `kids` from left to right.
pub open spec fn leaves_of(kids: Seq<PageTree>) -> Seq<ObjectId>
    decreases kids, kids.len(),
{
    if kids.len() == 0 {
        Seq::empty()
    } else {
        leaves(kids[0]) + leaves_of(kids.drop_first())
    }
}

/// How many pages and nodes there are in a tree.
pub open spec fn size(tree: PageTree) -> nat
    decreases tree, 0nat,
{
    match tree {
        PageTree::Page(_) => 1,
        PageTree::Node(_, kids) => 1 + size_of(kids),
    }
}

/// How many pages and nodes there are in `kids`.
pub open spec fn size_of(kids: Seq<PageTree>) -> nat
    decreases kids, kids.len(),
{
    if kids.len() == 0 {
        0
    } else {
        size(kids[0]) + size_of(kids.drop_first())
    }
}

/// How many nodes deep a tree is.
pub open spec fn depth(tree: PageTree) -> nat
    decreases tree, 0nat,
{
    match tree {
        PageTree::Page(_) => 0,
        PageTree::Node(_, kids) => 1 + depth_of(kids),
    }
}

/// How many nodes deep `kids` are.
pub open spec fn depth_of(kids: Seq<PageTree>) -> nat
    decreases kids, kids.len(),
{
    if kids.len() == 0 {
        0
    } else {
        let rest = depth_of(kids.drop_first());
        if depth(kids[0]) > rest {
            depth(kids[0])
        } else {
            rest
        }
    }
}

proof fn lemma_walk(model: Model, kids: Seq<PageTree>, stack: Seq<Seq<Value>>, left: nat)
    requires
        holds_all(model, kids),
        size_of(kids) <= left,
        stack.len() + depth_of(kids) <= PAGE_TREE_DEPTH_LIMIT,
    ensures
        page_walk(model, references_to(kids), stack, left) == leaves_of(kids) + page_walk(
            model,
            Seq::empty(),
            stack,
            (left - size_of(kids)) as nat,
        ),
    decreases size_of(kids),
{
    let references = references_to(kids);
    if kids.len() == 0 {
        let behind = page_walk(model, Seq::empty(), stack, left);
        assert(references =~= Seq::<Value>::empty());
        assert(leaves_of(kids) + behind =~= behind);
    } else {
        let rest = kids.drop_first();
        assert(references.drop_first() =~= references_to(rest));
        assert(references[0] == Value::Reference(tree_id(kids[0])));
        assert(holds(model, kids[0]));
        assert(leaves_of(kids) == leaves(kids[0]) + leaves_of(rest));
        assert(size_of(kids) == size(kids[0]) + size_of(rest));
        let after = (left - size(kids[0])) as nat;
        let behind = page_walk(model, Seq::empty(), stack, (left - size_of(kids)) as nat);
        match kids[0] {
            PageTree::Page(id) => {
                assert(leaves(kids[0]) == seq![id]);
                assert(size(kids[0]) == 1);
                lemma_walk(model, rest, stack, after);
                assert(seq![id] + (leaves_of(rest) + behind) =~= leaves_of(kids) + behind);
            },
            PageTree::Node(id, below) => {
                lemma_types_differ();
                assert(leaves(kids[0]) == leaves_of(below));
                assert(size(kids[0]) == 1 + size_of(below));
                assert(depth(kids[0]) == 1 + depth_of(below));
                assert(holds_all(model, below));
                let pending = if rest.len() > 0 {
                    stack.push(references_to(rest))
                } else {
                    stack
                };
                assert(page_walk(model, references, stack, left) == page_walk(
                    model,
                    references_to(below),
                    pending,
                    (left - 1) as nat,
                ));
                lemma_walk(model, below, pending, (left - 1) as nat);
                if rest.len() > 0 {
                    assert(pending.last() == references_to(rest));
                    assert(pending.drop_last() =~= stack);
                    lemma_walk(model, rest, stack, after);
                    assert(page_walk(model, Seq::empty(), pending, after) == page_walk(
                        model,
                        references_to(rest),
                        stack,
                        after,
                    ));
                } else {
                    assert(leaves_of(rest) =~= Seq::<ObjectId>::empty());
                }
                assert(leaves_of(below) + (leaves_of(rest) + behind) =~= leaves_of(kids) + behind);
                assert(leaves_of(below) + behind =~= leaves_of(below) + (Seq::<ObjectId>::empty()
                    + behind));
            },
        }
    }
}

proof fn lemma_types_differ()
    ensures
        key("Page"@) != key("Pages"@),
{
    reveal_strlit("Page");
    reveal_strlit("Pages");
    vstd::utf8::is_ascii_chars_encode_utf8("Page"@);
    vstd::utf8::is_ascii_chars_encode_utf8("Pages"@);
}

/// The pages of a document whose page tree is a tree are its leaves from left to right: each page
/// once for each place where it is listed, none missing and none added. The tree is no deeper than
/// is followed, and the document has an object for each place in it.
pub proof fn lemma_pages_are_leaves(
    model: Model,
    count: nat,
    root: ObjectId,
    kids: Seq<PageTree>,
)
    requires
        catalog_of(model) matches Some(catalog) && reference_in(named_entry(catalog, "Pages"@))
            == Some(root),
        kids_of(model, root) == references_to(kids),
        holds_all(model, kids),
        size_of(kids) <= visits(count),
        depth_of(kids) <= PAGE_TREE_DEPTH_LIMIT,
    ensures
        page_order(model, count) == leaves_of(kids),
{
    lemma_walk(model, kids, Seq::empty(), visits(count));
    let behind = page_walk(
        model,
        Seq::empty(),
        Seq::empty(),
        (visits(count) - size_of(kids)) as nat,
    );
    assert(behind =~= Seq::<ObjectId>::empty());
    assert(leaves_of(kids) + behind =~= leaves_of(kids));
}

proof fn lemma_walk_finds_pages(
    model: Model,
    kids: Seq<Value>,
    stack: Seq<Seq<Value>>,
    left: nat,
)
    ensures
        forall|i: int|
            0 <= i < page_walk(model, kids, stack, left).len() ==> type_of(
                model,
                #[trigger] page_walk(model, kids, stack, left)[i],
            ) == Some(key("Page"@)),
    decreases left, stack.len(),
{
    if kids.len() == 0 {
        if stack.len() > 0 {
            lemma_walk_finds_pages(model, stack.last(), stack.drop_last(), left);
        }
    } else if left > 0 {
        let rest = kids.drop_first();
        let less = (left - 1) as nat;
        lemma_walk_finds_pages(model, rest, stack, less);
        if let Some(id) = reference_of(kids[0]) {
            lemma_walk_finds_pages(model, kids_of(model, id), stack.push(rest), less);
            lemma_walk_finds_pages(model, kids_of(model, id), stack, less);
        }
    }
}

/// Each page of a document, however malformed its page tree, is an object typed `/Page`.
pub proof fn lemma_pages_are_pages(model: Model, count: nat, i: int)
    requires
        0 <= i < page_order(model, count).len(),
    ensures
        type_of(model, page_order(model, count)[i]) == Some(key("Page"@)),
{
    if let Some(catalog) = catalog_of(model) {
        if let Some(root) = reference_in(named_entry(catalog, "Pages"@)) {
            lemma_walk_finds_pages(model, kids_of(model, root), Seq::empty(), visits(count));
        }
    }
}

/// Whether a walk over the pages comes to its end within so many visits.
pub open spec fn walk_ends(
    model: Model,
    kids: Seq<Value>,
    stack: Seq<Seq<Value>>,
    visits: nat,
) -> bool
    decreases visits, stack.len(),
{
    if kids.len() == 0 {
        stack.len() == 0 || walk_ends(model, stack.last(), stack.drop_last(), visits)
    } else if visits == 0 {
        false
    } else {
        let rest = kids.drop_first();
        let left = (visits - 1) as nat;
        match reference_of(kids[0]) {
            Some(id) => if type_of(model, id) == Some(key("Pages"@)) && stack.len()
                < PAGE_TREE_DEPTH_LIMIT {
                let pending = if rest.len() > 0 {
                    stack.push(rest)
                } else {
                    stack
                };
                walk_ends(model, kids_of(model, id), pending, left)
            } else {
                walk_ends(model, rest, stack, left)
            },
            None => walk_ends(model, rest, stack, left),
        }
    }
}

/// Whether the pages of a document are all found where it has `count` objects.
pub open spec fn pages_end(model: Model, count: nat) -> bool {
    match catalog_of(model) {
        Some(catalog) => match reference_in(named_entry(catalog, "Pages"@)) {
            Some(root) => walk_ends(model, kids_of(model, root), Seq::empty(), visits(count)),
            None => true,
        },
        None => true,
    }
}

proof fn lemma_same_walk(
    a: Model,
    b: Model,
    kids: Seq<Value>,
    stack: Seq<Seq<Value>>,
    fewer: nat,
    more: nat,
)
    requires
        a.objects == b.objects,
        fewer <= more,
        fewer == more || walk_ends(a, kids, stack, fewer),
    ensures
        page_walk(a, kids, stack, fewer) == page_walk(b, kids, stack, more),
        walk_ends(a, kids, stack, fewer) ==> walk_ends(b, kids, stack, more),
    decreases fewer, stack.len(),
{
    if kids.len() == 0 {
        if stack.len() > 0 {
            lemma_same_walk(a, b, stack.last(), stack.drop_last(), fewer, more);
        }
    } else if fewer > 0 {
        let rest = kids.drop_first();
        let left = (fewer - 1) as nat;
        let left_more = (more - 1) as nat;
        match reference_of(kids[0]) {
            Some(id) => {
                assert(found(a, id) == found(b, id));
                assert(type_of(a, id) == type_of(b, id));
                assert(kids_of(a, id) == kids_of(b, id));
                assert(key("Page"@) != key("Pages"@)) by {
                    lemma_page_names_differ();
                }
                if type_of(a, id) == Some(key("Pages"@)) && stack.len() < PAGE_TREE_DEPTH_LIMIT {
                    let pending = if rest.len() > 0 {
                        stack.push(rest)
                    } else {
                        stack
                    };
                    lemma_same_walk(a, b, kids_of(a, id), pending, left, left_more);
                } else {
                    lemma_same_walk(a, b, rest, stack, left, left_more);
                }
            },
            None => {
                lemma_same_walk(a, b, rest, stack, left, left_more);
            },
        }
    }
}

proof fn lemma_page_names_differ()
    ensures
        key("Page"@) != key("Pages"@),
{
    reveal_strlit("Page");
    reveal_strlit("Pages");
    encode_utf8_decode_utf8("Page"@);
    encode_utf8_decode_utf8("Pages"@);
}

/// Documents of the same objects have the same pages, whatever they are read from, if each stops
/// after as many kids as the other, or neither stops before the end.
pub proof fn lemma_same_objects_have_the_same_pages(a: Model, b: Model, count: nat, other: nat)
    requires
        a.objects == b.objects,
        a.trailer == b.trailer,
        count == other || (pages_end(a, count) && pages_end(b, other)),
    ensures
        page_order(a, count) == page_order(b, other),
        pages_end(a, count) == pages_end(b, count),
{
    assert(catalog_of(a) == catalog_of(b));
    if let Some(catalog) = catalog_of(a) {
        if let Some(root) = reference_in(named_entry(catalog, "Pages"@)) {
            let kids = kids_of(a, root);
            assert(kids == kids_of(b, root));
            let none: Seq<Seq<Value>> = Seq::empty();
            lemma_same_walk(a, b, kids, none, visits(count), visits(count));
            lemma_same_walk(b, a, kids, none, visits(count), visits(count));
            if visits(count) <= visits(other) {
                lemma_same_walk(a, b, kids, none, visits(count), visits(other));
            } else {
                lemma_same_walk(b, a, kids, none, visits(other), visits(count));
            }
        }
    }
}

} // verus!
