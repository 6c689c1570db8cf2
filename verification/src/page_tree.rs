//! The pages of a document, in the order its page tree puts them in.

use std::collections::BTreeMap;

use vstd::prelude::*;

use crate::bytes;
use crate::error::Result;
use crate::object::{
    array_in, dictionary_in, name_in, named_entry, reference_in, reference_of, values, Object,
    ObjectId, Value,
};
use crate::resolver::{
    array_named, catalog, catalog_of, dictionary_at, followed_entry, found, source_failure, Model,
    ObjectResolver,
};

verus! {

/// Deepest nesting of unfinished page-tree nodes followed.
pub const PAGE_TREE_DEPTH_LIMIT: usize = 256;

/// The `/Kids` of page-tree node `id`, or none when the node or its kids cannot be read.
pub open spec fn kids_of(model: Model, id: ObjectId) -> Seq<Value> {
    match dictionary_in(found(model, id)) {
        Some(node) => match array_in(followed_entry(model, node, "Kids"@)) {
            Some(kids) => kids,
            None => Seq::empty(),
        },
        None => Seq::empty(),
    }
}

/// The pages among `kids`, each followed by nothing or, for a node of the tree, replaced by the
/// pages among its own kids; then those among the siblings on `stack`, the last put there first.
/// No more than `visits` kids are looked at. Only kids typed `/Page` count, only kids typed
/// `/Pages` are descended into, and none is below [`PAGE_TREE_DEPTH_LIMIT`] unfinished nodes.
pub open spec fn page_walk(
    model: Model,
    kids: Seq<Value>,
    stack: Seq<Seq<Value>>,
    visits: nat,
) -> Seq<ObjectId>
    decreases visits, stack.len(),
{
    if kids.len() == 0 {
        if stack.len() == 0 {
            Seq::empty()
        } else {
            page_walk(model, stack.last(), stack.drop_last(), visits)
        }
    } else if visits == 0 {
        Seq::empty()
    } else {
        let rest = kids.drop_first();
        let left = (visits - 1) as nat;
        let node = match reference_of(kids[0]) {
            Some(id) => dictionary_in(found(model, id)),
            None => None,
        };
        match (reference_of(kids[0]), node) {
            (Some(id), Some(node)) => {
                let kind = name_in(named_entry(node, "Type"@));
                if kind == Some(bytes::key("Page"@)) {
                    seq![id] + page_walk(model, rest, stack, left)
                } else if kind == Some(bytes::key("Pages"@)) && stack.len()
                    < PAGE_TREE_DEPTH_LIMIT {
                    let pending = if rest.len() > 0 {
                        stack.push(rest)
                    } else {
                        stack
                    };
                    page_walk(model, kids_of(model, id), pending, left)
                } else {
                    page_walk(model, rest, stack, left)
                }
            },
            _ => page_walk(model, rest, stack, left),
        }
    }
}

/// The pages of a document of `count` objects: no more kids are looked at than it has objects, nor
/// more than page numbers can count.
pub open spec fn page_order(model: Model, count: nat) -> Seq<ObjectId> {
    match catalog_of(model) {
        Some(catalog) => match reference_in(named_entry(catalog, "Pages"@)) {
            Some(root) => page_walk(model, kids_of(model, root), Seq::empty(), visits(count)),
            None => Seq::empty(),
        },
        None => Seq::empty(),
    }
}

/// How many kids are looked at in a document of `count` objects.
pub open spec fn visits(count: nat) -> nat {
    if count < u32::MAX {
        count
    } else {
        (u32::MAX - 1) as nat
    }
}

/// What is left of `kids` from position `at` on.
pub open spec fn kids_left(kids: (Vec<Object>, usize)) -> Seq<Value> {
    values(kids.0@).skip(kids.1 as int)
}

/// What is left of each list of siblings.
pub open spec fn siblings_left(stack: Seq<(Vec<Object>, usize)>) -> Seq<Seq<Value>> {
    Seq::new(stack.len(), |i: int| kids_left(stack[i]))
}

/// A walk finds no more pages than it looks at kids.
pub proof fn lemma_page_walk_len(
    model: Model,
    kids: Seq<Value>,
    stack: Seq<Seq<Value>>,
    visits: nat,
)
    ensures
        page_walk(model, kids, stack, visits).len() <= visits,
    decreases visits, stack.len(),
{
    if kids.len() == 0 {
        if stack.len() > 0 {
            lemma_page_walk_len(model, stack.last(), stack.drop_last(), visits);
        }
    } else if visits > 0 {
        let rest = kids.drop_first();
        let left = (visits - 1) as nat;
        lemma_page_walk_len(model, rest, stack, left);
        if let Some(id) = reference_of(kids[0]) {
            lemma_page_walk_len(model, kids_of(model, id), stack.push(rest), left);
            lemma_page_walk_len(model, kids_of(model, id), stack, left);
        }
    }
}

/// A document has fewer pages than page numbers can count.
pub proof fn lemma_page_order_len(model: Model, count: nat)
    ensures
        page_order(model, count).len() < u32::MAX,
{
    if let Some(catalog) = catalog_of(model) {
        if let Some(root) = reference_in(named_entry(catalog, "Pages"@)) {
            lemma_page_walk_len(model, kids_of(model, root), Seq::empty(), visits(count));
        }
    }
}

/// The `/Kids` of page-tree node `id`, or none when the node or its kids cannot be read.
fn page_tree_kids<R: ObjectResolver>(resolver: &R, id: ObjectId) -> (r: Result<Vec<Object>>)
    ensures
        match r {
            Ok(kids) => values(kids@) == kids_of(resolver.model(), id),
            Err(error) => source_failure(error, resolver.can_fail()),
        },
{
    let node = match dictionary_at(resolver, id) {
        Ok(Some(node)) => node,
        Ok(None) => {
            let none: Vec<Object> = Vec::new();
            assert(values(none@) =~= Seq::<Value>::empty());
            return Ok(none);
        },
        Err(error) => return Err(error),
    };
    match array_named(resolver, &node, "Kids") {
        Ok(Some(kids)) => Ok(kids),
        Ok(None) => {
            let none: Vec<Object> = Vec::new();
            assert(values(none@) =~= Seq::<Value>::empty());
            Ok(none)
        },
        Err(error) => Err(error),
    }
}

/// The page object ids of a document of `count` objects, in page-tree order. A malformed node is
/// skipped, but a failure to read the source is returned.
pub fn ordered_pages<R: ObjectResolver>(resolver: &R, count: usize) -> (r: Result<Vec<ObjectId>>)
    ensures
        match r {
            Ok(pages) => pages@ == page_order(resolver.model(), count as nat) && pages@.len()
                < u32::MAX,
            Err(error) => source_failure(error, resolver.can_fail()),
        },
{
    let ghost model = resolver.model();
    let mut pages: Vec<ObjectId> = Vec::new();
    let catalog = match catalog(resolver) {
        Ok(Some(catalog)) => catalog,
        Ok(None) => return Ok(pages),
        Err(error) => return Err(error),
    };
    let root = match catalog.named("Pages") {
        Some(Object::Reference(root)) => *root,
        _ => return Ok(pages),
    };
    let mut left: u32 = if count < u32::MAX as usize {
        count as u32
    } else {
        u32::MAX - 1
    };
    let mut kids: (Vec<Object>, usize) = match page_tree_kids(resolver, root) {
        Ok(kids) => (kids, 0),
        Err(error) => return Err(error),
    };
    let mut stack: Vec<(Vec<Object>, usize)> = Vec::new();
    let ghost all = page_order(model, count as nat);
    proof {
        assert(kids_left(kids) =~= kids_of(model, root));
        assert(siblings_left(stack@) =~= Seq::<Seq<Value>>::empty());
        lemma_page_walk_len(model, kids_of(model, root), Seq::empty(), left as nat);
        assert(pages@ + page_walk(model, kids_left(kids), siblings_left(stack@), left as nat)
            =~= all);
    }
    loop
        invariant
            model == resolver.model(),
            kids.1 <= kids.0@.len(),
            forall|i: int| 0 <= i < stack@.len() ==> (#[trigger] stack@[i]).1 <= stack@[i].0@.len(),
            pages@ + page_walk(model, kids_left(kids), siblings_left(stack@), left as nat) == all,
            all == page_order(model, count as nat),
            all.len() < u32::MAX,
        decreases left, stack@.len(),
    {
        let ghost kids_before = kids_left(kids);
        let ghost stack_before = siblings_left(stack@);
        if kids.1 == kids.0.len() {
            match stack.pop() {
                Some(siblings) => {
                    kids = siblings;
                    proof {
                        assert(siblings_left(stack@) =~= stack_before.drop_last());
                        assert(kids_left(kids) == stack_before.last());
                    }
                    continue;
                },
                None => {
                    assert(pages@ + Seq::<ObjectId>::empty() =~= pages@);
                    return Ok(pages);
                },
            }
        }
        if left == 0 {
            assert(pages@ + Seq::<ObjectId>::empty() =~= pages@);
            return Ok(pages);
        }
        left -= 1;
        let at = kids.1;
        let kid = kids.0[at].as_reference();
        kids.1 = at + 1;
        proof {
            assert(kids_before[0] == kids.0@[at as int]@);
            assert(kids_left(kids) =~= kids_before.drop_first());
        }
        let id = match kid {
            Ok(id) => id,
            Err(_) => continue,
        };
        let node = match dictionary_at(resolver, id) {
            Ok(Some(node)) => node,
            Ok(None) => continue,
            Err(error) => return Err(error),
        };
        let kind = match node.named("Type") {
            Some(Object::Name(kind)) => kind,
            _ => continue,
        };
        if bytes::spells(kind.as_slice(), "Page") {
            let ghost so_far = pages@;
            pages.push(id);
            proof {
                let after = page_walk(model, kids_left(kids), siblings_left(stack@), left as nat);
                assert(so_far + (seq![id] + after) =~= pages@ + after);
            }
        } else if bytes::spells(kind.as_slice(), "Pages") && stack.len() < PAGE_TREE_DEPTH_LIMIT {
            let inner = match page_tree_kids(resolver, id) {
                Ok(inner) => inner,
                Err(error) => return Err(error),
            };
            let ghost rest = kids_left(kids);
            let mut siblings = (inner, 0usize);
            std::mem::swap(&mut siblings, &mut kids);
            assert(kids_left(kids) =~= kids_of(model, id));
            if siblings.1 < siblings.0.len() {
                stack.push(siblings);
                assert(siblings_left(stack@) =~= stack_before.push(rest));
            }
        }
    }
}

/// Page numbers, from 1, with their pages.
pub open spec fn numbered(pages: Seq<ObjectId>) -> Map<u32, ObjectId> {
    Map::new(|number: u32| 1 <= number <= pages.len(), |number: u32| pages[number - 1])
}

/// `ids` numbered from 1.
pub fn number_pages(ids: &Vec<ObjectId>) -> (r: BTreeMap<u32, ObjectId>)
    requires
        ids@.len() < u32::MAX,
    ensures
        r@ == numbered(ids@),
{
    broadcast use vstd::std_specs::btree::group_btree_axioms;

    let mut pages: BTreeMap<u32, ObjectId> = BTreeMap::new();
    let mut i: usize = 0;
    assert(pages@ =~= numbered(ids@.take(0)));
    while i < ids.len()
        invariant
            ids@.len() < u32::MAX,
            i <= ids@.len(),
            pages@ == numbered(ids@.take(i as int)),
        decreases ids@.len() - i,
    {
        pages.insert(i as u32 + 1, ids[i]);
        i += 1;
        assert(pages@ =~= numbered(ids@.take(i as int)));
    }
    assert(ids@.take(i as int) =~= ids@);
    pages
}

} // verus!
