//! A document outline (bookmarks) as a flat list, with each item's page and view.
//!
//! [`DocumentOutline`] keeps each destination's view, such as the `/XYZ` point a heading sits at,
//! skips what it cannot read, and bounds every walk, so a cyclic or very deep outline cannot hang
//! or exhaust a reader. [`Document::get_toc`](crate::document::Document::get_toc) reads through it
//! and keeps only the page numbers.

use vstd::prelude::*;

use crate::common_data_structures::{decode_text_bytes, decoded_text};
use crate::destinations::{
    item_target, lemma_targets_are_in_the_document, Destinations, OutlineTarget,
};
use crate::error::Result;
use crate::ids::{lemma_unseen, unseen, IdSet};
use crate::object::{
    dictionary_in, named_entry, reference_in, Dictionary, Entries, Object, ObjectId, Value,
};
use crate::resolver::{
    catalog, catalog_of, dictionary_at, dictionary_named, followed_entry, followed_named, found,
    source_failure, Model, ObjectResolver,
};
use crate::text::{collapse_whitespace, collapsed, lossy_utf8, lossy_utf8_string};

verus! {

/// Bounds on an outline walk.
#[derive(Debug, Clone, Copy, PartialEq, Eq)]
pub struct OutlineLimits {
    /// Deepest nesting read; top-level items have depth 0.
    pub max_depth: usize,
    /// Most items read.
    pub max_items: usize,
}

impl Default for OutlineLimits {
    fn default() -> (r: Self)
        ensures
            r == (OutlineLimits { max_depth: 32, max_items: 10_000 }),
    {
        OutlineLimits { max_depth: 32, max_items: 10_000 }
    }
}

/// The items of a document outline in reading order: each item, then its children, then its
/// next sibling.
#[derive(Debug, Clone, PartialEq)]
pub struct DocumentOutline {
    pub items: Vec<OutlineItem>,
    /// Items left out: an unreadable node, a node without a readable title, or a node reached
    /// twice through a cycle.
    pub skipped: usize,
    /// Whether the walk stopped at [`OutlineLimits`] before reading every item.
    pub truncated: bool,
}

#[derive(Debug, Clone, PartialEq)]
pub struct OutlineItem {
    pub title: String,
    /// Nesting depth; top-level items have depth 0.
    pub depth: usize,
    /// Where the item leads in this document, or `None` for an item without a destination, one
    /// that leads to another file or a URI, or one whose page is not in the page tree.
    pub target: Option<OutlineTarget>,
}

/// What an outline item is.
pub struct ItemModel {
    pub title: Seq<char>,
    pub depth: nat,
    pub target: Option<OutlineTarget>,
}

/// What an outline holds.
pub struct OutlineModel {
    pub items: Seq<ItemModel>,
    pub skipped: nat,
    pub truncated: bool,
}

impl View for OutlineItem {
    type V = ItemModel;

    open spec fn view(&self) -> ItemModel {
        ItemModel { title: self.title@, depth: self.depth as nat, target: self.target }
    }
}

impl View for DocumentOutline {
    type V = OutlineModel;

    open spec fn view(&self) -> OutlineModel {
        OutlineModel {
            items: Seq::new(self.items@.len(), |i: int| self.items@[i]@),
            skipped: self.skipped as nat,
            truncated: self.truncated,
        }
    }
}

impl Default for DocumentOutline {
    fn default() -> (r: Self)
        ensures
            r@ == empty_outline(),
    {
        let outline = DocumentOutline { items: Vec::new(), skipped: 0, truncated: false };
        assert(outline@.items =~= Seq::<ItemModel>::empty());
        outline
    }
}

pub open spec fn empty_outline() -> OutlineModel {
    OutlineModel { items: Seq::empty(), skipped: 0, truncated: false }
}

/// An item's title with its whitespace collapsed to single spaces, if it has a readable one.
pub open spec fn title_text(model: Model, node: Entries) -> Option<Seq<char>> {
    match followed_entry(model, node, "Title"@) {
        Some(Value::String(bytes, _)) => Some(
            collapsed(
                match decoded_text(bytes) {
                    Some(text) => text,
                    None => lossy_utf8(bytes),
                },
            ),
        ),
        _ => None,
    }
}

/// An outline with one more item left out, as far as a `usize` counts.
pub open spec fn with_skipped(outline: OutlineModel) -> OutlineModel {
    OutlineModel {
        skipped: if outline.skipped < usize::MAX {
            outline.skipped + 1
        } else {
            outline.skipped
        },
        ..outline
    }
}

/// An outline with what a node adds to it.
pub open spec fn with_node(
    model: Model,
    catalog: Entries,
    node: Entries,
    depth: nat,
    outline: OutlineModel,
) -> OutlineModel {
    match title_text(model, node) {
        Some(title) => OutlineModel {
            items: outline.items.push(
                ItemModel {
                    title,
                    depth,
                    target: item_target(model, catalog, model.pages, node),
                },
            ),
            ..outline
        },
        None => with_skipped(outline),
    }
}

/// The nodes still to be read once `node` has been: its children before its next sibling, and
/// that before the others. The last one is the next to be read.
pub open spec fn after_node(
    node: Entries,
    depth: nat,
    max_depth: nat,
    others: Seq<(ObjectId, nat)>,
) -> Seq<(ObjectId, nat)> {
    let siblings = match reference_in(named_entry(node, "Next"@)) {
        Some(next) => others.push((next, depth)),
        None => others,
    };
    match reference_in(named_entry(node, "First"@)) {
        Some(child) if depth + 1 < max_depth => siblings.push((child, depth + 1)),
        _ => siblings,
    }
}

/// Whether a node has children too deep to be read.
pub open spec fn too_deep(node: Entries, depth: nat, max_depth: nat) -> bool {
    reference_in(named_entry(node, "First"@)) is Some && depth + 1 >= max_depth
}

/// `outline` with what the nodes in `pending` add, each with its depth, the last one first. A node
/// in `seen` is left out, and reading stops at the limits.
pub open spec fn outline_walk(
    model: Model,
    catalog: Entries,
    limits: OutlineLimits,
    pending: Seq<(ObjectId, nat)>,
    seen: Set<ObjectId>,
    outline: OutlineModel,
) -> OutlineModel
    decreases unseen(seen), pending.len(),
{
    if pending.len() == 0 {
        outline
    } else if outline.items.len() >= limits.max_items {
        OutlineModel { truncated: true, ..outline }
    } else {
        let (id, depth) = pending.last();
        let others = pending.drop_last();
        if seen.contains(id) {
            outline_walk(model, catalog, limits, others, seen, with_skipped(outline))
        } else {
            proof {
                lemma_unseen(seen, id);
            }
            match dictionary_in(found(model, id)) {
                None => outline_walk(
                    model,
                    catalog,
                    limits,
                    others,
                    seen.insert(id),
                    with_skipped(outline),
                ),
                Some(node) => {
                    let read = with_node(model, catalog, node, depth, outline);
                    outline_walk(
                        model,
                        catalog,
                        limits,
                        after_node(node, depth, limits.max_depth as nat, others),
                        seen.insert(id),
                        OutlineModel {
                            truncated: read.truncated || too_deep(
                                node,
                                depth,
                                limits.max_depth as nat,
                            ),
                            ..read
                        },
                    )
                },
            }
        }
    }
}

/// The first top-level node of an outline.
pub open spec fn first_node(model: Model, catalog: Entries) -> Option<ObjectId> {
    match dictionary_in(followed_entry(model, catalog, "Outlines"@)) {
        Some(outlines) => reference_in(named_entry(outlines, "First"@)),
        None => None,
    }
}

/// The outline of a document, as far as `limits` let it be read.
pub open spec fn outline_of(model: Model, limits: OutlineLimits) -> OutlineModel {
    match catalog_of(model) {
        Some(catalog) => match first_node(model, catalog) {
            Some(first) => outline_walk(
                model,
                catalog,
                limits,
                seq![(first, 0)],
                Set::empty(),
                empty_outline(),
            ),
            None => empty_outline(),
        },
        None => empty_outline(),
    }
}

/// The depths that an outline read to `max_depth` can have.
pub open spec fn depth_allowed(depth: nat, max_depth: nat) -> bool {
    depth == 0 || depth < max_depth
}

/// Whether an outline keeps within its limits, with every target on one of `pages` pages.
pub open spec fn within_limits(outline: OutlineModel, limits: OutlineLimits, pages: nat) -> bool {
    &&& outline.items.len() <= limits.max_items
    &&& forall|i: int|
        0 <= i < outline.items.len() ==> depth_allowed(
            (#[trigger] outline.items[i]).depth,
            limits.max_depth as nat,
        )
    &&& forall|i: int|
        0 <= i < outline.items.len() ==> ((#[trigger] outline.items[i]).target matches Some(target)
            ==> 1 <= target.page <= pages)
}

proof fn lemma_walk_within_limits(
    model: Model,
    catalog: Entries,
    limits: OutlineLimits,
    pending: Seq<(ObjectId, nat)>,
    seen: Set<ObjectId>,
    outline: OutlineModel,
)
    requires
        model.pages.len() <= u32::MAX,
        within_limits(outline, limits, model.pages.len()),
        forall|i: int|
            0 <= i < pending.len() ==> depth_allowed(
                (#[trigger] pending[i]).1,
                limits.max_depth as nat,
            ),
    ensures
        within_limits(
            outline_walk(model, catalog, limits, pending, seen, outline),
            limits,
            model.pages.len(),
        ),
    decreases unseen(seen), pending.len(),
{
    if pending.len() > 0 && outline.items.len() < limits.max_items {
        let (id, depth) = pending.last();
        let others = pending.drop_last();
        assert(depth_allowed(pending[pending.len() - 1].1, limits.max_depth as nat));
        if seen.contains(id) {
            lemma_walk_within_limits(model, catalog, limits, others, seen, with_skipped(outline));
        } else {
            lemma_unseen(seen, id);
            match dictionary_in(found(model, id)) {
                None => {
                    lemma_walk_within_limits(
                        model,
                        catalog,
                        limits,
                        others,
                        seen.insert(id),
                        with_skipped(outline),
                    );
                },
                Some(node) => {
                    lemma_targets_are_in_the_document(model, catalog, model.pages, node);
                    let read = with_node(model, catalog, node, depth, outline);
                    lemma_walk_within_limits(
                        model,
                        catalog,
                        limits,
                        after_node(node, depth, limits.max_depth as nat, others),
                        seen.insert(id),
                        OutlineModel {
                            truncated: read.truncated || too_deep(
                                node,
                                depth,
                                limits.max_depth as nat,
                            ),
                            ..read
                        },
                    );
                },
            }
        }
    }
}

/// An outline has no more items than asked for, none deeper than asked for, and every target on a
/// page of the document.
pub proof fn lemma_outline_within_limits(model: Model, limits: OutlineLimits)
    requires
        model.pages.len() <= u32::MAX,
    ensures
        within_limits(outline_of(model, limits), limits, model.pages.len()),
{
    if let Some(catalog) = catalog_of(model) {
        if let Some(first) = first_node(model, catalog) {
            lemma_walk_within_limits(
                model,
                catalog,
                limits,
                seq![(first, 0)],
                Set::empty(),
                empty_outline(),
            );
        }
    }
}

/// The nodes of `pending`, with their depths.
spec fn pending_nodes(pending: Seq<(ObjectId, usize)>) -> Seq<(ObjectId, nat)> {
    Seq::new(pending.len(), |i: int| (pending[i].0, pending[i].1 as nat))
}

fn reference_named(node: &Dictionary, name: &str) -> (r: Option<ObjectId>)
    ensures
        r == reference_in(named_entry(node@, name@)),
{
    match node.named(name) {
        Some(Object::Reference(id)) => Some(*id),
        _ => None,
    }
}

/// The item's title with its whitespace collapsed to single spaces, or `None` when it has no
/// readable one. Titles often carry the line break of a two-line heading.
fn title<R: ObjectResolver>(resolver: &R, node: &Dictionary) -> (r: Result<Option<String>>)
    ensures
        match r {
            Ok(Some(title)) => title_text(resolver.model(), node@) == Some(title@),
            Ok(None) => title_text(resolver.model(), node@) is None,
            Err(error) => source_failure(error, resolver.can_fail()),
        },
{
    match followed_named(resolver, node, "Title") {
        Ok(Some(Object::String(bytes, _))) => {
            let text = match decode_text_bytes(bytes.as_slice()) {
                Ok(text) => text,
                // An undecodable string still reads better than nothing.
                Err(_) => lossy_utf8_string(bytes.as_slice()),
            };
            Ok(Some(collapse_whitespace(text.as_str())))
        },
        Ok(_) => Ok(None),
        Err(error) => Err(error),
    }
}

impl DocumentOutline {
    fn skip(&mut self)
        ensures
            final(self)@ == with_skipped(old(self)@),
    {
        if self.skipped < usize::MAX {
            self.skipped = self.skipped + 1;
        }
        assert(self@.items =~= old(self)@.items);
    }

    fn add(&mut self, item: OutlineItem)
        ensures
            final(self)@ == (OutlineModel { items: old(self)@.items.push(item@), ..old(self)@ }),
    {
        self.items.push(item);
        assert(self@.items =~= old(self)@.items.push(item@));
    }

    fn truncate(&mut self)
        ensures
            final(self)@ == (OutlineModel { truncated: true, ..old(self)@ }),
    {
        self.truncated = true;
        assert(self@.items =~= old(self)@.items);
    }

    /// Reads the outline with the default [`OutlineLimits`]. A document without an outline gives
    /// an empty one. Only a failure to read the source is an error.
    pub fn read<R: ObjectResolver>(resolver: &R) -> (r: Result<Self>)
        ensures
            match r {
                Ok(outline) => outline@ == outline_of(
                    resolver.model(),
                    OutlineLimits { max_depth: 32, max_items: 10_000 },
                ),
                Err(error) => source_failure(error, resolver.can_fail()),
            },
    {
        Self::read_with_limits(resolver, OutlineLimits::default())
    }

    /// Reads the outline, stopping at `limits`.
    pub fn read_with_limits<R: ObjectResolver>(resolver: &R, limits: OutlineLimits) -> (r: Result<
        Self,
    >)
        ensures
            match r {
                Ok(outline) => outline@ == outline_of(resolver.model(), limits),
                Err(error) => source_failure(error, resolver.can_fail()),
            },
    {
        let mut outline = DocumentOutline::default();
        let catalog = match catalog(resolver) {
            Ok(Some(catalog)) => catalog,
            Ok(None) => {
                return Ok(outline);
            },
            Err(error) => {
                return Err(error);
            },
        };
        let first = match dictionary_named(resolver, &catalog, "Outlines") {
            Ok(Some(outlines)) => match reference_named(&outlines, "First") {
                Some(first) => first,
                None => {
                    return Ok(outline);
                },
            },
            Ok(None) => {
                return Ok(outline);
            },
            Err(error) => {
                return Err(error);
            },
        };
        let page_ids = match resolver.page_ids() {
            Ok(page_ids) => page_ids,
            Err(error) => {
                return Err(error);
            },
        };
        let ghost model = resolver.model();
        let ghost entries = catalog@;
        let mut destinations = Destinations::new(resolver, catalog, &page_ids);

        // Preorder walk: an item, its children, then its next sibling.
        let mut visited = IdSet::new();
        let mut pending: Vec<(ObjectId, usize)> = Vec::new();
        pending.push((first, 0));
        assert(pending_nodes(pending@) =~= seq![(first, 0nat)]);
        loop
            invariant_except_break
                model == resolver.model(),
                destinations.well_formed(),
                destinations.resolver() == resolver,
                destinations.catalog() == entries,
                destinations.page_ids() == model.pages,
                forall|i: int|
                    0 <= i < pending@.len() ==> (#[trigger] pending@[i]).1 < usize::MAX,
                outline_of(model, limits) == outline_walk(
                    model,
                    entries,
                    limits,
                    pending_nodes(pending@),
                    visited@,
                    outline@,
                ),
            ensures
                outline@ == outline_of(model, limits),
            decreases unseen(visited@), pending@.len(),
        {
            let ghost all = pending_nodes(pending@);
            let (id, depth) = match pending.pop() {
                Some(next) => next,
                None => {
                    break;
                },
            };
            let ghost others = pending_nodes(pending@);
            assert(all.drop_last() =~= others);
            if outline.items.len() >= limits.max_items {
                outline.truncate();
                break;
            }
            let ghost seen = visited@;
            proof {
                if !seen.contains(id) {
                    lemma_unseen(seen, id);
                }
            }
            if !visited.insert(id) {
                assert(visited@ =~= seen);
                outline.skip();
                continue;
            }
            let node = match dictionary_at(resolver, id) {
                Ok(Some(node)) => node,
                Ok(None) => {
                    outline.skip();
                    continue;
                },
                Err(error) => {
                    return Err(error);
                },
            };
            match title(resolver, &node) {
                Ok(Some(title)) => match destinations.item_target(&node) {
                    Ok(target) => {
                        outline.add(OutlineItem { title, depth, target });
                    },
                    Err(error) => {
                        return Err(error);
                    },
                },
                Ok(None) => {
                    outline.skip();
                },
                Err(error) => {
                    return Err(error);
                },
            }
            if let Some(next) = reference_named(&node, "Next") {
                pending.push((next, depth));
                assert(pending_nodes(pending@) =~= others.push((next, depth as nat)));
            }
            if let Some(child) = reference_named(&node, "First") {
                if depth + 1 < limits.max_depth {
                    let ghost siblings = pending_nodes(pending@);
                    pending.push((child, depth + 1));
                    assert(pending_nodes(pending@) =~= siblings.push((child, (depth + 1) as nat)));
                } else {
                    outline.truncate();
                }
            }
        }
        Ok(outline)
    }
}

} // verus!
