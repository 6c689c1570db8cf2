//! The items of an outline, and the table of contents that they give.

use vstd::prelude::*;

use crate::document_outline::{
    after_node, empty_outline, first_node, outline_of, outline_walk, too_deep, with_node,
    with_skipped, ItemModel, OutlineLimits, OutlineModel,
};
use crate::ids::{lemma_unseen, unseen};
use crate::object::{dictionary_in, Entries, ObjectId};
use crate::resolver::{catalog_of, found, Model};
use crate::text::{debug_text, decimal};
use crate::toc::{toc_of, toc_of_items, LineModel};

verus! {

/// Whether `line` and `error` are what an item gives: a line with its title, the number of its page and its
/// depth from 1 on, or else that it has no page.
pub open spec fn is_toc_part(item: ItemModel, line: Seq<LineModel>, error: Seq<Seq<char>>) -> bool {
    match item.target {
        Some(target) => {
            &&& line.len() == 1
            &&& line[0].title == item.title
            &&& line[0].level == item.depth + 1
            &&& line[0].page == target.page
            &&& error.len() == 0
        },
        None => {
            &&& line.len() == 0
            &&& error.len() == 1
            &&& error[0] == "Outline item "@ + debug_text(item.title) + " has no page in this document"@
        },
    }
}

/// Whether `lines` and `errors` are what `items` give, one by one.
pub open spec fn are_toc_parts(
    items: Seq<ItemModel>,
    lines: Seq<Seq<LineModel>>,
    errors: Seq<Seq<Seq<char>>>,
) -> bool {
    &&& lines.len() == items.len()
    &&& errors.len() == items.len()
    &&& forall|i: int|
        0 <= i < items.len() ==> is_toc_part(items[i], #[trigger] lines[i], errors[i])
}

proof fn lemma_toc_of_items(
    items: Seq<ItemModel>,
    lines: Seq<Seq<LineModel>>,
    errors: Seq<Seq<Seq<char>>>,
)
    requires
        are_toc_parts(items, lines, errors),
    ensures
        toc_of_items(items).toc == lines.flatten(),
        toc_of_items(items).errors == errors.flatten(),
    decreases items.len(),
{
    let toc = toc_of_items(items);
    if items.len() == 0 {
        assert(lines.flatten() =~= Seq::empty());
        assert(errors.flatten() =~= Seq::empty());
    } else {
        let front = items.drop_last();
        let front_lines = lines.drop_last();
        let front_errors = errors.drop_last();
        assert forall|i: int| 0 <= i < front.len() implies is_toc_part(
            front[i],
            #[trigger] front_lines[i],
            front_errors[i],
        ) by {
            assert(is_toc_part(items[i], lines[i], errors[i]));
        }
        lemma_toc_of_items(front, front_lines, front_errors);
        front_lines.lemma_flatten_push(lines.last());
        front_errors.lemma_flatten_push(errors.last());
        assert(front_lines.push(lines.last()) =~= lines);
        assert(front_errors.push(errors.last()) =~= errors);
        assert(is_toc_part(items[items.len() - 1], lines[items.len() - 1], errors[items.len() - 1]));
        if let Some(target) = items.last().target {
            assert(toc.toc.last() == lines.last()[0]);
        } else {
            assert(toc.errors.last() == errors.last()[0]);
        }
        assert(toc.toc =~= front_lines.flatten() + lines.last());
        assert(toc.errors =~= front_errors.flatten() + errors.last());
    }
}

/// A table of contents has the lines of the outline's items, in order; its errors are those of the items
/// without a page, then how many items could not be read, if any, then that the outline is too large, if it
/// is.
pub proof fn lemma_tables_of_contents(
    outline: OutlineModel,
    lines: Seq<Seq<LineModel>>,
    errors: Seq<Seq<Seq<char>>>,
)
    requires
        are_toc_parts(outline.items, lines, errors),
    ensures
        toc_of(outline).toc == lines.flatten(),
        toc_of(outline).errors == errors.flatten() + (if outline.skipped > 0 {
            seq![decimal(outline.skipped as int) + " outline items could not be read"@]
        } else {
            Seq::empty()
        }) + (if outline.truncated {
            seq!["The outline is larger than the default outline limits"@]
        } else {
            Seq::empty()
        }),
{
    lemma_toc_of_items(outline.items, lines, errors);
    let skipped: Seq<Seq<char>> = if outline.skipped > 0 {
        seq![decimal(outline.skipped as int) + " outline items could not be read"@]
    } else {
        Seq::empty()
    };
    let truncated: Seq<Seq<char>> = if outline.truncated {
        seq!["The outline is larger than the default outline limits"@]
    } else {
        Seq::empty()
    };
    assert(toc_of(outline).errors =~= errors.flatten() + skipped + truncated);
}

/// The next step of a walk through an outline.
spec fn walk_step(
    model: Model,
    catalog: Entries,
    max_depth: nat,
    pending: Seq<(ObjectId, nat)>,
    seen: Set<ObjectId>,
    outline: OutlineModel,
) -> (Seq<(ObjectId, nat)>, Set<ObjectId>, OutlineModel) {
    let (id, depth) = pending.last();
    let others = pending.drop_last();
    if seen.contains(id) {
        (others, seen, with_skipped(outline))
    } else {
        match dictionary_in(found(model, id)) {
            None => (others, seen.insert(id), with_skipped(outline)),
            Some(node) => {
                let read = with_node(model, catalog, node, depth, outline);
                (
                    after_node(node, depth, max_depth, others),
                    seen.insert(id),
                    OutlineModel {
                        truncated: read.truncated || too_deep(node, depth, max_depth),
                        ..read
                    },
                )
            },
        }
    }
}

proof fn lemma_items_stay(
    model: Model,
    catalog: Entries,
    limits: OutlineLimits,
    pending: Seq<(ObjectId, nat)>,
    seen: Set<ObjectId>,
    outline: OutlineModel,
)
    ensures
        ({
            let after = outline_walk(model, catalog, limits, pending, seen, outline);
            &&& after.items.len() >= outline.items.len()
            &&& after.items.take(outline.items.len() as int) == outline.items
        }),
    decreases unseen(seen), pending.len(),
{
    let after = outline_walk(model, catalog, limits, pending, seen, outline);
    if pending.len() == 0 || outline.items.len() >= limits.max_items {
        assert(after.items.take(outline.items.len() as int) =~= outline.items);
    } else {
        let (next, more, read) = walk_step(
            model,
            catalog,
            limits.max_depth as nat,
            pending,
            seen,
            outline,
        );
        if !seen.contains(pending.last().0) {
            lemma_unseen(seen, pending.last().0);
        }
        lemma_items_stay(model, catalog, limits, next, more, read);
        assert(after == outline_walk(model, catalog, limits, next, more, read));
        assert(read.items.take(outline.items.len() as int) =~= outline.items);
        assert(after.items.take(outline.items.len() as int) =~= after.items.take(
            read.items.len() as int,
        ).take(outline.items.len() as int));
    }
}

proof fn lemma_fewer_from(
    model: Model,
    catalog: Entries,
    fewer: OutlineLimits,
    more: OutlineLimits,
    pending: Seq<(ObjectId, nat)>,
    seen: Set<ObjectId>,
    outline: OutlineModel,
)
    requires
        fewer.max_depth == more.max_depth,
        fewer.max_items <= more.max_items,
        outline.items.len() <= fewer.max_items,
    ensures
        ({
            let short = outline_walk(model, catalog, fewer, pending, seen, outline);
            let long = outline_walk(model, catalog, more, pending, seen, outline);
            &&& short.items.len() <= long.items.len()
            &&& short.items == long.items.take(short.items.len() as int)
            &&& short.items.len() < fewer.max_items ==> short == long
        }),
    decreases unseen(seen), pending.len(),
{
    let short = outline_walk(model, catalog, fewer, pending, seen, outline);
    let long = outline_walk(model, catalog, more, pending, seen, outline);
    if pending.len() == 0 {
        assert(short.items =~= long.items.take(short.items.len() as int));
    } else if outline.items.len() >= fewer.max_items {
        lemma_items_stay(model, catalog, more, pending, seen, outline);
    } else {
        let (next, entered, read) = walk_step(
            model,
            catalog,
            fewer.max_depth as nat,
            pending,
            seen,
            outline,
        );
        if !seen.contains(pending.last().0) {
            lemma_unseen(seen, pending.last().0);
        }
        lemma_fewer_from(model, catalog, fewer, more, next, entered, read);
        assert(short == outline_walk(model, catalog, fewer, next, entered, read));
        assert(long == outline_walk(model, catalog, more, next, entered, read));
    }
}

/// An outline read to fewer items is the start of the one read to more, and the same if it does not come to
/// so many.
pub proof fn lemma_fewer_items(model: Model, fewer: OutlineLimits, more: OutlineLimits)
    requires
        fewer.max_depth == more.max_depth,
        fewer.max_items <= more.max_items,
    ensures
        ({
            let short = outline_of(model, fewer);
            let long = outline_of(model, more);
            &&& short.items.len() <= fewer.max_items
            &&& short.items.len() <= long.items.len()
            &&& short.items == long.items.take(short.items.len() as int)
            &&& short.items.len() < fewer.max_items ==> short == long
        }),
{
    let short = outline_of(model, fewer);
    let long = outline_of(model, more);
    if let Some(catalog) = catalog_of(model) {
        if let Some(first) = first_node(model, catalog) {
            let start = empty_outline();
            lemma_fewer_from(model, catalog, fewer, more, seq![(first, 0)], Set::empty(), start);
            lemma_items_within(model, catalog, fewer, seq![(first, 0)], Set::empty(), start);
        }
    }
    assert(short.items =~= long.items.take(short.items.len() as int));
}

proof fn lemma_items_within(
    model: Model,
    catalog: Entries,
    limits: OutlineLimits,
    pending: Seq<(ObjectId, nat)>,
    seen: Set<ObjectId>,
    outline: OutlineModel,
)
    requires
        outline.items.len() <= limits.max_items,
    ensures
        outline_walk(model, catalog, limits, pending, seen, outline).items.len() <= limits.max_items,
    decreases unseen(seen), pending.len(),
{
    if pending.len() > 0 && outline.items.len() < limits.max_items {
        let (next, entered, read) = walk_step(
            model,
            catalog,
            limits.max_depth as nat,
            pending,
            seen,
            outline,
        );
        if !seen.contains(pending.last().0) {
            lemma_unseen(seen, pending.last().0);
        }
        lemma_items_within(model, catalog, limits, next, entered, read);
        assert(outline_walk(model, catalog, limits, pending, seen, outline) == outline_walk(
            model,
            catalog,
            limits,
            next,
            entered,
            read,
        ));
    }
}

} // verus!
