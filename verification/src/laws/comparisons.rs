//! How two readings of a document compare.

use vstd::prelude::*;
use vstd::utf8::encode_utf8;

use crate::document_outline::{outline_of, ItemModel, OutlineLimits};
use crate::error::Error;
use crate::page_geometry::{geometry, PageGeometry};
use crate::page_labels::labels_of_pages;
use crate::parity::{
    compared, first_labelled, first_unloaded, item_mismatches, items_compared, label_mismatches,
    labels_differ, outlines_compared, page_outcome, shared, start_end, title_start_of, turns_differ,
    word_end, Failures, Mismatch, OtherItemModel, OtherModel, PageOutcome,
};
use crate::resolver::Model;
use crate::text::collapsed;

verus! {

/// What the other reader gives where it gives no text.
pub open spec fn given_text(text: Option<Seq<char>>) -> Seq<char> {
    match text {
        Some(text) => text,
        None => Seq::empty(),
    }
}

proof fn lemma_labels_differ(
    ours: Seq<Seq<char>>,
    theirs: Seq<Option<Seq<char>>>,
    n: nat,
    mismatch: Mismatch,
)
    requires
        n <= ours.len(),
        n <= theirs.len(),
        n <= usize::MAX,
    ensures
        labels_differ(ours, theirs, n).contains(mismatch) <==> (mismatch matches Mismatch::Label { page }
            && page < n && ours[page as int] != given_text(theirs[page as int])),
    decreases n,
{
    if n > 0 {
        let page = (n - 1) as nat;
        let before = labels_differ(ours, theirs, page);
        lemma_labels_differ(ours, theirs, page, mismatch);
        let next = Mismatch::Label { page: page as usize };
        lemma_push_holds(before, next, mismatch);
    }
}

proof fn lemma_push_holds(all: Seq<Mismatch>, next: Mismatch, mismatch: Mismatch)
    ensures
        all.push(next).contains(mismatch) <==> all.contains(mismatch) || mismatch == next,
{
    let more = all.push(next);
    assert(more[all.len() as int] == next);
    if all.contains(mismatch) {
        let i = all.index_of(mismatch);
        assert(more[i] == mismatch);
    }
    if more.contains(mismatch) {
        let i = more.index_of(mismatch);
        if i < all.len() {
            assert(all[i] == mismatch);
        }
    }
}

/// Labels differ on the pages where they do, and on no other; where this library finds no labels, the first
/// label of the other reader is one too many.
pub proof fn lemma_labels(
    ours: Option<Seq<Seq<char>>>,
    theirs: Seq<Option<Seq<char>>>,
    mismatch: Mismatch,
)
    requires
        theirs.len() <= usize::MAX,
    ensures
        match ours {
            Some(labels) => label_mismatches(ours, theirs).contains(mismatch) <==> (
            mismatch matches Mismatch::Label { page } && page < labels.len() && page < theirs.len()
                && labels[page as int] != given_text(theirs[page as int])),
            None => label_mismatches(ours, theirs).contains(mismatch) <==> (
            mismatch matches Mismatch::UnexpectedLabel { page } && page < theirs.len()
                && theirs[page as int] is Some && forall|p: int|
                0 <= p < page ==> #[trigger] theirs[p] is None),
        },
{
    match ours {
        Some(labels) => {
            let n: nat = if labels.len() < theirs.len() {
                labels.len()
            } else {
                theirs.len()
            };
            lemma_labels_differ(labels, theirs, n, mismatch);
        },
        None => {
            lemma_first_labelled(theirs, 0);
            if let Some(first) = first_labelled(theirs, 0) {
                let one = Mismatch::UnexpectedLabel { page: first as usize };
                assert(seq![one][0] == one);
                assert(label_mismatches(ours, theirs) == seq![one]);
                if let Mismatch::UnexpectedLabel { page } = mismatch {
                    if page < theirs.len() && theirs[page as int] is Some && forall|p: int|
                        0 <= p < page ==> #[trigger] theirs[p] is None {
                        assert(theirs[first as int] is Some);
                        assert(page == first);
                    }
                }
            }
        },
    }
}

proof fn lemma_first_labelled(labels: Seq<Option<Seq<char>>>, from: nat)
    requires
        from <= labels.len(),
    ensures
        match first_labelled(labels, from) {
            Some(page) => from <= page < labels.len() && labels[page as int] is Some && forall|p: int|
                from <= p < page ==> #[trigger] labels[p] is None,
            None => forall|p: int| from <= p < labels.len() ==> #[trigger] labels[p] is None,
        },
    decreases labels.len() - from,
{
    if from < labels.len() && labels[from as int] is None {
        lemma_first_labelled(labels, from + 1);
    }
}

/// Pages are turned differently where the other reader gives other quarters, or none.
pub proof fn lemma_rotations(
    ours: Seq<PageGeometry>,
    theirs: Seq<Option<u8>>,
    n: nat,
    mismatch: Mismatch,
)
    requires
        n <= ours.len(),
        n <= theirs.len(),
        n <= usize::MAX,
    ensures
        turns_differ(ours, theirs, n).contains(mismatch) <==> (
        mismatch matches Mismatch::Rotation { page } && page < n && theirs[page as int] != Some(
            ours[page as int].quarter_turns,
        )),
    decreases n,
{
    if n > 0 {
        let page = (n - 1) as nat;
        lemma_rotations(ours, theirs, page, mismatch);
        lemma_push_holds(
            turns_differ(ours, theirs, page),
            Mismatch::Rotation { page: page as usize },
            mismatch,
        );
    }
}

/// The page that cannot be loaded is the first that is not.
pub proof fn lemma_unloaded_pages(loaded: Seq<bool>, from: nat)
    requires
        from <= loaded.len(),
    ensures
        from <= first_unloaded(loaded, from) <= loaded.len(),
        first_unloaded(loaded, from) < loaded.len() ==> !loaded[first_unloaded(loaded, from) as int],
        forall|p: int| from <= p < first_unloaded(loaded, from) ==> #[trigger] loaded[p],
    decreases loaded.len() - from,
{
    if from < loaded.len() && loaded[from as int] {
        lemma_unloaded_pages(loaded, from + 1);
    }
}

/// Two items are on the same page if both readers give the one page, counted from 1 here and from 0 there,
/// or neither gives any. An item that only the other reader gives a page differs, unless it leads to another
/// file.
pub proof fn lemma_pages_of_items(ours: ItemModel, theirs: OtherItemModel)
    requires
        ours.target matches Some(target) ==> target.page >= 1,
    ensures
        match (ours.target, theirs.page_index) {
            (Some(target), Some(index)) => if index >= 0 && index == target.page - 1 {
                page_outcome(ours, theirs) == PageOutcome::Same(index as usize)
            } else {
                page_outcome(ours, theirs) == PageOutcome::Differ
            },
            (Some(_), None) => page_outcome(ours, theirs) == PageOutcome::Differ,
            (None, Some(index)) => if index < 0 {
                page_outcome(ours, theirs) == PageOutcome::Nowhere
            } else if theirs.remote {
                page_outcome(ours, theirs) == PageOutcome::Remote
            } else {
                page_outcome(ours, theirs) == PageOutcome::Differ
            },
            (None, None) => page_outcome(ours, theirs) == PageOutcome::Nowhere,
        },
{
}

/// Two items differ in what they differ in: their titles, with white space collapsed, their depths, and
/// their pages.
pub proof fn lemma_items(ours: ItemModel, theirs: OtherItemModel, item: usize, mismatch: Mismatch)
    ensures
        item_mismatches(ours, theirs, item).contains(mismatch) <==> {
            ||| mismatch == Mismatch::Title { item } && ours.title != collapsed(
                given_text(theirs.title),
            )
            ||| mismatch == Mismatch::Depth { item } && ours.depth != theirs.depth
            ||| mismatch == Mismatch::Page { item } && page_outcome(ours, theirs) is Differ
        },
{
    let title: Seq<Mismatch> = if ours.title != collapsed(given_text(theirs.title)) {
        seq![Mismatch::Title { item }]
    } else {
        Seq::empty()
    };
    let depth: Seq<Mismatch> = if ours.depth != theirs.depth {
        seq![Mismatch::Depth { item }]
    } else {
        Seq::empty()
    };
    let page: Seq<Mismatch> = if page_outcome(ours, theirs) is Differ {
        seq![Mismatch::Page { item }]
    } else {
        Seq::empty()
    };
    let all = title + depth + page;
    assert(item_mismatches(ours, theirs, item) == all);
    if ours.title != collapsed(given_text(theirs.title)) {
        assert(all[0] == Mismatch::Title { item });
    }
    if ours.depth != theirs.depth {
        assert(all[title.len() as int] == Mismatch::Depth { item });
    }
    if page_outcome(ours, theirs) is Differ {
        assert(all[title.len() + depth.len() as int] == Mismatch::Page { item });
    }
}

/// Outlines are compared item by item: the mismatches of each are among theirs, and where they have
/// different numbers of items that is one too.
pub proof fn lemma_outlines(
    ours: Seq<ItemModel>,
    theirs: Seq<OtherItemModel>,
    item: usize,
    mismatch: Mismatch,
)
    ensures
        outlines_compared(ours, theirs).mismatches.contains(Mismatch::ItemCount) <== ours.len()
            != theirs.len(),
        item < ours.len() && item < theirs.len() && item_mismatches(
            ours[item as int],
            theirs[item as int],
            item,
        ).contains(mismatch) ==> outlines_compared(ours, theirs).mismatches.contains(mismatch),
{
    let n = shared(ours, theirs);
    let items = items_compared(ours, theirs, n);
    let all = outlines_compared(ours, theirs).mismatches;
    if ours.len() != theirs.len() {
        assert(all[0] == Mismatch::ItemCount);
    }
    if item < n && item_mismatches(ours[item as int], theirs[item as int], item).contains(mismatch) {
        lemma_items_hold(ours, theirs, n, item, mismatch);
        let i = items.mismatches.index_of(mismatch);
        if ours.len() != theirs.len() {
            assert(all[i + 1] == mismatch);
        } else {
            assert(all[i] == mismatch);
        }
    }
}

proof fn lemma_items_hold(
    ours: Seq<ItemModel>,
    theirs: Seq<OtherItemModel>,
    n: nat,
    item: usize,
    mismatch: Mismatch,
)
    requires
        item < n,
        item_mismatches(ours[item as int], theirs[item as int], item).contains(mismatch),
    ensures
        items_compared(ours, theirs, n).mismatches.contains(mismatch),
    decreases n,
{
    let last = (n - 1) as nat;
    let before = items_compared(ours, theirs, last).mismatches;
    let own = item_mismatches(ours[last as int], theirs[last as int], last as usize);
    let all = items_compared(ours, theirs, n).mismatches;
    assert(all == before + own);
    if item < last {
        lemma_items_hold(ours, theirs, last, item, mismatch);
        let i = before.index_of(mismatch);
        assert(all[i] == mismatch);
    } else {
        let i = own.index_of(mismatch);
        assert(all[before.len() + i] == mismatch);
    }
}

/// No failure of the source.
pub open spec fn no_failures() -> Failures {
    Failures { pages: None, labels: None, boxes: None, outline: None }
}

/// Documents that are read to their end are compared in all: their labels, how their pages are turned, and
/// their outlines, without the items that have no title, in this order.
pub proof fn lemma_compared_in_all(model: Model, theirs: OtherModel)
    requires
        model.pages.len() == theirs.labels.len(),
        theirs.loaded.len() == theirs.labels.len(),
        forall|p: int| 0 <= p < theirs.loaded.len() ==> #[trigger] theirs.loaded[p],
    ensures
        ({
            let count = model.pages.len();
            let report = compared(model, theirs, no_failures());
            let geometries = Seq::new(count, |i: int| geometry(model, model.pages[i]));
            let items = outline_of(model, OutlineLimits { max_depth: 32, max_items: 10_000 }).items;
            let titled = theirs.items.filter(|item: OtherItemModel| item.title is Some);
            &&& report.pages == count
            &&& report.labelled <==> labels_of_pages(model, count) is Some
            &&& report.outline_items == items.len()
            &&& report.geometries == geometries
            &&& report.mismatches == label_mismatches(
                labels_of_pages(model, count),
                theirs.labels,
            ) + turns_differ(geometries, theirs.turns, count) + outlines_compared(
                items,
                titled,
            ).mismatches
            &&& report.untitled + titled.len() == theirs.items.len()
            &&& report.remote == outlines_compared(items, titled).remote
            &&& report.same == outlines_compared(items, titled).same
        }),
{
    lemma_unloaded_pages(theirs.loaded, 0);
    let first = first_unloaded(theirs.loaded, 0);
    if first < theirs.loaded.len() {
        assert(theirs.loaded[first as int]);
    }
    theirs.items.lemma_filter_len(|item: OtherItemModel| item.title is Some);
}

/// A document whose pages cannot be read, or that has another number of pages, is compared no further; nor
/// is one from the first page on that the other reader cannot load.
pub proof fn lemma_compared_no_further(model: Model, theirs: OtherModel, error: Error)
    ensures
        compared(model, theirs, Failures { pages: Some(error), ..no_failures() }).mismatches == seq![
            Mismatch::UnreadPages(error),
        ],
        model.pages.len() != theirs.labels.len() ==> {
            let report = compared(model, theirs, no_failures());
            &&& report.mismatches == seq![Mismatch::PageCount]
            &&& report.pages == model.pages.len()
            &&& report.outline_items == 0
            &&& report.geometries.len() == 0
        },
        model.pages.len() == theirs.labels.len() && first_unloaded(theirs.loaded, 0)
            < theirs.labels.len() ==> {
            let first = first_unloaded(theirs.loaded, 0);
            let report = compared(model, theirs, no_failures());
            &&& report.mismatches.len() > 0
            &&& report.mismatches.last() == Mismatch::UnloadedPage { page: first as usize }
            &&& report.geometries.len() == first
            &&& report.outline_items == 0
        },
{
}

/// The start of a title is words of it, from the first on, and ends where one does; the first word is there
/// whatever its length, and behind it no more than 24 bytes.
pub proof fn lemma_title_starts(title: Seq<char>)
    ensures
        ({
            let text = collapsed(title);
            let start = title_start_of(title);
            let end = start.len();
            &&& end <= text.len()
            &&& start == text.take(end as int)
            &&& end < text.len() ==> text[end as int] == ' '
            &&& encode_utf8(text).len() <= 24 ==> start == text
        }),
{
    let text = collapsed(title);
    lemma_word_end(text, 0);
    lemma_start_end(text, word_end(text, 0));
}

proof fn lemma_word_end(text: Seq<char>, at: int)
    requires
        0 <= at <= text.len(),
    ensures
        at <= word_end(text, at) <= text.len(),
        word_end(text, at) < text.len() ==> text[word_end(text, at)] == ' ',
    decreases text.len() - at,
{
    if at < text.len() && text[at] != ' ' {
        lemma_word_end(text, at + 1);
    }
}

proof fn lemma_start_end(text: Seq<char>, at: int)
    requires
        0 <= at <= text.len(),
        at < text.len() ==> text[at] == ' ',
    ensures
        at <= start_end(text, at) <= text.len(),
        start_end(text, at) < text.len() ==> text[start_end(text, at)] == ' ',
        encode_utf8(text).len() <= 24 ==> start_end(text, at) == text.len(),
    decreases text.len() - at,
{
    if at < text.len() {
        let next = word_end(text, at + 1);
        lemma_word_end(text, at + 1);
        lemma_utf8_parts(text.take(at), text.skip(at));
        assert(text.take(at) + text.skip(at) =~= text);
        assert(seq![text[at]] + text.skip(at + 1) =~= text.skip(at));
        lemma_utf8_parts(seq![text[at]], text.skip(at + 1));
        assert(text.subrange(at + 1, next) + text.skip(next) =~= text.skip(at + 1));
        lemma_utf8_parts(text.subrange(at + 1, next), text.skip(next));
        if encode_utf8(text.take(at)).len() + encode_utf8(text.subrange(at + 1, next)).len() <= 24 {
            lemma_start_end(text, next);
        }
    } else {
        let next = word_end(text, at + 1);
        assert(next == at + 1);
    }
}

proof fn lemma_utf8_parts(a: Seq<char>, b: Seq<char>)
    ensures
        encode_utf8(a + b).len() == encode_utf8(a).len() + encode_utf8(b).len(),
    decreases a.len(),
{
    if a.len() == 0 {
        assert(a + b =~= b);
    } else {
        lemma_utf8_parts(a.drop_first(), b);
        assert((a + b).drop_first() =~= a.drop_first() + b);
        assert((a + b)[0] == a[0]);
    }
}

} // verus!
