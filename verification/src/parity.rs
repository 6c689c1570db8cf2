//! Comparing what this library reads of a document with what another reader reads of it.
//!
//! The other reader's results come as plain values: a label for each page, and the items of the
//! outline in reading order.

use vstd::prelude::*;
use vstd::utf8::encode_utf8;

use crate::destinations::OutlineTarget;
use crate::document_outline::{
    lemma_outline_within_limits, outline_of, DocumentOutline, ItemModel, OutlineItem, OutlineLimits,
};
use crate::error::Error;
use crate::object::ObjectId;
use crate::page_geometry::{geometry, PageGeometry};
use crate::page_labels::{labels_tree, page_label, PageLabels};
use crate::resolver::{source_failure, Model, ObjectResolver};
use crate::text::{chars_of, collapse_whitespace, collapsed};

verus! {

/// The most bytes of a title that are looked for, but for its first word.
pub const TITLE_START_LEN: usize = 24;

/// Differences between the two readers that are intended, counted instead of failing.
#[derive(Debug, Clone, Copy, PartialEq, Eq, PartialOrd, Ord, Structural)]
pub enum KnownDifference {
    /// The other reader lists an outline item without a `/Title`, and this one leaves it out.
    UntitledItem,
    /// The other reader resolves a `/GoToR` action's page number against this file, and this one
    /// gives such an item no page, because it leads to another file.
    RemoteDestination,
}

impl KnownDifference {
    pub fn describe(self) -> (r: &'static str)
        ensures
            r@ == match self {
                KnownDifference::UntitledItem => "untitled outline items that lopdf leaves out"@,
                KnownDifference::RemoteDestination => "GoToR items that lopdf gives no page"@,
            },
    {
        match self {
            KnownDifference::UntitledItem => "untitled outline items that lopdf leaves out",
            KnownDifference::RemoteDestination => "GoToR items that lopdf gives no page",
        }
    }
}

/// Which of two readers open a file.
#[derive(Debug, Clone, Copy, PartialEq, Eq, Structural)]
pub enum Openings {
    Both,
    /// Only this library does, which is a difference.
    OnlyOurs,
    /// Only the other reader does, which is a difference.
    OnlyTheirs,
    /// Neither does, which is none.
    Unreadable,
}

/// Which of two readers open a file, from whether each does.
pub fn openings(ours: bool, theirs: bool) -> (r: Openings)
    ensures
        r == match (ours, theirs) {
            (true, true) => Openings::Both,
            (true, false) => Openings::OnlyOurs,
            (false, true) => Openings::OnlyTheirs,
            (false, false) => Openings::Unreadable,
        },
{
    if ours {
        if theirs {
            Openings::Both
        } else {
            Openings::OnlyOurs
        }
    } else if theirs {
        Openings::OnlyTheirs
    } else {
        Openings::Unreadable
    }
}

/// Where two readings differ. Pages and items count from zero.
#[derive(Debug, Clone, Copy, PartialEq, Eq)]
pub enum Mismatch {
    /// The page tree cannot be read.
    UnreadPages(Error),
    PageCount,
    /// The page labels cannot be read.
    UnreadLabels(Error),
    /// Only the other reader finds labels, the first of them on this page.
    UnexpectedLabel { page: usize },
    Label { page: usize },
    /// The readings turn this page differently.
    Rotation { page: usize },
    /// This page cannot be read.
    UnreadPage { page: usize, error: Error },
    /// The other reader cannot load this page.
    UnloadedPage { page: usize },
    /// The outline cannot be read.
    UnreadOutline(Error),
    /// The outlines have different numbers of items with a title.
    ItemCount,
    Title { item: usize },
    Depth { item: usize },
    Page { item: usize },
}

/// One item of the other reader's outline.
#[derive(Debug, Clone)]
pub struct OtherItem {
    pub title: Option<String>,
    pub depth: usize,
    pub page_index: Option<i32>,
    /// Whether the item leads to another file.
    pub remote: bool,
}

/// What an item of the other reader's outline says.
pub struct OtherItemModel {
    pub title: Option<Seq<char>>,
    pub depth: nat,
    pub page_index: Option<i32>,
    pub remote: bool,
}

pub open spec fn text_in(text: Option<String>) -> Option<Seq<char>> {
    match text {
        Some(text) => Some(text@),
        None => None,
    }
}

impl View for OtherItem {
    type V = OtherItemModel;

    open spec fn view(&self) -> OtherItemModel {
        OtherItemModel {
            title: text_in(self.title),
            depth: self.depth as nat,
            page_index: self.page_index,
            remote: self.remote,
        }
    }
}

pub open spec fn other_models(items: Seq<OtherItem>) -> Seq<OtherItemModel> {
    items.map_values(|item: OtherItem| item@)
}

/// `text`, or nothing.
pub open spec fn text_or_empty(text: Option<Seq<char>>) -> Seq<char> {
    match text {
        Some(text) => text,
        None => Seq::empty(),
    }
}

/// Where the first `n` labels differ. The other reader gives no label where it would give an empty
/// one.
pub open spec fn labels_differ(
    ours: Seq<Seq<char>>,
    theirs: Seq<Option<Seq<char>>>,
    n: nat,
) -> Seq<Mismatch>
    decreases n,
{
    if n == 0 {
        Seq::empty()
    } else {
        let page = (n - 1) as nat;
        let before = labels_differ(ours, theirs, page);
        if ours[page as int] != text_or_empty(theirs[page as int]) {
            before.push(Mismatch::Label { page: page as usize })
        } else {
            before
        }
    }
}

/// The first page from `page` on that has a label.
pub open spec fn first_labelled(labels: Seq<Option<Seq<char>>>, page: nat) -> Option<nat>
    decreases labels.len() - page,
{
    if page >= labels.len() {
        None
    } else if labels[page as int] is Some {
        Some(page)
    } else {
        first_labelled(labels, page + 1)
    }
}

/// Where the labels of two readings differ.
pub open spec fn label_mismatches(
    ours: Option<Seq<Seq<char>>>,
    theirs: Seq<Option<Seq<char>>>,
) -> Seq<Mismatch> {
    match ours {
        None => match first_labelled(theirs, 0) {
            Some(page) => seq![Mismatch::UnexpectedLabel { page: page as usize }],
            None => Seq::empty(),
        },
        Some(labels) => labels_differ(
            labels,
            theirs,
            if labels.len() < theirs.len() {
                labels.len()
            } else {
                theirs.len()
            },
        ),
    }
}

/// The items that have a title.
pub open spec fn titled_items(items: Seq<OtherItemModel>) -> Seq<OtherItemModel> {
    items.filter(|item: OtherItemModel| item.title is Some)
}

/// How the pages of two items compare.
pub enum PageOutcome {
    Differ,
    /// The item leads to another file, and only the other reader gives it a page.
    Remote,
    /// Neither reader gives the item a page.
    Nowhere,
    /// Both readers give the item the same page, which counts from zero.
    Same(usize),
}

/// The page that a target is on, counted from zero.
pub open spec fn page_of(target: Option<OutlineTarget>) -> Option<int> {
    match target {
        Some(target) => Some(target.page - 1),
        None => None,
    }
}

/// The page that the other reader gives an item.
pub open spec fn other_page_of(item: OtherItemModel) -> Option<int> {
    match item.page_index {
        Some(index) => if index >= 0 {
            Some(index as int)
        } else {
            None
        },
        None => None,
    }
}

pub open spec fn page_outcome(ours: ItemModel, theirs: OtherItemModel) -> PageOutcome {
    let page = page_of(ours.target);
    if page != other_page_of(theirs) {
        if page is None && theirs.remote {
            PageOutcome::Remote
        } else {
            PageOutcome::Differ
        }
    } else {
        match page {
            Some(page) => PageOutcome::Same(page as usize),
            None => PageOutcome::Nowhere,
        }
    }
}

/// Where two items differ.
pub open spec fn item_mismatches(
    ours: ItemModel,
    theirs: OtherItemModel,
    item: usize,
) -> Seq<Mismatch> {
    let title = if ours.title != collapsed(text_or_empty(theirs.title)) {
        seq![Mismatch::Title { item }]
    } else {
        Seq::empty()
    };
    let depth = if ours.depth != theirs.depth {
        seq![Mismatch::Depth { item }]
    } else {
        Seq::empty()
    };
    let page = if page_outcome(ours, theirs) is Differ {
        seq![Mismatch::Page { item }]
    } else {
        Seq::empty()
    };
    title + depth + page
}

/// How the items of two outlines compare.
pub struct ItemsModel {
    pub mismatches: Seq<Mismatch>,
    pub remote: nat,
    pub same: Seq<(usize, usize)>,
}

/// How the first `n` items of two outlines compare.
pub open spec fn items_compared(
    ours: Seq<ItemModel>,
    theirs: Seq<OtherItemModel>,
    n: nat,
) -> ItemsModel
    decreases n,
{
    if n == 0 {
        ItemsModel { mismatches: Seq::empty(), remote: 0, same: Seq::empty() }
    } else {
        let item = (n - 1) as nat;
        let before = items_compared(ours, theirs, item);
        let outcome = page_outcome(ours[item as int], theirs[item as int]);
        ItemsModel {
            mismatches: before.mismatches + item_mismatches(
                ours[item as int],
                theirs[item as int],
                item as usize,
            ),
            remote: before.remote + if outcome is Remote {
                1nat
            } else {
                0nat
            },
            same: match outcome {
                PageOutcome::Same(page) => before.same.push((item as usize, page)),
                _ => before.same,
            },
        }
    }
}

/// How many items two outlines both have.
pub open spec fn shared(ours: Seq<ItemModel>, theirs: Seq<OtherItemModel>) -> nat {
    if ours.len() < theirs.len() {
        ours.len()
    } else {
        theirs.len()
    }
}

/// How two outlines compare.
pub open spec fn outlines_compared(ours: Seq<ItemModel>, theirs: Seq<OtherItemModel>) -> ItemsModel {
    let items = items_compared(ours, theirs, shared(ours, theirs));
    if ours.len() != theirs.len() {
        ItemsModel { mismatches: seq![Mismatch::ItemCount] + items.mismatches, ..items }
    } else {
        items
    }
}

/// How the outlines of two readings compare.
#[derive(Debug, Clone, PartialEq, Eq)]
pub struct OutlineComparison {
    pub mismatches: Vec<Mismatch>,
    /// Items of [`KnownDifference::RemoteDestination`].
    pub remote: usize,
    /// Items that both readings put on the same page, each with that page, counted from zero. Their
    /// positions on the page are still to be compared.
    pub same: Vec<(usize, usize)>,
}

impl View for OutlineComparison {
    type V = ItemsModel;

    open spec fn view(&self) -> ItemsModel {
        ItemsModel { mismatches: self.mismatches@, remote: self.remote as nat, same: self.same@ }
    }
}

/// Where the labels of two readings differ.
pub fn compare_labels(ours: &Option<PageLabels>, theirs: &Vec<Option<String>>) -> (r: Vec<Mismatch>)
    ensures
        r@ == label_mismatches(
            match *ours {
                Some(labels) => Some(labels.labels@.map_values(|label: String| label@)),
                None => None,
            },
            theirs@.map_values(|label: Option<String>| text_in(label)),
        ),
{
    let ghost other = theirs@.map_values(|label: Option<String>| text_in(label));
    let mut mismatches: Vec<Mismatch> = Vec::new();
    let mut page: usize = 0;
    match ours {
        None => {
            while page < theirs.len()
                invariant
                    page <= theirs@.len(),
                    mismatches@.len() == 0,
                    *ours is None,
                    other == theirs@.map_values(|label: Option<String>| text_in(label)),
                    first_labelled(other, 0) == first_labelled(other, page as nat),
                decreases theirs@.len() - page,
            {
                assert(other[page as int] == text_in(theirs@[page as int]));
                if theirs[page].is_some() {
                    mismatches.push(Mismatch::UnexpectedLabel { page });
                    assert(mismatches@ =~= seq![Mismatch::UnexpectedLabel { page }]);
                    return mismatches;
                }
                page += 1;
            }
        },
        Some(labels) => {
            let ghost own = labels.labels@.map_values(|label: String| label@);
            while page < labels.labels.len() && page < theirs.len()
                invariant
                    page <= labels.labels@.len(),
                    page <= theirs@.len(),
                    own == labels.labels@.map_values(|label: String| label@),
                    other == theirs@.map_values(|label: Option<String>| text_in(label)),
                    mismatches@ == labels_differ(own, other, page as nat),
                decreases theirs@.len() - page,
            {
                assert(own[page as int] == labels.labels@[page as int]@);
                assert(own[page as int].len() == 0 ==> own[page as int] =~= Seq::<char>::empty());
                assert(other[page as int] == text_in(theirs@[page as int]));
                let same = match &theirs[page] {
                    Some(label) => labels.labels[page] == *label,
                    None => labels.labels[page].as_str().is_empty(),
                };
                if !same {
                    mismatches.push(Mismatch::Label { page });
                }
                page += 1;
            }
        },
    }
    mismatches
}

/// The items of the other reader's outline that have a title, and how many have none, which are of
/// [`KnownDifference::UntitledItem`].
pub fn titled(items: Vec<OtherItem>) -> (r: (Vec<OtherItem>, usize))
    ensures
        other_models(r.0@) == titled_items(other_models(items@)),
        r.0@.len() + r.1 == items@.len(),
{
    let ghost all = other_models(items@);
    let ghost has_title = |item: OtherItemModel| item.title is Some;
    let mut kept: Vec<OtherItem> = Vec::new();
    let mut untitled: usize = 0;
    let mut i: usize = 0;
    proof {
        assert(all.take(0) =~= Seq::<OtherItemModel>::empty());
        reveal(Seq::filter);
        assert(other_models(kept@) =~= all.take(0).filter(has_title));
    }
    while i < items.len()
        invariant
            i <= items@.len(),
            all == other_models(items@),
            has_title == (|item: OtherItemModel| item.title is Some),
            other_models(kept@) == all.take(i as int).filter(has_title),
            kept@.len() + untitled == i,
        decreases items@.len() - i,
    {
        let ghost before = other_models(kept@);
        proof {
            reveal(Seq::filter);
            assert(all.take(i + 1).drop_last() =~= all.take(i as int));
            assert(all.take(i + 1).last() == items@[i as int]@);
        }
        if items[i].title.is_some() {
            let copy = copy_item(&items[i]);
            let ghost model = copy@;
            kept.push(copy);
            assert(other_models(kept@) =~= before.push(model));
        } else {
            untitled += 1;
        }
        i += 1;
    }
    assert(all.take(i as int) =~= all);
    (kept, untitled)
}

fn copy_item(item: &OtherItem) -> (r: OtherItem)
    ensures
        r@ == item@,
{
    let title = match &item.title {
        Some(title) => Some(title.clone()),
        None => None,
    };
    OtherItem { title, depth: item.depth, page_index: item.page_index, remote: item.remote }
}

fn judge_pages(ours: &OutlineItem, theirs: &OtherItem) -> (r: PageOutcome)
    requires
        ours.target matches Some(target) ==> target.page > 0,
    ensures
        r == page_outcome(ours@, theirs@),
{
    let their_page: Option<u32> = match theirs.page_index {
        Some(index) => if index >= 0 {
            Some(index as u32)
        } else {
            None
        },
        None => None,
    };
    match (&ours.target, their_page) {
        (Some(target), Some(page)) => if target.page - 1 == page {
            PageOutcome::Same(page as usize)
        } else {
            PageOutcome::Differ
        },
        (Some(_), None) => PageOutcome::Differ,
        (None, Some(_)) => if theirs.remote {
            PageOutcome::Remote
        } else {
            PageOutcome::Differ
        },
        (None, None) => PageOutcome::Nowhere,
    }
}

/// How an outline compares with the items of the other reader's that have a title.
pub fn compare_outlines(ours: &DocumentOutline, theirs: &Vec<OtherItem>) -> (r: OutlineComparison)
    requires
        forall|i: int|
            0 <= i < ours.items@.len() ==> ((#[trigger] ours.items@[i]).target matches Some(target)
                ==> target.page > 0),
    ensures
        r@ == outlines_compared(ours@.items, other_models(theirs@)),
{
    let ghost own = ours@.items;
    let ghost other = other_models(theirs@);
    let mut comparison = OutlineComparison { mismatches: Vec::new(), remote: 0, same: Vec::new() };
    let ghost mut items = items_compared(own, other, 0);
    if ours.items.len() != theirs.len() {
        comparison.mismatches.push(Mismatch::ItemCount);
    }
    let ghost count = comparison.mismatches@;
    assert(count + items.mismatches =~= comparison.mismatches@);
    assert(comparison.same@ =~= items.same);
    let mut item: usize = 0;
    while item < ours.items.len() && item < theirs.len()
        invariant
            item <= ours.items@.len(),
            item <= theirs@.len(),
            own == ours@.items,
            other == other_models(theirs@),
            forall|i: int|
                0 <= i < ours.items@.len() ==> ((#[trigger] ours.items@[i]).target matches Some(
                    target,
                ) ==> target.page > 0),
            items == items_compared(own, other, item as nat),
            comparison.mismatches@ == count + items.mismatches,
            comparison.same@ == items.same,
            comparison.remote == items.remote,
            comparison.remote <= item,
        decreases theirs@.len() - item,
    {
        let a = &ours.items[item];
        let b = &theirs[item];
        let ghost before = comparison.mismatches@;
        assert(own[item as int] == a@);
        assert(other[item as int] == b@);
        let title = match &b.title {
            Some(title) => collapse_whitespace(title.as_str()),
            None => {
                let title = String::new();
                assert(title@ =~= collapsed(Seq::empty()));
                title
            },
        };
        if a.title != title {
            comparison.mismatches.push(Mismatch::Title { item });
        }
        if a.depth != b.depth {
            comparison.mismatches.push(Mismatch::Depth { item });
        }
        match judge_pages(a, b) {
            PageOutcome::Differ => {
                comparison.mismatches.push(Mismatch::Page { item });
            },
            PageOutcome::Remote => {
                comparison.remote += 1;
            },
            PageOutcome::Same(page) => {
                comparison.same.push((item, page));
            },
            PageOutcome::Nowhere => {},
        }
        proof {
            let more = item_mismatches(a@, b@, item);
            assert(comparison.mismatches@ =~= before + more);
            let next = items_compared(own, other, (item + 1) as nat);
            assert(count + next.mismatches =~= before + more);
            items = next;
        }
        item += 1;
    }
    assert(comparison@.mismatches =~= outlines_compared(own, other).mismatches);
    comparison
}

/// One page as the other reader reads it: whether it can be loaded, its label, and how many quarters
/// it is turned, if that can be read.
#[derive(Debug, Clone)]
pub struct OtherPage {
    pub loaded: bool,
    pub label: Option<String>,
    pub quarter_turns: Option<u8>,
}

/// A document as the other reader reads it.
#[derive(Debug, Clone)]
pub struct OtherReading {
    pub pages: Vec<OtherPage>,
    pub items: Vec<OtherItem>,
}

/// What the other reader reads of a document.
pub struct OtherModel {
    pub loaded: Seq<bool>,
    pub labels: Seq<Option<Seq<char>>>,
    pub turns: Seq<Option<u8>>,
    pub items: Seq<OtherItemModel>,
}

impl View for OtherReading {
    type V = OtherModel;

    open spec fn view(&self) -> OtherModel {
        OtherModel {
            loaded: self.pages@.map_values(|page: OtherPage| page.loaded),
            labels: self.pages@.map_values(|page: OtherPage| text_in(page.label)),
            turns: self.pages@.map_values(|page: OtherPage| page.quarter_turns),
            items: other_models(self.items@),
        }
    }
}

/// How two readings of a document compare.
pub struct ReportModel {
    pub pages: nat,
    pub labelled: bool,
    pub outline_items: nat,
    pub mismatches: Seq<Mismatch>,
    pub untitled: nat,
    pub remote: nat,
    pub geometries: Seq<PageGeometry>,
    pub same: Seq<(usize, usize)>,
}

/// How two readings of a document compare. The sizes of the pages, and the positions that outline
/// items lead to, are still to be compared.
#[derive(Debug, Clone, PartialEq)]
pub struct Report {
    pub pages: usize,
    /// Whether the document has page labels.
    pub labelled: bool,
    pub outline_items: usize,
    pub mismatches: Vec<Mismatch>,
    /// Items of [`KnownDifference::UntitledItem`].
    pub untitled: usize,
    /// Items of [`KnownDifference::RemoteDestination`].
    pub remote: usize,
    /// Each page as this library reads it.
    pub geometries: Vec<PageGeometry>,
    /// Items that both readings put on the same page, each with that page, counted from zero.
    pub same: Vec<(usize, usize)>,
}

impl View for Report {
    type V = ReportModel;

    open spec fn view(&self) -> ReportModel {
        ReportModel {
            pages: self.pages as nat,
            labelled: self.labelled,
            outline_items: self.outline_items as nat,
            mismatches: self.mismatches@,
            untitled: self.untitled as nat,
            remote: self.remote as nat,
            geometries: self.geometries@,
            same: self.same@,
        }
    }
}

/// The labels of a document.
pub open spec fn labels_of(model: Model) -> Option<Seq<Seq<char>>> {
    match labels_tree(model) {
        Some(tree) => Some(Seq::new(model.pages.len(), |i: int| page_label(tree, i))),
        None => None,
    }
}

/// Each page of a document as it is displayed.
pub open spec fn geometries_of(model: Model) -> Seq<PageGeometry> {
    Seq::new(model.pages.len(), |i: int| geometry(model, model.pages[i]))
}

/// Where the first `n` pages are turned differently.
pub open spec fn turns_differ(ours: Seq<PageGeometry>, theirs: Seq<Option<u8>>, n: nat) -> Seq<Mismatch>
    decreases n,
{
    if n == 0 {
        Seq::empty()
    } else {
        let page = (n - 1) as nat;
        let before = turns_differ(ours, theirs, page);
        if theirs[page as int] != Some(ours[page as int].quarter_turns) {
            before.push(Mismatch::Rotation { page: page as usize })
        } else {
            before
        }
    }
}

/// The first page from `page` on that the other reader cannot load, or how many pages there are.
pub open spec fn first_unloaded(loaded: Seq<bool>, page: nat) -> nat
    decreases loaded.len() - page,
{
    if page >= loaded.len() {
        loaded.len()
    } else if !loaded[page as int] {
        page
    } else {
        first_unloaded(loaded, page + 1)
    }
}

/// Where the source fails while a document is read to be compared.
pub struct Failures {
    pub pages: Option<Error>,
    pub labels: Option<Error>,
    /// The page whose boxes cannot be read.
    pub boxes: Option<(usize, Error)>,
    pub outline: Option<Error>,
}

/// Whether `failure`, if there is one, is a failure of a source that can fail.
pub open spec fn can_happen(failure: Option<Error>, can_fail: bool) -> bool {
    failure matches Some(error) ==> source_failure(error, can_fail)
}

/// Whether the source can fail in this way. There is no failure where it cannot fail.
pub open spec fn are_failures(failures: Failures, theirs: OtherModel, can_fail: bool) -> bool {
    &&& can_happen(failures.pages, can_fail)
    &&& can_happen(failures.labels, can_fail)
    &&& failures.boxes matches Some((page, error)) ==> source_failure(error, can_fail) && page
        < theirs.loaded.len() && page <= first_unloaded(theirs.loaded, 0)
    &&& can_happen(failures.outline, can_fail)
}

/// A report on a document that is compared no further.
pub open spec fn stopped(
    pages: nat,
    labelled: bool,
    mismatches: Seq<Mismatch>,
    geometries: Seq<PageGeometry>,
) -> ReportModel {
    ReportModel {
        pages,
        labelled,
        outline_items: 0,
        mismatches,
        untitled: 0,
        remote: 0,
        geometries,
        same: Seq::empty(),
    }
}

/// How a document compares with the other reader's reading of it, where the source fails as
/// `failures` say. Documents with different numbers of pages are compared no further, nor is a
/// document whose page tree, one of whose pages, or whose outline cannot be read.
pub open spec fn compared(model: Model, theirs: OtherModel, failures: Failures) -> ReportModel {
    let count = model.pages.len();
    if let Some(error) = failures.pages {
        stopped(0, false, seq![Mismatch::UnreadPages(error)], Seq::empty())
    } else if count != theirs.labels.len() {
        stopped(count, false, seq![Mismatch::PageCount], Seq::empty())
    } else {
        let (labelled, by_label) = match failures.labels {
            Some(error) => (false, seq![Mismatch::UnreadLabels(error)]),
            None => (
                labels_tree(model) is Some,
                label_mismatches(labels_of(model), theirs.labels),
            ),
        };
        let all = geometries_of(model);
        let unloaded = first_unloaded(theirs.loaded, 0);
        if let Some((page, error)) = failures.boxes {
            stopped(
                count,
                labelled,
                (by_label + turns_differ(all, theirs.turns, page as nat)).push(
                    Mismatch::UnreadPage { page, error },
                ),
                all.take(page as int),
            )
        } else if unloaded < count {
            stopped(
                count,
                labelled,
                (by_label + turns_differ(all, theirs.turns, unloaded)).push(
                    Mismatch::UnloadedPage { page: unloaded as usize },
                ),
                all.take(unloaded as int),
            )
        } else {
            let by_page = by_label + turns_differ(all, theirs.turns, count);
            if let Some(error) = failures.outline {
                stopped(count, labelled, by_page.push(Mismatch::UnreadOutline(error)), all)
            } else {
                let limits = OutlineLimits { max_depth: 32, max_items: 10_000 };
                let outline = outline_of(model, limits).items;
                let expected = titled_items(theirs.items);
                let items = outlines_compared(outline, expected);
                ReportModel {
                    pages: count,
                    labelled,
                    outline_items: outline.len(),
                    mismatches: by_page + items.mismatches,
                    untitled: (theirs.items.len() - expected.len()) as nat,
                    remote: items.remote,
                    geometries: all,
                    same: items.same,
                }
            }
        }
    }
}

/// The labels of the other reader's pages.
fn labels_in(pages: &Vec<OtherPage>) -> (r: Vec<Option<String>>)
    ensures
        r@.map_values(|label: Option<String>| text_in(label)) == pages@.map_values(
            |page: OtherPage| text_in(page.label),
        ),
{
    let mut labels: Vec<Option<String>> = Vec::new();
    let mut i: usize = 0;
    while i < pages.len()
        invariant
            i <= pages@.len(),
            labels@.len() == i,
            forall|j: int|
                0 <= j < i ==> text_in(#[trigger] labels@[j]) == text_in(pages@[j].label),
        decreases pages@.len() - i,
    {
        labels.push(
            match &pages[i].label {
                Some(label) => Some(label.clone()),
                None => None,
            },
        );
        i += 1;
    }
    assert(labels@.map_values(|label: Option<String>| text_in(label)) =~= pages@.map_values(
        |page: OtherPage| text_in(page.label),
    ));
    labels
}

/// Reads each page, and tells where the two readings turn it differently, and what stops them before
/// the last page, if anything does.
fn compare_pages<R: ObjectResolver>(resolver: &R, ids: &Vec<ObjectId>, theirs: &Vec<OtherPage>) -> (r:
    (Vec<PageGeometry>, Vec<Mismatch>, Option<Mismatch>))
    requires
        ids@ == resolver.model().pages,
        ids@.len() == theirs@.len(),
    ensures
        ({
            let all = geometries_of(resolver.model());
            let loaded = theirs@.map_values(|page: OtherPage| page.loaded);
            let turns = theirs@.map_values(|page: OtherPage| page.quarter_turns);
            let (geometries, mismatches, stop) = r;
            let read = match stop {
                None => ids@.len(),
                Some(Mismatch::UnreadPage { page, .. }) => page as nat,
                Some(Mismatch::UnloadedPage { page }) => page as nat,
                Some(_) => 0,
            };
            &&& match stop {
                None => first_unloaded(loaded, 0) == ids@.len(),
                Some(Mismatch::UnreadPage { page, error }) => {
                    &&& source_failure(error, resolver.can_fail())
                    &&& page < ids@.len()
                    &&& page <= first_unloaded(loaded, 0)
                },
                Some(Mismatch::UnloadedPage { page }) => first_unloaded(loaded, 0) == page && page
                    < ids@.len(),
                Some(_) => false,
            }
            &&& geometries@ == all.take(read as int)
            &&& mismatches@ == turns_differ(all, turns, read)
        }),
{
    let ghost all = geometries_of(resolver.model());
    let ghost loaded = theirs@.map_values(|page: OtherPage| page.loaded);
    let ghost turns = theirs@.map_values(|page: OtherPage| page.quarter_turns);
    let mut geometries: Vec<PageGeometry> = Vec::new();
    let mut mismatches: Vec<Mismatch> = Vec::new();
    let mut page: usize = 0;
    while page < ids.len()
        invariant
            page <= ids@.len(),
            ids@ == resolver.model().pages,
            ids@.len() == theirs@.len(),
            all == geometries_of(resolver.model()),
            loaded == theirs@.map_values(|page: OtherPage| page.loaded),
            turns == theirs@.map_values(|page: OtherPage| page.quarter_turns),
            first_unloaded(loaded, 0) == first_unloaded(loaded, page as nat),
            geometries@ == all.take(page as int),
            mismatches@ == turns_differ(all, turns, page as nat),
        decreases ids@.len() - page,
    {
        proof {
            lemma_unloaded_from(loaded, page as nat);
        }
        let read = match PageGeometry::read(resolver, ids[page]) {
            Ok(read) => read,
            Err(error) => {
                return (geometries, mismatches, Some(Mismatch::UnreadPage { page, error }));
            },
        };
        assert(loaded[page as int] == theirs@[page as int].loaded);
        if !theirs[page].loaded {
            return (geometries, mismatches, Some(Mismatch::UnloadedPage { page }));
        }
        assert(all[page as int] == read);
        assert(turns[page as int] == theirs@[page as int].quarter_turns);
        let same = match theirs[page].quarter_turns {
            Some(turns) => turns == read.quarter_turns,
            None => false,
        };
        if !same {
            mismatches.push(Mismatch::Rotation { page });
        }
        geometries.push(read);
        page += 1;
        assert(geometries@ =~= all.take(page as int));
    }
    (geometries, mismatches, None)
}

proof fn lemma_unloaded_from(loaded: Seq<bool>, page: nat)
    requires
        page <= loaded.len(),
    ensures
        page <= first_unloaded(loaded, page) <= loaded.len(),
    decreases loaded.len() - page,
{
    if page < loaded.len() && loaded[page as int] {
        lemma_unloaded_from(loaded, page + 1);
    }
}

/// A report on a document that is compared no further.
fn stop(
    pages: usize,
    labelled: bool,
    mismatches: Vec<Mismatch>,
    geometries: Vec<PageGeometry>,
) -> (r: Report)
    ensures
        r@ == stopped(pages as nat, labelled, mismatches@, geometries@),
{
    let report = Report {
        pages,
        labelled,
        outline_items: 0,
        mismatches,
        untitled: 0,
        remote: 0,
        geometries,
        same: Vec::new(),
    };
    assert(report@.same =~= Seq::<(usize, usize)>::empty());
    report
}

/// Compares a document with the other reader's reading of it. What cannot be read is a mismatch.
pub fn compare<R: ObjectResolver>(resolver: &R, theirs: OtherReading) -> (r: Report)
    ensures
        exists|failures: Failures|
            are_failures(failures, theirs@, resolver.can_fail()) && r@ == #[trigger] compared(
                resolver.model(),
                theirs@,
                failures,
            ),
{
    let ghost model = resolver.model();
    let ghost other = theirs@;
    let ghost mut failures = Failures { pages: None, labels: None, boxes: None, outline: None };
    let mut mismatches: Vec<Mismatch> = Vec::new();
    let ids = match resolver.page_ids() {
        Ok(ids) => ids,
        Err(error) => {
            mismatches.push(Mismatch::UnreadPages(error));
            let report = stop(0, false, mismatches, Vec::new());
            proof {
                failures.pages = Some(error);
                assert(report@.mismatches =~= seq![Mismatch::UnreadPages(error)]);
                assert(report@.geometries =~= Seq::<PageGeometry>::empty());
                assert(report@ == compared(model, other, failures));
            }
            return report;
        },
    };
    if ids.len() != theirs.pages.len() {
        mismatches.push(Mismatch::PageCount);
        let report = stop(ids.len(), false, mismatches, Vec::new());
        proof {
            assert(report@.mismatches =~= seq![Mismatch::PageCount]);
            assert(report@.geometries =~= Seq::<PageGeometry>::empty());
            assert(report@ == compared(model, other, failures));
        }
        return report;
    }
    let labelled: bool;
    match PageLabels::read(resolver, ids.len()) {
        Ok(labels) => {
            proof {
                if let Some(ref own) = labels {
                    assert(own.labels@.map_values(|label: String| label@) =~= labels_of(
                        model,
                    )->Some_0);
                }
            }
            labelled = labels.is_some();
            mismatches = compare_labels(&labels, &labels_in(&theirs.pages));
        },
        Err(error) => {
            proof {
                failures.labels = Some(error);
            }
            labelled = false;
            mismatches.push(Mismatch::UnreadLabels(error));
            assert(mismatches@ =~= seq![Mismatch::UnreadLabels(error)]);
        },
    }
    let ghost by_label = mismatches@;
    let (geometries, mut turned, stopped_by) = compare_pages(resolver, &ids, &theirs.pages);
    let ghost by_turn = turned@;
    mismatches.append(&mut turned);
    if let Some(mismatch) = stopped_by {
        proof {
            if let Mismatch::UnreadPage { page, error } = mismatch {
                failures.boxes = Some((page, error));
            }
        }
        mismatches.push(mismatch);
        let report = stop(ids.len(), labelled, mismatches, geometries);
        proof {
            assert(report@.mismatches =~= (by_label + by_turn).push(mismatch));
            assert(report@ == compared(model, other, failures));
        }
        return report;
    }
    assert(geometries@ =~= geometries_of(model));
    let outline = match DocumentOutline::read(resolver) {
        Ok(outline) => outline,
        Err(error) => {
            mismatches.push(Mismatch::UnreadOutline(error));
            let report = stop(ids.len(), labelled, mismatches, geometries);
            proof {
                failures.outline = Some(error);
                assert(report@.mismatches =~= (by_label + by_turn).push(
                    Mismatch::UnreadOutline(error),
                ));
                assert(report@ == compared(model, other, failures));
            }
            return report;
        },
    };
    let (expected, untitled) = titled(theirs.items);
    proof {
        let limits = OutlineLimits { max_depth: 32, max_items: 10_000 };
        lemma_outline_within_limits(model, limits);
        assert forall|i: int|
            0 <= i < outline.items@.len() implies ((#[trigger] outline.items@[i]).target matches Some(
            target,
        ) ==> target.page > 0) by {
            assert(outline@.items[i] == outline.items@[i]@);
        }
    }
    let mut comparison = compare_outlines(&outline, &expected);
    let ghost by_item = comparison.mismatches@;
    mismatches.append(&mut comparison.mismatches);
    assert(mismatches@ =~= by_label + by_turn + by_item);
    let report = Report {
        pages: ids.len(),
        labelled,
        outline_items: outline.items.len(),
        mismatches,
        untitled,
        remote: comparison.remote,
        geometries,
        same: comparison.same,
    };
    assert(report@ == compared(model, other, failures));
    report
}

/// Where the word at `at` ends.
pub open spec fn word_end(text: Seq<char>, at: int) -> int
    decreases text.len() - at,
{
    if 0 <= at < text.len() && text[at] != ' ' {
        word_end(text, at + 1)
    } else {
        at
    }
}

/// Where the words end that fit behind the first `at` characters, each behind a space.
pub open spec fn start_end(text: Seq<char>, at: int) -> int
    decreases text.len() - at,
{
    let next = word_end(text, at + 1);
    if 0 <= at < next <= text.len() && encode_utf8(text.take(at)).len() + encode_utf8(
        text.subrange(at + 1, next),
    ).len() <= TITLE_START_LEN {
        start_end(text, next)
    } else {
        at
    }
}

/// The start of a title, up to a word boundary: its first word, and the words behind it that fit in
/// [`TITLE_START_LEN`] bytes, not counting the space before the last.
pub open spec fn title_start_of(title: Seq<char>) -> Seq<char> {
    let text = collapsed(title);
    text.take(start_end(text, word_end(text, 0)))
}

fn end_of_word(text: &Vec<char>, at: usize) -> (r: usize)
    requires
        at <= text@.len(),
    ensures
        r == word_end(text@, at as int),
        at <= r <= text@.len(),
{
    let mut i: usize = at;
    while i < text.len() && text[i] != ' '
        invariant
            at <= i <= text@.len(),
            word_end(text@, at as int) == word_end(text@, i as int),
        decreases text@.len() - i,
    {
        i += 1;
    }
    i
}

/// The string of characters `from..to`.
fn part(text: &Vec<char>, from: usize, to: usize) -> (r: String)
    requires
        from <= to <= text@.len(),
    ensures
        r@ == text@.subrange(from as int, to as int),
{
    let mut string = String::new();
    let mut i: usize = from;
    while i < to
        invariant
            from <= i <= to <= text@.len(),
            string@ == text@.subrange(from as int, i as int),
        decreases to - i,
    {
        string.push(text[i]);
        i += 1;
        assert(string@ =~= text@.subrange(from as int, i as int));
    }
    string
}

/// The start of a title, up to a word boundary, short enough to sit on the heading's first line.
pub fn title_start(title: &str) -> (r: String)
    ensures
        r@ == title_start_of(title@),
{
    let collapsed_title = collapse_whitespace(title);
    let text = chars_of(collapsed_title.as_str());
    let mut at: usize = end_of_word(&text, 0);
    while at < text.len()
        invariant
            at <= text@.len(),
            text@ == collapsed(title@),
            start_end(text@, word_end(text@, 0)) == start_end(text@, at as int),
        decreases text@.len() - at,
    {
        let next = end_of_word(&text, at + 1);
        let start = part(&text, 0, at);
        let word = part(&text, at + 1, next);
        assert(start@ =~= text@.take(at as int));
        let start_len = start.as_str().as_bytes().len();
        let word_len = word.as_str().as_bytes().len();
        if start_len > TITLE_START_LEN || word_len > TITLE_START_LEN - start_len {
            let r = part(&text, 0, at);
            assert(r@ =~= text@.take(at as int));
            return r;
        }
        at = next;
    }
    let r = part(&text, 0, at);
    assert(r@ =~= text@.take(at as int));
    r
}

/// A walk over the other reader's outline in reading order, bounded as this library's own is, so
/// that a cyclic outline ends. The other reader's items go by a number of the caller's choice.
pub struct OutlineWalk {
    limits: OutlineLimits,
    taken: usize,
    stack: Vec<(usize, usize)>,
}

/// How far a walk has come: the items taken, and those still to be, each with its depth, the next
/// last.
pub struct WalkModel {
    pub taken: nat,
    pub stack: Seq<(usize, usize)>,
}

impl View for OutlineWalk {
    type V = WalkModel;

    closed spec fn view(&self) -> WalkModel {
        WalkModel { taken: self.taken as nat, stack: self.stack@ }
    }
}

/// The stack of a walk after the item at `depth` was taken: its next sibling follows behind its
/// children.
pub open spec fn stack_behind(
    limits: OutlineLimits,
    stack: Seq<(usize, usize)>,
    depth: usize,
    next: Option<usize>,
    child: Option<usize>,
) -> Seq<(usize, usize)> {
    let with_next = match next {
        Some(next) => stack.push((next, depth)),
        None => stack,
    };
    match child {
        Some(child) if depth + 1 < limits.max_depth => with_next.push(
            (child, (depth + 1) as usize),
        ),
        _ => with_next,
    }
}

impl OutlineWalk {
    pub closed spec fn limits(&self) -> OutlineLimits {
        self.limits
    }

    /// Whether no more items were taken than allowed, and none waits deeper than allowed.
    pub closed spec fn within_limits(&self) -> bool {
        &&& self.taken <= self.limits.max_items
        &&& forall|i: int|
            #![trigger self.stack@[i]]
            0 <= i < self.stack@.len() ==> self.stack@[i].1 == 0 || self.stack@[i].1
                < self.limits.max_depth
    }

    /// A walk from the first top-level item, if there is one.
    pub fn new(limits: OutlineLimits, first: Option<usize>) -> (r: Self)
        ensures
            r.limits() == limits,
            r.within_limits(),
            r@ == (WalkModel {
                taken: 0,
                stack: match first {
                    Some(first) => seq![(first, 0usize)],
                    None => Seq::empty(),
                },
            }),
    {
        let mut stack: Vec<(usize, usize)> = Vec::new();
        if let Some(first) = first {
            stack.push((first, 0));
            assert(stack@ =~= seq![(first, 0usize)]);
        } else {
            assert(stack@ =~= Seq::<(usize, usize)>::empty());
        }
        OutlineWalk { limits, taken: 0, stack }
    }

    /// The next item and its depth, until there is none, or as many as allowed were taken.
    pub fn take(&mut self) -> (r: Option<(usize, usize)>)
        requires
            old(self).within_limits(),
        ensures
            final(self).limits() == old(self).limits(),
            final(self).within_limits(),
            match r {
                Some((item, depth)) => {
                    &&& old(self)@.taken < old(self).limits().max_items
                    &&& depth == 0 || depth < old(self).limits().max_depth
                    &&& old(self)@.stack == final(self)@.stack.push((item, depth))
                    &&& final(self)@.taken == old(self)@.taken + 1
                },
                None => {
                    &&& old(self)@.taken == old(self).limits().max_items || old(
                        self,
                    )@.stack.len() == 0
                    &&& final(self)@ == old(self)@
                },
            },
    {
        if self.taken >= self.limits.max_items {
            return None;
        }
        let ghost before = self.stack@;
        match self.stack.pop() {
            Some(pair) => {
                self.taken += 1;
                assert(before =~= self.stack@.push(pair));
                assert(before[before.len() - 1] == pair);
                assert forall|i: int|
                    #![trigger self.stack@[i]]
                    0 <= i < self.stack@.len() implies self.stack@[i].1 == 0 || self.stack@[i].1
                    < self.limits.max_depth by {
                    assert(before[i] == self.stack@[i]);
                }
                Some(pair)
            },
            None => None,
        }
    }

    /// Goes on from the item taken at `depth` to its first child and its next sibling.
    pub fn follow(&mut self, depth: usize, next: Option<usize>, child: Option<usize>)
        requires
            old(self).within_limits(),
            depth == 0 || depth < old(self).limits().max_depth,
        ensures
            final(self).limits() == old(self).limits(),
            final(self).within_limits(),
            final(self)@ == (WalkModel {
                taken: old(self)@.taken,
                stack: stack_behind(old(self).limits(), old(self)@.stack, depth, next, child),
            }),
    {
        if let Some(next) = next {
            self.stack.push((next, depth));
        }
        if let Some(child) = child {
            if depth < self.limits.max_depth && depth + 1 < self.limits.max_depth {
                self.stack.push((child, depth + 1));
            }
        }
    }
}

/// Outlines that agree in every title, depth and page have no mismatch.
pub proof fn lemma_equal_outlines_match(ours: Seq<ItemModel>, theirs: Seq<OtherItemModel>)
    requires
        ours.len() == theirs.len(),
        forall|i: int|
            #![trigger ours[i]]
            #![trigger theirs[i]]
            0 <= i < ours.len() ==> {
                &&& ours[i].title == collapsed(text_or_empty(theirs[i].title))
                &&& ours[i].depth == theirs[i].depth
                &&& page_of(ours[i].target) == other_page_of(theirs[i])
            },
    ensures
        outlines_compared(ours, theirs).mismatches.len() == 0,
        outlines_compared(ours, theirs).remote == 0,
{
    lemma_equal_items_match(ours, theirs, ours.len());
}

proof fn lemma_equal_items_match(ours: Seq<ItemModel>, theirs: Seq<OtherItemModel>, n: nat)
    requires
        n <= ours.len() == theirs.len(),
        forall|i: int|
            #![trigger ours[i]]
            #![trigger theirs[i]]
            0 <= i < ours.len() ==> {
                &&& ours[i].title == collapsed(text_or_empty(theirs[i].title))
                &&& ours[i].depth == theirs[i].depth
                &&& page_of(ours[i].target) == other_page_of(theirs[i])
            },
    ensures
        items_compared(ours, theirs, n).mismatches.len() == 0,
        items_compared(ours, theirs, n).remote == 0,
    decreases n,
{
    if n > 0 {
        lemma_equal_items_match(ours, theirs, (n - 1) as nat);
        assert(ours[n - 1].depth == theirs[n - 1].depth);
    }
}

} // verus!
