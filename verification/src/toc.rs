//! The outline as page numbers.

use vstd::prelude::*;

use crate::document::Document;
use crate::document_outline::{
    lemma_outline_within_limits, outline_of, DocumentOutline, ItemModel, OutlineLimits,
    OutlineModel,
};
use crate::error::{Error, Result};
use crate::object::named_entry;
use crate::page_tree::lemma_page_order_len;
use crate::resolver::{catalog_of, ObjectResolver};
use crate::text::{append_chars, chars_of, debug_text, debug_string, decimal, decimal_of_usize, string_of};

verus! {

/// A line of a table of contents.
#[derive(Debug, Clone, PartialEq)]
pub struct TocType {
    pub level: usize,
    pub title: String,
    pub page: usize,
}

/// A table of contents, with what could not be put into it.
#[derive(Debug, Clone)]
pub struct Toc {
    pub toc: Vec<TocType>,
    pub errors: Vec<String>,
}

/// What a line of a table of contents is.
pub struct LineModel {
    pub level: nat,
    pub title: Seq<char>,
    pub page: nat,
}

/// What a table of contents holds.
pub struct TocModel {
    pub toc: Seq<LineModel>,
    pub errors: Seq<Seq<char>>,
}

impl View for TocType {
    type V = LineModel;

    open spec fn view(&self) -> LineModel {
        LineModel { level: self.level as nat, title: self.title@, page: self.page as nat }
    }
}

impl View for Toc {
    type V = TocModel;

    open spec fn view(&self) -> TocModel {
        TocModel {
            toc: Seq::new(self.toc@.len(), |i: int| self.toc@[i]@),
            errors: Seq::new(self.errors@.len(), |i: int| self.errors@[i]@),
        }
    }
}

pub open spec fn empty_toc() -> TocModel {
    TocModel { toc: Seq::empty(), errors: Seq::empty() }
}

/// What is said of an item without a page in the document.
pub open spec fn pageless_message(title: Seq<char>) -> Seq<char> {
    "Outline item "@ + debug_text(title) + " has no page in this document"@
}

/// What is said of items that could not be read.
pub open spec fn skipped_message(skipped: nat) -> Seq<char> {
    decimal(skipped as int) + " outline items could not be read"@
}

/// The lines and errors that outline items give.
pub open spec fn toc_of_items(items: Seq<ItemModel>) -> TocModel
    decreases items.len(),
{
    if items.len() == 0 {
        empty_toc()
    } else {
        let head = toc_of_items(items.drop_last());
        let item = items.last();
        match item.target {
            Some(target) => TocModel {
                toc: head.toc.push(
                    LineModel {
                        level: item.depth + 1,
                        title: item.title,
                        page: target.page as nat,
                    },
                ),
                ..head
            },
            None => TocModel { errors: head.errors.push(pageless_message(item.title)), ..head },
        }
    }
}

/// The table of contents that an outline gives.
pub open spec fn toc_of(outline: OutlineModel) -> TocModel {
    let items = toc_of_items(outline.items);
    let skipped = if outline.skipped > 0 {
        items.errors.push(skipped_message(outline.skipped))
    } else {
        items.errors
    };
    TocModel {
        toc: items.toc,
        errors: if outline.truncated {
            skipped.push("The outline is larger than the default outline limits"@)
        } else {
            skipped
        },
    }
}

/// Every outline item gives a line or an error.
pub proof fn lemma_toc_leaves_nothing_out(items: Seq<ItemModel>)
    ensures
        toc_of_items(items).toc.len() + toc_of_items(items).errors.len() == items.len(),
    decreases items.len(),
{
    if items.len() > 0 {
        lemma_toc_leaves_nothing_out(items.drop_last());
    }
}

impl Default for Toc {
    fn default() -> (r: Self)
        ensures
            r@ == empty_toc(),
    {
        Toc::new()
    }
}

impl Toc {
    pub fn new() -> (r: Self)
        ensures
            r@ == empty_toc(),
    {
        let toc = Toc { toc: Vec::new(), errors: Vec::new() };
        assert(toc@.toc =~= Seq::<LineModel>::empty());
        assert(toc@.errors =~= Seq::<Seq<char>>::empty());
        toc
    }

    fn add_line(&mut self, line: TocType)
        ensures
            final(self)@ == (TocModel { toc: old(self)@.toc.push(line@), ..old(self)@ }),
    {
        self.toc.push(line);
        assert(self@.toc =~= old(self)@.toc.push(line@));
        assert(self@.errors =~= old(self)@.errors);
    }

    fn add_error(&mut self, error: String)
        ensures
            final(self)@ == (TocModel { errors: old(self)@.errors.push(error@), ..old(self)@ }),
    {
        self.errors.push(error);
        assert(self@.toc =~= old(self)@.toc);
        assert(self@.errors =~= old(self)@.errors.push(error@));
    }
}

/// What is said of an item without a page in the document.
fn pageless_error(title: &String) -> (r: String)
    ensures
        r@ == pageless_message(title@),
{
    let mut chars = chars_of("Outline item ");
    append_chars(&mut chars, &chars_of(debug_string(title).as_str()));
    append_chars(&mut chars, &chars_of(" has no page in this document"));
    string_of(&chars)
}

/// What is said of items that could not be read.
fn skipped_error(skipped: usize) -> (r: String)
    ensures
        r@ == skipped_message(skipped as nat),
{
    let mut chars = decimal_of_usize(skipped);
    append_chars(&mut chars, &chars_of(" outline items could not be read"));
    string_of(&chars)
}

/// The table of contents that `outline` gives.
pub fn toc_from_outline(outline: &DocumentOutline) -> (r: Toc)
    requires
        forall|i: int|
            0 <= i < outline.items@.len() ==> (#[trigger] outline.items@[i]).depth < usize::MAX,
    ensures
        r@ == toc_of(outline@),
{
    let mut toc = Toc::new();
    let mut i: usize = 0;
    while i < outline.items.len()
        invariant
            i <= outline.items@.len(),
            forall|i: int|
                0 <= i < outline.items@.len() ==> (#[trigger] outline.items@[i]).depth
                    < usize::MAX,
            toc@ == toc_of_items(outline@.items.take(i as int)),
        decreases outline.items@.len() - i,
    {
        assert(outline@.items.take(i + 1).drop_last() =~= outline@.items.take(i as int));
        let item = &outline.items[i];
        match item.target {
            Some(target) => {
                let title = string_of(&chars_of(item.title.as_str()));
                toc.add_line(
                    TocType { level: item.depth + 1, title, page: target.page as usize },
                );
            },
            None => {
                toc.add_error(pageless_error(&item.title));
            },
        }
        i += 1;
    }
    assert(outline@.items.take(i as int) =~= outline@.items);
    if outline.skipped > 0 {
        toc.add_error(skipped_error(outline.skipped));
    }
    if outline.truncated {
        toc.add_error(
            string_of(&chars_of("The outline is larger than the default outline limits")),
        );
    }
    toc
}

impl Document {
    /// The outline as page numbers, read by [`DocumentOutline`]. Items without a page in this
    /// document are left out, and `errors` says which items and how many unreadable ones.
    pub fn get_toc(&self) -> (r: Result<Toc>)
        ensures
            match (r, catalog_of(self.contents())) {
                (Ok(toc), Some(catalog)) => {
                    &&& named_entry(catalog, "Outlines"@) is Some
                    &&& toc@ == toc_of(
                        outline_of(
                            self.model(),
                            OutlineLimits { max_depth: 32, max_items: 10_000 },
                        ),
                    )
                },
                (Err(error), Some(catalog)) => named_entry(catalog, "Outlines"@) is None && error
                    == Error::NoOutline,
                (Err(error), None) => error == self.catalog_error(),
                (Ok(_), None) => false,
            },
    {
        let catalog = match self.catalog() {
            Ok(catalog) => catalog,
            Err(error) => {
                return Err(error);
            },
        };
        if !catalog.has("Outlines".as_bytes()) {
            return Err(Error::NoOutline);
        }
        match DocumentOutline::read(self) {
            Ok(outline) => {
                proof {
                    lemma_page_order_len(self.contents(), self.objects.count());
                    let limits = OutlineLimits { max_depth: 32, max_items: 10_000 };
                    lemma_outline_within_limits(self.model(), limits);
                    assert forall|i: int| 0 <= i < outline.items@.len() implies (
                    #[trigger] outline.items@[i]).depth < usize::MAX by {
                        assert(outline@.items[i].depth < 32);
                    }
                }
                Ok(toc_from_outline(&outline))
            },
            Err(error) => Err(error),
        }
    }
}

} // verus!
