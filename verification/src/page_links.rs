//! A page's link annotations: where each link sits on the page and where it leads.
//!
//! A link names its target the way an outline item does, by `/Dest` or by a `/GoTo` action, so it
//! resolves through the same destinations as
//! [`DocumentOutline`](crate::document_outline::DocumentOutline), named destinations and their name
//! trees included. A link to a web page carries a `/URI` action instead. A malformed annotation is
//! skipped rather than failing its page, and every walk is bounded, so a page with a very long
//! `/Annots` cannot exhaust a reader.

use vstd::prelude::*;

use crate::bytes::{key, spells};
use crate::destinations::{
    item_target, lemma_targets_are_in_the_document, Destinations, OutlineTarget,
};
use crate::error::Result;
use crate::number::{Real, INFINITY, SIGN};
use crate::object::{
    array_in, dictionary_in, integer_of, name_in, named_entry, number_of, value, values,
    Dictionary, Entries, Object, ObjectId, Value,
};
use crate::page_geometry::{rect_of, PageRect};
use crate::resolver::{
    array_named, catalog, catalog_of, dereference, dictionary_at, dictionary_named, followed,
    followed_entry, followed_named, found, into_owned, skip_unless_io, source_failure, Model,
    ObjectResolver,
};
use crate::text::{lossy_utf8, lossy_utf8_string, trim, trimmed};

verus! {

/// `/F` flags that keep an annotation off the page: Hidden, and NoView.
pub const HIDING_FLAGS: i64 = 34;

/// Bounds on reading one page's links.
#[derive(Debug, Clone, Copy, PartialEq, Eq)]
pub struct PageLinkLimits {
    /// Most annotations looked at on one page, links or not.
    pub max_annotations: usize,
    /// Most rectangles kept for one link, from its `/QuadPoints`.
    pub max_rects: usize,
}

impl Default for PageLinkLimits {
    fn default() -> (r: Self)
        ensures
            r == (PageLinkLimits { max_annotations: 4_000, max_rects: 64 }),
    {
        PageLinkLimits { max_annotations: 4_000, max_rects: 64 }
    }
}

/// The links on one page, in the order its `/Annots` lists them.
#[derive(Debug, Clone, PartialEq)]
pub struct PageLinks {
    pub links: Vec<PageLink>,
    /// Link annotations left out: hidden ones, ones without an area, and ones leading somewhere a
    /// reader of this document cannot follow, such as another file or a page not in the page tree.
    pub skipped: usize,
    /// Whether reading stopped at [`PageLinkLimits::max_annotations`] before the end of `/Annots`.
    pub truncated: bool,
}

#[derive(Debug, Clone, PartialEq)]
pub struct PageLink {
    /// Where the link sits, in user space: one rectangle for each quadrilateral of its
    /// `/QuadPoints`, as a link that wraps onto a second line has, or else its `/Rect`.
    pub rects: Vec<PageRect>,
    pub target: LinkTarget,
}

#[derive(Debug, Clone, PartialEq)]
pub enum LinkTarget {
    /// A place in this document.
    Page(OutlineTarget),
    /// A `/URI` action's address, as written.
    Uri(String),
}

/// Where a link leads.
pub enum TargetModel {
    Page(OutlineTarget),
    Uri(Seq<char>),
}

/// What a link is.
pub struct LinkModel {
    pub rects: Seq<PageRect>,
    pub target: TargetModel,
}

/// What the links on a page are.
pub struct LinksModel {
    pub links: Seq<LinkModel>,
    pub skipped: nat,
    pub truncated: bool,
}

impl View for LinkTarget {
    type V = TargetModel;

    open spec fn view(&self) -> TargetModel {
        match self {
            LinkTarget::Page(target) => TargetModel::Page(*target),
            LinkTarget::Uri(address) => TargetModel::Uri(address@),
        }
    }
}

impl View for PageLink {
    type V = LinkModel;

    open spec fn view(&self) -> LinkModel {
        LinkModel { rects: self.rects@, target: self.target@ }
    }
}

impl View for PageLinks {
    type V = LinksModel;

    open spec fn view(&self) -> LinksModel {
        LinksModel {
            links: Seq::new(self.links@.len(), |i: int| self.links@[i]@),
            skipped: self.skipped as nat,
            truncated: self.truncated,
        }
    }
}

pub open spec fn no_links() -> LinksModel {
    LinksModel { links: Seq::empty(), skipped: 0, truncated: false }
}

impl Default for PageLinks {
    fn default() -> (r: Self)
        ensures
            r@ == no_links(),
    {
        let links = PageLinks { links: Vec::new(), skipped: 0, truncated: false };
        assert(links@.links =~= Seq::<LinkModel>::empty());
        links
    }
}

/// The numbers of an array, if every item is one: an item that is not would shift the rest out of
/// their quadrilaterals.
pub open spec fn all_numbers(items: Seq<Value>) -> Option<Seq<Real>>
    decreases items.len(),
{
    if items.len() == 0 {
        Some(Seq::empty())
    } else {
        match (all_numbers(items.drop_last()), number_of(items.last())) {
            (Some(head), Some(number)) => Some(head.push(number)),
            _ => None,
        }
    }
}

/// The smallest of four numbers, or infinity without one.
pub open spec fn least_of(a: Real, b: Real, c: Real, d: Real) -> Real {
    Real { bits: INFINITY }.least(a).least(b).least(c).least(d)
}

/// The largest of four numbers, or minus infinity without one.
pub open spec fn greatest_of(a: Real, b: Real, c: Real, d: Real) -> Real {
    Real { bits: (SIGN + INFINITY) as u32 }.greatest(a).greatest(b).greatest(c).greatest(d)
}

/// The rectangle around quadrilateral `i` of `/QuadPoints`.
pub open spec fn quad_rect(numbers: Seq<Real>, i: int) -> PageRect {
    let at = 8 * i;
    PageRect {
        left: least_of(numbers[at], numbers[at + 2], numbers[at + 4], numbers[at + 6]),
        bottom: least_of(numbers[at + 1], numbers[at + 3], numbers[at + 5], numbers[at + 7]),
        right: greatest_of(numbers[at], numbers[at + 2], numbers[at + 4], numbers[at + 6]),
        top: greatest_of(numbers[at + 1], numbers[at + 3], numbers[at + 5], numbers[at + 7]),
    }
}

/// The rectangles with extent around the first `count` quadrilaterals.
pub open spec fn quad_rects(numbers: Seq<Real>, count: nat) -> Seq<PageRect>
    decreases count,
{
    if count == 0 {
        Seq::empty()
    } else {
        let head = quad_rects(numbers, (count - 1) as nat);
        let rect = quad_rect(numbers, count - 1);
        if rect.empty() {
            head
        } else {
            head.push(rect)
        }
    }
}

/// The areas that `/QuadPoints` gives, from no more than `max_rects` quadrilaterals.
pub open spec fn quad_areas(quads: Option<Seq<Value>>, max_rects: nat) -> Seq<PageRect> {
    match quads {
        Some(quads) => match all_numbers(quads) {
            Some(numbers) => if numbers.len() % 8 == 0 {
                let listed = numbers.len() / 8;
                quad_rects(
                    numbers,
                    if listed < max_rects {
                        listed as nat
                    } else {
                        max_rects
                    },
                )
            } else {
                Seq::empty()
            },
            None => Seq::empty(),
        },
        None => Seq::empty(),
    }
}

/// A link's areas: each quadrilateral of `/QuadPoints` as the rectangle around it, when it has any,
/// else its `/Rect`. Areas without extent are dropped.
pub open spec fn link_rects(model: Model, annotation: Entries, max_rects: nat) -> Seq<PageRect> {
    let quads = quad_areas(
        array_in(followed_entry(model, annotation, "QuadPoints"@)),
        max_rects,
    );
    if quads.len() > 0 {
        quads
    } else {
        match named_entry(annotation, "Rect"@) {
            Some(rect) => match rect_of(model, rect) {
                Some(rect) if !rect.empty() => seq![rect],
                _ => Seq::empty(),
            },
            None => Seq::empty(),
        }
    }
}

/// The address of a link's `/URI` action, without the whitespace around it.
pub open spec fn link_uri(model: Model, annotation: Entries) -> Option<Seq<char>> {
    match dictionary_in(followed_entry(model, annotation, "A"@)) {
        Some(action) => if name_in(named_entry(action, "S"@)) == Some(key("URI"@)) {
            match followed_entry(model, action, "URI"@) {
                Some(Value::String(bytes, _)) => {
                    let address = trimmed(lossy_utf8(bytes));
                    if address.len() > 0 {
                        Some(address)
                    } else {
                        None
                    }
                },
                _ => None,
            }
        } else {
            None
        },
        None => None,
    }
}

/// Where a link leads: a place in this document, from `/Dest` or a `/GoTo` action, or else a web
/// address from a `/URI` action. A document without a readable catalog has only web links.
pub open spec fn link_target(model: Model, annotation: Entries) -> Option<TargetModel> {
    let place = match catalog_of(model) {
        Some(catalog) => item_target(model, catalog, model.pages, annotation),
        None => None,
    };
    match (place, link_uri(model, annotation)) {
        (Some(target), _) => Some(TargetModel::Page(target)),
        (None, Some(address)) => Some(TargetModel::Uri(address)),
        (None, None) => None,
    }
}

/// Whether the flags of an annotation keep it off the page.
pub open spec fn hidden(annotation: Entries) -> bool {
    let flags = match named_entry(annotation, "F"@) {
        Some(flags) => match integer_of(flags) {
            Some(flags) => flags,
            None => 0,
        },
        None => 0,
    };
    flags & HIDING_FLAGS != 0
}

/// The link that a link annotation is, if it is shown, has an area, and leads somewhere.
pub open spec fn link_of(model: Model, annotation: Entries, max_rects: nat) -> Option<LinkModel> {
    let rects = link_rects(model, annotation, max_rects);
    if hidden(annotation) || rects.len() == 0 {
        None
    } else {
        match link_target(model, annotation) {
            Some(target) => Some(LinkModel { rects, target }),
            None => None,
        }
    }
}

/// The links that annotations are. Those that are not links do not count.
pub open spec fn links_of(model: Model, annotations: Seq<Value>, max_rects: nat) -> LinksModel
    decreases annotations.len(),
{
    if annotations.len() == 0 {
        no_links()
    } else {
        let head = links_of(model, annotations.drop_last(), max_rects);
        match dictionary_in(followed(model, annotations.last())) {
            Some(annotation) => if name_in(named_entry(annotation, "Subtype"@)) == Some(
                key("Link"@),
            ) {
                match link_of(model, annotation, max_rects) {
                    Some(link) => LinksModel { links: head.links.push(link), ..head },
                    None => LinksModel { skipped: head.skipped + 1, ..head },
                }
            } else {
                head
            },
            None => head,
        }
    }
}

/// The object id of a page, numbered from 1.
pub open spec fn numbered_page(pages: Seq<ObjectId>, page: u32) -> Option<ObjectId> {
    if 1 <= page <= pages.len() {
        Some(pages[page - 1])
    } else {
        None
    }
}

/// The links on page `page`, numbered from 1.
pub open spec fn page_links(model: Model, page: u32, limits: PageLinkLimits) -> LinksModel {
    let annotations = match numbered_page(model.pages, page) {
        Some(id) => match dictionary_in(found(model, id)) {
            Some(page) => array_in(followed_entry(model, page, "Annots"@)),
            None => None,
        },
        None => None,
    };
    match annotations {
        Some(annotations) => if annotations.len() > limits.max_annotations {
            LinksModel {
                truncated: true,
                ..links_of(
                    model,
                    annotations.take(limits.max_annotations as int),
                    limits.max_rects as nat,
                )
            }
        } else {
            links_of(model, annotations, limits.max_rects as nat)
        },
        None => no_links(),
    }
}

/// Every link kept has an area, each with extent, and a place it leads to in the document is on
/// one of `pages` pages.
pub open spec fn usable(links: LinksModel, pages: nat) -> bool {
    forall|i: int|
        0 <= i < links.links.len() ==> {
            &&& (#[trigger] links.links[i]).rects.len() > 0
            &&& forall|j: int|
                0 <= j < links.links[i].rects.len() ==> !(#[trigger] links.links[i].rects[j]).empty()
            &&& links.links[i].target matches TargetModel::Page(target) ==> 1 <= target.page <= pages
        }
}

proof fn lemma_quad_rects(numbers: Seq<Real>, count: nat)
    ensures
        quad_rects(numbers, count).len() <= count,
        forall|j: int|
            0 <= j < quad_rects(numbers, count).len() ==> !(#[trigger] quad_rects(
                numbers,
                count,
            )[j]).empty(),
    decreases count,
{
    if count > 0 {
        lemma_quad_rects(numbers, (count - 1) as nat);
    }
}

/// A link has areas with extent only, and no more of them than asked for, unless it has just its
/// `/Rect`.
pub proof fn lemma_link_rects(model: Model, annotation: Entries, max_rects: nat)
    ensures
        forall|j: int|
            0 <= j < link_rects(model, annotation, max_rects).len() ==> !(#[trigger] link_rects(
                model,
                annotation,
                max_rects,
            )[j]).empty(),
        link_rects(model, annotation, max_rects).len() <= max_rects || link_rects(
            model,
            annotation,
            max_rects,
        ).len() == 1,
{
    if let Some(quads) = array_in(followed_entry(model, annotation, "QuadPoints"@)) {
        if let Some(numbers) = all_numbers(quads) {
            lemma_quad_rects(numbers, (numbers.len() / 8) as nat);
            lemma_quad_rects(numbers, max_rects);
        }
    }
}

proof fn lemma_links_usable(model: Model, annotations: Seq<Value>, max_rects: nat)
    requires
        model.pages.len() <= u32::MAX,
    ensures
        usable(links_of(model, annotations, max_rects), model.pages.len()),
        links_of(model, annotations, max_rects).links.len() + links_of(
            model,
            annotations,
            max_rects,
        ).skipped <= annotations.len(),
    decreases annotations.len(),
{
    if annotations.len() > 0 {
        lemma_links_usable(model, annotations.drop_last(), max_rects);
        if let Some(annotation) = dictionary_in(followed(model, annotations.last())) {
            lemma_link_rects(model, annotation, max_rects);
            if let Some(catalog) = catalog_of(model) {
                lemma_targets_are_in_the_document(model, catalog, model.pages, annotation);
            }
        }
    }
}

/// Every link kept for a page is usable, and no more annotations are kept or left out than were
/// asked to be looked at.
pub proof fn lemma_page_links_usable(model: Model, page: u32, limits: PageLinkLimits)
    requires
        model.pages.len() <= u32::MAX,
    ensures
        usable(page_links(model, page, limits), model.pages.len()),
        page_links(model, page, limits).links.len() + page_links(model, page, limits).skipped
            <= limits.max_annotations,
{
    if let Some(id) = numbered_page(model.pages, page) {
        if let Some(page) = dictionary_in(found(model, id)) {
            if let Some(annotations) = array_in(followed_entry(model, page, "Annots"@)) {
                lemma_links_usable(model, annotations, limits.max_rects as nat);
                if annotations.len() > limits.max_annotations {
                    lemma_links_usable(
                        model,
                        annotations.take(limits.max_annotations as int),
                        limits.max_rects as nat,
                    );
                }
            }
        }
    }
}

/// Reads the links of a document's pages, one page at a time, looking up each named destination
/// once for all of them.
pub struct PageLinkReader<'a, R: ObjectResolver> {
    resolver: &'a R,
    page_ids: Vec<ObjectId>,
    /// `None` for a document without a readable catalog, whose links can only be web links.
    destinations: Option<Destinations<'a, R>>,
    limits: PageLinkLimits,
}

impl<'a, R: ObjectResolver> PageLinkReader<'a, R> {
    pub closed spec fn resolver(&self) -> &'a R {
        self.resolver
    }

    pub closed spec fn limits(&self) -> PageLinkLimits {
        self.limits
    }

    /// The pages are those of the document, and its destinations resolve.
    pub closed spec fn well_formed(&self) -> bool {
        &&& self.page_ids@ == self.resolver.model().pages
        &&& self.page_ids@.len() < u32::MAX
        &&& match self.destinations {
            Some(destinations) => {
                &&& destinations.well_formed()
                &&& destinations.resolver() == self.resolver
                &&& catalog_of(self.resolver.model()) == Some(destinations.catalog())
                &&& destinations.page_ids() == self.page_ids@
            },
            None => catalog_of(self.resolver.model()) is None,
        }
    }

    /// A reader with the default [`PageLinkLimits`]. Only a failure to read the source, or the
    /// page tree, is an error.
    pub fn new(resolver: &'a R) -> (r: Result<Self>)
        ensures
            match r {
                Ok(reader) => {
                    &&& reader.well_formed()
                    &&& reader.resolver() == resolver
                    &&& reader.limits() == (PageLinkLimits {
                        max_annotations: 4_000,
                        max_rects: 64,
                    })
                },
                Err(error) => source_failure(error, resolver.can_fail()),
            },
    {
        Self::with_limits(resolver, PageLinkLimits::default())
    }

    pub fn with_limits(resolver: &'a R, limits: PageLinkLimits) -> (r: Result<Self>)
        ensures
            match r {
                Ok(reader) => {
                    &&& reader.well_formed()
                    &&& reader.resolver() == resolver
                    &&& reader.limits() == limits
                },
                Err(error) => source_failure(error, resolver.can_fail()),
            },
    {
        let page_ids = match resolver.page_ids() {
            Ok(page_ids) => page_ids,
            Err(error) => {
                return Err(error);
            },
        };
        let destinations = match catalog(resolver) {
            Ok(Some(catalog)) => Some(Destinations::new(resolver, catalog, &page_ids)),
            Ok(None) => None,
            Err(error) => {
                return Err(error);
            },
        };
        Ok(PageLinkReader { resolver, page_ids, destinations, limits })
    }

    /// Pages in the document.
    pub fn page_count(&self) -> (r: u32)
        requires
            self.well_formed(),
        ensures
            r == self.resolver().model().pages.len(),
    {
        self.page_ids.len() as u32
    }

    /// The object id of page `page`, numbered from 1.
    pub fn page_id(&self, page: u32) -> (r: Option<ObjectId>)
        requires
            self.well_formed(),
        ensures
            r == numbered_page(self.resolver().model().pages, page),
    {
        if page >= 1 && page - 1 < self.page_ids.len() as u32 {
            Some(self.page_ids[(page - 1) as usize])
        } else {
            None
        }
    }

    /// The links on page `page`, numbered from 1, and none for a page outside the document. Only
    /// a failure to read the source is an error.
    pub fn read(&mut self, page: u32) -> (r: Result<PageLinks>)
        requires
            old(self).well_formed(),
        ensures
            final(self).well_formed(),
            final(self).resolver() == old(self).resolver(),
            final(self).limits() == old(self).limits(),
            match r {
                Ok(links) => links@ == page_links(
                    old(self).resolver().model(),
                    page,
                    old(self).limits(),
                ),
                Err(error) => source_failure(error, old(self).resolver().can_fail()),
            },
    {
        let ghost model = self.resolver.model();
        let mut links = PageLinks::default();
        let page_id = match self.page_id(page) {
            Some(page_id) => page_id,
            None => {
                return Ok(links);
            },
        };
        let page = match dictionary_at(self.resolver, page_id) {
            Ok(Some(page)) => page,
            Ok(None) => {
                return Ok(links);
            },
            Err(error) => {
                return Err(error);
            },
        };
        let entries = match array_named(self.resolver, &page, "Annots") {
            Ok(Some(entries)) => entries,
            Ok(None) => {
                return Ok(links);
            },
            Err(error) => {
                return Err(error);
            },
        };
        let ghost annotations = values(entries@);
        let mut count = entries.len();
        if count > self.limits.max_annotations {
            count = self.limits.max_annotations;
        }
        let mut i: usize = 0;
        while i < count
            invariant
                model == self.resolver.model(),
                self.well_formed(),
                self.resolver == old(self).resolver,
                self.limits == old(self).limits,
                annotations == values(entries@),
                i <= count <= entries@.len(),
                links@ == links_of(
                    model,
                    annotations.take(i as int),
                    self.limits.max_rects as nat,
                ),
                links.skipped <= i,
            decreases count - i,
        {
            assert(annotations.take(i + 1).drop_last() =~= annotations.take(i as int));
            assert(annotations.take(i + 1).last() == value(entries@[i as int]));
            let ghost before = links@;
            // `/Annots` may hold an annotation in place or refer to it.
            let annotation = match skip_unless_io(dereference(self.resolver, &entries[i])) {
                Ok(Some(object)) => match into_owned(object) {
                    Object::Dictionary(annotation) => Some(annotation),
                    _ => None,
                },
                Ok(None) => None,
                Err(error) => {
                    return Err(error);
                },
            };
            if let Some(annotation) = annotation {
                let is_link = match annotation.named("Subtype") {
                    Some(Object::Name(name)) => spells(name.as_slice(), "Link"),
                    _ => false,
                };
                if is_link {
                    match self.link(&annotation) {
                        Ok(Some(link)) => {
                            links.links.push(link);
                            assert(links@.links =~= before.links.push(link@));
                        },
                        Ok(None) => {
                            links.skipped = links.skipped + 1;
                            assert(links@.links =~= before.links);
                        },
                        Err(error) => {
                            return Err(error);
                        },
                    }
                }
            }
            i += 1;
        }
        if entries.len() > self.limits.max_annotations {
            let ghost before = links@;
            links.truncated = true;
            assert(links@.links =~= before.links);
        } else {
            assert(annotations.take(i as int) =~= annotations);
        }
        Ok(links)
    }

    fn link(&mut self, annotation: &Dictionary) -> (r: Result<Option<PageLink>>)
        requires
            old(self).well_formed(),
        ensures
            final(self).well_formed(),
            final(self).resolver == old(self).resolver,
            final(self).limits == old(self).limits,
            match r {
                Ok(Some(link)) => link_of(
                    old(self).resolver.model(),
                    annotation@,
                    old(self).limits.max_rects as nat,
                ) == Some(link@),
                Ok(None) => link_of(
                    old(self).resolver.model(),
                    annotation@,
                    old(self).limits.max_rects as nat,
                ) is None,
                Err(error) => source_failure(error, old(self).resolver.can_fail()),
            },
    {
        let flags: i64 = match annotation.named("F") {
            Some(Object::Integer(flags)) => *flags,
            _ => 0,
        };
        if flags & HIDING_FLAGS != 0 {
            return Ok(None);
        }
        let rects = match rects(self.resolver, annotation, self.limits.max_rects) {
            Ok(rects) => rects,
            Err(error) => {
                return Err(error);
            },
        };
        if rects.len() == 0 {
            return Ok(None);
        }
        match self.target(annotation) {
            Ok(Some(target)) => Ok(Some(PageLink { rects, target })),
            Ok(None) => Ok(None),
            Err(error) => Err(error),
        }
    }

    /// A place in this document, from `/Dest` or a `/GoTo` action, or else a web address from a
    /// `/URI` action.
    fn target(&mut self, annotation: &Dictionary) -> (r: Result<Option<LinkTarget>>)
        requires
            old(self).well_formed(),
        ensures
            final(self).well_formed(),
            final(self).resolver == old(self).resolver,
            final(self).limits == old(self).limits,
            match r {
                Ok(Some(target)) => link_target(old(self).resolver.model(), annotation@) == Some(
                    target@,
                ),
                Ok(None) => link_target(old(self).resolver.model(), annotation@) is None,
                Err(error) => source_failure(error, old(self).resolver.can_fail()),
            },
    {
        if let Some(destinations) = &mut self.destinations {
            match destinations.item_target(annotation) {
                Ok(Some(target)) => {
                    return Ok(Some(LinkTarget::Page(target)));
                },
                Ok(None) => {},
                Err(error) => {
                    return Err(error);
                },
            }
        }
        match uri(self.resolver, annotation) {
            Ok(Some(address)) => Ok(Some(LinkTarget::Uri(address))),
            Ok(None) => Ok(None),
            Err(error) => Err(error),
        }
    }
}

/// The numbers of `items`, if every item is one.
fn numbers_of(items: &Vec<Object>) -> (r: Option<Vec<Real>>)
    ensures
        match r {
            Some(numbers) => all_numbers(values(items@)) == Some(numbers@),
            None => all_numbers(values(items@)) is None,
        },
{
    let ghost all = values(items@);
    let mut numbers: Vec<Real> = Vec::new();
    while numbers.len() < items.len()
        invariant
            all == values(items@),
            numbers@.len() <= items@.len(),
            all_numbers(all.take(numbers@.len() as int)) == Some(numbers@),
        decreases items@.len() - numbers@.len(),
    {
        let i = numbers.len();
        assert(all.take(i + 1).drop_last() =~= all.take(i as int));
        assert(all.take(i + 1).last() == value(items@[i as int]));
        match items[i].as_float() {
            Ok(number) => {
                numbers.push(number);
            },
            Err(_) => {
                proof {
                    lemma_not_all_numbers(all, i as int);
                }
                return None;
            },
        }
    }
    assert(all.take(numbers@.len() as int) =~= all);
    Some(numbers)
}

proof fn lemma_not_all_numbers(items: Seq<Value>, at: int)
    requires
        0 <= at < items.len(),
        number_of(items[at]) is None,
    ensures
        all_numbers(items) is None,
    decreases items.len(),
{
    if at < items.len() - 1 {
        lemma_not_all_numbers(items.drop_last(), at);
    }
}

fn least_number(a: Real, b: Real, c: Real, d: Real) -> (r: Real)
    ensures
        r == least_of(a, b, c, d),
{
    let infinity = Real { bits: INFINITY };
    infinity.min(a).min(b).min(c).min(d)
}

fn greatest_number(a: Real, b: Real, c: Real, d: Real) -> (r: Real)
    ensures
        r == greatest_of(a, b, c, d),
{
    let minus_infinity = Real { bits: SIGN + INFINITY };
    minus_infinity.max(a).max(b).max(c).max(d)
}

/// The areas that `quads` gives.
fn areas_of(quads: &Vec<Object>, max_rects: usize) -> (r: Vec<PageRect>)
    ensures
        r@ == quad_areas(Some(values(quads@)), max_rects as nat),
{
    let mut rects: Vec<PageRect> = Vec::new();
    let numbers = match numbers_of(quads) {
        Some(numbers) => numbers,
        None => {
            return rects;
        },
    };
    if numbers.len() % 8 != 0 {
        return rects;
    }
    let mut i: usize = 0;
    while i < numbers.len() / 8 && i < max_rects
        invariant
            i <= numbers@.len() / 8,
            i <= max_rects,
            rects@ == quad_rects(numbers@, i as nat),
        decreases numbers@.len() / 8 - i,
    {
        let at = 8 * i;
        let rect = PageRect {
            left: least_number(numbers[at], numbers[at + 2], numbers[at + 4], numbers[at + 6]),
            bottom: least_number(
                numbers[at + 1],
                numbers[at + 3],
                numbers[at + 5],
                numbers[at + 7],
            ),
            right: greatest_number(numbers[at], numbers[at + 2], numbers[at + 4], numbers[at + 6]),
            top: greatest_number(
                numbers[at + 1],
                numbers[at + 3],
                numbers[at + 5],
                numbers[at + 7],
            ),
        };
        if !rect.is_empty() {
            rects.push(rect);
        }
        i += 1;
    }
    rects
}

/// A link's areas: each quadrilateral of `/QuadPoints` as the rectangle around it, when it has any,
/// else its `/Rect`. Areas without extent are dropped.
fn rects<R: ObjectResolver>(resolver: &R, annotation: &Dictionary, max_rects: usize) -> (r: Result<
    Vec<PageRect>,
>)
    ensures
        match r {
            Ok(rects) => rects@ == link_rects(resolver.model(), annotation@, max_rects as nat),
            Err(error) => source_failure(error, resolver.can_fail()),
        },
{
    match array_named(resolver, annotation, "QuadPoints") {
        Ok(Some(quads)) => {
            let rects = areas_of(&quads, max_rects);
            if rects.len() > 0 {
                return Ok(rects);
            }
        },
        Ok(None) => {},
        Err(error) => {
            return Err(error);
        },
    }
    let mut rects: Vec<PageRect> = Vec::new();
    if let Some(rect) = annotation.named("Rect") {
        match PageRect::read(resolver, rect) {
            Ok(Some(rect)) => {
                if !rect.is_empty() {
                    rects.push(rect);
                    assert(rects@ =~= seq![rect]);
                }
            },
            Ok(None) => {},
            Err(error) => {
                return Err(error);
            },
        }
    }
    Ok(rects)
}

/// The address of a link's `/URI` action, when it has one.
fn uri<R: ObjectResolver>(resolver: &R, annotation: &Dictionary) -> (r: Result<Option<String>>)
    ensures
        match r {
            Ok(Some(address)) => link_uri(resolver.model(), annotation@) == Some(address@),
            Ok(None) => link_uri(resolver.model(), annotation@) is None,
            Err(error) => source_failure(error, resolver.can_fail()),
        },
{
    let action = match dictionary_named(resolver, annotation, "A") {
        Ok(Some(action)) => action,
        Ok(None) => {
            return Ok(None);
        },
        Err(error) => {
            return Err(error);
        },
    };
    let leads_to_uri = match action.named("S") {
        Some(Object::Name(name)) => spells(name.as_slice(), "URI"),
        _ => false,
    };
    if !leads_to_uri {
        return Ok(None);
    }
    match followed_named(resolver, &action, "URI") {
        Ok(Some(Object::String(bytes, _))) => {
            // The standard makes a URI 7-bit ASCII; anything else still reads better than nothing.
            let address = trim(lossy_utf8_string(bytes.as_slice()).as_str());
            if address.as_str().unicode_len() > 0 {
                Ok(Some(address))
            } else {
                Ok(None)
            }
        },
        Ok(_) => Ok(None),
        Err(error) => Err(error),
    }
}

} // verus!
