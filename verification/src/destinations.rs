//! Destinations: the pages and views that outline items and links lead to.

use vstd::prelude::*;

use crate::bytes::{before, comes_before, key, same, spells, to_vec};
use crate::error::Result;
use crate::ids::{IdMap, IdSet};
use crate::number::Real;
use crate::object::{
    array_in, dictionary_in, entry, name_in, name_of, named_entry, number_of, reference_of,
    string_of, value, values, Dictionary, Entries, Object, ObjectId, Value,
};
use crate::resolver::{
    array_named, dereference, dictionary_named, followed, followed_entry, into_owned, skip_unless_io,
    source_failure, Model, ObjectResolver,
};

verus! {

/// Deepest name tree walked when looking up a named destination.
pub const MAX_NAME_TREE_DEPTH: usize = 32;

/// Where an outline item or a link leads.
#[derive(Debug, Clone, Copy, PartialEq)]
pub struct OutlineTarget {
    /// Page number, from 1, in page-tree order.
    pub page: u32,
    pub view: DestinationView,
}

/// How a destination shows its page, in PDF user space (points, origin at the bottom left).
/// `None` coordinates mean "keep the current value".
#[derive(Debug, Clone, Copy, PartialEq)]
pub enum DestinationView {
    Xyz { left: Option<Real>, top: Option<Real>, zoom: Option<Real> },
    Fit,
    FitH { top: Option<Real> },
    FitV { left: Option<Real> },
    FitR { left: Real, bottom: Real, right: Real, top: Real },
    FitB,
    FitBH { top: Option<Real> },
    FitBV { left: Option<Real> },
    /// A missing or unrecognised view.
    Unknown,
}

/// How many pages there are, one listed twice counting once.
pub open spec fn page_total(pages: Seq<ObjectId>) -> nat {
    pages.to_set().len()
}

/// The number of a page, from 1: that of the last place where it is listed.
pub open spec fn page_number(pages: Seq<ObjectId>, id: ObjectId) -> Option<u32>
    decreases pages.len(),
{
    if pages.len() == 0 {
        None
    } else if pages.last() == id {
        Some(pages.len() as u32)
    } else {
        page_number(pages.drop_last(), id)
    }
}

/// The page that the first item of a destination array means: a page object reference or, as some
/// producers write it, a page index counted from 0.
pub open spec fn destination_page(pages: Seq<ObjectId>, page: Value) -> Option<u32> {
    match page {
        Value::Reference(id) => page_number(pages, id),
        Value::Integer(index) => if 0 <= index < u32::MAX && index + 1 <= page_total(pages) {
            Some((index + 1) as u32)
        } else {
            None
        },
        _ => None,
    }
}

/// The number at `index` of a destination array.
pub open spec fn number_at(array: Seq<Value>, index: int) -> Option<Real> {
    if index < array.len() {
        number_of(array[index])
    } else {
        None
    }
}

/// The view that a destination array names.
pub open spec fn destination_view(array: Seq<Value>) -> DestinationView {
    let view = if array.len() > 1 {
        name_of(array[1])
    } else {
        None
    };
    let left = number_at(array, 2);
    if view == Some(key("XYZ"@)) {
        DestinationView::Xyz { left, top: number_at(array, 3), zoom: number_at(array, 4) }
    } else if view == Some(key("Fit"@)) {
        DestinationView::Fit
    } else if view == Some(key("FitH"@)) {
        DestinationView::FitH { top: number_at(array, 2) }
    } else if view == Some(key("FitV"@)) {
        DestinationView::FitV { left }
    } else if view == Some(key("FitR"@)) {
        match (left, number_at(array, 3), number_at(array, 4), number_at(array, 5)) {
            (Some(left), Some(bottom), Some(right), Some(top)) => DestinationView::FitR {
                left,
                bottom,
                right,
                top,
            },
            _ => DestinationView::Unknown,
        }
    } else if view == Some(key("FitB"@)) {
        DestinationView::FitB
    } else if view == Some(key("FitBH"@)) {
        DestinationView::FitBH { top: number_at(array, 2) }
    } else if view == Some(key("FitBV"@)) {
        DestinationView::FitBV { left }
    } else {
        DestinationView::Unknown
    }
}

/// What a destination array `[page view args...]` means.
pub open spec fn explicit_target(pages: Seq<ObjectId>, array: Seq<Value>) -> Option<OutlineTarget> {
    if array.len() == 0 {
        None
    } else {
        match destination_page(pages, array[0]) {
            Some(page) => Some(OutlineTarget { page, view: destination_view(array) }),
            None => None,
        }
    }
}

/// Whether the `/Limits` of a name-tree node exclude `name`.
pub open spec fn excluded(node: Entries, name: Seq<u8>) -> bool {
    match array_in(named_entry(node, "Limits"@)) {
        Some(limits) => if limits.len() >= 2 {
            match (string_of(limits[0]), string_of(limits[1])) {
                (Some(low), Some(high)) => before(name, low) || before(high, name),
                _ => false,
            }
        } else {
            false
        },
        None => false,
    }
}

/// The value under `name` in the `/Names` of a name-tree node.
pub open spec fn name_value(names: Seq<Value>, name: Seq<u8>) -> Option<Value>
    decreases names.len(),
{
    if names.len() < 2 {
        None
    } else if string_of(names[0]) == Some(name) {
        Some(names[1])
    } else {
        name_value(names.skip(2), name)
    }
}

/// The value under `name` in a name-tree node or below it, and the nodes seen by then. A node
/// reached twice is read once.
pub open spec fn name_tree_value(
    model: Model,
    node: Value,
    depth: nat,
    seen: Set<ObjectId>,
    name: Seq<u8>,
) -> (Option<Value>, Set<ObjectId>)
    decreases MAX_NAME_TREE_DEPTH + 1 - depth, 0nat,
{
    if depth > MAX_NAME_TREE_DEPTH {
        (None, seen)
    } else if reference_of(node) matches Some(id) && seen.contains(id) {
        (None, seen)
    } else {
        let seen = match reference_of(node) {
            Some(id) => seen.insert(id),
            None => seen,
        };
        match dictionary_in(followed(model, node)) {
            Some(node) => if excluded(node, name) {
                (None, seen)
            } else {
                let found = match array_in(followed_entry(model, node, "Names"@)) {
                    Some(names) => name_value(names, name),
                    None => None,
                };
                match (found, array_in(followed_entry(model, node, "Kids"@))) {
                    (Some(value), _) => (Some(value), seen),
                    (None, Some(kids)) => name_tree_value_in(model, kids, depth + 1, seen, name),
                    (None, None) => (None, seen),
                }
            },
            None => (None, seen),
        }
    }
}

/// The value under `name` in the first of `kids` that has one, and the nodes seen by then.
pub open spec fn name_tree_value_in(
    model: Model,
    kids: Seq<Value>,
    depth: nat,
    seen: Set<ObjectId>,
    name: Seq<u8>,
) -> (Option<Value>, Set<ObjectId>)
    decreases MAX_NAME_TREE_DEPTH + 1 - depth, 1 + kids.len(),
{
    if kids.len() == 0 || depth > MAX_NAME_TREE_DEPTH {
        (None, seen)
    } else {
        let (found, seen) = name_tree_value(model, kids[0], depth, seen, name);
        match found {
            Some(value) => (Some(value), seen),
            None => name_tree_value_in(model, kids.drop_first(), depth, seen, name),
        }
    }
}

/// What stands behind a destination's name, in the catalog's `/Dests` dictionary (PDF 1.1) or its
/// `/Names` `/Dests` name tree. Some producers mix the two, so both are tried.
pub open spec fn named_value(model: Model, catalog: Entries, name: Seq<u8>) -> Option<Value> {
    let listed = match dictionary_in(followed_entry(model, catalog, "Dests"@)) {
        Some(dests) => entry(dests, name),
        None => None,
    };
    let tree = match dictionary_in(followed_entry(model, catalog, "Names"@)) {
        Some(names) => named_entry(names, "Dests"@),
        None => None,
    };
    match (listed, tree) {
        (Some(value), _) => Some(value),
        (None, Some(root)) => name_tree_value(model, root, 0, Set::empty(), name).0,
        (None, None) => None,
    }
}

/// A named destination's array: the value, or the `/D` of a dictionary.
pub open spec fn destination_array(model: Model, value: Value) -> Option<Seq<Value>> {
    match followed(model, value) {
        Some(Value::Dictionary(entries)) => array_in(followed_entry(model, entries, "D"@)),
        Some(Value::Array(array)) => Some(array),
        _ => None,
    }
}

/// The destination array behind `name`.
pub open spec fn named_array(model: Model, catalog: Entries, name: Seq<u8>) -> Option<Seq<Value>> {
    match named_value(model, catalog, name) {
        Some(value) => destination_array(model, value),
        None => None,
    }
}

/// What a destination means: an array, or one named by a name or a string.
pub open spec fn destination_target(
    model: Model,
    catalog: Entries,
    pages: Seq<ObjectId>,
    destination: Value,
) -> Option<OutlineTarget> {
    let array = match followed(model, destination) {
        Some(Value::Array(array)) => Some(array),
        Some(Value::Name(name)) => named_array(model, catalog, name),
        Some(Value::String(name, _)) => named_array(model, catalog, name),
        _ => None,
    };
    match array {
        Some(array) => explicit_target(pages, array),
        None => None,
    }
}

/// The target of an outline item or a link, from its `/Dest` or its `/GoTo` action. Other actions
/// lead outside the document.
pub open spec fn item_target(
    model: Model,
    catalog: Entries,
    pages: Seq<ObjectId>,
    node: Entries,
) -> Option<OutlineTarget> {
    match named_entry(node, "Dest"@) {
        Some(destination) => destination_target(model, catalog, pages, destination),
        None => match dictionary_in(followed_entry(model, node, "A"@)) {
            Some(action) => if name_in(named_entry(action, "S"@)) == Some(key("GoTo"@)) {
                match named_entry(action, "D"@) {
                    Some(destination) => destination_target(model, catalog, pages, destination),
                    None => None,
                }
            } else {
                None
            },
            None => None,
        },
    }
}

proof fn lemma_page_number(pages: Seq<ObjectId>, id: ObjectId)
    requires
        pages.len() <= u32::MAX,
    ensures
        match page_number(pages, id) {
            Some(page) => 1 <= page <= pages.len() && pages[page - 1] == id,
            None => !pages.contains(id),
        },
    decreases pages.len(),
{
    if pages.len() > 0 && pages.last() != id {
        lemma_page_number(pages.drop_last(), id);
        if pages.contains(id) {
            let i = pages.index_of(id);
            assert(pages.drop_last()[i] == id);
        }
    }
}

/// Every target is on a page of the document.
pub proof fn lemma_targets_are_in_the_document(
    model: Model,
    catalog: Entries,
    pages: Seq<ObjectId>,
    node: Entries,
)
    requires
        pages.len() <= u32::MAX,
    ensures
        item_target(model, catalog, pages, node) matches Some(target) ==> 1 <= target.page
            <= pages.len(),
{
    pages.lemma_cardinality_of_set();
    assert forall|array: Seq<Value>|
        #![trigger explicit_target(pages, array)]
        explicit_target(pages, array) matches Some(target) ==> 1 <= target.page <= pages.len() by {
        if array.len() > 0 {
            if let Value::Reference(id) = array[0] {
                lemma_page_number(pages, id);
            }
        }
    }
}

fn real_at(array: &Vec<Object>, index: usize) -> (r: Option<Real>)
    ensures
        r == number_at(values(array@), index as int),
{
    if index < array.len() {
        array[index].as_float().ok()
    } else {
        None
    }
}

fn view_of(array: &Vec<Object>) -> (r: DestinationView)
    ensures
        r == destination_view(values(array@)),
{
    if array.len() < 2 {
        return DestinationView::Unknown;
    }
    let view = match &array[1] {
        Object::Name(view) => view.as_slice(),
        _ => {
            return DestinationView::Unknown;
        },
    };
    if spells(view, "XYZ") {
        DestinationView::Xyz {
            left: real_at(array, 2),
            top: real_at(array, 3),
            zoom: real_at(array, 4),
        }
    } else if spells(view, "Fit") {
        DestinationView::Fit
    } else if spells(view, "FitH") {
        DestinationView::FitH { top: real_at(array, 2) }
    } else if spells(view, "FitV") {
        DestinationView::FitV { left: real_at(array, 2) }
    } else if spells(view, "FitR") {
        match (real_at(array, 2), real_at(array, 3), real_at(array, 4), real_at(array, 5)) {
            (Some(left), Some(bottom), Some(right), Some(top)) => DestinationView::FitR {
                left,
                bottom,
                right,
                top,
            },
            _ => DestinationView::Unknown,
        }
    } else if spells(view, "FitB") {
        DestinationView::FitB
    } else if spells(view, "FitBH") {
        DestinationView::FitBH { top: real_at(array, 2) }
    } else if spells(view, "FitBV") {
        DestinationView::FitBV { left: real_at(array, 2) }
    } else {
        DestinationView::Unknown
    }
}

/// Whether the `/Limits` of `node` exclude `name`.
fn excludes(node: &Dictionary, name: &[u8]) -> (r: bool)
    ensures
        r == excluded(node@, name@),
{
    match node.named("Limits") {
        Some(Object::Array(limits)) => if limits.len() >= 2 {
            assert(values(limits@)[0] == value(limits@[0]));
            assert(values(limits@)[1] == value(limits@[1]));
            match (&limits[0], &limits[1]) {
                (Object::String(low, _), Object::String(high, _)) => comes_before(
                    name,
                    low.as_slice(),
                ) || comes_before(high.as_slice(), name),
                _ => false,
            }
        } else {
            false
        },
        _ => false,
    }
}

/// The value under `name` in `names`.
fn value_under(names: &Vec<Object>, name: &[u8]) -> (r: Option<Object>)
    ensures
        match r {
            Some(object) => name_value(values(names@), name@) == Some(object@),
            None => name_value(values(names@), name@) is None,
        },
{
    let ghost all = values(names@);
    let mut i: usize = 0;
    assert(all.skip(0) =~= all);
    while names.len() - i >= 2
        invariant
            i <= names@.len(),
            all == values(names@),
            name_value(all, name@) == name_value(all.skip(i as int), name@),
        decreases names@.len() - i,
    {
        assert(all.skip(i as int)[0] == all[i as int]);
        assert(all.skip(i as int)[1] == all[i + 1]);
        if let Object::String(found, _) = &names[i] {
            if same(found.as_slice(), name) {
                return Some(names[i + 1].clone());
            }
        }
        assert(all.skip(i as int).skip(2) =~= all.skip(i + 2));
        i += 2;
    }
    None
}

/// The value stored under `name` in the name tree whose root is `root`. Nodes whose `/Limits`
/// exclude the name are skipped, and a node reached twice is read once.
fn name_tree_lookup<R: ObjectResolver>(
    resolver: &R,
    root: &Object,
    depth: usize,
    seen: &mut IdSet,
    name: &[u8],
) -> (r: Result<Option<Object>>)
    requires
        depth <= MAX_NAME_TREE_DEPTH + 1,
    ensures
        match r {
            Ok(found) => {
                let (expected, after) = name_tree_value(
                    resolver.model(),
                    root@,
                    depth as nat,
                    old(seen)@,
                    name@,
                );
                &&& final(seen)@ == after
                &&& match found {
                    Some(object) => expected == Some(object@),
                    None => expected is None,
                }
            },
            Err(error) => source_failure(error, resolver.can_fail()),
        },
    decreases MAX_NAME_TREE_DEPTH + 1 - depth,
{
    let ghost model = resolver.model();
    if depth > MAX_NAME_TREE_DEPTH {
        return Ok(None);
    }
    if let Object::Reference(id) = root {
        if !seen.insert(*id) {
            assert(seen@ =~= old(seen)@);
            return Ok(None);
        }
    }
    let node = match skip_unless_io(dereference(resolver, root)) {
        Ok(Some(object)) => match into_owned(object) {
            Object::Dictionary(node) => node,
            _ => {
                return Ok(None);
            },
        },
        Ok(None) => {
            return Ok(None);
        },
        Err(error) => {
            return Err(error);
        },
    };
    if excludes(&node, name) {
        return Ok(None);
    }
    match array_named(resolver, &node, "Names") {
        Ok(Some(names)) => {
            if let Some(found) = value_under(&names, name) {
                return Ok(Some(found));
            }
        },
        Ok(None) => {},
        Err(error) => {
            return Err(error);
        },
    }
    let kids = match array_named(resolver, &node, "Kids") {
        Ok(Some(kids)) => kids,
        Ok(None) => {
            return Ok(None);
        },
        Err(error) => {
            return Err(error);
        },
    };
    if depth == MAX_NAME_TREE_DEPTH {
        return Ok(None);
    }
    let ghost all = values(kids@);
    let ghost expected = name_tree_value_in(model, all, (depth + 1) as nat, seen@, name@);
    let mut i: usize = 0;
    assert(all.skip(0) =~= all);
    while i < kids.len()
        invariant
            depth < MAX_NAME_TREE_DEPTH,
            model == resolver.model(),
            i <= kids@.len(),
            all == values(kids@),
            expected == name_tree_value_in(
                model,
                all.skip(i as int),
                (depth + 1) as nat,
                seen@,
                name@,
            ),
            expected == name_tree_value(model, root@, depth as nat, old(seen)@, name@),
        decreases kids@.len() - i,
    {
        assert(all.skip(i as int)[0] == all[i as int]);
        assert(all.skip(i as int).drop_first() =~= all.skip(i + 1));
        match name_tree_lookup(resolver, &kids[i], depth + 1, seen, name) {
            Ok(Some(found)) => {
                return Ok(Some(found));
            },
            Ok(None) => {},
            Err(error) => {
                return Err(error);
            },
        }
        i += 1;
    }
    Ok(None)
}

/// Resolves destinations, looking up each name once.
pub struct Destinations<'a, R: ObjectResolver> {
    resolver: &'a R,
    catalog: Dictionary,
    pages: IdMap<u32>,
    page_total: usize,
    page_ids: Ghost<Seq<ObjectId>>,
    /// Named destinations already looked up, found or not.
    named: Vec<(Vec<u8>, Option<Object>)>,
}

impl<'a, R: ObjectResolver> Destinations<'a, R> {
    pub closed spec fn resolver(&self) -> &'a R {
        self.resolver
    }

    pub closed spec fn catalog(&self) -> Entries {
        self.catalog@
    }

    pub closed spec fn page_ids(&self) -> Seq<ObjectId> {
        self.page_ids@
    }

    /// The pages are numbered, and what is remembered of a name is what stands behind it.
    pub closed spec fn well_formed(&self) -> bool {
        &&& forall|id: ObjectId|
            #![trigger page_number(self.page_ids@, id)]
            match page_number(self.page_ids@, id) {
                Some(page) => self.pages@.contains_key(id) && self.pages@[id] == page,
                None => !self.pages@.contains_key(id),
            }
        &&& self.page_total == page_total(self.page_ids@)
        &&& forall|i: int|
            0 <= i < self.named@.len() ==> match (#[trigger] self.named@[i]).1 {
                Some(object) => named_value(
                    self.resolver.model(),
                    self.catalog@,
                    self.named@[i].0@,
                ) == Some(object@),
                None => named_value(
                    self.resolver.model(),
                    self.catalog@,
                    self.named@[i].0@,
                ) is None,
            }
    }

    /// What does not change as destinations are resolved.
    pub open spec fn same_document(&self, other: &Self) -> bool {
        &&& self.resolver() == other.resolver()
        &&& self.catalog() == other.catalog()
        &&& self.page_ids() == other.page_ids()
    }

    pub fn new(resolver: &'a R, catalog: Dictionary, page_ids: &Vec<ObjectId>) -> (r: Self)
        requires
            page_ids@.len() < u32::MAX,
        ensures
            r.well_formed(),
            r.resolver() == resolver,
            r.catalog() == catalog@,
            r.page_ids() == page_ids@,
    {
        let mut pages: IdMap<u32> = IdMap::new();
        let mut total: usize = 0;
        let mut i: usize = 0;
        assert(page_ids@.take(0).to_set() =~= Set::<ObjectId>::empty());
        while i < page_ids.len()
            invariant
                page_ids@.len() < u32::MAX,
                i <= page_ids@.len(),
                total <= i,
                total == page_total(page_ids@.take(i as int)),
                forall|id: ObjectId|
                    #![trigger page_number(page_ids@.take(i as int), id)]
                    match page_number(page_ids@.take(i as int), id) {
                        Some(page) => pages@.contains_key(id) && pages@[id] == page,
                        None => !pages@.contains_key(id),
                    },
            decreases page_ids@.len() - i,
        {
            let id = page_ids[i];
            let ghost done = page_ids@.take(i as int);
            let ghost more = page_ids@.take(i + 1);
            proof {
                assert(more.drop_last() =~= done);
                lemma_page_number(done, id);
                lemma_set_of_more(done, id);
                assert(more =~= done.push(id));
                assert forall|other: ObjectId| #[trigger]
                    page_number(more, other) == if other == id {
                        Some((i + 1) as u32)
                    } else {
                        page_number(done, other)
                    } by {}
            }
            if pages.get(id).is_none() {
                total += 1;
            }
            pages.insert(id, i as u32 + 1);
            i += 1;
        }
        assert(page_ids@.take(i as int) =~= page_ids@);
        Destinations {
            resolver,
            catalog,
            pages,
            page_total: total,
            page_ids: Ghost(page_ids@),
            named: Vec::new(),
        }
    }

    /// The target of an outline item or a link, from its `/Dest` or its `/GoTo` action.
    pub fn item_target(&mut self, node: &Dictionary) -> (r: Result<Option<OutlineTarget>>)
        requires
            old(self).well_formed(),
        ensures
            final(self).well_formed(),
            final(self).same_document(old(self)),
            match r {
                Ok(target) => target == item_target(
                    old(self).resolver().model(),
                    old(self).catalog(),
                    old(self).page_ids(),
                    node@,
                ),
                Err(error) => source_failure(error, old(self).resolver().can_fail()),
            },
    {
        if let Some(destination) = node.named("Dest") {
            return self.destination(destination);
        }
        let action = match dictionary_named(self.resolver, node, "A") {
            Ok(Some(action)) => action,
            Ok(None) => {
                return Ok(None);
            },
            Err(error) => {
                return Err(error);
            },
        };
        // Other actions, such as GoToR and URI, lead outside this document.
        let goes_to = match action.named("S") {
            Some(Object::Name(name)) => spells(name.as_slice(), "GoTo"),
            _ => false,
        };
        if !goes_to {
            return Ok(None);
        }
        match action.named("D") {
            Some(destination) => self.destination(destination),
            None => Ok(None),
        }
    }

    /// Resolves an explicit destination array, or a destination named by a name or a string.
    fn destination(&mut self, destination: &Object) -> (r: Result<Option<OutlineTarget>>)
        requires
            old(self).well_formed(),
        ensures
            final(self).well_formed(),
            final(self).same_document(old(self)),
            match r {
                Ok(target) => target == destination_target(
                    old(self).resolver().model(),
                    old(self).catalog(),
                    old(self).page_ids(),
                    destination@,
                ),
                Err(error) => source_failure(error, old(self).resolver().can_fail()),
            },
    {
        let destination = match skip_unless_io(dereference(self.resolver, destination)) {
            Ok(Some(destination)) => into_owned(destination),
            Ok(None) => {
                return Ok(None);
            },
            Err(error) => {
                return Err(error);
            },
        };
        let array = match &destination {
            Object::Array(array) => {
                return Ok(self.explicit_destination(array));
            },
            Object::Name(name) => self.named(name.as_slice()),
            Object::String(name, _) => self.named(name.as_slice()),
            _ => {
                return Ok(None);
            },
        };
        match array {
            Ok(Some(array)) => Ok(self.explicit_destination(&array)),
            Ok(None) => Ok(None),
            Err(error) => Err(error),
        }
    }

    /// What is remembered of `name`.
    fn remembered(&self, name: &[u8]) -> (r: Option<&Option<Object>>)
        requires
            self.well_formed(),
        ensures
            match r {
                Some(Some(object)) => named_value(
                    self.resolver().model(),
                    self.catalog(),
                    name@,
                ) == Some(object@),
                Some(None) => named_value(self.resolver().model(), self.catalog(), name@) is None,
                None => true,
            },
    {
        let mut i: usize = 0;
        while i < self.named.len()
            invariant
                self.well_formed(),
                i <= self.named@.len(),
            decreases self.named@.len() - i,
        {
            if same(self.named[i].0.as_slice(), name) {
                assert(self.named@[i as int].0@ == name@);
                return Some(&self.named[i].1);
            }
            i += 1;
        }
        None
    }

    /// The destination array behind `name`, from the catalog's `/Dests` dictionary (PDF 1.1) or
    /// its `/Names` `/Dests` name tree. Some producers mix the two, so both are tried.
    fn named(&mut self, name: &[u8]) -> (r: Result<Option<Vec<Object>>>)
        requires
            old(self).well_formed(),
        ensures
            final(self).well_formed(),
            final(self).same_document(old(self)),
            match r {
                Ok(Some(array)) => named_array(
                    old(self).resolver().model(),
                    old(self).catalog(),
                    name@,
                ) == Some(values(array@)),
                Ok(None) => named_array(
                    old(self).resolver().model(),
                    old(self).catalog(),
                    name@,
                ) is None,
                Err(error) => source_failure(error, old(self).resolver().can_fail()),
            },
    {
        match self.remembered(name) {
            Some(Some(found)) => {
                return array_behind(self.resolver, found);
            },
            Some(None) => {
                return Ok(None);
            },
            None => {},
        }
        let found = match self.look_up(name) {
            Ok(found) => found,
            Err(error) => {
                return Err(error);
            },
        };
        let array = match &found {
            Some(found) => array_behind(self.resolver, found),
            None => Ok(None),
        };
        self.named.push((to_vec(name), found));
        array
    }

    /// What stands behind `name`.
    fn look_up(&self, name: &[u8]) -> (r: Result<Option<Object>>)
        ensures
            match r {
                Ok(Some(found)) => named_value(
                    self.resolver().model(),
                    self.catalog(),
                    name@,
                ) == Some(found@),
                Ok(None) => named_value(self.resolver().model(), self.catalog(), name@) is None,
                Err(error) => source_failure(error, self.resolver().can_fail()),
            },
    {
        match dictionary_named(self.resolver, &self.catalog, "Dests") {
            Ok(Some(dests)) => {
                if let Ok(found) = dests.get(name) {
                    return Ok(Some(found.clone()));
                }
            },
            Ok(None) => {},
            Err(error) => {
                return Err(error);
            },
        }
        match dictionary_named(self.resolver, &self.catalog, "Names") {
            Ok(Some(names)) => match names.named("Dests") {
                Some(root) => {
                    let mut seen = IdSet::new();
                    name_tree_lookup(self.resolver, root, 0, &mut seen, name)
                },
                None => Ok(None),
            },
            Ok(None) => Ok(None),
            Err(error) => Err(error),
        }
    }

    /// `[page view args...]`, where the page is a page object reference or, as some producers
    /// write it, a page index counted from 0.
    fn explicit_destination(&self, array: &Vec<Object>) -> (r: Option<OutlineTarget>)
        requires
            self.well_formed(),
        ensures
            r == explicit_target(self.page_ids(), values(array@)),
    {
        if array.len() == 0 {
            return None;
        }
        let page = match &array[0] {
            Object::Reference(id) => {
                assert(page_number(self.page_ids@, *id) is Some || page_number(
                    self.page_ids@,
                    *id,
                ) is None);
                match self.pages.get(*id) {
                    Some(page) => *page,
                    None => {
                        return None;
                    },
                }
            },
            Object::Integer(index) => {
                if *index < 0 || *index >= u32::MAX as i64 || *index as u64
                    >= self.page_total as u64 {
                    return None;
                }
                *index as u32 + 1
            },
            _ => {
                return None;
            },
        };
        Some(OutlineTarget { page, view: view_of(array) })
    }
}

/// A named destination's value: a destination array, or a dictionary whose `/D` is one.
fn array_behind<R: ObjectResolver>(resolver: &R, object: &Object) -> (r: Result<
    Option<Vec<Object>>,
>)
    ensures
        match r {
            Ok(Some(array)) => destination_array(resolver.model(), object@) == Some(
                values(array@),
            ),
            Ok(None) => destination_array(resolver.model(), object@) is None,
            Err(error) => source_failure(error, resolver.can_fail()),
        },
{
    match skip_unless_io(dereference(resolver, object)) {
        Ok(Some(object)) => match into_owned(object) {
            Object::Dictionary(dictionary) => array_named(resolver, &dictionary, "D"),
            Object::Array(array) => Ok(Some(array)),
            _ => Ok(None),
        },
        Ok(None) => Ok(None),
        Err(error) => Err(error),
    }
}

proof fn lemma_set_of_more(pages: Seq<ObjectId>, id: ObjectId)
    ensures
        page_total(pages.push(id)) == page_total(pages) + if pages.contains(id) {
            0int
        } else {
            1int
        },
{
    vstd::seq_lib::seq_to_set_is_finite(pages);
    let more = pages.push(id);
    assert forall|other: ObjectId| more.contains(other) == (pages.contains(other) || other == id) by {
        if pages.contains(other) {
            let i = pages.index_of(other);
            assert(more[i] == other);
        }
        if other == id {
            assert(more[pages.len() as int] == id);
        }
    }
    assert(more.to_set() =~= pages.to_set().insert(id));
}

} // verus!
