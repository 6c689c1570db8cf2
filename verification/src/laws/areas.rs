//! The areas of pages and of the links on them.

use vstd::prelude::*;

use crate::bytes::key;
use crate::destinations::{item_target, DestinationView};
use crate::number::{nearest, top_bit, Real, INFINITY, SIGN};
use crate::object::{named_entry, number_of, Entries, ObjectId, Value};
use crate::page_geometry::{
    ancestry, geometry, inherited, lemma_opposite_turns, lemma_turns, letter_rect, origin_rect,
    rect_of, turns, PageGeometry, PageRect, MAX_INHERITANCE_DEPTH,
};
use crate::page_links::{
    all_numbers, greatest_of, hidden, least_of, link_of, link_rects, links_of, no_links, page_links,
    quad_areas, quad_rect, quad_rects, LinkModel, LinksModel, PageLinkLimits, TargetModel,
};
use crate::resolver::{catalog_of, followed, followed_entry, found, Model};
use crate::text::{lossy_utf8, trimmed};

verus! {

/// Whether `number` is the number that `item` is, or refers to, and is a number at all.
pub open spec fn is_number(model: Model, item: Value, number: Real) -> bool {
    &&& !number.not_a_number()
    &&& followed(model, item) == Some(Value::Real(number)) || (followed(model, item) matches Some(
        Value::Integer(n),
    ) && number == nearest(n as int))
}

/// Whether `least` is the smallest of `numbers`.
pub open spec fn is_least(numbers: Seq<Real>, least: Real) -> bool {
    &&& numbers.contains(least)
    &&& forall|i: int| 0 <= i < numbers.len() ==> (#[trigger] numbers[i]).at_least(least)
}

/// Whether `greatest` is the largest of `numbers`.
pub open spec fn is_largest(numbers: Seq<Real>, greatest: Real) -> bool {
    &&& numbers.contains(greatest)
    &&& forall|i: int| 0 <= i < numbers.len() ==> greatest.at_least(#[trigger] numbers[i])
}

/// Whether `rect` is the smallest rectangle around points at `xs` and `ys`.
pub open spec fn is_around(rect: PageRect, xs: Seq<Real>, ys: Seq<Real>) -> bool {
    &&& is_least(xs, rect.left)
    &&& is_largest(xs, rect.right)
    &&& is_least(ys, rect.bottom)
    &&& is_largest(ys, rect.top)
}

/// Four numbers are the rectangle around the two points that they are, in whatever order the points are.
pub proof fn lemma_rect_around_corners(
    model: Model,
    rect: Value,
    items: Seq<Value>,
    from: (Real, Real),
    to: (Real, Real),
)
    requires
        followed(model, rect) == Some(Value::Array(items)),
        items.len() == 4,
        is_number(model, items[0], from.0),
        is_number(model, items[1], from.1),
        is_number(model, items[2], to.0),
        is_number(model, items[3], to.1),
    ensures
        rect_of(model, rect) matches Some(read) && is_around(
            read,
            seq![from.0, to.0],
            seq![from.1, to.1],
        ),
{
    let xs = seq![from.0, to.0];
    let ys = seq![from.1, to.1];
    assert(xs[0] == from.0 && xs[1] == to.0 && ys[0] == from.1 && ys[1] == to.1);
}

/// More or fewer than four items, or one that is no number among them, are no rectangle.
pub proof fn lemma_no_rect(model: Model, rect: Value, items: Seq<Value>)
    requires
        followed(model, rect) == Some(Value::Array(items)),
        items.len() != 4 || exists|i: int|
            0 <= i < 4 && !(match followed(model, #[trigger] items[i]) {
                Some(Value::Real(_)) => true,
                Some(Value::Integer(_)) => true,
                _ => false,
            }),
    ensures
        rect_of(model, rect) is None,
{
}

/// A rectangle of numbers has extent when its left edge is left of its right one, and its bottom edge
/// below its top one.
pub proof fn lemma_extent(rect: PageRect)
    requires
        rect.is_numeric(),
    ensures
        rect.empty() <==> !(rect.left.below(rect.right) && rect.bottom.below(rect.top)),
{
}

/// Two rectangles that overlap or touch have in common the largest rectangle that is within both, and two
/// that do not, nothing.
pub proof fn lemma_intersection_is_the_largest(a: PageRect, b: PageRect, c: PageRect)
    requires
        a.is_numeric(),
        b.is_numeric(),
        c.is_numeric(),
        c.right.at_least(c.left),
        c.top.at_least(c.bottom),
        c.within(a),
        c.within(b),
    ensures
        c.within(a.intersected(b)),
        a.intersected(b).within(a),
        a.intersected(b).within(b),
{
}

/// A page without a box is 612 wide and 792 high.
pub proof fn lemma_letter()
    ensures
        letter_rect().left == nearest(0),
        letter_rect().bottom == nearest(0),
        letter_rect().right == nearest(612),
        letter_rect().top == nearest(792),
        origin_rect().empty(),
{
    reveal_with_fuel(top_bit, 11);
    vstd::arithmetic::power2::lemma2_to64();
}

/// Whether `ids` are a page and its ancestors, from the page up to the root, with `nodes` their
/// dictionaries.
pub open spec fn is_lineage(
    model: Model,
    page: ObjectId,
    ids: Seq<ObjectId>,
    nodes: Seq<Entries>,
) -> bool {
    &&& 0 < ids.len() <= MAX_INHERITANCE_DEPTH
    &&& nodes.len() == ids.len()
    &&& ids[0] == page
    &&& ids.no_duplicates()
    &&& forall|i: int|
        0 <= i < ids.len() ==> found(model, #[trigger] ids[i]) == Some(Value::Dictionary(nodes[i]))
    &&& forall|i: int|
        0 <= i < ids.len() - 1 ==> named_entry(#[trigger] nodes[i], "Parent"@) == Some(
            Value::Reference(ids[i + 1]),
        )
    &&& named_entry(nodes.last(), "Parent"@) is None
}

proof fn lemma_ancestry(
    model: Model,
    ids: Seq<ObjectId>,
    nodes: Seq<Entries>,
    at: int,
    seen: Set<ObjectId>,
)
    requires
        is_lineage(model, ids[0], ids, nodes),
        0 <= at < ids.len(),
        forall|i: int| at <= i < ids.len() ==> !seen.contains(#[trigger] ids[i]),
    ensures
        ancestry(model, ids[at], seen, (MAX_INHERITANCE_DEPTH - at) as nat) == nodes.skip(at),
    decreases ids.len() - at,
{
    assert(found(model, ids[at]) == Some(Value::Dictionary(nodes[at])));
    if at + 1 < ids.len() {
        let more = seen.insert(ids[at]);
        assert(named_entry(nodes[at], "Parent"@) == Some(Value::Reference(ids[at + 1])));
        assert forall|i: int| at + 1 <= i < ids.len() implies !more.contains(#[trigger] ids[i]) by {
            assert(ids[i] != ids[at]);
        }
        lemma_ancestry(model, ids, nodes, at + 1, more);
        assert(seq![nodes[at]] + nodes.skip(at + 1) =~= nodes.skip(at));
    } else {
        assert(nodes[at] == nodes.last());
        assert(seq![nodes[at]] + Seq::<Entries>::empty() =~= nodes.skip(at));
    }
}

/// Whether `value` is what the page, or else the nearest of its ancestors that says anything, says under
/// `name`.
pub open spec fn is_nearest_attribute(
    nodes: Seq<Entries>,
    name: Seq<char>,
    value: Option<Value>,
) -> bool {
    match value {
        Some(value) => exists|k: int|
            0 <= k < nodes.len() && #[trigger] named_entry(nodes[k], name) == Some(value) && (
            forall|j: int| 0 <= j < k ==> #[trigger] named_entry(nodes[j], name) is None),
        None => forall|k: int| 0 <= k < nodes.len() ==> #[trigger] named_entry(nodes[k], name) is None,
    }
}

proof fn lemma_inherited(nodes: Seq<Entries>, name: Seq<char>, value: Option<Value>)
    requires
        is_nearest_attribute(nodes, name, value),
    ensures
        inherited(nodes, name) == value,
    decreases nodes.len(),
{
    if nodes.len() > 0 {
        let rest = nodes.drop_first();
        match value {
            Some(value) => {
                let k = choose|k: int|
                    0 <= k < nodes.len() && #[trigger] named_entry(nodes[k], name) == Some(value) && (
                    forall|j: int| 0 <= j < k ==> #[trigger] named_entry(nodes[j], name) is None);
                if k > 0 {
                    assert(named_entry(nodes[0], name) is None);
                    assert(named_entry(rest[k - 1], name) == Some(value));
                    assert forall|j: int| 0 <= j < k - 1 implies #[trigger] named_entry(
                        rest[j],
                        name,
                    ) is None by {
                        assert(named_entry(nodes[j + 1], name) is None);
                    }
                    lemma_inherited(rest, name, Some(value));
                }
            },
            None => {
                assert(named_entry(nodes[0], name) is None);
                assert forall|j: int| 0 <= j < rest.len() implies #[trigger] named_entry(
                    rest[j],
                    name,
                ) is None by {
                    assert(named_entry(nodes[j + 1], name) is None);
                }
                lemma_inherited(rest, name, None);
            },
        }
    }
}

/// The box that a page's attribute gives, if it has extent.
pub open spec fn given_box(model: Model, attribute: Option<Value>) -> Option<PageRect> {
    match attribute {
        Some(rect) => match rect_of(model, rect) {
            Some(rect) if !rect.empty() => Some(rect),
            _ => None,
        },
        None => None,
    }
}

/// A page shows what its nearest `/CropBox` and its nearest `/MediaBox` have in common; its whole media
/// box without the one, and a page of 612 by 792 in place of the other. It is turned by the quarters in
/// its nearest `/Rotate`.
pub proof fn lemma_page_geometry(
    model: Model,
    page: ObjectId,
    ids: Seq<ObjectId>,
    nodes: Seq<Entries>,
    media: Option<Value>,
    crop: Option<Value>,
    rotate: Option<Value>,
)
    requires
        is_lineage(model, page, ids, nodes),
        is_nearest_attribute(nodes, "MediaBox"@, media),
        is_nearest_attribute(nodes, "CropBox"@, crop),
        is_nearest_attribute(nodes, "Rotate"@, rotate),
    ensures
        geometry(model, page).visible == match (given_box(model, crop), given_box(model, media)) {
            (Some(crop), Some(media)) => crop.intersected(media),
            (Some(crop), None) => crop.intersected(letter_rect()),
            (None, Some(media)) => media,
            (None, None) => letter_rect(),
        },
        match rotate {
            Some(rotate) => match followed(model, rotate) {
                Some(Value::Integer(degrees)) => geometry(model, page).quarter_turns == turns(
                    degrees as int,
                ),
                Some(Value::Real(degrees)) => geometry(model, page).quarter_turns == turns(
                    degrees.truncated(),
                ),
                _ => geometry(model, page).quarter_turns == 0,
            },
            None => geometry(model, page).quarter_turns == 0,
        },
{
    lemma_ancestry(model, ids, nodes, 0, Set::empty());
    assert(nodes.skip(0) =~= nodes);
    lemma_inherited(nodes, "MediaBox"@, media);
    lemma_inherited(nodes, "CropBox"@, crop);
    lemma_inherited(nodes, "Rotate"@, rotate);
}

/// An angle counts the quarters that are whole in it, around the circle, and one below 0 as many back.
pub proof fn lemma_quarters(degrees: int)
    requires
        degrees >= 0,
    ensures
        turns(degrees) == degrees % 360 / 90,
        (turns(-degrees) + degrees % 360 / 90) % 4 == 0,
        0 <= turns(-degrees) < 4,
{
    assert(degrees == 360 * (degrees / 360) + degrees % 360);
    assert(degrees / 90 == 4 * (degrees / 360) + degrees % 360 / 90);
    lemma_opposite_turns(degrees);
    lemma_turns(degrees);
    lemma_turns(-degrees);
}

/// Only the coordinate along which a page runs down says where the top of the window is: the top one on a
/// page that is upright or upside down, the left one on a page that lies on its side. A view has the
/// coordinates that it is written with.
pub proof fn lemma_views_show_points(
    page: PageGeometry,
    left: Option<Real>,
    top: Option<Real>,
    bottom: Real,
    right: Real,
    zoom: Option<Real>,
    point: (Real, Real),
)
    requires
        page.quarter_turns < 4,
        left matches Some(x) ==> x == point.0,
        top matches Some(y) ==> y == point.1,
    ensures
        ({
            let at = Some((page.corner(point.0, point.1).1, page.size().1));
            let upright = page.quarter_turns % 2 == 0;
            &&& page.window_top(DestinationView::Xyz { left, top, zoom }) == if upright && top is Some
                || !upright && left is Some {
                at
            } else {
                None
            }
            &&& page.window_top(DestinationView::FitH { top }) == if upright && top is Some {
                at
            } else {
                None
            }
            &&& page.window_top(DestinationView::FitBH { top }) == if upright && top is Some {
                at
            } else {
                None
            }
            &&& page.window_top(DestinationView::FitV { left }) == if !upright && left is Some {
                at
            } else {
                None
            }
            &&& page.window_top(DestinationView::FitBV { left }) == if !upright && left is Some {
                at
            } else {
                None
            }
            &&& page.window_top(
                DestinationView::FitR { left: point.0, bottom, right, top: point.1 },
            ) == at
            &&& page.window_top(DestinationView::Fit) is None
            &&& page.window_top(DestinationView::FitB) is None
            &&& page.window_top(DestinationView::Unknown) is None
        }),
{
}

/// The x coordinates of quadrilateral `i`.
pub open spec fn quad_xs(numbers: Seq<Real>, i: int) -> Seq<Real> {
    seq![numbers[8 * i], numbers[8 * i + 2], numbers[8 * i + 4], numbers[8 * i + 6]]
}

/// The y coordinates of quadrilateral `i`.
pub open spec fn quad_ys(numbers: Seq<Real>, i: int) -> Seq<Real> {
    seq![numbers[8 * i + 1], numbers[8 * i + 3], numbers[8 * i + 5], numbers[8 * i + 7]]
}

proof fn lemma_quad_around(numbers: Seq<Real>, i: int)
    requires
        0 <= i,
        8 * i + 7 < numbers.len(),
        forall|k: int| 0 <= k < numbers.len() ==> !(#[trigger] numbers[k]).not_a_number(),
    ensures
        is_around(quad_rect(numbers, i), quad_xs(numbers, i), quad_ys(numbers, i)),
{
    lemma_least_and_greatest(numbers[8 * i], numbers[8 * i + 2], numbers[8 * i + 4], numbers[8 * i + 6]);
    lemma_least_and_greatest(
        numbers[8 * i + 1],
        numbers[8 * i + 3],
        numbers[8 * i + 5],
        numbers[8 * i + 7],
    );
}

proof fn lemma_least_and_greatest(a: Real, b: Real, c: Real, d: Real)
    requires
        !a.not_a_number(),
        !b.not_a_number(),
        !c.not_a_number(),
        !d.not_a_number(),
    ensures
        is_least(seq![a, b, c, d], least_of(a, b, c, d)),
        is_largest(seq![a, b, c, d], greatest_of(a, b, c, d)),
{
    let all = seq![a, b, c, d];
    assert(all[0] == a && all[1] == b && all[2] == c && all[3] == d);
    let infinity = Real { bits: INFINITY };
    let low = Real { bits: (SIGN + INFINITY) as u32 };
    let least = least_of(a, b, c, d);
    let greatest = greatest_of(a, b, c, d);
    assert(a == least || b == least || c == least || d == least || least == infinity);
    if least == infinity {
        assert(a.rank() >= infinity.rank());
        assert(a.bits == INFINITY);
        assert(a == infinity);
    }
    if greatest == low {
        assert(a.rank() <= low.rank());
        assert(a.bits == SIGN + INFINITY);
        assert(a == low);
    }
    assert(all.contains(least));
    assert(all.contains(greatest));
}

proof fn lemma_all_numbers(items: Seq<Value>, numbers: Seq<Real>)
    requires
        items.len() == numbers.len(),
        forall|i: int| 0 <= i < items.len() ==> number_of(#[trigger] items[i]) == Some(numbers[i]),
    ensures
        all_numbers(items) == Some(numbers),
    decreases items.len(),
{
    if items.len() == 0 {
        assert(numbers =~= Seq::empty());
    } else {
        lemma_all_numbers(items.drop_last(), numbers.drop_last());
        assert(number_of(items[items.len() - 1]) == Some(numbers[items.len() - 1]));
        assert(numbers.drop_last().push(numbers.last()) =~= numbers);
    }
}

/// Whether the items of an array are the numbers `numbers`.
pub open spec fn are_numbers(items: Seq<Value>, numbers: Seq<Real>) -> bool {
    &&& numbers.len() == items.len()
    &&& forall|i: int|
        0 <= i < items.len() ==> !(#[trigger] numbers[i]).not_a_number() && (match items[i] {
            Value::Real(r) => numbers[i] == r,
            Value::Integer(n) => numbers[i] == nearest(n as int),
            _ => false,
        })
}

/// The areas of a link are the rectangles around the four points of each of its quadrilaterals, in their
/// order, from no more of these than asked for, but for those without extent.
pub proof fn lemma_quads_around_points(
    model: Model,
    annotation: Entries,
    max_rects: nat,
    items: Seq<Value>,
    numbers: Seq<Real>,
) -> (boxes: Seq<PageRect>)
    requires
        followed_entry(model, annotation, "QuadPoints"@) == Some(Value::Array(items)),
        are_numbers(items, numbers),
        numbers.len() % 8 == 0,
    ensures
        boxes.len() == numbers.len() / 8,
        forall|i: int|
            0 <= i < boxes.len() ==> is_around(
                #[trigger] boxes[i],
                quad_xs(numbers, i),
                quad_ys(numbers, i),
            ),
        ({
            let kept = boxes.take(
                if boxes.len() <= max_rects {
                    boxes.len() as int
                } else {
                    max_rects as int
                },
            ).filter(|rect: PageRect| !rect.empty());
            kept.len() > 0 ==> link_rects(model, annotation, max_rects) == kept
        }),
{
    let boxes = Seq::new((numbers.len() / 8) as nat, |i: int| quad_rect(numbers, i));
    assert forall|i: int| 0 <= i < boxes.len() implies is_around(
        #[trigger] boxes[i],
        quad_xs(numbers, i),
        quad_ys(numbers, i),
    ) by {
        lemma_quad_around(numbers, i);
    }
    lemma_all_numbers(items, numbers);
    let count: nat = if boxes.len() <= max_rects {
        boxes.len()
    } else {
        max_rects
    };
    lemma_kept(numbers, boxes, count);
    boxes
}

proof fn lemma_kept(numbers: Seq<Real>, boxes: Seq<PageRect>, count: nat)
    requires
        count <= boxes.len(),
        forall|i: int| 0 <= i < boxes.len() ==> #[trigger] boxes[i] == quad_rect(numbers, i),
    ensures
        quad_rects(numbers, count) == boxes.take(count as int).filter(
            |rect: PageRect| !rect.empty(),
        ),
    decreases count,
{
    reveal(Seq::filter);
    if count > 0 {
        lemma_kept(numbers, boxes, (count - 1) as nat);
        let all = boxes.take(count as int);
        assert(all.drop_last() =~= boxes.take(count - 1));
        assert(all.last() == boxes[count - 1]);
    } else {
        assert(boxes.take(0).len() == 0);
    }
}

/// A link without quadrilaterals, or with something that is no number among them, or with a point of one
/// missing, has its `/Rect` for an area, if that has extent.
pub proof fn lemma_link_with_a_rect(model: Model, annotation: Entries, max_rects: nat)
    requires
        followed_entry(model, annotation, "QuadPoints"@) matches Some(Value::Array(items)) ==> {
            ||| items.len() % 8 != 0
            ||| items.len() == 0
            ||| exists|i: int|
                0 <= i < items.len() && !(#[trigger] items[i] is Real) && !(items[i] is Integer)
        },
    ensures
        match named_entry(annotation, "Rect"@) {
            Some(rect) => match rect_of(model, rect) {
                Some(rect) => if rect.empty() {
                    link_rects(model, annotation, max_rects).len() == 0
                } else {
                    link_rects(model, annotation, max_rects) == seq![rect]
                },
                None => link_rects(model, annotation, max_rects).len() == 0,
            },
            None => link_rects(model, annotation, max_rects).len() == 0,
        },
{
    if let Some(Value::Array(items)) = followed_entry(model, annotation, "QuadPoints"@) {
        lemma_numbers_of(items);
        assert(quad_rects(Seq::<Real>::empty(), 0).len() == 0);
        assert(quad_areas(Some(items), max_rects).len() == 0) by {
            if items.len() == 0 {
                assert(all_numbers(items) == Some(Seq::<Real>::empty()));
            }
        }
    }
}

proof fn lemma_numbers_of(items: Seq<Value>)
    ensures
        all_numbers(items) matches Some(numbers) ==> numbers.len() == items.len() && forall|i: int|
            0 <= i < items.len() ==> (#[trigger] items[i] is Real || items[i] is Integer),
    decreases items.len(),
{
    if items.len() > 0 {
        lemma_numbers_of(items.drop_last());
        if all_numbers(items) is Some {
            assert forall|i: int| 0 <= i < items.len() implies (#[trigger] items[i] is Real
                || items[i] is Integer) by {
                if i < items.len() - 1 {
                    assert(items.drop_last()[i] == items[i]);
                }
            }
        }
    }
}

/// The second and the sixth bit of an annotation's flags keep it off the page, and no other.
pub proof fn lemma_hiding_flags(annotation: Entries)
    ensures
        match named_entry(annotation, "F"@) {
            Some(Value::Integer(flags)) => hidden(annotation) <==> (flags & 2 == 2 || flags & 32
                == 32),
            _ => !hidden(annotation),
        },
{
    assert(0i64 & 34 == 0) by (bit_vector);
    if let Some(Value::Integer(flags)) = named_entry(annotation, "F"@) {
        assert(flags & 34 != 0 <==> (flags & 2 == 2 || flags & 32 == 32)) by (bit_vector);
    }
}

/// Whether `part` is what an annotation adds to the links of a page: the link that it is, with its areas,
/// if it is a link that is shown, has an area and leads to a page of the document or to an address.
pub open spec fn is_link_part(
    model: Model,
    annotation: Value,
    max_rects: nat,
    part: Seq<LinkModel>,
    skipped: bool,
) -> bool {
    match followed(model, annotation) {
        Some(Value::Dictionary(entries)) if named_entry(entries, "Subtype"@) == Some(
            Value::Name(key("Link"@)),
        ) => {
            if hidden(entries) || link_rects(model, entries, max_rects).len() == 0 || leads_nowhere(
                model,
                entries,
            ) {
                part.len() == 0 && skipped
            } else {
                &&& !skipped
                &&& part.len() == 1
                &&& part[0].rects == link_rects(model, entries, max_rects)
                &&& match part[0].target {
                    TargetModel::Page(target) => catalog_of(model) matches Some(catalog)
                        && item_target(model, catalog, model.pages, entries) == Some(target),
                    TargetModel::Uri(address) => {
                        &&& catalog_of(model) matches Some(catalog) ==> item_target(
                            model,
                            catalog,
                            model.pages,
                            entries,
                        ) is None
                        &&& is_address(model, entries, address)
                    },
                }
            }
        },
        _ => part.len() == 0 && !skipped,
    }
}

/// Whether `address` is that of the `/URI` action of an annotation, without the space around it.
pub open spec fn is_address(model: Model, annotation: Entries, address: Seq<char>) -> bool {
    &&& address.len() > 0
    &&& followed_entry(model, annotation, "A"@) matches Some(Value::Dictionary(action))
        && named_entry(action, "S"@) == Some(Value::Name(key("URI"@))) && (followed_entry(
        model,
        action,
        "URI"@,
    ) matches Some(Value::String(bytes, _)) && address == trimmed(lossy_utf8(bytes)))
}

/// Whether an annotation leads neither to a page of the document nor to an address.
pub open spec fn leads_nowhere(model: Model, annotation: Entries) -> bool {
    &&& catalog_of(model) matches Some(catalog) ==> item_target(
        model,
        catalog,
        model.pages,
        annotation,
    ) is None
    &&& forall|address: Seq<char>| !#[trigger] is_address(model, annotation, address)
}

/// Whether `links` are what `annotations` add, one by one.
pub open spec fn are_links(
    model: Model,
    annotations: Seq<Value>,
    max_rects: nat,
    parts: Seq<Seq<LinkModel>>,
    skips: Seq<bool>,
) -> bool {
    &&& parts.len() == annotations.len()
    &&& skips.len() == annotations.len()
    &&& forall|i: int|
        0 <= i < annotations.len() ==> is_link_part(
            model,
            annotations[i],
            max_rects,
            #[trigger] parts[i],
            skips[i],
        )
}

proof fn lemma_part(model: Model, annotation: Value, max_rects: nat) -> (part: (
    Seq<LinkModel>,
    bool,
))
    ensures
        is_link_part(model, annotation, max_rects, part.0, part.1),
        links_of(model, seq![annotation], max_rects).links == part.0,
        links_of(model, seq![annotation], max_rects).skipped == if part.1 {
            1nat
        } else {
            0nat
        },
{
    let one = links_of(model, seq![annotation], max_rects);
    let annotations = seq![annotation];
    assert(annotations.drop_last() =~= Seq::empty());
    assert(annotations.last() == annotation);
    let none = links_of(model, annotations.drop_last(), max_rects);
    assert(none.links =~= Seq::empty() && none.skipped == 0);
    match followed(model, annotation) {
        Some(Value::Dictionary(entries)) => {
            if let Some(link) = link_of(model, entries, max_rects) {
                if let TargetModel::Uri(address) = link.target {
                    assert(is_address(model, entries, address));
                }
                assert(!leads_nowhere(model, entries));
            }
        },
        _ => {},
    }
    (one.links, one.skipped == 1)
}

proof fn lemma_links_behind(model: Model, annotations: Seq<Value>, last: Value, max_rects: nat)
    ensures
        ({
            let before = links_of(model, annotations, max_rects);
            let one = links_of(model, seq![last], max_rects);
            let all = links_of(model, annotations.push(last), max_rects);
            &&& all.links == before.links + one.links
            &&& all.skipped == before.skipped + one.skipped
            &&& all.truncated == before.truncated
        }),
{
    let annotations_and_last = annotations.push(last);
    assert(annotations_and_last.drop_last() =~= annotations);
    assert(annotations_and_last.last() == last);
    assert(seq![last].drop_last() =~= Seq::empty());
    assert(seq![last].last() == last);
    assert(links_of(model, seq![last].drop_last(), max_rects) == no_links());
    let before = links_of(model, annotations, max_rects);
    let one = links_of(model, seq![last], max_rects);
    let all = links_of(model, annotations_and_last, max_rects);
    assert(all.links =~= before.links + one.links);
}

/// How many of `skips` there are.
pub open spec fn count_of(skips: Seq<bool>) -> nat {
    skips.filter(|skipped: bool| skipped).len()
}

proof fn lemma_links_of(model: Model, annotations: Seq<Value>, max_rects: nat) -> (r: (
    Seq<Seq<LinkModel>>,
    Seq<bool>,
))
    ensures
        are_links(model, annotations, max_rects, r.0, r.1),
        links_of(model, annotations, max_rects) == (LinksModel {
            links: r.0.flatten(),
            skipped: count_of(r.1),
            truncated: false,
        }),
    decreases annotations.len(),
{
    reveal(Seq::filter);
    if annotations.len() == 0 {
        let links = links_of(model, annotations, max_rects);
        assert(links.links =~= Seq::<Seq<LinkModel>>::empty().flatten());
        (Seq::empty(), Seq::empty())
    } else {
        let front = annotations.drop_last();
        let last = annotations.last();
        let (parts, skips) = lemma_links_of(model, front, max_rects);
        let (part, skipped) = lemma_part(model, last, max_rects);
        assert(front.push(last) =~= annotations);
        lemma_links_behind(model, front, last, max_rects);
        parts.lemma_flatten_push(part);
        let all = parts.push(part);
        let all_skips = skips.push(skipped);
        assert(all_skips.drop_last() =~= skips);
        assert forall|i: int| 0 <= i < annotations.len() implies is_link_part(
            model,
            annotations[i],
            max_rects,
            #[trigger] all[i],
            all_skips[i],
        ) by {
            if i < front.len() {
                assert(is_link_part(model, front[i], max_rects, parts[i], skips[i]));
            }
        }
        (all, all_skips)
    }
}

/// The links of a page are those of its annotations, in their order: one for each that is a link with an
/// area and somewhere to lead, and one skipped for each other that is a link. Past the most annotations to
/// look at, the others do not count, and the links are said to be cut short.
pub proof fn lemma_links_of_the_page(
    model: Model,
    page: u32,
    entries: Entries,
    annotations: Seq<Value>,
    limits: PageLinkLimits,
) -> (r: (Seq<Seq<LinkModel>>, Seq<bool>))
    requires
        1 <= page <= model.pages.len(),
        found(model, model.pages[page - 1]) == Some(Value::Dictionary(entries)),
        followed_entry(model, entries, "Annots"@) == Some(Value::Array(annotations)),
    ensures
        are_links(
            model,
            if annotations.len() > limits.max_annotations {
                annotations.take(limits.max_annotations as int)
            } else {
                annotations
            },
            limits.max_rects as nat,
            r.0,
            r.1,
        ),
        page_links(model, page, limits).links == r.0.flatten(),
        page_links(model, page, limits).skipped == count_of(r.1),
        page_links(model, page, limits).truncated <==> annotations.len() > limits.max_annotations,
{
    let looked_at = if annotations.len() > limits.max_annotations {
        annotations.take(limits.max_annotations as int)
    } else {
        annotations
    };
    lemma_links_of(model, looked_at, limits.max_rects as nat)
}

} // verus!
