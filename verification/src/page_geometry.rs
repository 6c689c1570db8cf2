//! A page's visible box and orientation as a viewer displays it, and where a destination's view
//! puts the top of the window on it.

use vstd::prelude::*;

use crate::destinations::DestinationView;
use crate::error::Result;
use crate::ids::IdSet;
use crate::number::Real;
use crate::object::{
    array_in, dictionary_in, named_entry, number_of, reference_in, value, values, Dictionary,
    Entries, Object, ObjectId, Value,
};
use crate::resolver::{
    dereference, dictionary_at, followed, found, into_owned, object_of, skip_unless_io,
    source_failure, Model, ObjectResolver,
};

verus! {

/// Deepest page-tree ancestry searched for an inherited page attribute.
pub const MAX_INHERITANCE_DEPTH: usize = 64;

/// The bits of 612.
pub const LETTER_WIDTH: u32 = 0x4419_0000;

/// The bits of 792.
pub const LETTER_HEIGHT: u32 = 0x4446_0000;

/// A rectangle in PDF user space, with `left <= right` and `bottom <= top`.
#[derive(Debug, Clone, Copy, PartialEq)]
pub struct PageRect {
    pub left: Real,
    pub bottom: Real,
    pub right: Real,
    pub top: Real,
}

/// An empty rectangle at the origin.
pub open spec fn origin_rect() -> PageRect {
    let zero = Real { bits: 0 };
    PageRect { left: zero, bottom: zero, right: zero, top: zero }
}

/// US Letter, the page box pdfium and pdf.js use for a page without a usable `/MediaBox`.
pub open spec fn letter_rect() -> PageRect {
    let zero = Real { bits: 0 };
    PageRect {
        left: zero,
        bottom: zero,
        right: Real { bits: LETTER_WIDTH },
        top: Real { bits: LETTER_HEIGHT },
    }
}

/// The rectangle with opposite corners at two points.
pub open spec fn rect_between(x1: Real, y1: Real, x2: Real, y2: Real) -> PageRect {
    PageRect {
        left: x1.least(x2),
        bottom: y1.least(y2),
        right: x1.greatest(x2),
        top: y1.greatest(y2),
    }
}

/// What `[x1 y1 x2 y2]` means, with its corners in either order.
pub open spec fn rect_of(model: Model, rect: Value) -> Option<PageRect> {
    match array_in(followed(model, rect)) {
        Some(array) => if array.len() == 4 {
            match (
                coordinate(model, array[0]),
                coordinate(model, array[1]),
                coordinate(model, array[2]),
                coordinate(model, array[3]),
            ) {
                (Some(x1), Some(y1), Some(x2), Some(y2)) => Some(rect_between(x1, y1, x2, y2)),
                _ => None,
            }
        } else {
            None
        },
        None => None,
    }
}

/// The number that a coordinate is or refers to.
pub open spec fn coordinate(model: Model, coordinate: Value) -> Option<Real> {
    match followed(model, coordinate) {
        Some(value) => number_of(value),
        None => None,
    }
}

impl PageRect {
    /// Whether the rectangle has no extent.
    pub open spec fn empty(self) -> bool {
        self.left.at_least(self.right) || self.bottom.at_least(self.top)
    }

    /// The part that the two rectangles have in common, if they touch.
    pub open spec fn overlap(self, other: PageRect) -> PageRect {
        PageRect {
            left: self.left.greatest(other.left),
            bottom: self.bottom.greatest(other.bottom),
            right: self.right.least(other.right),
            top: self.top.least(other.top),
        }
    }

    /// The overlap, or an empty rectangle at the origin when there is none.
    pub open spec fn intersected(self, other: PageRect) -> PageRect {
        let overlap = self.overlap(other);
        if overlap.right.below(overlap.left) || overlap.top.below(overlap.bottom) {
            origin_rect()
        } else {
            overlap
        }
    }

    /// Whether every coordinate is a number.
    pub open spec fn is_numeric(self) -> bool {
        &&& !self.left.not_a_number()
        &&& !self.bottom.not_a_number()
        &&& !self.right.not_a_number()
        &&& !self.top.not_a_number()
    }

    /// Whether the rectangle lies within `other`.
    pub open spec fn within(self, other: PageRect) -> bool {
        &&& self.left.at_least(other.left)
        &&& self.bottom.at_least(other.bottom)
        &&& other.right.at_least(self.right)
        &&& other.top.at_least(self.top)
    }

    /// US Letter, the page box pdfium and pdf.js use for a page without a usable `/MediaBox`.
    pub fn letter() -> (r: Self)
        ensures
            r == letter_rect(),
    {
        let zero = Real { bits: 0 };
        PageRect {
            left: zero,
            bottom: zero,
            right: Real { bits: LETTER_WIDTH },
            top: Real { bits: LETTER_HEIGHT },
        }
    }

    /// Reads `[x1 y1 x2 y2]`, with its corners in either order.
    pub fn read<R: ObjectResolver>(resolver: &R, object: &Object) -> (r: Result<Option<Self>>)
        ensures
            match r {
                Ok(rect) => rect == rect_of(resolver.model(), object@),
                Err(error) => source_failure(error, resolver.can_fail()),
            },
    {
        let array = match skip_unless_io(dereference(resolver, object)) {
            Ok(Some(object)) => match into_owned(object) {
                Object::Array(array) => array,
                _ => {
                    return Ok(None);
                },
            },
            Ok(None) => {
                return Ok(None);
            },
            Err(error) => {
                return Err(error);
            },
        };
        if array.len() != 4 {
            return Ok(None);
        }
        let mut numbers: Vec<Real> = Vec::new();
        while numbers.len() < 4
            invariant
                array@.len() == 4,
                array_in(followed(resolver.model(), object@)) == Some(values(array@)),
                numbers@.len() <= 4,
                forall|i: int|
                    0 <= i < numbers@.len() ==> coordinate(
                        resolver.model(),
                        #[trigger] values(array@)[i],
                    ) == Some(numbers@[i]),
            decreases 4 - numbers@.len(),
        {
            let i = numbers.len();
            assert(values(array@)[i as int] == value(array@[i as int]));
            match skip_unless_io(dereference(resolver, &array[i])) {
                Ok(Some(object)) => match object_of(&object).as_float() {
                    Ok(number) => {
                        numbers.push(number);
                    },
                    Err(_) => {
                        return Ok(None);
                    },
                },
                Ok(None) => {
                    return Ok(None);
                },
                Err(error) => {
                    return Err(error);
                },
            }
        }
        Ok(
            Some(
                PageRect {
                    left: numbers[0].min(numbers[2]),
                    bottom: numbers[1].min(numbers[3]),
                    right: numbers[0].max(numbers[2]),
                    top: numbers[1].max(numbers[3]),
                },
            ),
        )
    }

    pub fn is_empty(&self) -> (r: bool)
        ensures
            r == self.empty(),
    {
        self.left.is_at_least(self.right) || self.bottom.is_at_least(self.top)
    }

    /// The overlap of the two rectangles, or an empty rectangle at the origin when they do not
    /// overlap, as in pdfium.
    pub fn intersection(&self, other: &Self) -> (r: Self)
        ensures
            r == self.intersected(*other),
    {
        let overlap = PageRect {
            left: self.left.max(other.left),
            bottom: self.bottom.max(other.bottom),
            right: self.right.min(other.right),
            top: self.top.min(other.top),
        };
        if overlap.right.is_below(overlap.left) || overlap.top.is_below(overlap.bottom) {
            PageRect::default()
        } else {
            overlap
        }
    }
}

impl Default for PageRect {
    fn default() -> (r: Self)
        ensures
            r == origin_rect(),
    {
        let zero = Real { bits: 0 };
        PageRect { left: zero, bottom: zero, right: zero, top: zero }
    }
}

/// A rectangle read from numbers has its corners in order.
pub proof fn lemma_rect_in_order(x1: Real, y1: Real, x2: Real, y2: Real)
    requires
        !x1.not_a_number(),
        !y1.not_a_number(),
        !x2.not_a_number(),
        !y2.not_a_number(),
    ensures
        rect_between(x1, y1, x2, y2).right.at_least(rect_between(x1, y1, x2, y2).left),
        rect_between(x1, y1, x2, y2).top.at_least(rect_between(x1, y1, x2, y2).bottom),
{
}

/// The intersection of two rectangles lies within both, unless it is the empty one at the origin.
pub proof fn lemma_intersection_within_both(a: PageRect, b: PageRect)
    requires
        a.is_numeric(),
        b.is_numeric(),
    ensures
        a.intersected(b) == origin_rect() || (a.intersected(b).within(a) && a.intersected(b).within(
            b,
        )),
{
}

/// A page as viewers display it. pdfium, which the Android PDF renderer uses, shows the
/// `/CropBox` clipped to the `/MediaBox`, turned clockwise by `/Rotate`.
#[derive(Debug, Clone, Copy, PartialEq)]
pub struct PageGeometry {
    /// The part of the page that is displayed, in user space.
    pub visible: PageRect,
    /// Clockwise quarter turns, 0 to 3.
    pub quarter_turns: u8,
}

/// The dictionaries of a page and of its ancestors in the page tree, as far as they can be read,
/// without those in `seen`, and no more than `left` of them.
pub open spec fn ancestry(model: Model, id: ObjectId, seen: Set<ObjectId>, left: nat) -> Seq<Entries>
    decreases left,
{
    if left == 0 || seen.contains(id) {
        Seq::empty()
    } else {
        match dictionary_in(found(model, id)) {
            Some(node) => seq![node] + match reference_in(named_entry(node, "Parent"@)) {
                Some(parent) => ancestry(model, parent, seen.insert(id), (left - 1) as nat),
                None => Seq::empty(),
            },
            None => Seq::empty(),
        }
    }
}

/// The attribute `name` of the first of `nodes` that has it.
pub open spec fn inherited(nodes: Seq<Entries>, name: Seq<char>) -> Option<Value>
    decreases nodes.len(),
{
    if nodes.len() == 0 {
        None
    } else {
        match named_entry(nodes[0], name) {
            Some(value) => Some(value),
            None => inherited(nodes.drop_first(), name),
        }
    }
}

/// An inherited box, if it can be read.
pub open spec fn inherited_rect(model: Model, nodes: Seq<Entries>, name: Seq<char>) -> Option<
    PageRect,
> {
    match inherited(nodes, name) {
        Some(rect) => rect_of(model, rect),
        None => None,
    }
}

/// The whole quarter turns in an angle of `degrees`, from 0 to 3. A negative angle turns
/// counterclockwise.
pub open spec fn turns(degrees: int) -> int {
    if degrees >= 0 {
        degrees / 90 % 4
    } else {
        (-(-degrees / 90)) % 4
    }
}

/// The angle that `/Rotate` gives.
pub open spec fn rotation(model: Model, nodes: Seq<Entries>) -> int {
    match inherited(nodes, "Rotate"@) {
        Some(rotate) => match followed(model, rotate) {
            Some(Value::Integer(degrees)) => degrees as int,
            Some(Value::Real(degrees)) => degrees.truncated(),
            _ => 0,
        },
        None => 0,
    }
}

/// A page as viewers display it, by its boxes and its rotation.
pub open spec fn geometry(model: Model, page: ObjectId) -> PageGeometry {
    let nodes = ancestry(model, page, Set::empty(), MAX_INHERITANCE_DEPTH as nat);
    let media_box = match inherited_rect(model, nodes, "MediaBox"@) {
        Some(media_box) if !media_box.empty() => media_box,
        _ => letter_rect(),
    };
    let visible = match inherited_rect(model, nodes, "CropBox"@) {
        Some(crop_box) if !crop_box.empty() => crop_box.intersected(media_box),
        _ => media_box,
    };
    PageGeometry { visible, quarter_turns: turns(rotation(model, nodes)) as u8 }
}

/// A page turns between 0 and 3 quarters, and a whole turn more leaves it as it is.
pub proof fn lemma_turns(degrees: int)
    ensures
        0 <= turns(degrees) < 4,
        degrees >= 0 ==> turns(degrees + 360) == turns(degrees),
        degrees <= 0 ==> turns(degrees - 360) == turns(degrees),
{
}

/// Turning back by an angle undoes turning by it.
pub proof fn lemma_opposite_turns(degrees: int)
    ensures
        (turns(degrees) + turns(-degrees)) % 4 == 0,
{
    if degrees >= 0 {
        lemma_quarters_back(degrees / 90);
    } else {
        lemma_quarters_back(-degrees / 90);
    }
}

/// As many quarters back make whole turns of quarters.
proof fn lemma_quarters_back(quarters: int)
    requires
        quarters >= 0,
    ensures
        (quarters % 4 + (-quarters) % 4) % 4 == 0,
{
    let turns = quarters / 4;
    let rest = quarters % 4;
    assert(quarters == 4 * turns + rest);
    if rest == 0 {
        assert(-quarters == 4 * (-turns));
    } else {
        assert(-quarters == 4 * (-turns - 1) + (4 - rest));
    }
}

/// A distance in user space: from one coordinate to another.
#[derive(Debug, Clone, Copy, PartialEq)]
pub struct Extent {
    pub from: Real,
    pub to: Real,
}

impl PageGeometry {
    /// How far right of the displayed page's left edge, and how far down from its top edge, the
    /// point `(x, y)` of user space is.
    ///
    /// Turning the page a quarter clockwise brings its left edge to the top and its bottom edge to
    /// the left, so a point's distance down the displayed page is its distance from the left edge
    /// in user space, and so on round the page.
    pub open spec fn corner(self, x: Real, y: Real) -> (Extent, Extent) {
        let visible = self.visible;
        match self.quarter_turns {
            0 => (Extent { from: visible.left, to: x }, Extent { from: y, to: visible.top }),
            1 => (Extent { from: visible.bottom, to: y }, Extent { from: visible.left, to: x }),
            2 => (Extent { from: x, to: visible.right }, Extent { from: visible.bottom, to: y }),
            _ => (Extent { from: y, to: visible.top }, Extent { from: x, to: visible.right }),
        }
    }

    /// The visible box from left to right.
    pub open spec fn across(self) -> Extent {
        Extent { from: self.visible.left, to: self.visible.right }
    }

    /// The visible box from bottom to top.
    pub open spec fn up(self) -> Extent {
        Extent { from: self.visible.bottom, to: self.visible.top }
    }

    /// Width and height of the page as displayed.
    pub open spec fn size(self) -> (Extent, Extent) {
        if self.quarter_turns % 2 == 0 {
            (self.across(), self.up())
        } else {
            (self.up(), self.across())
        }
    }

    /// How far down the displayed page `view` puts the top of the window, and the length that this
    /// is measured against.
    pub open spec fn window_top(self, view: DestinationView) -> Option<(Extent, Extent)> {
        let (left, top) = view_coordinates(view);
        let visible = self.visible;
        match (self.quarter_turns, left, top) {
            (0, _, Some(top)) => Some((Extent { from: top, to: visible.top }, self.up())),
            (1, Some(left), _) => Some((Extent { from: visible.left, to: left }, self.across())),
            (2, _, Some(top)) => Some((Extent { from: visible.bottom, to: top }, self.up())),
            (0, _, None) => None,
            (1, None, _) => None,
            (2, _, None) => None,
            (_, Some(left), _) => Some((Extent { from: left, to: visible.right }, self.across())),
            (_, None, _) => None,
        }
    }

    /// Reads `page`'s boxes and rotation, inherited through the page tree, as pdfium does:
    /// - a missing or empty `/MediaBox` is [`PageRect::letter`];
    /// - a missing or empty `/CropBox` shows the whole media box;
    /// - `/Rotate` counts whole quarter turns, and a negative angle turns counterclockwise.
    ///
    /// Only a failure to read the source is an error.
    pub fn read<R: ObjectResolver>(resolver: &R, page: ObjectId) -> (r: Result<Self>)
        ensures
            match r {
                Ok(read) => read == geometry(resolver.model(), page),
                Err(error) => source_failure(error, resolver.can_fail()),
            },
    {
        let attributes = match Attributes::read(resolver, page) {
            Ok(attributes) => attributes,
            Err(error) => {
                return Err(error);
            },
        };
        let media_box = match read_rect(resolver, &attributes.media_box) {
            Ok(Some(media_box)) => if media_box.is_empty() {
                PageRect::letter()
            } else {
                media_box
            },
            Ok(None) => PageRect::letter(),
            Err(error) => {
                return Err(error);
            },
        };
        let visible = match read_rect(resolver, &attributes.crop_box) {
            Ok(Some(crop_box)) => if crop_box.is_empty() {
                media_box
            } else {
                crop_box.intersection(&media_box)
            },
            Ok(None) => media_box,
            Err(error) => {
                return Err(error);
            },
        };
        let degrees = match &attributes.rotate {
            Some(rotate) => match skip_unless_io(dereference(resolver, rotate)) {
                Ok(Some(rotate)) => match object_of(&rotate) {
                    Object::Integer(degrees) => *degrees,
                    Object::Real(degrees) => degrees.truncate(),
                    _ => 0,
                },
                Ok(None) => 0,
                Err(error) => {
                    return Err(error);
                },
            },
            None => 0,
        };
        Ok(PageGeometry { visible, quarter_turns: quarter_turns(degrees) })
    }

    /// Width and height of the page as displayed.
    pub fn displayed_extents(&self) -> (r: (Extent, Extent))
        ensures
            r == self.size(),
    {
        let across = Extent { from: self.visible.left, to: self.visible.right };
        let up = Extent { from: self.visible.bottom, to: self.visible.top };
        if self.quarter_turns % 2 == 0 {
            (across, up)
        } else {
            (up, across)
        }
    }

    /// Where the point `(x, y)` of user space sits on the page as displayed: how far right of its
    /// left edge, and how far down from its top edge.
    pub fn displayed_corner(&self, x: Real, y: Real) -> (r: (Extent, Extent))
        ensures
            r == self.corner(x, y),
    {
        let visible = &self.visible;
        match self.quarter_turns {
            0 => (Extent { from: visible.left, to: x }, Extent { from: y, to: visible.top }),
            1 => (Extent { from: visible.bottom, to: y }, Extent { from: visible.left, to: x }),
            2 => (Extent { from: x, to: visible.right }, Extent { from: visible.bottom, to: y }),
            _ => (Extent { from: y, to: visible.top }, Extent { from: x, to: visible.right }),
        }
    }

    /// How far down the displayed page `view` puts the top of the window, and the displayed page's
    /// height. `None` when the view gives no such coordinate.
    ///
    /// Turning the page clockwise brings its left, bottom, and then right edge to the top, so a
    /// turned page is measured along the view's left coordinate instead of its top.
    pub fn top_extents(&self, view: DestinationView) -> (r: Option<(Extent, Extent)>)
        ensures
            r == self.window_top(view),
    {
        let (left, top) = coordinates_of(view);
        let visible = &self.visible;
        let across = Extent { from: visible.left, to: visible.right };
        let up = Extent { from: visible.bottom, to: visible.top };
        match self.quarter_turns {
            0 => match top {
                Some(top) => Some((Extent { from: top, to: visible.top }, up)),
                None => None,
            },
            1 => match left {
                Some(left) => Some((Extent { from: visible.left, to: left }, across)),
                None => None,
            },
            2 => match top {
                Some(top) => Some((Extent { from: visible.bottom, to: top }, up)),
                None => None,
            },
            _ => match left {
                Some(left) => Some((Extent { from: left, to: visible.right }, across)),
                None => None,
            },
        }
    }
}

/// The left and top coordinates that a view gives.
pub open spec fn view_coordinates(view: DestinationView) -> (Option<Real>, Option<Real>) {
    match view {
        DestinationView::Xyz { left, top, .. } => (left, top),
        DestinationView::FitH { top } => (None, top),
        DestinationView::FitBH { top } => (None, top),
        DestinationView::FitV { left } => (left, None),
        DestinationView::FitBV { left } => (left, None),
        DestinationView::FitR { left, top, .. } => (Some(left), Some(top)),
        DestinationView::Fit | DestinationView::FitB | DestinationView::Unknown => (None, None),
    }
}

fn coordinates_of(view: DestinationView) -> (r: (Option<Real>, Option<Real>))
    ensures
        r == view_coordinates(view),
{
    match view {
        DestinationView::Xyz { left, top, .. } => (left, top),
        DestinationView::FitH { top } => (None, top),
        DestinationView::FitBH { top } => (None, top),
        DestinationView::FitV { left } => (left, None),
        DestinationView::FitBV { left } => (left, None),
        DestinationView::FitR { left, top, .. } => (Some(left), Some(top)),
        DestinationView::Fit | DestinationView::FitB | DestinationView::Unknown => (None, None),
    }
}

/// The visible box fills the displayed page: one of its corners sits at the displayed page's top
/// left, and the opposite one at its bottom right.
pub proof fn lemma_visible_box_fills_the_page(page: PageGeometry)
    requires
        page.quarter_turns < 4,
    ensures
        ({
            let v = page.visible;
            let (near, far) = match page.quarter_turns {
                0 => ((v.left, v.top), (v.right, v.bottom)),
                1 => ((v.left, v.bottom), (v.right, v.top)),
                2 => ((v.right, v.bottom), (v.left, v.top)),
                _ => ((v.right, v.top), (v.left, v.bottom)),
            };
            let (right, down) = page.corner(near.0, near.1);
            right.from == right.to && down.from == down.to && page.corner(far.0, far.1)
                == page.size()
        }),
{
}

/// A view is measured the same way as the point it shows: the top of the window is as far down the
/// displayed page as the point is.
pub proof fn lemma_window_top_is_where_the_point_is(page: PageGeometry, left: Real, top: Real)
    requires
        page.quarter_turns < 4,
    ensures
        page.window_top(
            DestinationView::Xyz { left: Some(left), top: Some(top), zoom: None },
        ) == Some((page.corner(left, top).1, page.size().1)),
{
}

fn read_rect<R: ObjectResolver>(resolver: &R, rect: &Option<Object>) -> (r: Result<
    Option<PageRect>,
>)
    ensures
        match (r, rect) {
            (Ok(read), Some(object)) => read == rect_of(resolver.model(), object@),
            (Ok(read), None) => read is None,
            (Err(error), _) => source_failure(error, resolver.can_fail()),
        },
{
    match rect {
        Some(object) => PageRect::read(resolver, object),
        None => Ok(None),
    }
}

/// The whole quarter turns in an angle of `degrees`, from 0 to 3.
fn quarter_turns(degrees: i64) -> (r: u8)
    ensures
        r == turns(degrees as int),
        r < 4,
{
    if degrees >= 0 {
        (degrees as u64 / 90 % 4) as u8
    } else {
        let back = (-(degrees as i128)) as u64 / 90 % 4;
        ((4 - back) % 4) as u8
    }
}

/// The attributes of a page that its ancestors in the page tree can give.
struct Attributes {
    media_box: Option<Object>,
    crop_box: Option<Object>,
    rotate: Option<Object>,
}

/// Whether `slot` holds what `expected` is.
spec fn holds(slot: Option<Object>, expected: Option<Value>) -> bool {
    match slot {
        Some(object) => expected == Some(object@),
        None => expected is None,
    }
}

/// Whether `slot`, or what `nodes` give when it is empty, is what `expected` is.
spec fn completes(
    slot: Option<Object>,
    nodes: Seq<Entries>,
    name: Seq<char>,
    expected: Option<Value>,
) -> bool {
    match slot {
        Some(object) => expected == Some(object@),
        None => expected == inherited(nodes, name),
    }
}

/// Fills `slot` from `node`, unless it is filled.
fn fill(
    slot: &mut Option<Object>,
    node: &Dictionary,
    name: &str,
    Ghost(nodes): Ghost<Seq<Entries>>,
    Ghost(expected): Ghost<Option<Value>>,
)
    requires
        nodes.len() > 0,
        nodes[0] == node@,
        completes(*old(slot), nodes, name@, expected),
    ensures
        completes(*final(slot), nodes.drop_first(), name@, expected),
{
    if slot.is_none() {
        match node.named(name) {
            Some(object) => {
                *slot = Some(object.clone());
            },
            None => {},
        }
    }
}

impl Attributes {
    fn read<R: ObjectResolver>(resolver: &R, page: ObjectId) -> (r: Result<Self>)
        ensures
            match r {
                Ok(read) => {
                    let nodes = ancestry(
                        resolver.model(),
                        page,
                        Set::empty(),
                        MAX_INHERITANCE_DEPTH as nat,
                    );
                    &&& holds(read.media_box, inherited(nodes, "MediaBox"@))
                    &&& holds(read.crop_box, inherited(nodes, "CropBox"@))
                    &&& holds(read.rotate, inherited(nodes, "Rotate"@))
                },
                Err(error) => source_failure(error, resolver.can_fail()),
            },
    {
        let ghost model = resolver.model();
        let ghost all = ancestry(model, page, Set::empty(), MAX_INHERITANCE_DEPTH as nat);
        let mut media_box: Option<Object> = None;
        let mut crop_box: Option<Object> = None;
        let mut rotate: Option<Object> = None;
        let mut visited = IdSet::new();
        let mut left: usize = MAX_INHERITANCE_DEPTH;
        let mut node = page;
        loop
            invariant_except_break
                model == resolver.model(),
                completes(
                    media_box,
                    ancestry(model, node, visited@, left as nat),
                    "MediaBox"@,
                    inherited(all, "MediaBox"@),
                ),
                completes(
                    crop_box,
                    ancestry(model, node, visited@, left as nat),
                    "CropBox"@,
                    inherited(all, "CropBox"@),
                ),
                completes(
                    rotate,
                    ancestry(model, node, visited@, left as nat),
                    "Rotate"@,
                    inherited(all, "Rotate"@),
                ),
            ensures
                holds(media_box, inherited(all, "MediaBox"@)),
                holds(crop_box, inherited(all, "CropBox"@)),
                holds(rotate, inherited(all, "Rotate"@)),
            decreases left,
        {
            let ghost nodes = ancestry(model, node, visited@, left as nat);
            if left == 0 || visited.contains(node) {
                break;
            }
            visited.insert(node);
            left -= 1;
            let dictionary = match dictionary_at(resolver, node) {
                Ok(Some(dictionary)) => dictionary,
                Ok(None) => {
                    break;
                },
                Err(error) => {
                    return Err(error);
                },
            };
            assert(nodes[0] == dictionary@);
            fill(
                &mut media_box,
                &dictionary,
                "MediaBox",
                Ghost(nodes),
                Ghost(inherited(all, "MediaBox"@)),
            );
            fill(
                &mut crop_box,
                &dictionary,
                "CropBox",
                Ghost(nodes),
                Ghost(inherited(all, "CropBox"@)),
            );
            fill(
                &mut rotate,
                &dictionary,
                "Rotate",
                Ghost(nodes),
                Ghost(inherited(all, "Rotate"@)),
            );
            match dictionary.named("Parent") {
                Some(Object::Reference(parent)) => {
                    node = *parent;
                    assert(nodes.drop_first() =~= ancestry(model, node, visited@, left as nat));
                },
                _ => {
                    assert(nodes.drop_first() =~= Seq::<Entries>::empty());
                    break;
                },
            }
        }
        Ok(Attributes { media_box, crop_box, rotate })
    }
}

} // verus!
