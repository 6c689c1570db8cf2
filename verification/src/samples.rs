//! Sample documents: one with page labels of every style, and the pages, names and outlines of two whose
//! positions are known.

use vstd::prelude::*;

use crate::bytes::{key, to_vec};
use crate::document::{chased, Document, DEREF_LIMIT};
use crate::fixtures::{
    build, built, entry_model, entry_models, literal, literal_object, name_object,
    name_value, numbered, put, rect, rectangle, with, BuildModel, Entry, EntryModel, Heading,
    HeadingModel, Named, NamedModel, Page, PageModel, Target, TargetModel,
};
use crate::object::{
    dictionary_of, values, Dictionary, Object, ObjectId, StringFormat, Value,
};

verus! {

/// A range of page labels.
pub open spec fn range_value(
    style: Option<Seq<char>>,
    prefix: Option<Value>,
    start: Option<i64>,
) -> Value {
    let styled = match style {
        Some(style) => with(Seq::empty(), "S"@, name_value(style)),
        None => Seq::empty(),
    };
    let prefixed = match prefix {
        Some(prefix) => with(styled, "P"@, prefix),
        None => styled,
    };
    Value::Dictionary(
        match start {
            Some(start) => with(prefixed, "St"@, Value::Integer(start)),
            None => prefixed,
        },
    )
}

fn range(style: Option<&str>, prefix: Option<Object>, start: Option<i64>) -> (r: Object)
    ensures
        r@ == range_value(
            match style {
                Some(style) => Some(style@),
                None => None,
            },
            match prefix {
                Some(prefix) => Some(prefix@),
                None => None,
            },
            start,
        ),
{
    let mut range = Dictionary::new();
    if let Some(style) = style {
        put(&mut range, "S", name_object(style));
    }
    if let Some(prefix) = prefix {
        put(&mut range, "P", prefix);
    }
    if let Some(start) = start {
        put(&mut range, "St", Object::Integer(start));
    }
    Object::Dictionary(range)
}

/// A node of the tree of page labels.
pub open spec fn node_value(first: i64, last: i64, nums: Seq<Value>) -> Value {
    Value::Dictionary(
        with(
            with(
                Seq::empty(),
                "Limits"@,
                Value::Array(seq![Value::Integer(first), Value::Integer(last)]),
            ),
            "Nums"@,
            Value::Array(nums),
        ),
    )
}

fn node(first: i64, last: i64, nums: Vec<Object>) -> (r: Object)
    ensures
        r@ == node_value(first, last, values(nums@)),
{
    let limits: Vec<Object> = vec![Object::Integer(first), Object::Integer(last)];
    assert(values(limits@) =~= seq![Value::Integer(first), Value::Integer(last)]);
    let mut node = Dictionary::new();
    put(&mut node, "Limits", Object::Array(limits));
    put(&mut node, "Nums", Object::Array(nums));
    Object::Dictionary(node)
}

/// The labels of the first pages: a prefix alone, small and large Roman numerals.
pub open spec fn first_labels() -> Value {
    node_value(
        1,
        5,
        seq![
            Value::Integer(1),
            range_value(None, Some(literal(key("Cover"@))), None),
            Value::Integer(2),
            range_value(Some("r"@), None, None),
            Value::Integer(5),
            range_value(Some("R"@), None, Some(1999)),
        ],
    )
}

fn first_node() -> (r: Object)
    ensures
        r@ == first_labels(),
{
    let nums: Vec<Object> = vec![
        Object::Integer(1),
        range(None, Some(literal_object("Cover".as_bytes())), None),
        Object::Integer(2),
        range(Some("r"), None, None),
        Object::Integer(5),
        range(Some("R"), None, Some(1999)),
    ];
    assert(values(nums@) =~= seq![
        Value::Integer(1),
        range_value(None, Some(literal(key("Cover"@))), None),
        Value::Integer(2),
        range_value(Some("r"@), None, None),
        Value::Integer(5),
        range_value(Some("R"@), None, Some(1999)),
    ]);
    node(1, 5, nums)
}

/// A prefix in UTF-16.
pub open spec fn utf16_prefix() -> Value {
    Value::String(seq![0xfeu8, 0xff, 0x00, 0xc9, 0x00, 0x2d], StringFormat::Hexadecimal)
}

/// The labels of the other pages: the remaining styles, a range that is not a dictionary, and a key out
/// of order.
pub open spec fn second_labels() -> Value {
    node_value(
        6,
        15,
        seq![
            Value::Integer(6),
            range_value(Some("D"@), Some(literal(key("A-"@))), Some(9)),
            Value::Integer(8),
            range_value(Some("A"@), None, Some(26)),
            Value::Integer(10),
            range_value(Some("a"@), None, None),
            Value::Integer(11),
            Value::Integer(7),
            Value::Integer(12),
            range_value(Some("D"@), Some(utf16_prefix()), None),
            Value::Integer(15),
            range_value(Some("r"@), None, None),
            Value::Integer(14),
            range_value(Some("R"@), None, None),
        ],
    )
}

fn second_node() -> (r: Object)
    ensures
        r@ == second_labels(),
{
    let bytes: Vec<u8> = vec![0xfeu8, 0xff, 0x00, 0xc9, 0x00, 0x2d];
    assert(bytes@ =~= seq![0xfeu8, 0xff, 0x00, 0xc9, 0x00, 0x2d]);
    let utf16 = Object::String(bytes, StringFormat::Hexadecimal);
    let nums: Vec<Object> = vec![
        Object::Integer(6),
        range(Some("D"), Some(literal_object("A-".as_bytes())), Some(9)),
        Object::Integer(8),
        range(Some("A"), None, Some(26)),
        Object::Integer(10),
        range(Some("a"), None, None),
        Object::Integer(11),
        Object::Integer(7),
        Object::Integer(12),
        range(Some("D"), Some(utf16), None),
        Object::Integer(15),
        range(Some("r"), None, None),
        Object::Integer(14),
        range(Some("R"), None, None),
    ];
    assert(values(nums@) =~= seq![
        Value::Integer(6),
        range_value(Some("D"@), Some(literal(key("A-"@))), Some(9)),
        Value::Integer(8),
        range_value(Some("A"@), None, Some(26)),
        Value::Integer(10),
        range_value(Some("a"@), None, None),
        Value::Integer(11),
        Value::Integer(7),
        Value::Integer(12),
        range_value(Some("D"@), Some(utf16_prefix()), None),
        Value::Integer(15),
        range_value(Some("r"@), None, None),
        Value::Integer(14),
        range_value(Some("R"@), None, None),
    ]);
    node(6, 15, nums)
}

/// A node whose limits leave out its own key.
pub open spec fn stray_labels() -> Value {
    node_value(
        0,
        0,
        seq![Value::Integer(13), range_value(Some("D"@), Some(literal(key("X-"@))), None)],
    )
}

fn stray_node() -> (r: Object)
    ensures
        r@ == stray_labels(),
{
    let nums: Vec<Object> = vec![
        Object::Integer(13),
        range(Some("D"), Some(literal_object("X-".as_bytes())), None),
    ];
    assert(values(nums@) =~= seq![
        Value::Integer(13),
        range_value(Some("D"@), Some(literal(key("X-"@))), None),
    ]);
    node(0, 0, nums)
}

/// Sixteen pages with nothing on them.
pub open spec fn blank_pages() -> Seq<PageModel> {
    Seq::new(16, |i: int| PageModel { attributes: Seq::empty(), headings: Seq::empty() })
}

/// The document of the blank pages alone, whose last object is its catalog.
pub open spec fn blank_document() -> BuildModel {
    built(blank_pages(), Seq::empty(), Seq::empty())
}

/// The root of the tree of page labels, whose kids are numbered from `first` on.
pub open spec fn labels_root(first: int, count: nat) -> Value {
    Value::Dictionary(
        with(
            Seq::empty(),
            "Kids"@,
            Value::Array(Seq::new(count, |i: int| Value::Reference(numbered(first + i)))),
        ),
    )
}

/// The objects of the document with labels: the blank pages, the nodes and the root of the tree of
/// page labels behind them, and the root in the catalog.
pub open spec fn labelled_objects(catch_all: bool) -> Map<ObjectId, Value> {
    let blank = blank_document();
    let last = blank.highest;
    let two = blank.objects.insert(numbered(last + 1), first_labels()).insert(
        numbered(last + 2),
        second_labels(),
    );
    let count: nat = if catch_all {
        3
    } else {
        2
    };
    let nodes = if catch_all {
        two.insert(numbered(last + 3), stray_labels())
    } else {
        two
    };
    let root = last + count + 1;
    let catalog = dictionary_of(blank.objects[numbered(last)])->Some_0;
    nodes.insert(numbered(root), labels_root(last + 1, count)).insert(
        numbered(last),
        Value::Dictionary(with(catalog, "PageLabels"@, Value::Reference(numbered(root)))),
    )
}

/// Sixteen blank pages whose labels use every style, a prefix alone, start values, and a UTF-16
/// prefix, with a page before the first range, a range that is not a dictionary, and a tree of
/// kids with limits, one of which lists a key out of order. With `catch_all`, a last kid has
/// limits that leave out its own key, which another reader may read as giving every page no label.
pub fn labelled(catch_all: bool) -> (r: Document)
    ensures
        r.stored() == labelled_objects(catch_all),
        r.version@ == "1.7"@,
        r.trailer@ == with(
            Seq::empty(),
            "Root"@,
            Value::Reference(numbered(blank_document().highest)),
        ),
        r.max_id == blank_document().highest + if catch_all {
            4int
        } else {
            3int
        },
{
    let mut pages: Vec<Page> = Vec::new();
    while pages.len() < 16
        invariant
            pages@.len() <= 16,
            forall|i: int|
                0 <= i < pages@.len() ==> (#[trigger] pages@[i])@ == (PageModel {
                    attributes: Seq::empty(),
                    headings: Seq::empty(),
                }),
        decreases 16 - pages@.len(),
    {
        let page = Page { attributes: Dictionary::new(), headings: Vec::new() };
        assert(page@.headings =~= Seq::<HeadingModel>::empty());
        pages.push(page);
    }
    let named: Vec<Named> = Vec::new();
    let entries: Vec<Entry> = Vec::new();
    proof {
        assert(pages@.map_values(|page: Page| page@) =~= blank_pages());
        assert(named@.map_values(|name: Named| name@) =~= Seq::<NamedModel>::empty());
        assert(entry_models(entries@) =~= Seq::<EntryModel>::empty());
    }
    let mut document = build(&pages, &named, &entries);
    let ghost blank = blank_document();
    let catalog_id: ObjectId = (document.max_id, 0);
    assert(document.stored() == blank.objects);
    assert(document.max_id == blank.highest);
    assert(blank.highest == 36);
    let mut catalog = match document.get_dictionary(catalog_id) {
        Ok(catalog) => catalog.clone(),
        Err(_) => Dictionary::new(),
    };
    assert(blank.objects.contains_key(numbered(blank.highest)));
    assert(blank.objects[numbered(blank.highest)] is Dictionary);
    assert(chased(blank.objects, numbered(blank.highest), DEREF_LIMIT as nat) is Ok);
    let first = document.add_object(first_node());
    let second = document.add_object(second_node());
    let mut kids: Vec<Object> = vec![Object::Reference(first), Object::Reference(second)];
    if catch_all {
        let third = document.add_object(stray_node());
        kids.push(Object::Reference(third));
    }
    assert(values(kids@) =~= Seq::new(
        kids@.len(),
        |i: int| Value::Reference(numbered(blank.highest + 1 + i)),
    ));
    let mut root = Dictionary::new();
    put(&mut root, "Kids", Object::Array(kids));
    let labels = document.add_object(Object::Dictionary(root));
    put(&mut catalog, "PageLabels", Object::Reference(labels));
    document.set_object(catalog_id, Object::Dictionary(catalog));
    assert(document.stored() =~= labelled_objects(catch_all));
    document
}

pub open spec fn heading_model(text: Seq<char>, x: int, y: int) -> HeadingModel {
    HeadingModel { text: key(text), x, y }
}

fn heading(text: &str, x: i64, y: i64) -> (r: Heading)
    ensures
        r@ == heading_model(text@, x as int, y as int),
{
    Heading { text: to_vec(text.as_bytes()), x, y }
}

fn one_entry(name: &str, object: Object) -> (r: Dictionary)
    ensures
        r@ == with(Seq::empty(), name@, object@),
{
    let mut dictionary = Dictionary::new();
    put(&mut dictionary, name, object);
    dictionary
}

fn page_with(attributes: Dictionary, heading: Heading) -> (r: Page)
    ensures
        r@ == (PageModel { attributes: attributes@, headings: seq![heading@] }),
{
    let mut headings: Vec<Heading> = Vec::new();
    headings.push(heading);
    let page = Page { attributes, headings };
    assert(page@.headings =~= seq![heading@]);
    page
}

/// Pages of 600 by 800 points: upright, cropped, and turned by 90, 180, and 270 degrees, then a page for
/// the fit views.
pub open spec fn position_pages() -> Seq<PageModel> {
    seq![
        PageModel {
            attributes: Seq::empty(),
            headings: seq![heading_model("Upright heading"@, 72, 690)],
        },
        PageModel {
            attributes: with(Seq::empty(), "CropBox"@, rectangle(50, 100, 550, 700)),
            headings: seq![heading_model("Cropped heading"@, 72, 500)],
        },
        PageModel {
            attributes: with(Seq::empty(), "Rotate"@, Value::Integer(90)),
            headings: seq![heading_model("Turn 90"@, 150, 400)],
        },
        PageModel {
            attributes: with(Seq::empty(), "Rotate"@, Value::Integer(180)),
            headings: seq![heading_model("Turn 180"@, 72, 200)],
        },
        PageModel {
            attributes: with(Seq::empty(), "Rotate"@, Value::Integer((-90) as i64)),
            headings: seq![heading_model("Turn 270"@, 200, 400)],
        },
        PageModel {
            attributes: Seq::empty(),
            headings: seq![heading_model("FitH heading"@, 72, 500), heading_model("FitR heading"@, 72, 300)],
        },
    ]
}

fn pages_of_positions() -> (r: Vec<Page>)
    ensures
        r@.map_values(|page: Page| page@) == position_pages(),
{
    let mut pages: Vec<Page> = Vec::new();
    pages.push(page_with(Dictionary::new(), heading("Upright heading", 72, 690)));
    pages.push(page_with(one_entry("CropBox", rect(50, 100, 550, 700)), heading("Cropped heading", 72, 500)));
    // The displayed top of a turned page is its left edge.
    pages.push(page_with(one_entry("Rotate", Object::Integer(90)), heading("Turn 90", 150, 400)));
    // Its bottom edge.
    pages.push(page_with(one_entry("Rotate", Object::Integer(180)), heading("Turn 180", 72, 200)));
    // Its right edge; the heading is about 80 points wide.
    pages.push(page_with(one_entry("Rotate", Object::Integer(-90)), heading("Turn 270", 200, 400)));
    let mut last = page_with(Dictionary::new(), heading("FitH heading", 72, 500));
    let ghost before = last@.headings;
    last.headings.push(heading("FitR heading", 72, 300));
    assert(last@.headings =~= before.push(heading_model("FitR heading"@, 72, 300)));
    pages.push(last);
    assert(pages@.map_values(|page: Page| page@) =~= position_pages()) by {
        let models = pages@.map_values(|page: Page| page@);
        assert(models[5].headings =~= position_pages()[5].headings);
    }
    pages
}

/// A destination under a name of each kind.
pub open spec fn position_names() -> Seq<NamedModel> {
    seq![
        NamedModel {
            name: key("dests-name"@),
            page: 0,
            view: key("XYZ"@),
            arguments: seq![Value::Null, Value::Integer(712), Value::Null],
        },
        NamedModel {
            name: key("tree-name"@),
            page: 5,
            view: key("FitH"@),
            arguments: seq![Value::Integer(520)],
        },
    ]
}

fn names_of_positions() -> (r: Vec<Named>)
    ensures
        r@.map_values(|name: Named| name@) == position_names(),
{
    let dests = Named {
        name: to_vec("dests-name".as_bytes()),
        page: 0,
        view: to_vec("XYZ".as_bytes()),
        arguments: vec![Object::Null, Object::Integer(712), Object::Null],
    };
    assert(dests@.arguments =~= seq![Value::Null, Value::Integer(712), Value::Null]);
    let tree = Named {
        name: to_vec("tree-name".as_bytes()),
        page: 5,
        view: to_vec("FitH".as_bytes()),
        arguments: vec![Object::Integer(520)],
    };
    assert(tree@.arguments =~= seq![Value::Integer(520)]);
    let mut named: Vec<Named> = Vec::new();
    named.push(dests);
    named.push(tree);
    assert(named@.map_values(|name: Named| name@) =~= position_names());
    named
}

/// An entry without children.
pub open spec fn leaf(title: Seq<char>, target: TargetModel) -> EntryModel {
    EntryModel { title: Some(key(title)), target, children: Seq::empty() }
}

fn entry(title: &str, target: Target) -> (r: Entry)
    ensures
        entry_model(r) == leaf(title@, target@),
{
    let entry = Entry { title: Some(to_vec(title.as_bytes())), target, children: Vec::new() };
    assert(entry_models(entry.children@) =~= Seq::<EntryModel>::empty());
    entry
}

fn with_children(entry: Entry, children: Vec<Entry>) -> (r: Entry)
    ensures
        entry_model(r) == (EntryModel {
            children: entry_models(children@),
            ..entry_model(entry)
        }),
{
    Entry { title: entry.title, target: entry.target, children }
}

pub open spec fn explicit_target(page: nat, view: Seq<char>, arguments: Seq<Value>) -> TargetModel {
    TargetModel::Explicit(page, key(view), arguments)
}

fn explicit(page: usize, view: &str, arguments: Vec<Object>) -> (r: Target)
    ensures
        r@ == explicit_target(page as nat, view@, values(arguments@)),
{
    Target::Explicit(page, to_vec(view.as_bytes()), arguments)
}

/// An `/XYZ` view.
fn point(page: usize, left: i64, top: i64, zoom: Option<i64>) -> (r: Target)
    ensures
        r@ == point_target(page as nat, left, top, zoom),
{
    let zoom_object = match zoom {
        Some(zoom) => Object::Integer(zoom),
        None => Object::Null,
    };
    let arguments: Vec<Object> = vec![Object::Integer(left), Object::Integer(top), zoom_object];
    assert(values(arguments@) =~= seq![
        Value::Integer(left),
        Value::Integer(top),
        zoom_value(zoom),
    ]);
    explicit(page, "XYZ", arguments)
}

pub open spec fn zoom_value(zoom: Option<i64>) -> Value {
    match zoom {
        Some(zoom) => Value::Integer(zoom),
        None => Value::Null,
    }
}

pub open spec fn point_target(page: nat, left: i64, top: i64, zoom: Option<i64>) -> TargetModel {
    explicit_target(
        page,
        "XYZ"@,
        seq![Value::Integer(left), Value::Integer(top), zoom_value(zoom)],
    )
}

/// A view without arguments.
pub open spec fn fit_target(page: nat) -> TargetModel {
    explicit_target(page, "Fit"@, Seq::empty())
}

fn fit(page: usize) -> (r: Target)
    ensures
        r@ == fit_target(page as nat),
{
    let arguments: Vec<Object> = Vec::new();
    assert(values(arguments@) =~= Seq::<Value>::empty());
    explicit(page, "Fit", arguments)
}

/// The entries under the first one.
pub open spec fn turned_entries() -> Seq<EntryModel> {
    seq![
        leaf("Cropped heading"@, point_target(1, 72, 522, Some(0))),
        leaf("Turn 90"@, point_target(2, 140, 420, None)),
        leaf("Turn 180"@, point_target(3, 72, 190, None)),
        leaf("Turn 270"@, point_target(4, 290, 420, None)),
    ]
}

/// The first entry, with the others under it.
pub open spec fn upright_model() -> EntryModel {
    EntryModel {
        title: Some(key("Upright heading"@)),
        target: point_target(0, 72, 712, None),
        children: turned_entries(),
    }
}

/// An entry without a title, and one under it.
pub open spec fn untitled_model() -> EntryModel {
    EntryModel {
        title: None,
        target: fit_target(5),
        children: seq![leaf("Child of an untitled entry"@, fit_target(5))],
    }
}

/// An outline whose entries lead to the headings by every kind of target, and nowhere.
pub open spec fn position_entries() -> Seq<EntryModel> {
    seq![
        upright_model(),
        leaf("FitH heading"@, TargetModel::GoTo(5, key("FitH"@), seq![Value::Integer(520)])),
        leaf(
            "FitR heading"@,
            explicit_target(
                5,
                "FitR"@,
                seq![
                    Value::Integer(72),
                    Value::Integer(250),
                    Value::Integer(400),
                    Value::Integer(322),
                ],
            ),
        ),
        leaf("FitV view"@, explicit_target(5, "FitV"@, seq![Value::Integer(72)])),
        leaf("Fit view"@, fit_target(5)),
        leaf("Upright heading"@, TargetModel::DestsName(key("dests-name"@))),
        leaf("FitH heading"@, TargetModel::TreeName(key("tree-name"@))),
        leaf("Missing name"@, TargetModel::TreeName(key("no-such-name"@))),
        leaf("Website"@, TargetModel::Uri),
        leaf("Another file"@, TargetModel::RemoteGoTo),
        leaf("No destination"@, TargetModel::Nowhere),
        untitled_model(),
        leaf("Tab\tand  spaces \r\nin a title"@, fit_target(0)),
    ]
}

fn upright_entry() -> (r: Entry)
    ensures
        entry_model(r) == upright_model(),
{
    let children: Vec<Entry> = vec![
        entry("Cropped heading", point(1, 72, 522, Some(0))),
        entry("Turn 90", point(2, 140, 420, None)),
        entry("Turn 180", point(3, 72, 190, None)),
        entry("Turn 270", point(4, 290, 420, None)),
    ];
    assert(entry_models(children@) =~= turned_entries());
    with_children(entry("Upright heading", point(0, 72, 712, None)), children)
}

fn untitled_entry() -> (r: Entry)
    ensures
        entry_model(r) == untitled_model(),
{
    let children: Vec<Entry> = vec![entry("Child of an untitled entry", fit(5))];
    assert(entry_models(children@) =~= seq![leaf("Child of an untitled entry"@, fit_target(5))]);
    Entry { title: None, target: fit(5), children }
}

fn entries_of_positions() -> (r: Vec<Entry>)
    ensures
        entry_models(r@) == position_entries(),
{
    let across: Vec<Object> = vec![Object::Integer(520)];
    assert(values(across@) =~= seq![Value::Integer(520)]);
    let window: Vec<Object> = vec![
        Object::Integer(72),
        Object::Integer(250),
        Object::Integer(400),
        Object::Integer(322),
    ];
    assert(values(window@) =~= seq![
        Value::Integer(72),
        Value::Integer(250),
        Value::Integer(400),
        Value::Integer(322),
    ]);
    let down: Vec<Object> = vec![Object::Integer(72)];
    assert(values(down@) =~= seq![Value::Integer(72)]);
    let entries: Vec<Entry> = vec![
        upright_entry(),
        entry("FitH heading", Target::GoTo(5, to_vec("FitH".as_bytes()), across)),
        entry("FitR heading", explicit(5, "FitR", window)),
        entry("FitV view", explicit(5, "FitV", down)),
        entry("Fit view", fit(5)),
        entry("Upright heading", Target::DestsName(to_vec("dests-name".as_bytes()))),
        entry("FitH heading", Target::TreeName(to_vec("tree-name".as_bytes()))),
        entry("Missing name", Target::TreeName(to_vec("no-such-name".as_bytes()))),
        entry("Website", Target::Uri),
        entry("Another file", Target::RemoteGoTo),
        entry("No destination", Target::Nowhere),
        untitled_entry(),
        entry("Tab\tand  spaces \r\nin a title", fit(0)),
    ];
    assert(entry_models(entries@) =~= position_entries());
    entries
}

/// The pages, names and outline of a document whose entries lead to headings at known places: each
/// entry's position sits just above its heading's text.
pub fn positions() -> (r: (Vec<Page>, Vec<Named>, Vec<Entry>))
    ensures
        r.0@.map_values(|page: Page| page@) == position_pages(),
        r.1@.map_values(|name: Named| name@) == position_names(),
        entry_models(r.2@) == position_entries(),
{
    (pages_of_positions(), names_of_positions(), entries_of_positions())
}

/// A page of one heading.
pub open spec fn letter_pages() -> Seq<PageModel> {
    seq![
        PageModel {
            attributes: Seq::empty(),
            headings: seq![heading_model("Letter heading"@, 72, 690)],
        },
    ]
}

/// An entry that leads to the heading.
pub open spec fn letter_entries() -> Seq<EntryModel> {
    seq![
        leaf(
            "Letter heading"@,
            explicit_target(0, "XYZ"@, seq![Value::Null, Value::Integer(712), Value::Null]),
        ),
    ]
}

/// The page and the outline of a document of one heading, without names.
pub fn letter() -> (r: (Vec<Page>, Vec<Named>, Vec<Entry>))
    ensures
        r.0@.map_values(|page: Page| page@) == letter_pages(),
        r.1@.len() == 0,
        entry_models(r.2@) == letter_entries(),
{
    let mut pages: Vec<Page> = Vec::new();
    pages.push(page_with(Dictionary::new(), heading("Letter heading", 72, 690)));
    assert(pages@.map_values(|page: Page| page@) =~= letter_pages());
    let arguments: Vec<Object> = vec![Object::Null, Object::Integer(712), Object::Null];
    assert(values(arguments@) =~= seq![Value::Null, Value::Integer(712), Value::Null]);
    let mut entries: Vec<Entry> = Vec::new();
    entries.push(entry("Letter heading", explicit(0, "XYZ", arguments)));
    assert(entry_models(entries@) =~= letter_entries());
    (pages, Vec::new(), entries)
}

} // verus!
