//! Documents built from plain values, with pages whose headings are drawn at known places and an
//! outline that leads to them.

use vstd::prelude::*;

use crate::bytes::{key, starts_with, strip_prefix, to_vec};
use crate::document::Document;
use crate::object::{
    clone_all, set_entry, value, values, Dictionary, Entries, Object, ObjectId, Stream,
    StringFormat, Value,
};
use crate::text::{decimal, decimal_chars, string_of};

verus! {

/// A heading drawn at a baseline point in user space, in 20-point Helvetica.
pub struct Heading {
    pub text: Vec<u8>,
    pub x: i64,
    pub y: i64,
}

/// A page: its own entries, and its headings.
pub struct Page {
    pub attributes: Dictionary,
    pub headings: Vec<Heading>,
}

/// A destination under a name: the page's index, the view's name, and the view's arguments. A name
/// that starts with `dests` is listed in the catalog's `/Dests`, and any other in the `/Names`
/// tree.
pub struct Named {
    pub name: Vec<u8>,
    pub page: usize,
    pub view: Vec<u8>,
    pub arguments: Vec<Object>,
}

/// Where an outline entry leads.
pub enum Target {
    /// An explicit destination: page index, view name, and view arguments.
    Explicit(usize, Vec<u8>, Vec<Object>),
    /// A name from the catalog's `/Dests` dictionary.
    DestsName(Vec<u8>),
    /// A string from the `/Names` `/Dests` name tree.
    TreeName(Vec<u8>),
    /// A `/GoTo` action with an explicit destination.
    GoTo(usize, Vec<u8>, Vec<Object>),
    /// A `/GoToR` action, which leads to another file.
    RemoteGoTo,
    /// A `/URI` action.
    Uri,
    Nowhere,
}

pub struct Entry {
    /// `None` leaves out `/Title`.
    pub title: Option<Vec<u8>>,
    pub target: Target,
    pub children: Vec<Entry>,
}

pub enum TargetModel {
    Explicit(nat, Seq<u8>, Seq<Value>),
    DestsName(Seq<u8>),
    TreeName(Seq<u8>),
    GoTo(nat, Seq<u8>, Seq<Value>),
    RemoteGoTo,
    Uri,
    Nowhere,
}

pub struct EntryModel {
    pub title: Option<Seq<u8>>,
    pub target: TargetModel,
    pub children: Seq<EntryModel>,
}

pub struct PageModel {
    pub attributes: Entries,
    pub headings: Seq<HeadingModel>,
}

pub struct HeadingModel {
    pub text: Seq<u8>,
    pub x: int,
    pub y: int,
}

pub struct NamedModel {
    pub name: Seq<u8>,
    pub page: nat,
    pub view: Seq<u8>,
    pub arguments: Seq<Value>,
}

impl View for Heading {
    type V = HeadingModel;

    open spec fn view(&self) -> HeadingModel {
        HeadingModel { text: self.text@, x: self.x as int, y: self.y as int }
    }
}

impl View for Page {
    type V = PageModel;

    open spec fn view(&self) -> PageModel {
        PageModel {
            attributes: self.attributes@,
            headings: self.headings@.map_values(|heading: Heading| heading@),
        }
    }
}

impl View for Named {
    type V = NamedModel;

    open spec fn view(&self) -> NamedModel {
        NamedModel {
            name: self.name@,
            page: self.page as nat,
            view: self.view@,
            arguments: values(self.arguments@),
        }
    }
}

impl View for Target {
    type V = TargetModel;

    open spec fn view(&self) -> TargetModel {
        match self {
            Target::Explicit(page, view, arguments) => TargetModel::Explicit(
                *page as nat,
                view@,
                values(arguments@),
            ),
            Target::DestsName(name) => TargetModel::DestsName(name@),
            Target::TreeName(name) => TargetModel::TreeName(name@),
            Target::GoTo(page, view, arguments) => TargetModel::GoTo(
                *page as nat,
                view@,
                values(arguments@),
            ),
            Target::RemoteGoTo => TargetModel::RemoteGoTo,
            Target::Uri => TargetModel::Uri,
            Target::Nowhere => TargetModel::Nowhere,
        }
    }
}

pub open spec fn entry_model(entry: Entry) -> EntryModel
    decreases entry,
{
    EntryModel {
        title: match entry.title {
            Some(title) => Some(title@),
            None => None,
        },
        target: entry.target@,
        children: entry_models(entry.children@),
    }
}

pub open spec fn entry_models(entries: Seq<Entry>) -> Seq<EntryModel>
    decreases entries,
{
    Seq::new(
        entries.len(),
        |i: int|
            if 0 <= i < entries.len() {
                entry_model(entries[i])
            } else {
                EntryModel { title: None, target: TargetModel::Nowhere, children: Seq::empty() }
            },
    )
}

/// `entries` with `name` standing for `value`.
pub open spec fn with(entries: Entries, name: Seq<char>, value: Value) -> Entries {
    set_entry(entries, key(name), value)
}

pub open spec fn name_value(name: Seq<char>) -> Value {
    Value::Name(key(name))
}

/// How a byte is written in a literal string: with a backslash before it if it would end or open one,
/// or is a backslash, and by name if it is a carriage return, which would be read as a line feed.
pub open spec fn escape(byte: u8) -> Seq<u8> {
    if byte == 0x28 || byte == 0x29 || byte == 0x5c {
        seq![0x5cu8, byte]
    } else if byte == 0x0d {
        seq![0x5cu8, 0x72u8]
    } else {
        seq![byte]
    }
}

/// The bytes of `text` as they are written in a literal string.
pub open spec fn escaped(text: Seq<u8>) -> Seq<u8>
    decreases text.len(),
{
    if text.len() == 0 {
        Seq::empty()
    } else {
        escaped(text.drop_last()) + escape(text.last())
    }
}

/// The content that draws a heading.
pub open spec fn heading_content(heading: HeadingModel) -> Seq<u8> {
    key("BT\n/F1 20 Tf\n"@) + key(decimal(heading.x)) + key(" "@) + key(decimal(heading.y)) + key(
        " Td\n("@,
    ) + escaped(heading.text) + key(") Tj\nET\n"@)
}

/// The content that draws the first `n` headings.
pub open spec fn headings_content(headings: Seq<HeadingModel>, n: nat) -> Seq<u8>
    decreases n,
{
    if n == 0 {
        Seq::empty()
    } else {
        headings_content(headings, (n - 1) as nat) + heading_content(headings[n - 1])
    }
}

/// The id with number `number`.
pub open spec fn numbered(number: int) -> ObjectId {
    (number as u32, 0u16)
}

/// The number of the page tree's root, and of the font.
pub open spec fn tree_number() -> int {
    1
}

pub open spec fn font_number() -> int {
    2
}

/// The numbers of a page's content and of the page.
pub open spec fn content_number(page: int) -> int {
    3 + 2 * page
}

pub open spec fn page_number(page: int) -> int {
    4 + 2 * page
}

pub open spec fn font_value() -> Value {
    Value::Dictionary(
        with(
            with(
                with(Seq::empty(), "Type"@, name_value("Font"@)),
                "Subtype"@,
                name_value("Type1"@),
            ),
            "BaseFont"@,
            name_value("Helvetica"@),
        ),
    )
}

/// A page's own entries, with those that place it in the document.
pub open spec fn page_value(attributes: Entries, index: int) -> Value {
    let fonts = with(Seq::empty(), "F1"@, Value::Reference(numbered(font_number())));
    let resources = with(Seq::empty(), "Font"@, Value::Dictionary(fonts));
    Value::Dictionary(
        with(
            with(
                with(
                    with(attributes, "Type"@, name_value("Page"@)),
                    "Parent"@,
                    Value::Reference(numbered(tree_number())),
                ),
                "Contents"@,
                Value::Reference(numbered(content_number(index))),
            ),
            "Resources"@,
            Value::Dictionary(resources),
        ),
    )
}

/// `objects` with the first `n` pages and their contents.
pub open spec fn pages_added(
    objects: Map<ObjectId, Value>,
    pages: Seq<PageModel>,
    n: nat,
) -> Map<ObjectId, Value>
    decreases n,
{
    if n == 0 {
        objects
    } else {
        let page = pages[n - 1];
        pages_added(objects, pages, (n - 1) as nat).insert(
            numbered(content_number(n - 1)),
            Value::Stream(Seq::empty(), headings_content(page.headings, page.headings.len())),
        ).insert(numbered(page_number(n - 1)), page_value(page.attributes, n - 1))
    }
}

pub open spec fn page_references(count: nat) -> Seq<Value> {
    Seq::new(count, |i: int| Value::Reference(numbered(page_number(i))))
}

pub open spec fn rectangle(left: i64, bottom: i64, right: i64, top: i64) -> Value {
    Value::Array(
        seq![
            Value::Integer(left),
            Value::Integer(bottom),
            Value::Integer(right),
            Value::Integer(top),
        ],
    )
}

pub open spec fn tree_value(count: nat) -> Value {
    Value::Dictionary(
        with(
            with(
                with(
                    with(Seq::empty(), "Type"@, name_value("Pages"@)),
                    "Count"@,
                    Value::Integer(count as i64),
                ),
                "Kids"@,
                Value::Array(page_references(count)),
            ),
            "MediaBox"@,
            rectangle(0, 0, 600, 800),
        ),
    )
}

/// A destination on the page at index `page`.
pub open spec fn explicit_value(page: nat, view: Seq<u8>, arguments: Seq<Value>) -> Value {
    Value::Array(
        seq![Value::Reference(numbered(page_number(page as int))), Value::Name(view)] + arguments,
    )
}

pub open spec fn literal(text: Seq<u8>) -> Value {
    Value::String(text, StringFormat::Literal)
}

/// An outline node with the entry that its target gives it.
pub open spec fn with_target(node: Entries, target: TargetModel) -> Entries {
    match target {
        TargetModel::Explicit(page, view, arguments) => with(
            node,
            "Dest"@,
            explicit_value(page, view, arguments),
        ),
        TargetModel::DestsName(name) => with(node, "Dest"@, Value::Name(name)),
        TargetModel::TreeName(name) => with(node, "Dest"@, literal(name)),
        TargetModel::GoTo(page, view, arguments) => with(
            node,
            "A"@,
            Value::Dictionary(
                with(
                    with(Seq::empty(), "S"@, name_value("GoTo"@)),
                    "D"@,
                    explicit_value(page, view, arguments),
                ),
            ),
        ),
        TargetModel::RemoteGoTo => with(
            node,
            "A"@,
            Value::Dictionary(
                with(
                    with(
                        with(Seq::empty(), "S"@, name_value("GoToR"@)),
                        "F"@,
                        literal(key("other.pdf"@)),
                    ),
                    "D"@,
                    Value::Array(seq![Value::Integer(0), name_value("Fit"@)]),
                ),
            ),
        ),
        TargetModel::Uri => with(
            node,
            "A"@,
            Value::Dictionary(
                with(
                    with(Seq::empty(), "S"@, name_value("URI"@)),
                    "URI"@,
                    literal(key("https://example.com"@)),
                ),
            ),
        ),
        TargetModel::Nowhere => node,
    }
}

/// The node of the entry at `index` of `count`, whose ids start with `first`, without its children.
pub open spec fn entry_node(
    entry: EntryModel,
    parent: ObjectId,
    first: int,
    index: int,
    count: int,
) -> Entries {
    let placed = with(Seq::empty(), "Parent"@, Value::Reference(parent));
    let titled = match entry.title {
        Some(title) => with(placed, "Title"@, literal(title)),
        None => placed,
    };
    let after = if index > 0 {
        with(titled, "Prev"@, Value::Reference(numbered(first + index - 1)))
    } else {
        titled
    };
    let between = if index + 1 < count {
        with(after, "Next"@, Value::Reference(numbered(first + index + 1)))
    } else {
        after
    };
    with_target(between, entry.target)
}

/// `node` with `/First` and `/Last` of `count` children whose ids start with `first`.
pub open spec fn with_children(node: Entries, first: int, count: int) -> Entries {
    if count == 0 {
        node
    } else {
        with(
            with(node, "First"@, Value::Reference(numbered(first))),
            "Last"@,
            Value::Reference(numbered(first + count - 1)),
        )
    }
}

/// The objects so far, and the highest number.
pub struct BuildModel {
    pub objects: Map<ObjectId, Value>,
    pub highest: int,
}

/// `b` with `entries` as the children of `parent`. The entries take the next numbers, and each one's
/// children follow in turn.
pub open spec fn entries_added(b: BuildModel, parent: ObjectId, entries: Seq<EntryModel>) -> BuildModel
    decreases entries, entries.len() + 1,
{
    entries_from(
        BuildModel { highest: b.highest + entries.len(), ..b },
        parent,
        b.highest + 1,
        entries,
        0,
    )
}

/// `b` with the entries from `index` on, whose ids start with `first`.
pub open spec fn entries_from(
    b: BuildModel,
    parent: ObjectId,
    first: int,
    entries: Seq<EntryModel>,
    index: nat,
) -> BuildModel
    decreases entries, entries.len() - index,
{
    if index >= entries.len() {
        b
    } else {
        let entry = entries[index as int];
        let id = numbered(first + index);
        let after = entries_added(b, id, entry.children);
        let node = with_children(
            entry_node(entry, parent, first, index as int, entries.len() as int),
            b.highest + 1,
            entry.children.len() as int,
        );
        entries_from(
            BuildModel { objects: after.objects.insert(id, Value::Dictionary(node)), ..after },
            parent,
            first,
            entries,
            index + 1,
        )
    }
}

/// How many entries there are, children included, from `index` on.
pub open spec fn entry_count(entries: Seq<EntryModel>, index: nat) -> nat
    decreases entries, entries.len() - index,
{
    if index >= entries.len() {
        0
    } else {
        1 + entry_count(entries[index as int].children, 0) + entry_count(entries, index + 1)
    }
}

/// Whether explicit destinations, from the entry at `index` on, lead to one of `pages` pages.
pub open spec fn entries_lead_within(entries: Seq<EntryModel>, index: nat, pages: nat) -> bool
    decreases entries, entries.len() - index,
{
    index < entries.len() ==> {
        &&& match entries[index as int].target {
            TargetModel::Explicit(page, _, _) => page < pages,
            TargetModel::GoTo(page, _, _) => page < pages,
            _ => true,
        }
        &&& entries_lead_within(entries[index as int].children, 0, pages)
        &&& entries_lead_within(entries, index + 1, pages)
    }
}

/// The catalog's `/Dests` of the first `n` names.
pub open spec fn dests_of(named: Seq<NamedModel>, n: nat) -> Entries
    decreases n,
{
    if n == 0 {
        Seq::empty()
    } else {
        let last = named[n - 1];
        let before = dests_of(named, (n - 1) as nat);
        if starts_with(last.name, key("dests"@)) {
            set_entry(before, last.name, explicit_value(last.page, last.view, last.arguments))
        } else {
            before
        }
    }
}

/// The `/Names` array of the first `n` names.
pub open spec fn tree_names_of(named: Seq<NamedModel>, n: nat) -> Seq<Value>
    decreases n,
{
    if n == 0 {
        Seq::empty()
    } else {
        let last = named[n - 1];
        let before = tree_names_of(named, (n - 1) as nat);
        if starts_with(last.name, key("dests"@)) {
            before
        } else {
            before.push(literal(last.name)).push(
                Value::Dictionary(
                    with(
                        Seq::empty(),
                        "D"@,
                        explicit_value(last.page, last.view, last.arguments),
                    ),
                ),
            )
        }
    }
}

/// The catalog.
pub open spec fn catalog_value(named: Seq<NamedModel>, outlines: ObjectId) -> Value {
    let plain = with(
        with(
            with(Seq::empty(), "Type"@, name_value("Catalog"@)),
            "Pages"@,
            Value::Reference(numbered(tree_number())),
        ),
        "Outlines"@,
        Value::Reference(outlines),
    );
    let dests = dests_of(named, named.len());
    let with_dests = if dests.len() > 0 {
        with(plain, "Dests"@, Value::Dictionary(dests))
    } else {
        plain
    };
    let names = tree_names_of(named, named.len());
    Value::Dictionary(
        if names.len() > 0 {
            with(
                with_dests,
                "Names"@,
                Value::Dictionary(
                    with(
                        Seq::empty(),
                        "Dests"@,
                        Value::Dictionary(with(Seq::empty(), "Names"@, Value::Array(names))),
                    ),
                ),
            )
        } else {
            with_dests
        },
    )
}

/// The objects of the document that `build` builds: the page tree's root, the font, each page behind
/// its content, the outline, its entries, and the catalog.
pub open spec fn built(
    pages: Seq<PageModel>,
    named: Seq<NamedModel>,
    entries: Seq<EntryModel>,
) -> BuildModel {
    let start = Map::<ObjectId, Value>::empty().insert(numbered(font_number()), font_value());
    let with_pages = pages_added(start, pages, pages.len()).insert(
        numbered(tree_number()),
        tree_value(pages.len()),
    );
    let outlines = 3 + 2 * pages.len() as int;
    let b = entries_added(
        BuildModel { objects: with_pages, highest: outlines },
        numbered(outlines),
        entries,
    );
    let outline = with_children(
        with(Seq::empty(), "Type"@, name_value("Outlines"@)),
        outlines + 1,
        entries.len() as int,
    );
    BuildModel {
        objects: b.objects.insert(numbered(outlines), Value::Dictionary(outline)).insert(
            numbered(b.highest + 1),
            catalog_value(named, numbered(outlines)),
        ),
        highest: b.highest + 1,
    }
}

/// Each entry takes one number.
proof fn lemma_numbers_from(
    b: BuildModel,
    parent: ObjectId,
    first: int,
    entries: Seq<EntryModel>,
    index: nat,
)
    requires
        index <= entries.len(),
    ensures
        entries_from(b, parent, first, entries, index).highest == b.highest + entry_count(
            entries,
            index,
        ) - (entries.len() - index),
    decreases entries, entries.len() - index,
{
    if index < entries.len() {
        let entry = entries[index as int];
        let id = numbered(first + index);
        lemma_numbers_from(
            BuildModel { highest: b.highest + entry.children.len(), ..b },
            id,
            b.highest + 1,
            entry.children,
            0,
        );
        let after = entries_added(b, id, entry.children);
        let node = with_children(
            entry_node(entry, parent, first, index as int, entries.len() as int),
            b.highest + 1,
            entry.children.len() as int,
        );
        lemma_numbers_from(
            BuildModel { objects: after.objects.insert(id, Value::Dictionary(node)), ..after },
            parent,
            first,
            entries,
            index + 1,
        );
    }
}

/// The numbers that entries take go up by as many as there are entries, children included.
pub proof fn lemma_entry_numbers(b: BuildModel, parent: ObjectId, entries: Seq<EntryModel>)
    ensures
        entries_added(b, parent, entries).highest == b.highest + entry_count(entries, 0),
{
    lemma_numbers_from(
        BuildModel { highest: b.highest + entries.len(), ..b },
        parent,
        b.highest + 1,
        entries,
        0,
    );
}

/// There are at least as many entries as are listed.
proof fn lemma_count_at_least(entries: Seq<EntryModel>, index: nat)
    requires
        index <= entries.len(),
    ensures
        entry_count(entries, index) >= entries.len() - index,
    decreases entries.len() - index,
{
    if index < entries.len() {
        lemma_count_at_least(entries, index + 1);
    }
}

/// Makes `name` stand for `object`.
pub fn put(dictionary: &mut Dictionary, name: &str, object: Object)
    ensures
        final(dictionary)@ == with(old(dictionary)@, name@, object@),
{
    dictionary.set(to_vec(name.as_bytes()), object);
}

pub fn name_object(name: &str) -> (r: Object)
    ensures
        r@ == name_value(name@),
{
    Object::Name(to_vec(name.as_bytes()))
}

pub fn literal_object(text: &[u8]) -> (r: Object)
    ensures
        r@ == literal(text@),
{
    Object::String(to_vec(text), StringFormat::Literal)
}

/// Appends `text`.
pub fn push_text(bytes: &mut Vec<u8>, text: &str)
    ensures
        final(bytes)@ == old(bytes)@ + key(text@),
{
    let ghost before = bytes@;
    bytes.extend_from_slice(text.as_bytes());
    assert(bytes@ =~= before + key(text@));
}

/// Appends `text` as it is written in a literal string.
pub fn push_escaped(bytes: &mut Vec<u8>, text: &[u8])
    ensures
        final(bytes)@ == old(bytes)@ + escaped(text@),
{
    let ghost before = bytes@;
    let mut i: usize = 0;
    assert(bytes@ =~= before + escaped(text@.take(0)));
    while i < text.len()
        invariant
            i <= text@.len(),
            before == old(bytes)@,
            bytes@ == before + escaped(text@.take(i as int)),
        decreases text@.len() - i,
    {
        let byte = text[i];
        if byte == 0x28 || byte == 0x29 || byte == 0x5c {
            bytes.push(0x5c);
            bytes.push(byte);
        } else if byte == 0x0d {
            bytes.push(0x5c);
            bytes.push(0x72);
        } else {
            bytes.push(byte);
        }
        i += 1;
        assert(text@.take(i as int).drop_last() =~= text@.take(i - 1));
        assert(bytes@ =~= before + escaped(text@.take(i as int)));
    }
    assert(text@.take(i as int) =~= text@);
}

/// The content that draws `headings`.
fn content_of(headings: &Vec<Heading>) -> (r: Vec<u8>)
    ensures
        r@ == headings_content(
            headings@.map_values(|heading: Heading| heading@),
            headings@.len(),
        ),
{
    let ghost models = headings@.map_values(|heading: Heading| heading@);
    let mut content: Vec<u8> = Vec::new();
    let mut i: usize = 0;
    while i < headings.len()
        invariant
            i <= headings@.len(),
            models == headings@.map_values(|heading: Heading| heading@),
            content@ == headings_content(models, i as nat),
        decreases headings@.len() - i,
    {
        let heading = &headings[i];
        let ghost before = content@;
        assert(models[i as int] == heading@);
        push_text(&mut content, "BT\n/F1 20 Tf\n");
        push_text(&mut content, string_of(&decimal_chars(heading.x)).as_str());
        push_text(&mut content, " ");
        push_text(&mut content, string_of(&decimal_chars(heading.y)).as_str());
        push_text(&mut content, " Td\n(");
        push_escaped(&mut content, heading.text.as_slice());
        push_text(&mut content, ") Tj\nET\n");
        proof {
            lemma_behind(
                before,
                key("BT\n/F1 20 Tf\n"@),
                key(decimal(heading.x as int)),
                key(" "@),
                key(decimal(heading.y as int)),
                key(" Td\n("@),
                escaped(heading.text@),
                key(") Tj\nET\n"@),
            );
        }
        i += 1;
    }
    content
}

/// Parts put behind bytes one by one stand behind them together.
proof fn lemma_behind(
    before: Seq<u8>,
    a: Seq<u8>,
    b: Seq<u8>,
    c: Seq<u8>,
    d: Seq<u8>,
    e: Seq<u8>,
    f: Seq<u8>,
    g: Seq<u8>,
)
    ensures
        before + a + b + c + d + e + f + g == before + (a + b + c + d + e + f + g),
{
    assert(before + a + b + c + d + e + f + g =~= before + (a + b + c + d + e + f + g));
}

/// A rectangle with these edges.
pub fn rect(left: i64, bottom: i64, right: i64, top: i64) -> (r: Object)
    ensures
        r@ == rectangle(left, bottom, right, top),
{
    let mut edges: Vec<Object> = Vec::new();
    edges.push(Object::Integer(left));
    edges.push(Object::Integer(bottom));
    edges.push(Object::Integer(right));
    edges.push(Object::Integer(top));
    let object = Object::Array(edges);
    assert(values(edges@) =~= seq![
        Value::Integer(left),
        Value::Integer(bottom),
        Value::Integer(right),
        Value::Integer(top),
    ]);
    object
}

/// A destination on the page at index `page`.
fn explicit(page: usize, view: &Vec<u8>, arguments: &Vec<Object>) -> (r: Object)
    requires
        page_number(page as int) <= u32::MAX,
    ensures
        r@ == explicit_value(page as nat, view@, values(arguments@)),
{
    let mut array: Vec<Object> = Vec::new();
    array.push(Object::Reference((4 + 2 * page as u32, 0)));
    array.push(Object::Name(to_vec(view.as_slice())));
    let mut tail = clone_all(arguments);
    let ghost rest = values(tail@);
    array.append(&mut tail);
    assert(values(array@) =~= seq![
        Value::Reference(numbered(page_number(page as int))),
        Value::Name(view@),
    ] + values(arguments@));
    Object::Array(array)
}

/// Gives an outline node the entry that its target asks for.
fn set_target(node: &mut Dictionary, target: &Target)
    requires
        match target@ {
            TargetModel::Explicit(page, _, _) => page_number(page as int) <= u32::MAX,
            TargetModel::GoTo(page, _, _) => page_number(page as int) <= u32::MAX,
            _ => true,
        },
    ensures
        final(node)@ == with_target(old(node)@, target@),
{
    match target {
        Target::Explicit(page, view, arguments) => {
            put(node, "Dest", explicit(*page, view, arguments));
        },
        Target::DestsName(name) => {
            put(node, "Dest", Object::Name(to_vec(name.as_slice())));
        },
        Target::TreeName(name) => {
            put(node, "Dest", literal_object(name.as_slice()));
        },
        Target::GoTo(page, view, arguments) => {
            let mut action = Dictionary::new();
            put(&mut action, "S", name_object("GoTo"));
            put(&mut action, "D", explicit(*page, view, arguments));
            put(node, "A", Object::Dictionary(action));
        },
        Target::RemoteGoTo => {
            let mut destination: Vec<Object> = Vec::new();
            destination.push(Object::Integer(0));
            destination.push(name_object("Fit"));
            assert(values(destination@) =~= seq![Value::Integer(0), name_value("Fit"@)]);
            let mut action = Dictionary::new();
            put(&mut action, "S", name_object("GoToR"));
            put(&mut action, "F", literal_object("other.pdf".as_bytes()));
            put(&mut action, "D", Object::Array(destination));
            put(node, "A", Object::Dictionary(action));
        },
        Target::Uri => {
            let mut action = Dictionary::new();
            put(&mut action, "S", name_object("URI"));
            put(&mut action, "URI", literal_object("https://example.com".as_bytes()));
            put(node, "A", Object::Dictionary(action));
        },
        Target::Nowhere => {},
    }
}

/// Gives `node` the first and last of `count` children whose numbers start with `first`.
fn set_children(node: &mut Dictionary, first: u32, count: usize)
    requires
        first + count <= u32::MAX + 1,
    ensures
        final(node)@ == with_children(old(node)@, first as int, count as int),
{
    if count > 0 {
        put(node, "First", Object::Reference((first, 0)));
        put(node, "Last", Object::Reference((first + (count - 1) as u32, 0)));
    }
}

/// The objects and the highest number of a document.
spec fn progress(document: &Document) -> BuildModel {
    BuildModel { objects: document.stored(), highest: document.max_id as int }
}

/// Adds `entries` as the children of `parent`, and returns the number of the first.
fn add_entries(
    document: &mut Document,
    parent: ObjectId,
    entries: &Vec<Entry>,
    Ghost(pages): Ghost<nat>,
) -> (r: u32)
    requires
        page_number(pages as int) <= u32::MAX,
        entries_lead_within(entry_models(entries@), 0, pages),
        old(document).max_id + entry_count(entry_models(entries@), 0) < u32::MAX,
    ensures
        progress(final(document)) == entries_added(
            progress(old(document)),
            parent,
            entry_models(entries@),
        ),
        final(document).version == old(document).version,
        final(document).trailer == old(document).trailer,
        r == old(document).max_id + 1,
    decreases entries,
{
    let ghost models = entry_models(entries@);
    let ghost start = progress(document);
    proof {
        lemma_entry_numbers(start, parent, models);
        lemma_count_at_least(models, 0);
    }
    let first = document.max_id + 1;
    let count = entries.len();
    document.max_id = document.max_id + count as u32;
    let ghost expected = entries_added(start, parent, models);
    let mut index: usize = 0;
    while index < count
        invariant
            index <= count == entries@.len(),
            models == entry_models(entries@),
            first == old(document).max_id + 1,
            page_number(pages as int) <= u32::MAX,
            entries_lead_within(models, index as nat, pages),
            first + count <= u32::MAX,
            first + count <= document.max_id + 1,
            expected.highest < u32::MAX,
            expected == entries_added(progress(old(document)), parent, models),
            expected == entries_from(
                progress(document),
                parent,
                first as int,
                models,
                index as nat,
            ),
            document.version == old(document).version,
            document.trailer == old(document).trailer,
            document.max_id + entry_count(models, index as nat) - (count - index)
                == expected.highest,
        decreases count - index,
    {
        let entry = &entries[index];
        assert(models[index as int] == entry_model(*entry));
        proof {
            lemma_count_at_least(models, (index + 1) as nat);
        }
        let id: ObjectId = (first + index as u32, 0);
        let mut node = Dictionary::new();
        put(&mut node, "Parent", Object::Reference(parent));
        if let Some(title) = &entry.title {
            put(&mut node, "Title", literal_object(title.as_slice()));
        }
        if index > 0 {
            put(&mut node, "Prev", Object::Reference((first + (index - 1) as u32, 0)));
        }
        if index + 1 < count {
            put(&mut node, "Next", Object::Reference((first + (index + 1) as u32, 0)));
        }
        set_target(&mut node, &entry.target);
        assert(node@ == entry_node(
            models[index as int],
            parent,
            first as int,
            index as int,
            count as int,
        ));
        let ghost before = progress(document);
        proof {
            lemma_entry_numbers(before, id, models[index as int].children);
            lemma_count_at_least(models[index as int].children, 0);
        }
        let first_child = add_entries(document, id, &entry.children, Ghost(pages));
        set_children(&mut node, first_child, entry.children.len());
        let ghost after = progress(document);
        document.set_object(id, Object::Dictionary(node));
        assert(progress(document).objects =~= after.objects.insert(
            id,
            Value::Dictionary(node@),
        ));
        index += 1;
    }
    first
}

/// Adds `pages` and their contents.
fn add_pages(document: &mut Document, pages: &Vec<Page>)
    requires
        old(document).max_id == font_number(),
        page_number(pages@.len() as int) <= u32::MAX,
    ensures
        final(document).stored() == pages_added(
            old(document).stored(),
            pages@.map_values(|page: Page| page@),
            pages@.len(),
        ),
        final(document).max_id == font_number() + 2 * pages@.len(),
        final(document).version == old(document).version,
        final(document).trailer == old(document).trailer,
{
    let ghost models = pages@.map_values(|page: Page| page@);
    let mut index: usize = 0;
    while index < pages.len()
        invariant
            index <= pages@.len(),
            page_number(pages@.len() as int) <= u32::MAX,
            models == pages@.map_values(|page: Page| page@),
            document.stored() == pages_added(old(document).stored(), models, index as nat),
            document.max_id == font_number() + 2 * index,
            document.version == old(document).version,
            document.trailer == old(document).trailer,
        decreases pages@.len() - index,
    {
        let page = &pages[index];
        assert(models[index as int] == page@);
        let content = content_of(&page.headings);
        let content_id = document.add_object(
            Object::Stream(Stream { dict: Dictionary::new(), content }),
        );
        let mut fonts = Dictionary::new();
        put(&mut fonts, "F1", Object::Reference((2, 0)));
        let mut resources = Dictionary::new();
        put(&mut resources, "Font", Object::Dictionary(fonts));
        let mut dictionary = page.attributes.clone();
        put(&mut dictionary, "Type", name_object("Page"));
        put(&mut dictionary, "Parent", Object::Reference((1, 0)));
        put(&mut dictionary, "Contents", Object::Reference(content_id));
        put(&mut dictionary, "Resources", Object::Dictionary(resources));
        assert(content_id == numbered(content_number(index as int)));
        let page_id = document.add_object(Object::Dictionary(dictionary));
        assert(page_id == numbered(page_number(index as int)));
        index += 1;
    }
}

/// The root of a page tree of `count` pages.
fn page_tree(count: usize) -> (r: Object)
    requires
        page_number(count as int) <= u32::MAX,
    ensures
        r@ == tree_value(count as nat),
{
    let mut kids: Vec<Object> = Vec::new();
    let mut index: usize = 0;
    while index < count
        invariant
            index <= count,
            page_number(count as int) <= u32::MAX,
            values(kids@) == page_references(index as nat),
        decreases count - index,
    {
        let ghost before = values(kids@);
        kids.push(Object::Reference((4 + 2 * index as u32, 0)));
        assert(values(kids@) =~= before.push(
            Value::Reference(numbered(page_number(index as int))),
        ));
        index += 1;
        assert(values(kids@) =~= page_references(index as nat));
    }
    let mut tree = Dictionary::new();
    put(&mut tree, "Type", name_object("Pages"));
    put(&mut tree, "Count", Object::Integer(count as i64));
    put(&mut tree, "Kids", Object::Array(kids));
    put(&mut tree, "MediaBox", rect(0, 0, 600, 800));
    Object::Dictionary(tree)
}

/// The catalog's `/Dests`, and the `/Names` array of the other names.
fn name_destinations(named: &Vec<Named>, Ghost(pages): Ghost<nat>) -> (r: (Dictionary, Vec<Object>))
    requires
        page_number(pages as int) <= u32::MAX,
        forall|i: int| 0 <= i < named@.len() ==> (#[trigger] named@[i]).page < pages,
    ensures
        r.0@ == dests_of(named@.map_values(|name: Named| name@), named@.len()),
        values(r.1@) == tree_names_of(named@.map_values(|name: Named| name@), named@.len()),
{
    let ghost models = named@.map_values(|name: Named| name@);
    let mut dests = Dictionary::new();
    let mut tree_names: Vec<Object> = Vec::new();
    assert(values(tree_names@) =~= Seq::<Value>::empty());
    let mut i: usize = 0;
    while i < named.len()
        invariant
            i <= named@.len(),
            page_number(pages as int) <= u32::MAX,
            forall|i: int| 0 <= i < named@.len() ==> (#[trigger] named@[i]).page < pages,
            models == named@.map_values(|name: Named| name@),
            dests@ == dests_of(models, i as nat),
            values(tree_names@) == tree_names_of(models, i as nat),
        decreases named@.len() - i,
    {
        let last = &named[i];
        assert(models[i as int] == last@);
        let destination = explicit(last.page, &last.view, &last.arguments);
        if strip_prefix(last.name.as_slice(), "dests".as_bytes()).is_some() {
            dests.set(to_vec(last.name.as_slice()), destination);
        } else {
            let ghost before = values(tree_names@);
            let mut holder = Dictionary::new();
            put(&mut holder, "D", destination);
            let ghost held = Value::Dictionary(holder@);
            tree_names.push(literal_object(last.name.as_slice()));
            tree_names.push(Object::Dictionary(holder));
            assert(values(tree_names@) =~= before.push(literal(last.name@)).push(held));
        }
        i += 1;
    }
    (dests, tree_names)
}

fn catalog_of(named: &Vec<Named>, outlines_id: ObjectId, Ghost(pages): Ghost<nat>) -> (r: Object)
    requires
        page_number(pages as int) <= u32::MAX,
        forall|i: int| 0 <= i < named@.len() ==> (#[trigger] named@[i]).page < pages,
    ensures
        r@ == catalog_value(named@.map_values(|name: Named| name@), outlines_id),
{
    let (dests, tree_names) = name_destinations(named, Ghost(pages));
    let mut catalog = Dictionary::new();
    put(&mut catalog, "Type", name_object("Catalog"));
    put(&mut catalog, "Pages", Object::Reference((1, 0)));
    put(&mut catalog, "Outlines", Object::Reference(outlines_id));
    if dests.entries.len() > 0 {
        put(&mut catalog, "Dests", Object::Dictionary(dests));
    }
    if tree_names.len() > 0 {
        let mut tree = Dictionary::new();
        put(&mut tree, "Names", Object::Array(tree_names));
        let mut names = Dictionary::new();
        put(&mut names, "Dests", Object::Dictionary(tree));
        put(&mut catalog, "Names", Object::Dictionary(names));
    }
    Object::Dictionary(catalog)
}

fn font_object() -> (r: Object)
    ensures
        r@ == font_value(),
{
    let mut font = Dictionary::new();
    put(&mut font, "Type", name_object("Font"));
    put(&mut font, "Subtype", name_object("Type1"));
    put(&mut font, "BaseFont", name_object("Helvetica"));
    Object::Dictionary(font)
}

/// A document of `pages`, which share a font and a size, with destinations under names and an
/// outline of `entries`.
pub fn build(pages: &Vec<Page>, named: &Vec<Named>, entries: &Vec<Entry>) -> (r: Document)
    requires
        forall|i: int| 0 <= i < named@.len() ==> (#[trigger] named@[i]).page < pages@.len(),
        entries_lead_within(entry_models(entries@), 0, pages@.len()),
        5 + 2 * pages@.len() + entry_count(entry_models(entries@), 0) < u32::MAX,
    ensures
        r.version@ == "1.7"@,
        ({
            let b = built(
                pages@.map_values(|page: Page| page@),
                named@.map_values(|name: Named| name@),
                entry_models(entries@),
            );
            &&& r.stored() == b.objects
            &&& r.max_id == b.highest
            &&& r.trailer@ == with(Seq::empty(), "Root"@, Value::Reference(numbered(b.highest)))
        }),
{
    let ghost models = entry_models(entries@);
    let mut document = Document::with_version("1.7");
    let tree_id = document.new_object_id();
    let _ = document.add_object(font_object());
    add_pages(&mut document, pages);
    document.set_object(tree_id, page_tree(pages.len()));
    let outlines_id = document.new_object_id();
    let ghost start = progress(&document);
    let first = add_entries(&mut document, outlines_id, entries, Ghost(pages@.len()));
    proof {
        lemma_entry_numbers(start, outlines_id, models);
        lemma_count_at_least(models, 0);
    }
    let mut outlines = Dictionary::new();
    put(&mut outlines, "Type", name_object("Outlines"));
    set_children(&mut outlines, first, entries.len());
    document.set_object(outlines_id, Object::Dictionary(outlines));

    let catalog = catalog_of(named, outlines_id, Ghost(pages@.len()));
    let catalog_id = document.add_object(catalog);
    put(&mut document.trailer, "Root", Object::Reference(catalog_id));
    document
}

} // verus!
