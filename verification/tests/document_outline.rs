//! `DocumentOutline` reads an outline as a flat list with each item's page and view, skips what it
//! cannot read, and bounds every walk.

use lopdf::destinations::{DestinationView, OutlineTarget};
use lopdf::document::Document;
use lopdf::document_outline::{DocumentOutline, OutlineItem, OutlineLimits};
use lopdf::lazy::document::LazyDocument;
use lopdf::lazy::file::LoadOptions;
use lopdf::number::Real;
use lopdf::object::{Dictionary, Object, ObjectId, Stream, StringFormat};

fn integer(value: i64) -> Object {
    Object::Integer(value)
}

fn name(value: &str) -> Object {
    Object::Name(value.as_bytes().to_vec())
}

fn literal(value: &str) -> Object {
    Object::String(value.as_bytes().to_vec(), StringFormat::Literal)
}

fn dictionary(entries: Vec<(&str, Object)>) -> Dictionary {
    let mut dictionary = Dictionary::new();
    for (key, value) in entries {
        dictionary.set(key.as_bytes().to_vec(), value);
    }
    dictionary
}

fn object(entries: Vec<(&str, Object)>) -> Object {
    Object::Dictionary(dictionary(entries))
}

fn real_of(value: f32) -> Real {
    Real { bits: value.to_bits() }
}

#[test]
fn nested_items_read_in_order_with_their_depth_and_view() {
    let (doc, _) = with_outline(3, |pages| {
        vec![
            item("A")
                .dest(explicit(pages[0], "XYZ", &[integer(72), integer(700), Object::Null]))
                .kids(vec![
                    item("A.1").dest(explicit(pages[1], "FitH", &[integer(500)])),
                    item("A.2")
                        .dest(explicit(pages[1], "Fit", &[]))
                        .kids(vec![item("A.2.a").dest(explicit(
                            pages[2],
                            "XYZ",
                            &[Object::Null, Object::Null, Object::Null],
                        ))]),
                ]),
            item("B").dest(explicit(
                pages[2],
                "FitR",
                &[integer(0), integer(10), integer(100), integer(110)],
            )),
        ]
    });

    let outline = DocumentOutline::read(&doc).unwrap();

    assert_eq!(
        outline.items,
        vec![
            entry(
                "A",
                0,
                Some(target(
                    1,
                    DestinationView::Xyz {
                        left: Some(real_of(72.0)),
                        top: Some(real_of(700.0)),
                        zoom: None
                    }
                ))
            ),
            entry("A.1", 1, Some(target(2, DestinationView::FitH { top: Some(real_of(500.0)) }))),
            entry("A.2", 1, Some(target(2, DestinationView::Fit))),
            entry(
                "A.2.a",
                2,
                Some(target(
                    3,
                    DestinationView::Xyz {
                        left: None,
                        top: None,
                        zoom: None
                    }
                ))
            ),
            entry(
                "B",
                0,
                Some(target(
                    3,
                    DestinationView::FitR {
                        left: real_of(0.0),
                        bottom: real_of(10.0),
                        right: real_of(100.0),
                        top: real_of(110.0)
                    }
                ))
            ),
        ]
    );
    assert_eq!(outline.skipped, 0);
    assert!(!outline.truncated);
}

#[test]
fn goto_actions_and_named_destinations_resolve_and_other_actions_do_not() {
    let (mut doc, pages) = with_outline(3, |pages| {
        vec![
            item("goto").action(dictionary(vec![("S", name("GoTo")), ("D", explicit(pages[1], "Fit", &[]))])),
            item("uri").action(dictionary(vec![("S", name("URI")), ("URI", literal("https://example.com"))])),
            item("remote").action(dictionary(vec![
                ("S", name("GoToR")),
                ("F", literal("other.pdf")),
                ("D", Object::Array(vec![integer(0), name("Fit")])),
            ])),
            item("by name").dest(name("Chapter1")),
            item("by string").dest(literal("sec2")),
            item("unknown name").dest(literal("missing")),
        ]
    });
    let leaf_low = doc.add_object(object(vec![
        ("Limits", Object::Array(vec![literal("a"), literal("m")])),
        ("Names", Object::Array(vec![literal("apple"), explicit(pages[0], "Fit", &[])])),
    ]));
    let section = doc.add_object(object(vec![("D", explicit(pages[1], "FitH", &[integer(300)]))]));
    let leaf_high = doc.add_object(object(vec![
        ("Limits", Object::Array(vec![literal("n"), literal("z")])),
        ("Names", Object::Array(vec![literal("sec2"), Object::Reference(section)])),
    ]));
    let dests_tree = doc.add_object(object(vec![(
        "Kids",
        Object::Array(vec![Object::Reference(leaf_low), Object::Reference(leaf_high)]),
    )]));
    set_in_catalog(
        &mut doc,
        "Dests",
        object(vec![(
            "Chapter1",
            explicit(pages[2], "XYZ", &[integer(0), integer(600), integer(0)]),
        )]),
    );
    set_in_catalog(&mut doc, "Names", object(vec![("Dests", Object::Reference(dests_tree))]));

    let outline = DocumentOutline::read(&doc).unwrap();

    let targets: Vec<(&str, Option<OutlineTarget>)> = outline
        .items
        .iter()
        .map(|item| (item.title.as_str(), item.target))
        .collect();
    assert_eq!(
        targets,
        vec![
            ("goto", Some(target(2, DestinationView::Fit))),
            ("uri", None),
            ("remote", None),
            (
                "by name",
                Some(target(
                    3,
                    DestinationView::Xyz {
                        left: Some(real_of(0.0)),
                        top: Some(real_of(600.0)),
                        zoom: Some(real_of(0.0))
                    }
                ))
            ),
            ("by string", Some(target(2, DestinationView::FitH { top: Some(real_of(300.0)) }))),
            ("unknown name", None),
        ]
    );
}

#[test]
fn titles_decode_from_every_text_encoding() {
    let (doc, _) = with_outline(1, |_| {
        vec![
            titled(Object::String(
                b"\xFE\xFF\x00C\x00a\x00f\x00\xE9".to_vec(),
                StringFormat::Hexadecimal,
            )),
            titled(Object::String(
                b"\xFF\xFEC\x00a\x00f\x00\xE9\x00".to_vec(),
                StringFormat::Hexadecimal,
            )),
            titled(Object::String(
                b"\xEF\xBB\xBFCaf\xC3\xA9".to_vec(),
                StringFormat::Literal,
            )),
            titled(Object::String(b"Caf\xE9 \x84 dash".to_vec(), StringFormat::Literal)),
            titled(literal("  padded\r\n")),
            titled(Object::String(b"Two-line\rheading".to_vec(), StringFormat::Literal)),
            titled(Object::String(
                b"\xFE\xFF\x00A\x00\n\x00\n\x00B".to_vec(),
                StringFormat::Hexadecimal,
            )),
        ]
    });

    let titles: Vec<String> = DocumentOutline::read(&doc)
        .unwrap()
        .items
        .into_iter()
        .map(|item| item.title)
        .collect();

    assert_eq!(
        titles,
        [
            "Café",
            "Café",
            "Café",
            "Café \u{2014} dash",
            "padded",
            "Two-line heading",
            "A B"
        ]
    );
}

#[test]
fn page_indices_count_from_zero_and_other_targets_leave_the_item_without_one() {
    let (mut doc, _) = with_outline(3, |pages| {
        vec![
            item("page index").dest(Object::Array(vec![integer(1), name("Fit")])),
            item("index past the end").dest(Object::Array(vec![integer(99), name("Fit")])),
            item("no view").dest(Object::Array(vec![Object::Reference(pages[0])])),
            item("not a page"),
        ]
    });
    let not_a_page = doc.add_object(object(vec![("Type", name("Font"))]));
    let last_item = top_level_item_ids(&doc)[3];
    set_entry_of(
        &mut doc,
        last_item,
        "Dest",
        Object::Array(vec![Object::Reference(not_a_page), name("Fit")]),
    );

    let outline = DocumentOutline::read(&doc).unwrap();

    let targets: Vec<Option<OutlineTarget>> = outline.items.iter().map(|item| item.target).collect();
    assert_eq!(
        targets,
        [
            Some(target(2, DestinationView::Fit)),
            None,
            Some(target(1, DestinationView::Unknown)),
            None
        ]
    );
}

#[test]
fn cycles_end_the_walk_and_are_counted() {
    let (mut doc, _) = with_outline(1, |_| vec![item("A"), item("B").kids(vec![item("B.1")])]);
    let first = first_item_id(&doc);
    let second = doc
        .get_dictionary(first)
        .unwrap()
        .get(b"Next")
        .unwrap()
        .as_reference()
        .unwrap();
    let child = doc
        .get_dictionary(second)
        .unwrap()
        .get(b"First")
        .unwrap()
        .as_reference()
        .unwrap();
    // B.1 leads back to A as its next sibling, and to B as its child.
    set_entry_of(&mut doc, child, "Next", Object::Reference(first));
    set_entry_of(&mut doc, child, "First", Object::Reference(second));

    let outline = DocumentOutline::read(&doc).unwrap();

    let titles: Vec<&str> = outline.items.iter().map(|item| item.title.as_str()).collect();
    assert_eq!(titles, ["A", "B", "B.1"]);
    assert_eq!(outline.skipped, 2);
}

#[test]
fn a_cyclic_name_tree_ends_the_lookup() {
    let (mut doc, _) = with_outline(1, |_| vec![item("named").dest(literal("x"))]);
    let tree = doc.new_object_id();
    doc.set_object(tree, object(vec![("Kids", Object::Array(vec![Object::Reference(tree)]))]));
    set_in_catalog(&mut doc, "Names", object(vec![("Dests", Object::Reference(tree))]));

    let outline = DocumentOutline::read(&doc).unwrap();

    assert_eq!(outline.items.len(), 1);
    assert_eq!(outline.items[0].target, None);
}

#[test]
fn limits_truncate_the_walk() {
    let (deep, _) = with_outline(1, |_| {
        vec![item("0").kids(vec![item("1").kids(vec![item("2").kids(vec![item("3")])])])]
    });
    let shallow = DocumentOutline::read_with_limits(
        &deep,
        OutlineLimits {
            max_depth: 2,
            max_items: 100,
        },
    )
    .unwrap();
    assert_eq!(shallow.items.iter().map(|item| item.depth).collect::<Vec<_>>(), [0, 1]);
    assert!(shallow.truncated);

    let (wide, _) = with_outline(1, |_| (0..5).map(|index| item(&index.to_string())).collect());
    let short = DocumentOutline::read_with_limits(
        &wide,
        OutlineLimits {
            max_depth: 32,
            max_items: 3,
        },
    )
    .unwrap();
    assert_eq!(short.items.len(), 3);
    assert!(short.truncated);
}

#[test]
fn a_document_without_an_outline_has_no_items() {
    let (mut doc, _) = with_outline(1, |_| Vec::new());
    assert_eq!(DocumentOutline::read(&doc).unwrap(), DocumentOutline::default());

    let catalog_id = doc.trailer.get(b"Root").unwrap().as_reference().unwrap();
    let mut catalog = doc.catalog().unwrap().clone();
    catalog.remove(b"Outlines");
    doc.set_object(catalog_id, Object::Dictionary(catalog));
    assert_eq!(DocumentOutline::read(&doc).unwrap(), DocumentOutline::default());
}

#[test]
fn an_item_without_a_title_is_skipped_but_its_children_are_read() {
    let (mut doc, _) = with_outline(1, |_| vec![item("parent").kids(vec![item("child")]), item("next")]);
    let first = first_item_id(&doc);
    let mut node = doc.get_dictionary(first).unwrap().clone();
    node.remove(b"Title");
    doc.set_object(first, Object::Dictionary(node));

    let outline = DocumentOutline::read(&doc).unwrap();

    let read: Vec<(&str, usize)> = outline
        .items
        .iter()
        .map(|item| (item.title.as_str(), item.depth))
        .collect();
    assert_eq!(read, [("child", 1), ("next", 0)]);
    assert_eq!(outline.skipped, 1);
}

#[test]
fn the_lazy_and_eager_documents_read_the_same_outline() {
    for streams in [false, true] {
        let (doc, _) = with_outline(4, |pages| {
            vec![
                item("One")
                    .dest(explicit(pages[0], "XYZ", &[integer(0), integer(720), Object::Null]))
                    .kids(vec![item("One.a").dest(explicit(pages[1], "FitH", &[integer(400)]))]),
                item("Two").action(dictionary(vec![("S", name("GoTo")), ("D", explicit(pages[3], "Fit", &[]))])),
            ]
        });
        let bytes = if streams { saved_with_streams(&doc, true) } else { saved(&doc) };

        let eager = DocumentOutline::read(&doc).unwrap();
        let lazy =
            DocumentOutline::read(&LazyDocument::from_source(bytes.as_slice(), LoadOptions::default()).unwrap())
                .unwrap();

        assert_eq!(eager.items.len(), 3);
        assert_eq!(lazy, eager);
    }
}

struct Item {
    title: Option<Object>,
    dest: Option<Object>,
    action: Option<Dictionary>,
    kids: Vec<Item>,
}

fn item(title: &str) -> Item {
    titled(literal(title))
}

fn titled(title: Object) -> Item {
    Item {
        title: Some(title),
        dest: None,
        action: None,
        kids: Vec::new(),
    }
}

impl Item {
    fn dest(mut self, dest: Object) -> Self {
        self.dest = Some(dest);
        self
    }

    fn action(mut self, action: Dictionary) -> Self {
        self.action = Some(action);
        self
    }

    fn kids(mut self, kids: Vec<Item>) -> Self {
        self.kids = kids;
        self
    }
}

fn explicit(page: ObjectId, view: &str, args: &[Object]) -> Object {
    let mut array = vec![Object::Reference(page), name(view)];
    array.extend_from_slice(args);
    Object::Array(array)
}

fn entry(title: &str, depth: usize, target: Option<OutlineTarget>) -> OutlineItem {
    OutlineItem {
        title: title.to_owned(),
        depth,
        target,
    }
}

fn target(page: u32, view: DestinationView) -> OutlineTarget {
    OutlineTarget { page, view }
}

/// A document of `page_count` pages whose outline holds the items `items` builds from the page
/// ids.
fn with_outline(page_count: usize, items: impl FnOnce(&[ObjectId]) -> Vec<Item>) -> (Document, Vec<ObjectId>) {
    let mut doc = Document::with_version("1.7");
    let pages_id = doc.new_object_id();
    let page_ids: Vec<ObjectId> = (0..page_count)
        .map(|_| {
            doc.add_object(object(vec![
                ("Type", name("Page")),
                ("Parent", Object::Reference(pages_id)),
            ]))
        })
        .collect();
    doc.set_object(
        pages_id,
        object(vec![
            ("Type", name("Pages")),
            ("Count", integer(page_count as i64)),
            (
                "Kids",
                Object::Array(page_ids.iter().map(|id| Object::Reference(*id)).collect()),
            ),
        ]),
    );
    let outlines_id = doc.new_object_id();
    let mut outlines = dictionary(vec![("Type", name("Outlines"))]);
    if let Some((first, last)) = add_items(&mut doc, outlines_id, items(&page_ids)) {
        outlines.set(b"First".to_vec(), Object::Reference(first));
        outlines.set(b"Last".to_vec(), Object::Reference(last));
    }
    doc.set_object(outlines_id, Object::Dictionary(outlines));
    let catalog_id = doc.add_object(object(vec![
        ("Type", name("Catalog")),
        ("Pages", Object::Reference(pages_id)),
        ("Outlines", Object::Reference(outlines_id)),
    ]));
    doc.trailer.set(b"Root".to_vec(), Object::Reference(catalog_id));
    (doc, page_ids)
}

/// Adds `items` as the children of `parent`, and returns the first and last child.
fn add_items(doc: &mut Document, parent: ObjectId, items: Vec<Item>) -> Option<(ObjectId, ObjectId)> {
    let ids: Vec<ObjectId> = items.iter().map(|_| doc.new_object_id()).collect();
    for (index, item) in items.into_iter().enumerate() {
        let mut node = dictionary(vec![("Parent", Object::Reference(parent))]);
        if let Some(title) = item.title {
            node.set(b"Title".to_vec(), title);
        }
        if index > 0 {
            node.set(b"Prev".to_vec(), Object::Reference(ids[index - 1]));
        }
        if let Some(next) = ids.get(index + 1) {
            node.set(b"Next".to_vec(), Object::Reference(*next));
        }
        if let Some(dest) = item.dest {
            node.set(b"Dest".to_vec(), dest);
        }
        if let Some(action) = item.action {
            node.set(b"A".to_vec(), Object::Dictionary(action));
        }
        if let Some((first, last)) = add_items(doc, ids[index], item.kids) {
            node.set(b"First".to_vec(), Object::Reference(first));
            node.set(b"Last".to_vec(), Object::Reference(last));
        }
        doc.set_object(ids[index], Object::Dictionary(node));
    }
    Some((*ids.first()?, *ids.last()?))
}

fn set_entry_of(doc: &mut Document, id: ObjectId, key: &str, value: Object) {
    let mut node = doc.get_dictionary(id).unwrap().clone();
    node.set(key.as_bytes().to_vec(), value);
    doc.set_object(id, Object::Dictionary(node));
}

fn set_in_catalog(doc: &mut Document, key: &str, value: Object) {
    let catalog_id = doc.trailer.get(b"Root").unwrap().as_reference().unwrap();
    set_entry_of(doc, catalog_id, key, value);
}

fn first_item_id(doc: &Document) -> ObjectId {
    let outlines = doc.catalog().unwrap().get(b"Outlines").unwrap().as_reference().unwrap();
    doc.get_dictionary(outlines)
        .unwrap()
        .get(b"First")
        .unwrap()
        .as_reference()
        .unwrap()
}

fn top_level_item_ids(doc: &Document) -> Vec<ObjectId> {
    let mut ids = vec![first_item_id(doc)];
    while let Ok(next) = doc
        .get_dictionary(*ids.last().unwrap())
        .unwrap()
        .get(b"Next")
        .and_then(Object::as_reference)
    {
        ids.push(next);
    }
    ids
}

/// Writes an object the way a PDF file holds it.
fn write_object(out: &mut Vec<u8>, object: &Object) {
    match object {
        Object::Null => out.extend_from_slice(b"null"),
        Object::Boolean(b) => out.extend_from_slice(if *b { b"true" } else { b"false" }),
        Object::Integer(i) => out.extend_from_slice(i.to_string().as_bytes()),
        Object::Real(r) => out.extend_from_slice(format!("{:?}", f32::from_bits(r.bits)).as_bytes()),
        Object::Name(name) => {
            out.push(b'/');
            out.extend_from_slice(name);
        }
        Object::String(bytes, _) => {
            out.push(b'<');
            for byte in bytes {
                out.extend_from_slice(format!("{byte:02X}").as_bytes());
            }
            out.push(b'>');
        }
        Object::Array(items) => {
            out.push(b'[');
            for item in items {
                write_object(out, item);
                out.push(b' ');
            }
            out.push(b']');
        }
        Object::Dictionary(dictionary) => write_dictionary(out, dictionary),
        Object::Stream(stream) => {
            let mut dict = stream.dict.clone();
            dict.set(b"Length".to_vec(), Object::Integer(stream.content.len() as i64));
            write_dictionary(out, &dict);
            out.extend_from_slice(b"\nstream\n");
            out.extend_from_slice(&stream.content);
            out.extend_from_slice(b"\nendstream");
        }
        Object::Reference(id) => out.extend_from_slice(format!("{} {} R", id.0, id.1).as_bytes()),
    }
}

fn write_dictionary(out: &mut Vec<u8>, dictionary: &Dictionary) {
    out.extend_from_slice(b"<<");
    for (key, value) in &dictionary.entries {
        out.push(b'/');
        out.extend_from_slice(key);
        out.push(b' ');
        write_object(out, value);
        out.push(b' ');
    }
    out.extend_from_slice(b">>");
}

/// Writes `doc` with a cross-reference table.
fn saved(doc: &Document) -> Vec<u8> {
    let mut out = format!("%PDF-{}\n", doc.version).into_bytes();
    let mut offsets = Vec::new();
    for number in 1..=doc.max_id {
        if let Some(object) = doc.objects.get((number, 0)) {
            offsets.push(Some(out.len()));
            out.extend_from_slice(format!("{number} 0 obj\n").as_bytes());
            write_object(&mut out, object);
            out.extend_from_slice(b"\nendobj\n");
        } else {
            offsets.push(None);
        }
    }
    let start = out.len();
    out.extend_from_slice(format!("xref\n0 {}\n0000000000 65535 f \n", doc.max_id + 1).as_bytes());
    for offset in offsets {
        match offset {
            Some(offset) => out.extend_from_slice(format!("{offset:010} 00000 n \n").as_bytes()),
            None => out.extend_from_slice(b"0000000000 00000 f \n"),
        }
    }
    let mut trailer = doc.trailer.clone();
    trailer.set(b"Size".to_vec(), Object::Integer(doc.max_id as i64 + 1));
    out.extend_from_slice(b"trailer\n");
    write_dictionary(&mut out, &trailer);
    out.extend_from_slice(format!("\nstartxref\n{start}\n%%EOF\n").as_bytes());
    out
}

/// Writes `doc` with a cross-reference stream, and with its objects in an object stream if `packed`.
fn saved_with_streams(doc: &Document, packed: bool) -> Vec<u8> {
    let mut out = format!("%PDF-{}\n", doc.version).into_bytes();
    let container = doc.max_id + 1;
    let table = doc.max_id + 2;
    let mut rows: Vec<(u8, u32, u16)> = vec![(0, 0, 0); table as usize + 1];
    let mut index = String::new();
    let mut held = Vec::new();
    let mut count = 0u16;
    for number in 1..=doc.max_id {
        let object = match doc.objects.get((number, 0)) {
            Some(object) => object,
            None => continue,
        };
        if packed && !matches!(object, Object::Stream(_)) {
            index.push_str(&format!("{number} {} ", held.len()));
            write_object(&mut held, object);
            held.push(b' ');
            rows[number as usize] = (2, container, count);
            count += 1;
        } else {
            rows[number as usize] = (1, out.len() as u32, 0);
            out.extend_from_slice(format!("{number} 0 obj\n").as_bytes());
            write_object(&mut out, object);
            out.extend_from_slice(b"\nendobj\n");
        }
    }
    if count > 0 {
        rows[container as usize] = (1, out.len() as u32, 0);
        let first = index.len();
        let mut content = index.into_bytes();
        content.extend_from_slice(&held);
        let mut dict = Dictionary::new();
        dict.set(b"Type".to_vec(), Object::Name(b"ObjStm".to_vec()));
        dict.set(b"N".to_vec(), Object::Integer(count as i64));
        dict.set(b"First".to_vec(), Object::Integer(first as i64));
        out.extend_from_slice(format!("{container} 0 obj\n").as_bytes());
        write_object(&mut out, &Object::Stream(Stream { dict, content }));
        out.extend_from_slice(b"\nendobj\n");
    }
    let start = out.len();
    rows[table as usize] = (1, start as u32, 0);
    let mut content = Vec::new();
    for (kind, field, last) in &rows {
        content.push(*kind);
        content.extend_from_slice(&field.to_be_bytes());
        content.extend_from_slice(&last.to_be_bytes());
    }
    let mut dict = doc.trailer.clone();
    dict.set(b"Type".to_vec(), Object::Name(b"XRef".to_vec()));
    dict.set(b"Size".to_vec(), Object::Integer(table as i64 + 1));
    dict.set(
        b"W".to_vec(),
        Object::Array(vec![Object::Integer(1), Object::Integer(4), Object::Integer(2)]),
    );
    out.extend_from_slice(format!("{table} 0 obj\n").as_bytes());
    write_object(&mut out, &Object::Stream(Stream { dict, content }));
    out.extend_from_slice(format!("\nendobj\nstartxref\n{start}\n%%EOF\n").as_bytes());
    out
}
