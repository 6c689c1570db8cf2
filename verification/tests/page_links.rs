//! `PageLinkReader` reads a page's link annotations: where each sits, one rectangle per line of a
//! link that wraps, and where it leads, through the same destinations the outline resolves. What
//! a reader cannot follow is skipped and counted, and a long `/Annots` is bounded.

use lopdf::destinations::{DestinationView, OutlineTarget};
use lopdf::document::Document;
use lopdf::lazy::document::LazyDocument;
use lopdf::lazy::file::LoadOptions;
use lopdf::number::Real;
use lopdf::object::{Dictionary, Object, ObjectId, Stream, StringFormat};
use lopdf::page_geometry::PageRect;
use lopdf::page_links::{LinkTarget, PageLink, PageLinkLimits, PageLinkReader, PageLinks};
use lopdf::resolver::ObjectResolver;

fn integer(value: i64) -> Object {
    Object::Integer(value)
}

fn name(value: &str) -> Object {
    Object::Name(value.as_bytes().to_vec())
}

fn literal(value: &str) -> Object {
    Object::String(value.as_bytes().to_vec(), StringFormat::Literal)
}

fn dictionary(entries: Vec<(&str, Object)>) -> Dictionary {
    let mut dictionary = Dictionary::new();
    for (key, value) in entries {
        dictionary.set(key.as_bytes().to_vec(), value);
    }
    dictionary
}

fn object(entries: Vec<(&str, Object)>) -> Object {
    Object::Dictionary(dictionary(entries))
}

#[test]
fn goto_links_lead_to_their_page_and_view() {
    let (doc, _) = with_links(3, |pages| {
        vec![
            link(rect(10, 700, 200, 720)).with(
                "Dest",
                explicit(pages[1], "XYZ", &[Object::Null, integer(600), Object::Null]),
            ),
            link(rect(10, 650, 200, 670)).with(
                "A",
                object(vec![("S", name("GoTo")), ("D", explicit(pages[2], "FitH", &[integer(400)]))]),
            ),
            // Some producers write the page as an index counted from zero.
            link(rect(10, 600, 200, 620)).with("Dest", Object::Array(vec![integer(1), name("Fit")])),
        ]
    });

    let links = read(&doc, 1);

    assert_eq!(
        links.links,
        vec![
            to_page(
                rect_of(10.0, 700.0, 200.0, 720.0),
                2,
                DestinationView::Xyz {
                    left: None,
                    top: Some(real_of(600.0)),
                    zoom: None
                }
            ),
            to_page(
                rect_of(10.0, 650.0, 200.0, 670.0),
                3,
                DestinationView::FitH { top: Some(real_of(400.0)) }
            ),
            to_page(rect_of(10.0, 600.0, 200.0, 620.0), 2, DestinationView::Fit),
        ]
    );
    assert_eq!(links.skipped, 0);
    assert!(!links.truncated);
}

#[test]
fn named_destinations_resolve_through_the_catalog_and_its_name_tree() {
    // The contents page of a long book names its chapters, and a long book keeps its names in a
    // tree with kids rather than one flat list.
    let (doc, _) = with_links(3, |_| {
        vec![
            link(rect(10, 700, 200, 720)).with(
                "A",
                object(vec![("S", name("GoTo")), ("D", literal("chapter.two"))]),
            ),
            link(rect(10, 650, 200, 670)).with("Dest", Object::Name(b"old.style".to_vec())),
        ]
    });
    let doc = with_catalog(doc, |doc, pages| {
        let leaf = doc.add_object(object(vec![
            ("Limits", Object::Array(vec![literal("chapter.one"), literal("chapter.two")])),
            (
                "Names",
                Object::Array(vec![
                    literal("chapter.one"),
                    explicit(pages[1], "Fit", &[]),
                    literal("chapter.two"),
                    explicit(pages[2], "Fit", &[]),
                ]),
            ),
        ]));
        let tree = doc.add_object(object(vec![("Kids", Object::Array(vec![Object::Reference(leaf)]))]));
        dictionary(vec![
            ("Names", object(vec![("Dests", Object::Reference(tree))])),
            // PDF 1.1's catalog dictionary of names, which some producers still write.
            (
                "Dests",
                object(vec![("old.style", object(vec![("D", explicit(pages[1], "Fit", &[]))]))]),
            ),
        ])
    });

    let links = read(&doc, 1);

    assert_eq!(
        links.links,
        vec![
            to_page(rect_of(10.0, 700.0, 200.0, 720.0), 3, DestinationView::Fit),
            to_page(rect_of(10.0, 650.0, 200.0, 670.0), 2, DestinationView::Fit),
        ]
    );
}

#[test]
fn web_links_keep_their_address() {
    let (doc, _) = with_links(1, |_| {
        vec![link(rect(10, 700, 200, 720)).with(
            "A",
            object(vec![("S", name("URI")), ("URI", literal(" http://www.hoddereducation.co.uk "))]),
        )]
    });

    assert_eq!(
        read(&doc, 1).links,
        vec![PageLink {
            rects: vec![rect_of(10.0, 700.0, 200.0, 720.0)],
            target: LinkTarget::Uri("http://www.hoddereducation.co.uk".to_owned()),
        }]
    );
}

#[test]
fn a_link_that_wraps_has_a_rectangle_for_each_line() {
    let (doc, _) = with_links(2, |pages| {
        let to_two = explicit(pages[1], "Fit", &[]);
        vec![
            // Two lines, each written as a quadrilateral whose corners come in any order.
            link(rect(10, 600, 300, 720)).with("Dest", to_two.clone()).with(
                "QuadPoints",
                numbers(&[
                    200, 720, 300, 720, 200, 700, 300, 700, 10, 690, 120, 690, 10, 670, 120, 670,
                ]),
            ),
            // A quadrilateral with a hole in it is no rectangle at all, so the link's /Rect stands.
            link(rect(10, 600, 300, 620)).with("Dest", to_two).with(
                "QuadPoints",
                Object::Array(vec![
                    integer(10),
                    name("x"),
                    integer(3),
                    integer(4),
                    integer(5),
                    integer(6),
                    integer(7),
                    integer(8),
                ]),
            ),
        ]
    });

    let rects: Vec<Vec<PageRect>> = read(&doc, 1).links.into_iter().map(|link| link.rects).collect();

    assert_eq!(
        rects,
        vec![
            vec![rect_of(200.0, 700.0, 300.0, 720.0), rect_of(10.0, 670.0, 120.0, 690.0)],
            vec![rect_of(10.0, 600.0, 300.0, 620.0)],
        ]
    );
}

#[test]
fn links_a_reader_cannot_follow_are_skipped_and_counted() {
    let (doc, _) = with_links(1, |pages| {
        let to_one = explicit(pages[0], "Fit", &[]);
        vec![
            link(rect(10, 700, 200, 720)).with("Dest", to_one.clone()).with("F", integer(2)),
            link(rect(10, 700, 200, 720)).with("Dest", to_one.clone()).with("F", integer(32)),
            link(rect(10, 700, 200, 720)).with(
                "A",
                object(vec![("S", name("GoToR")), ("F", literal("other.pdf"))]),
            ),
            link(rect(10, 700, 200, 720)).with("Dest", Object::Array(vec![integer(40), name("Fit")])),
            link(rect(10, 700, 10, 720)).with("Dest", to_one.clone()),
            object(vec![("Type", name("Annot")), ("Subtype", name("Link")), ("Dest", to_one)]),
            // Not a link, so neither read nor counted.
            object(vec![("Type", name("Annot")), ("Subtype", name("Text")), ("Rect", rect(0, 0, 10, 10))]),
        ]
    });

    let links = read(&doc, 1);

    assert!(links.links.is_empty());
    assert_eq!(links.skipped, 6);
}

#[test]
fn annots_may_be_referenced_and_hold_annotations_in_place() {
    let (mut doc, pages) = with_links(2, |_| Vec::new());
    let to_two = explicit(pages[1], "Fit", &[]);
    let referenced = doc.add_object(link(rect(10, 650, 200, 670)).with("Dest", to_two.clone()));
    let annots = doc.add_object(Object::Array(vec![
        Object::Reference(referenced),
        link(rect(10, 700, 200, 720)).with("Dest", to_two),
    ]));
    set_entry_of(&mut doc, pages[0], "Annots", Object::Reference(annots));

    assert_eq!(read(&doc, 1).links.len(), 2);
}

#[test]
fn a_page_without_links_and_a_page_outside_the_document_have_none() {
    let (doc, _) = with_links(2, |_| Vec::new());
    let mut reader = PageLinkReader::new(&doc).unwrap();

    assert_eq!(reader.page_count(), 2);
    assert_eq!(reader.read(2).unwrap(), PageLinks::default());
    assert_eq!(reader.read(0).unwrap(), PageLinks::default());
    assert_eq!(reader.read(3).unwrap(), PageLinks::default());
}

#[test]
fn a_long_annots_is_read_up_to_the_limit() {
    let (doc, _) = with_links(1, |pages| {
        (0..3)
            .map(|_| link(rect(10, 700, 200, 720)).with("Dest", explicit(pages[0], "Fit", &[])))
            .collect()
    });
    let limits = PageLinkLimits {
        max_annotations: 2,
        ..PageLinkLimits::default()
    };

    let links = PageLinkReader::with_limits(&doc, limits).unwrap().read(1).unwrap();

    assert_eq!(links.links.len(), 2);
    assert!(links.truncated);
}

#[test]
fn the_lazy_and_eager_documents_read_the_same_links() {
    for streams in [false, true] {
        let (doc, _) = with_links(3, |pages| {
            vec![
                link(rect(10, 700, 200, 720))
                    .with("Dest", explicit(pages[2], "XYZ", &[integer(0), integer(500), Object::Null])),
                link(rect(10, 650, 200, 670)).with(
                    "A",
                    object(vec![("S", name("URI")), ("URI", literal("https://example.com"))]),
                ),
            ]
        });
        let bytes = if streams { saved_with_streams(&doc, true) } else { saved(&doc) };

        let lazy_doc = LazyDocument::from_source(bytes.as_slice(), LoadOptions::default()).unwrap();
        let eager = PageLinkReader::new(&doc).unwrap().read(1).unwrap();
        let lazy = PageLinkReader::new(&lazy_doc).unwrap().read(1).unwrap();

        assert_eq!(eager.links.len(), 2);
        assert_eq!(lazy, eager);
    }
}

fn real_of(value: f32) -> Real {
    Real { bits: value.to_bits() }
}

fn read(doc: &Document, page: u32) -> PageLinks {
    PageLinkReader::new(doc).unwrap().read(page).unwrap()
}

/// A link annotation over `rect`, written in place in `/Annots`.
fn link(rect: Object) -> Object {
    object(vec![("Type", name("Annot")), ("Subtype", name("Link")), ("Rect", rect)])
}

trait With {
    /// The annotation with `key` set to `value`.
    fn with(self, key: &str, value: Object) -> Self;
}

impl With for Object {
    fn with(self, key: &str, value: Object) -> Self {
        let mut dictionary = self.as_dict().unwrap().clone();
        dictionary.set(key.as_bytes().to_vec(), value);
        Object::Dictionary(dictionary)
    }
}

fn to_page(rect: PageRect, page: u32, view: DestinationView) -> PageLink {
    PageLink {
        rects: vec![rect],
        target: LinkTarget::Page(OutlineTarget { page, view }),
    }
}

fn explicit(page: ObjectId, view: &str, args: &[Object]) -> Object {
    let mut array = vec![Object::Reference(page), Object::Name(view.as_bytes().to_vec())];
    array.extend_from_slice(args);
    Object::Array(array)
}

fn rect(left: i64, bottom: i64, right: i64, top: i64) -> Object {
    Object::Array(vec![integer(left), integer(bottom), integer(right), integer(top)])
}

fn numbers(values: &[i64]) -> Object {
    Object::Array(values.iter().map(|value| integer(*value)).collect())
}

fn rect_of(left: f32, bottom: f32, right: f32, top: f32) -> PageRect {
    PageRect {
        left: real_of(left),
        bottom: real_of(bottom),
        right: real_of(right),
        top: real_of(top),
    }
}

fn set_entry_of(doc: &mut Document, id: ObjectId, key: &str, value: Object) {
    let mut node = doc.get_dictionary(id).unwrap().clone();
    node.set(key.as_bytes().to_vec(), value);
    doc.set_object(id, Object::Dictionary(node));
}

/// A document of `page_count` pages whose first page carries the annotations `annots` builds from
/// the page ids.
fn with_links(
    page_count: usize, annots: impl FnOnce(&[ObjectId]) -> Vec<Object>,
) -> (Document, Vec<ObjectId>) {
    let mut doc = Document::with_version("1.7");
    let tree_id = doc.new_object_id();
    let pages: Vec<ObjectId> = (0..page_count)
        .map(|_| {
            doc.add_object(object(vec![
                ("Type", name("Page")),
                ("Parent", Object::Reference(tree_id)),
                ("MediaBox", rect(0, 0, 600, 800)),
            ]))
        })
        .collect();
    doc.set_object(
        tree_id,
        object(vec![
            ("Type", name("Pages")),
            ("Count", integer(page_count as i64)),
            ("Kids", Object::Array(pages.iter().copied().map(Object::Reference).collect())),
        ]),
    );
    let annots = annots(&pages);
    if !annots.is_empty() {
        set_entry_of(&mut doc, pages[0], "Annots", Object::Array(annots));
    }
    let catalog = doc.add_object(object(vec![("Type", name("Catalog")), ("Pages", Object::Reference(tree_id))]));
    doc.trailer.set(b"Root".to_vec(), Object::Reference(catalog));
    (doc, pages)
}

/// `doc` with the entries `entries` builds added to its catalog.
fn with_catalog(mut doc: Document, entries: impl FnOnce(&mut Document, &[ObjectId]) -> Dictionary) -> Document {
    let pages: Vec<ObjectId> = doc.page_ids().unwrap();
    let entries = entries(&mut doc, &pages);
    let catalog = doc.trailer.get(b"Root").unwrap().as_reference().unwrap();
    for (key, value) in entries.entries {
        set_entry_of(&mut doc, catalog, std::str::from_utf8(&key).unwrap(), value);
    }
    doc
}

/// Writes an object the way a PDF file holds it.
fn write_object(out: &mut Vec<u8>, object: &Object) {
    match object {
        Object::Null => out.extend_from_slice(b"null"),
        Object::Boolean(b) => out.extend_from_slice(if *b { b"true" } else { b"false" }),
        Object::Integer(i) => out.extend_from_slice(i.to_string().as_bytes()),
        Object::Real(r) => out.extend_from_slice(format!("{:?}", f32::from_bits(r.bits)).as_bytes()),
        Object::Name(name) => {
            out.push(b'/');
            out.extend_from_slice(name);
        }
        Object::String(bytes, _) => {
            out.push(b'<');
            for byte in bytes {
                out.extend_from_slice(format!("{byte:02X}").as_bytes());
            }
            out.push(b'>');
        }
        Object::Array(items) => {
            out.push(b'[');
            for item in items {
                write_object(out, item);
                out.push(b' ');
            }
            out.push(b']');
        }
        Object::Dictionary(dictionary) => write_dictionary(out, dictionary),
        Object::Stream(stream) => {
            let mut dict = stream.dict.clone();
            dict.set(b"Length".to_vec(), Object::Integer(stream.content.len() as i64));
            write_dictionary(out, &dict);
            out.extend_from_slice(b"\nstream\n");
            out.extend_from_slice(&stream.content);
            out.extend_from_slice(b"\nendstream");
        }
        Object::Reference(id) => out.extend_from_slice(format!("{} {} R", id.0, id.1).as_bytes()),
    }
}

fn write_dictionary(out: &mut Vec<u8>, dictionary: &Dictionary) {
    out.extend_from_slice(b"<<");
    for (key, value) in &dictionary.entries {
        out.push(b'/');
        out.extend_from_slice(key);
        out.push(b' ');
        write_object(out, value);
        out.push(b' ');
    }
    out.extend_from_slice(b">>");
}

/// Writes `doc` with a cross-reference table.
fn saved(doc: &Document) -> Vec<u8> {
    let mut out = format!("%PDF-{}\n", doc.version).into_bytes();
    let mut offsets = Vec::new();
    for number in 1..=doc.max_id {
        if let Some(object) = doc.objects.get((number, 0)) {
            offsets.push(Some(out.len()));
            out.extend_from_slice(format!("{number} 0 obj\n").as_bytes());
            write_object(&mut out, object);
            out.extend_from_slice(b"\nendobj\n");
        } else {
            offsets.push(None);
        }
    }
    let start = out.len();
    out.extend_from_slice(format!("xref\n0 {}\n0000000000 65535 f \n", doc.max_id + 1).as_bytes());
    for offset in offsets {
        match offset {
            Some(offset) => out.extend_from_slice(format!("{offset:010} 00000 n \n").as_bytes()),
            None => out.extend_from_slice(b"0000000000 00000 f \n"),
        }
    }
    let mut trailer = doc.trailer.clone();
    trailer.set(b"Size".to_vec(), Object::Integer(doc.max_id as i64 + 1));
    out.extend_from_slice(b"trailer\n");
    write_dictionary(&mut out, &trailer);
    out.extend_from_slice(format!("\nstartxref\n{start}\n%%EOF\n").as_bytes());
    out
}

/// Writes `doc` with a cross-reference stream, and with its objects in an object stream if `packed`.
fn saved_with_streams(doc: &Document, packed: bool) -> Vec<u8> {
    let mut out = format!("%PDF-{}\n", doc.version).into_bytes();
    let container = doc.max_id + 1;
    let table = doc.max_id + 2;
    let mut rows: Vec<(u8, u32, u16)> = vec![(0, 0, 0); table as usize + 1];
    let mut index = String::new();
    let mut held = Vec::new();
    let mut count = 0u16;
    for number in 1..=doc.max_id {
        let object = match doc.objects.get((number, 0)) {
            Some(object) => object,
            None => continue,
        };
        if packed && !matches!(object, Object::Stream(_)) {
            index.push_str(&format!("{number} {} ", held.len()));
            write_object(&mut held, object);
            held.push(b' ');
            rows[number as usize] = (2, container, count);
            count += 1;
        } else {
            rows[number as usize] = (1, out.len() as u32, 0);
            out.extend_from_slice(format!("{number} 0 obj\n").as_bytes());
            write_object(&mut out, object);
            out.extend_from_slice(b"\nendobj\n");
        }
    }
    if count > 0 {
        rows[container as usize] = (1, out.len() as u32, 0);
        let first = index.len();
        let mut content = index.into_bytes();
        content.extend_from_slice(&held);
        let mut dict = Dictionary::new();
        dict.set(b"Type".to_vec(), Object::Name(b"ObjStm".to_vec()));
        dict.set(b"N".to_vec(), Object::Integer(count as i64));
        dict.set(b"First".to_vec(), Object::Integer(first as i64));
        out.extend_from_slice(format!("{container} 0 obj\n").as_bytes());
        write_object(&mut out, &Object::Stream(Stream { dict, content }));
        out.extend_from_slice(b"\nendobj\n");
    }
    let start = out.len();
    rows[table as usize] = (1, start as u32, 0);
    let mut content = Vec::new();
    for (kind, field, last) in &rows {
        content.push(*kind);
        content.extend_from_slice(&field.to_be_bytes());
        content.extend_from_slice(&last.to_be_bytes());
    }
    let mut dict = doc.trailer.clone();
    dict.set(b"Type".to_vec(), Object::Name(b"XRef".to_vec()));
    dict.set(b"Size".to_vec(), Object::Integer(table as i64 + 1));
    dict.set(
        b"W".to_vec(),
        Object::Array(vec![Object::Integer(1), Object::Integer(4), Object::Integer(2)]),
    );
    out.extend_from_slice(format!("{table} 0 obj\n").as_bytes());
    write_object(&mut out, &Object::Stream(Stream { dict, content }));
    out.extend_from_slice(format!("\nendobj\nstartxref\n{start}\n%%EOF\n").as_bytes());
    out
}
