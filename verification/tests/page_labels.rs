//! Page labels, read from the catalog's number tree.

use lopdf::document::Document;
use lopdf::object::{Dictionary, Object, ObjectId, StringFormat};
use lopdf::page_labels::{label, letters, roman, PageLabels};

fn integer(value: i64) -> Object {
    Object::Integer(value)
}

fn name(value: &str) -> Object {
    Object::Name(value.as_bytes().to_vec())
}

fn reference(id: ObjectId) -> Object {
    Object::Reference(id)
}

fn dictionary(entries: Vec<(&str, Object)>) -> Dictionary {
    let mut dictionary = Dictionary::new();
    for (key, value) in entries {
        dictionary.set(key.as_bytes().to_vec(), value);
    }
    dictionary
}

fn object(entries: Vec<(&str, Object)>) -> Object {
    Object::Dictionary(dictionary(entries))
}

fn document(pages: usize, page_labels: Option<Object>) -> Document {
    let mut doc = Document::with_version("1.7");
    let tree_id = doc.new_object_id();
    let kids: Vec<Object> = (0..pages)
        .map(|_| reference(doc.add_object(object(vec![("Type", name("Page")), ("Parent", reference(tree_id))]))))
        .collect();
    doc.set_object(
        tree_id,
        object(vec![
            ("Type", name("Pages")),
            ("Kids", Object::Array(kids)),
            ("Count", integer(pages as i64)),
        ]),
    );
    let mut catalog = dictionary(vec![("Type", name("Catalog")), ("Pages", reference(tree_id))]);
    if let Some(page_labels) = page_labels {
        catalog.set(b"PageLabels".to_vec(), page_labels);
    }
    let catalog = doc.add_object(Object::Dictionary(catalog));
    doc.trailer.set(b"Root".to_vec(), reference(catalog));
    doc
}

fn set_tree(doc: &mut Document, tree: Object) {
    let catalog_id = doc.trailer.get(b"Root").unwrap().as_reference().unwrap();
    let mut catalog = doc.get_dictionary(catalog_id).unwrap().clone();
    catalog.set(b"PageLabels".to_vec(), tree);
    doc.set_object(catalog_id, Object::Dictionary(catalog));
}

fn labels(doc: &Document, pages: usize) -> Option<Vec<String>> {
    PageLabels::read(doc, pages).unwrap().map(|labels| labels.labels)
}

fn range(style: Option<&str>, prefix: Option<&str>, first: Option<i64>) -> Object {
    let mut range = Dictionary::new();
    if let Some(style) = style {
        range.set(b"S".to_vec(), name(style));
    }
    if let Some(prefix) = prefix {
        range.set(b"P".to_vec(), Object::String(prefix.as_bytes().to_vec(), StringFormat::Literal));
    }
    if let Some(first) = first {
        range.set(b"St".to_vec(), integer(first));
    }
    Object::Dictionary(range)
}

#[test]
fn a_document_without_page_labels_has_none() {
    assert_eq!(labels(&document(3, None), 3), None);
}

#[test]
fn every_style_prefix_and_start() {
    let nums = vec![
        integer(0),
        range(None, Some("Cover"), None),
        integer(1),
        range(Some("r"), None, None),
        integer(4),
        range(Some("D"), None, None),
        integer(6),
        range(Some("D"), Some("A-"), Some(9)),
        integer(8),
        range(Some("R"), None, Some(1999)),
        integer(9),
        range(Some("A"), None, Some(26)),
        integer(12),
        range(Some("a"), Some("x"), None),
    ];
    let doc = document(14, Some(object(vec![("Nums", Object::Array(nums))])));

    assert_eq!(
        labels(&doc, 14).unwrap(),
        [
            "Cover", "i", "ii", "iii", "1", "2", "A-9", "A-10", "MCMXCIX", "Z", "AA", "BB", "xa", "xb"
        ]
    );
}

#[test]
fn pages_before_the_first_range_take_their_physical_numbers() {
    let nums = vec![integer(2), range(Some("r"), None, None), integer(3), Object::Integer(7)];
    let doc = document(5, Some(object(vec![("Nums", Object::Array(nums))])));

    // A range that is not a dictionary gives physical numbers too.
    assert_eq!(labels(&doc, 5).unwrap(), ["1", "2", "i", "4", "5"]);
}

#[test]
fn kids_limits_references_and_text_string_prefixes() {
    let mut doc = document(6, None);
    let prefix = Object::String([0xfe, 0xff, 0x00, 0xc9, 0x00, 0x2d].to_vec(), StringFormat::Hexadecimal);
    let first_value = doc.add_object(integer(3));
    let late_range = doc.add_object(object(vec![("S", name("D")), ("P", prefix), ("St", reference(first_value))]));
    let first = doc.add_object(object(vec![
        ("Limits", Object::Array(vec![integer(0), integer(0)])),
        ("Nums", Object::Array(vec![integer(0), range(Some("r"), None, None)])),
    ]));
    let second = doc.add_object(object(vec![
        ("Limits", Object::Array(vec![integer(3), integer(3)])),
        ("Nums", Object::Array(vec![integer(3), reference(late_range)])),
    ]));
    let root = doc.add_object(object(vec![(
        "Kids",
        Object::Array(vec![reference(first), reference(second)]),
    )]));
    set_tree(&mut doc, reference(root));

    assert_eq!(
        labels(&doc, 6).unwrap(),
        ["i", "ii", "iii", "\u{c9}-3", "\u{c9}-4", "\u{c9}-5"]
    );
}

#[test]
fn malformed_trees_read_as_pdfium_reads_them() {
    // Out of order, scanned from the end: from index 1 on, the last key at or below it is 1.
    let unordered = object(vec![(
        "Nums",
        Object::Array(vec![
            integer(0),
            range(Some("D"), None, None),
            integer(3),
            range(Some("r"), None, None),
            integer(1),
            range(Some("A"), None, None),
        ]),
    )]);
    assert_eq!(
        labels(&document(5, Some(unordered)), 5).unwrap(),
        ["1", "A", "B", "C", "D"]
    );

    // At or past its upper limit, a node gives the range listed at that limit, and a page
    // takes its physical number when there is none.
    let mut doc = document(6, None);
    let listed = doc.add_object(object(vec![
        ("Limits", Object::Array(vec![integer(0), integer(2)])),
        (
            "Nums",
            Object::Array(vec![integer(0), range(Some("r"), None, None), integer(2), range(Some("A"), None, None)]),
        ),
    ]));
    let unlisted = doc.add_object(object(vec![
        ("Limits", Object::Array(vec![integer(4), integer(4)])),
        ("Nums", Object::Array(vec![integer(5), range(Some("D"), Some("X-"), None)])),
    ]));
    let root = doc.add_object(object(vec![(
        "Kids",
        Object::Array(vec![reference(listed), reference(unlisted)]),
    )]));
    set_tree(&mut doc, reference(root));
    assert_eq!(labels(&doc, 6).unwrap(), ["i", "ii", "A", "B", "5", "6"]);
}

#[test]
fn a_kid_listed_twice_or_in_a_cycle_is_read_once() {
    let mut doc = document(4, None);
    let root_id = doc.new_object_id();
    let leaf = doc.add_object(object(vec![(
        "Nums",
        Object::Array(vec![integer(0), range(Some("r"), None, None)]),
    )]));
    doc.set_object(
        root_id,
        object(vec![(
            "Kids",
            Object::Array(vec![reference(leaf), reference(root_id), reference(leaf)]),
        )]),
    );
    set_tree(&mut doc, reference(root_id));

    assert_eq!(labels(&doc, 4).unwrap(), ["i", "ii", "iii", "iv"]);
}

#[test]
fn roman_and_letters_follow_pdfium_at_the_edges() {
    assert_eq!(roman(0), "");
    assert_eq!(roman(-5), "");
    assert_eq!(roman(4), "iv");
    assert_eq!(roman(3999), "mmmcmxcix");
    assert_eq!(roman(1_000_001), "i");
    assert_eq!(letters(0), "");
    assert_eq!(letters(26), "z");
    assert_eq!(letters(27), "aa");
    assert_eq!(letters(53), "aaa");
}

#[test]
fn letters_below_one_and_past_the_longest() {
    assert_eq!(letters(-1), "_");
    assert_eq!(letters(-24), "H");
    assert_eq!(letters(-25), "");
    // A letter is repeated at most 999 times.
    assert_eq!(letters(26 * 999).len(), 999);
    assert_eq!(letters(26 * 999 + 1), "");
    assert_eq!(letters(26 * 1000 + 1), "a");
    assert_eq!(letters(i64::MAX), "g".repeat(301));
    assert_eq!(letters(i64::MIN), "h".repeat(301));
}

#[test]
fn a_range_starts_counting_where_it_says() {
    let range = |start: Object| dictionary(vec![("S", name("D")), ("St", start)]);
    assert_eq!(label(&range(integer(i64::MAX)), 1), i64::MAX.to_string());
    assert_eq!(label(&range(integer(i64::MIN)), 0), i64::MIN.to_string());
    assert_eq!(label(&range(Object::Null), 4), "4");
    assert_eq!(label(&dictionary(vec![("S", name("D"))]), 4), "5");
    // A prefix that does not decode is left out.
    let undecodable = Object::String(vec![0xfe, 0xff, 0xd8, 0x00], StringFormat::Literal);
    assert_eq!(label(&dictionary(vec![("P", undecodable), ("S", name("a"))]), 0), "a");
    // A name serves as a prefix, and a string as a style.
    let style = Object::String(b"R".to_vec(), StringFormat::Literal);
    assert_eq!(label(&dictionary(vec![("P", name("App ")), ("S", style)]), 3), "App IV");
}
