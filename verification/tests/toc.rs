//! The outline as page numbers, read from documents built for it.

use std::borrow::Cow;
use std::cell::Cell;

use lopdf::document::Document;
use lopdf::document_outline::DocumentOutline;
use lopdf::error::{Error, IoError};
use lopdf::fixtures::{build, rect, Entry, Heading, Named, Page, Target};
use lopdf::object::{Dictionary, Object, ObjectId, StringFormat};
use lopdf::page_geometry::PageGeometry;
use lopdf::page_labels::PageLabels;
use lopdf::parser::content::operations;
use lopdf::parity::{
    compare, compare_labels, compare_outlines, openings, title_start, titled, KnownDifference, Mismatch, Openings,
    OtherItem, OtherPage, OtherReading, OutlineWalk,
};
use lopdf::resolver::ObjectResolver;
use lopdf::samples::{labelled, letter, positions};
use lopdf::document_outline::OutlineLimits;
use lopdf::toc::TocType;

fn entry(title: &str, page: usize, children: Vec<Entry>) -> Entry {
    Entry {
        title: Some(title.as_bytes().to_vec()),
        target: Target::Explicit(page - 1, b"Fit".to_vec(), Vec::new()),
        children,
    }
}

fn leading(title: &str, target: Target) -> Entry {
    Entry {
        title: Some(title.as_bytes().to_vec()),
        target,
        children: Vec::new(),
    }
}

fn pages(count: usize) -> Vec<Page> {
    (0..count)
        .map(|_| Page {
            attributes: Dictionary::new(),
            headings: Vec::new(),
        })
        .collect()
}

fn line(level: usize, title: &str, page: usize) -> TocType {
    TocType {
        level,
        title: title.to_owned(),
        page,
    }
}

#[test]
fn parse_toc() {
    let expected = vec![
        line(1, "1. Flesh Fruits", 1),
        line(2, "1.1. Stone Fruits", 2),
        line(3, "1.1.1. Peaches", 3),
        line(3, "1.1.2. Plums", 6),
        line(2, "1.2. Pomes", 28),
        line(3, "1.2.1. Apples", 30),
        line(3, "1.2.2. Pears", 35),
        line(2, "Summary", 36),
        line(1, "2. Berries & Hesperidia", 40),
        line(2, "2.1. True Berries", 40),
        line(2, "Summary", 41),
        line(1, "3. The End", 100),
    ];

    let doc = build(
        &pages(100),
        &Vec::new(),
        &vec![
            entry(
                "1. Flesh Fruits",
                1,
                vec![
                    entry(
                        "1.1. Stone Fruits",
                        2,
                        vec![entry("1.1.1. Peaches", 3, vec![]), entry("1.1.2. Plums", 6, vec![])],
                    ),
                    entry(
                        "1.2. Pomes",
                        28,
                        vec![entry("1.2.1. Apples", 30, vec![]), entry("1.2.2. Pears", 35, vec![])],
                    ),
                    entry("Summary", 36, vec![]),
                ],
            ),
            entry(
                "2. Berries & Hesperidia",
                40,
                vec![entry("2.1. True Berries", 40, vec![]), entry("Summary", 41, vec![])],
            ),
            entry("3. The End", 100, vec![]),
        ],
    );
    let toc = doc.get_toc().unwrap();
    assert_eq!(toc.toc, expected);
    assert!(toc.errors.is_empty());
}

#[test]
fn items_without_a_page_and_unreadable_ones_are_named_in_the_errors() {
    let untitled = Entry {
        title: None,
        target: Target::Nowhere,
        children: Vec::new(),
    };
    let doc = build(
        &pages(2),
        &Vec::new(),
        &vec![
            entry("Here", 2, vec![]),
            leading("Away \"there\"", Target::Uri),
            untitled,
        ],
    );
    let toc = doc.get_toc().unwrap();
    assert_eq!(toc.toc, [line(1, "Here", 2)]);
    assert_eq!(
        toc.errors,
        [
            "Outline item \"Away \\\"there\\\"\" has no page in this document",
            "1 outline items could not be read",
        ]
    );
}

#[test]
fn a_long_outline_is_said_to_be_cut_short() {
    let entries = (0..10_001).map(|_| entry("x", 1, vec![])).collect();
    let toc = build(&pages(1), &Vec::new(), &entries).get_toc().unwrap();
    assert_eq!(toc.toc.len(), 10_000);
    assert_eq!(toc.errors, ["The outline is larger than the default outline limits"]);
}

#[test]
fn a_document_without_an_outline_entry_has_no_toc() {
    let mut doc = build(&pages(1), &Vec::new(), &Vec::new());
    assert!(doc.get_toc().unwrap().toc.is_empty());
    let catalog_id = doc.trailer.get(b"Root").unwrap().as_reference().unwrap();
    let mut catalog = doc.catalog().unwrap().clone();
    catalog.remove(b"Outlines");
    doc.set_object(catalog_id, Object::Dictionary(catalog));
    assert!(matches!(doc.get_toc(), Err(Error::NoOutline)));
    doc.trailer.remove(b"Root");
    assert!(matches!(doc.get_toc(), Err(Error::DictKey)));
}

#[test]
fn every_target_of_a_built_document_is_read_back() {
    let doc = build(
        &pages(3),
        &vec![
            Named {
                name: b"dests-name".to_vec(),
                page: 0,
                view: b"XYZ".to_vec(),
                arguments: vec![Object::Null, Object::Integer(712), Object::Null],
            },
            Named {
                name: b"tree-name".to_vec(),
                page: 2,
                view: b"FitH".to_vec(),
                arguments: vec![Object::Integer(520)],
            },
        ],
        &vec![
            leading("dests", Target::DestsName(b"dests-name".to_vec())),
            leading("tree", Target::TreeName(b"tree-name".to_vec())),
            leading("goto", Target::GoTo(1, b"Fit".to_vec(), Vec::new())),
            leading("missing", Target::TreeName(b"no-such-name".to_vec())),
            leading("uri", Target::Uri),
            leading("remote", Target::RemoteGoTo),
            leading("nowhere", Target::Nowhere),
        ],
    );
    let outline = DocumentOutline::read(&doc).unwrap();
    let read: Vec<(&str, Option<u32>)> = outline
        .items
        .iter()
        .map(|item| (item.title.as_str(), item.target.map(|target| target.page)))
        .collect();
    assert_eq!(
        read,
        [
            ("dests", Some(1)),
            ("tree", Some(3)),
            ("goto", Some(2)),
            ("missing", None),
            ("uri", None),
            ("remote", None),
            ("nowhere", None),
        ]
    );
}

#[test]
fn a_built_page_has_its_attributes_and_draws_its_headings() {
    let mut attributes = Dictionary::new();
    attributes.set(b"CropBox".to_vec(), rect(50, 100, 550, 700));
    let doc = build(
        &vec![Page {
            attributes,
            headings: vec![Heading {
                text: b"Cropped (heading)".to_vec(),
                x: 72,
                y: -500,
            }],
        }],
        &Vec::new(),
        &Vec::new(),
    );
    let page = doc.get_pages()[&1];
    let visible = PageGeometry::read(&doc, page).unwrap().visible;
    assert_eq!(f32::from_bits(visible.left.bits), 50.0);
    assert_eq!(f32::from_bits(visible.top.bits), 700.0);
    let content = doc.get_page_contents(page);
    let bytes = match doc.get_object(content[0]).unwrap() {
        Object::Stream(stream) => stream.content.clone(),
        other => panic!("{other:?}"),
    };
    let (read, _) = operations(&bytes, bytes.len());
    let operators: Vec<&[u8]> = read.iter().map(|operation| operation.operator.as_slice()).collect();
    assert_eq!(operators, [&b"BT"[..], b"Tf", b"Td", b"Tj", b"ET"]);
    assert_eq!(read[1].operands, [Object::Name(b"F1".to_vec()), Object::Integer(20)]);
    assert_eq!(read[2].operands, [Object::Integer(72), Object::Integer(-500)]);
    assert_eq!(
        read[3].operands,
        [Object::String(b"Cropped (heading)".to_vec(), StringFormat::Literal)]
    );
}

fn other(title: Option<&str>, depth: usize, page_index: Option<i32>, remote: bool) -> OtherItem {
    OtherItem {
        title: title.map(str::to_owned),
        depth,
        page_index,
        remote,
    }
}

#[test]
fn readings_that_agree_have_no_mismatch() {
    let doc = build(
        &pages(3),
        &Vec::new(),
        &vec![
            entry("One", 1, vec![entry("One a", 3, vec![])]),
            leading("Nowhere", Target::Nowhere),
        ],
    );
    let outline = DocumentOutline::read(&doc).unwrap();
    let theirs = vec![
        other(Some("One"), 0, Some(0), false),
        other(Some(" One\t a\r\n"), 1, Some(2), false),
        other(Some("Nowhere"), 0, Some(-1), false),
    ];
    let comparison = compare_outlines(&outline, &theirs);
    assert!(comparison.mismatches.is_empty());
    assert_eq!(comparison.remote, 0);
    assert_eq!(comparison.same, [(0, 0), (1, 2)]);
}

#[test]
fn each_difference_between_outlines_is_found() {
    let doc = build(
        &pages(3),
        &Vec::new(),
        &vec![
            entry("One", 1, vec![]),
            entry("Two", 2, vec![]),
            leading("Away", Target::RemoteGoTo),
            leading("Gone", Target::Nowhere),
        ],
    );
    let outline = DocumentOutline::read(&doc).unwrap();
    let theirs = vec![
        other(Some("Won"), 1, Some(0), false),
        other(Some("Two"), 0, Some(2), true),
        other(Some("Away"), 0, Some(0), true),
        other(Some("Gone"), 0, Some(0), false),
        other(Some("More"), 0, None, false),
    ];
    let comparison = compare_outlines(&outline, &theirs);
    assert_eq!(
        comparison.mismatches,
        [
            Mismatch::ItemCount,
            Mismatch::Title { item: 0 },
            Mismatch::Depth { item: 0 },
            Mismatch::Page { item: 1 },
            Mismatch::Page { item: 3 },
        ]
    );
    assert_eq!(comparison.remote, 1);
    assert_eq!(comparison.same, [(0, 0)]);
}

#[test]
fn a_document_is_compared_with_another_reading_of_it() {
    let mut attributes = Dictionary::new();
    attributes.set(b"Rotate".to_vec(), Object::Integer(90));
    let mut sheets = pages(2);
    sheets[1].attributes = attributes;
    let doc = build(&sheets, &Vec::new(), &vec![entry("One", 2, vec![])]);
    let page = |label: Option<&str>, quarter_turns: Option<u8>| OtherPage {
        loaded: true,
        label: label.map(str::to_owned),
        quarter_turns,
    };
    let report = compare(
        &doc,
        OtherReading {
            pages: vec![page(None, Some(0)), page(None, Some(1))],
            items: vec![other(None, 0, None, false), other(Some("One"), 0, Some(1), false)],
        },
    );
    assert_eq!((report.pages, report.labelled, report.outline_items), (2, false, 1));
    assert!(report.mismatches.is_empty());
    assert_eq!((report.untitled, report.remote), (1, 0));
    assert_eq!(report.same, [(0, 1)]);
    assert_eq!(report.geometries[1].quarter_turns, 1);

    let report = compare(
        &doc,
        OtherReading {
            pages: vec![page(Some("i"), None), page(None, Some(0))],
            items: vec![other(Some("Won"), 0, Some(1), false)],
        },
    );
    assert_eq!(
        report.mismatches,
        [
            Mismatch::UnexpectedLabel { page: 0 },
            Mismatch::Rotation { page: 0 },
            Mismatch::Rotation { page: 1 },
            Mismatch::Title { item: 0 },
        ]
    );
    let report = compare(&doc, OtherReading { pages: vec![], items: vec![] });
    assert_eq!(report.mismatches, [Mismatch::PageCount]);

    // A page that the other reader cannot load ends the comparison there.
    let mut unloaded = page(None, None);
    unloaded.loaded = false;
    let report = compare(
        &doc,
        OtherReading {
            pages: vec![page(Some("i"), Some(1)), unloaded],
            items: vec![other(Some("Won"), 0, Some(1), false)],
        },
    );
    assert_eq!(
        report.mismatches,
        [
            Mismatch::UnexpectedLabel { page: 0 },
            Mismatch::Rotation { page: 0 },
            Mismatch::UnloadedPage { page: 1 },
        ]
    );
    assert_eq!((report.pages, report.geometries.len(), report.outline_items), (2, 1, 0));
}

/// A document that gives so many objects and then fails.
struct Failing<'a> {
    document: &'a Document,
    left: Cell<usize>,
}

impl ObjectResolver for Failing<'_> {
    fn object(&self, id: ObjectId) -> Result<Cow<'_, Object>, Error> {
        if self.left.get() == 0 {
            return Err(Error::IO(IoError::Other));
        }
        self.left.set(self.left.get() - 1);
        self.document.object(id)
    }

    fn trailer(&self) -> &Dictionary {
        &self.document.trailer
    }

    fn page_ids(&self) -> Result<Vec<ObjectId>, Error> {
        if self.left.get() == 0 {
            return Err(Error::IO(IoError::Other));
        }
        self.left.set(self.left.get() - 1);
        self.document.page_ids()
    }
}

#[test]
fn what_cannot_be_read_is_a_mismatch_and_keeps_the_rest_of_the_report() {
    let doc = build(&pages(2), &Vec::new(), &vec![entry("One", 2, vec![])]);
    let reading = || OtherReading {
        pages: (0..2)
            .map(|_| OtherPage {
                loaded: true,
                label: None,
                quarter_turns: Some(0),
            })
            .collect(),
        items: vec![other(Some("One"), 0, Some(1), false)],
    };
    let error = Error::IO(IoError::Other);
    let mut met = Vec::new();
    for left in 0..200 {
        let report = compare(
            &Failing {
                document: &doc,
                left: Cell::new(left),
            },
            reading(),
        );
        let mismatches = report.mismatches.clone();
        match mismatches.as_slice() {
            [] => {
                assert_eq!((report.pages, report.outline_items), (2, 1));
                met.push("whole");
                break;
            }
            [Mismatch::UnreadPages(e)] => {
                assert_eq!((*e, report.pages), (error, 0));
                met.push("pages");
            }
            // Labels that cannot be read are no reason to stop, but the pages fail next.
            [Mismatch::UnreadLabels(e), Mismatch::UnreadPage { page: 0, .. }] => {
                assert_eq!((*e, report.pages), (error, 2));
                met.push("labels");
            }
            [Mismatch::UnreadPage { page, .. }] => {
                assert_eq!(report.geometries.len(), *page);
                met.push("page");
            }
            [Mismatch::UnreadOutline(e)] => {
                assert_eq!((*e, report.geometries.len()), (error, 2));
                met.push("outline");
            }
            other => panic!("{other:?}"),
        }
    }
    met.dedup();
    assert_eq!(met, ["pages", "labels", "page", "outline", "whole"]);
}

#[test]
fn which_reader_opens_a_file_is_told_apart() {
    assert_eq!(openings(true, true), Openings::Both);
    assert_eq!(openings(true, false), Openings::OnlyOurs);
    assert_eq!(openings(false, true), Openings::OnlyTheirs);
    assert_eq!(openings(false, false), Openings::Unreadable);
}

#[test]
fn untitled_items_are_counted_apart() {
    let (kept, untitled) = titled(vec![
        other(None, 0, None, false),
        other(Some("a"), 0, None, false),
        other(None, 1, Some(3), false),
    ]);
    assert_eq!(untitled, 2);
    assert_eq!(kept.len(), 1);
    assert_eq!(kept[0].title.as_deref(), Some("a"));
    assert_eq!(
        KnownDifference::UntitledItem.describe(),
        "untitled outline items that lopdf leaves out"
    );
    assert_eq!(
        KnownDifference::RemoteDestination.describe(),
        "GoToR items that lopdf gives no page"
    );
}

#[test]
fn labels_differ_where_the_text_does() {
    let theirs = vec![None, Some("ii".to_owned()), None];
    assert_eq!(
        compare_labels(&None, &theirs),
        [Mismatch::UnexpectedLabel { page: 1 }]
    );
    assert!(compare_labels(&None, &vec![None, None]).is_empty());
    let labels = |texts: &[&str]| {
        Some(PageLabels {
            labels: texts.iter().map(|text| text.to_string()).collect(),
        })
    };
    // No label where there would be an empty one.
    assert!(compare_labels(&labels(&["", "ii", ""]), &theirs).is_empty());
    assert_eq!(
        compare_labels(&labels(&["i", "ii", "iii", "iv"]), &theirs),
        [Mismatch::Label { page: 0 }, Mismatch::Label { page: 2 }]
    );
}

#[test]
fn the_start_of_a_title_ends_at_a_word() {
    assert_eq!(title_start(""), "");
    assert_eq!(title_start("  Short\ttitle "), "Short title");
    assert_eq!(title_start("An introduction to the theory of numbers"), "An introduction to the");
    assert_eq!(
        title_start("Electroencephalographically measured"),
        "Electroencephalographically"
    );
    // Twenty-four bytes besides the space before the last word still fit.
    assert_eq!(title_start("abcdefghijkl mnopqrstuvwx yz"), "abcdefghijkl mnopqrstuvwx");
    assert_eq!(title_start("abcdefghijkl mnopqrstuvwxy z"), "abcdefghijkl");
}

#[test]
fn the_other_outline_is_walked_in_reading_order_and_within_limits() {
    // Items 0 and 1 are siblings, and 2 is the child of 0; item 1 leads back to itself.
    let next = [Some(1), Some(1), None];
    let child = [Some(2), None, Some(0)];
    let limits = OutlineLimits {
        max_depth: 2,
        max_items: 5,
    };
    let mut walk = OutlineWalk::new(limits, Some(0));
    let mut read = Vec::new();
    while let Some((item, depth)) = walk.take() {
        walk.follow(depth, next[item], child[item]);
        read.push((item, depth));
    }
    assert_eq!(read, [(0, 0), (2, 1), (1, 0), (1, 0), (1, 0)]);
    assert!(OutlineWalk::new(limits, None).take().is_none());
}

#[test]
fn the_sample_document_has_labels_of_every_style() {
    for catch_all in [false, true] {
        let doc = labelled(catch_all);
        assert_eq!(doc.version, "1.7");
        let labels = PageLabels::read(&doc, 16).unwrap().unwrap().labels;
        assert_eq!(labels.len(), 16);
        if catch_all {
            // The last kid's limits draw every page to it, and it has a range for none before its key.
            assert_eq!(labels[1..4], ["2", "3", "4"]);
        } else {
            assert_eq!(
                labels[1..11],
                ["Cover", "i", "ii", "iii", "MCMXCIX", "A-9", "A-10", "Z", "AA", "a"]
            );
            assert_eq!(labels[12], "\u{c9}-1");
        }
        // Fewer pages have the labels that more pages start with.
        assert_eq!(PageLabels::read(&doc, 7).unwrap().unwrap().labels, labels[..7]);
        assert_eq!(doc.objects.len(), if catch_all { 39 } else { 38 } + 1);
        assert_eq!(doc.max_id, if catch_all { 40 } else { 39 });
        assert_eq!(doc.get_pages().len(), 16);
        assert_eq!(doc.trailer.get(b"Root"), Ok(&Object::Reference((36, 0))));
    }
}

#[test]
fn the_sample_outline_leads_to_known_positions() {
    let (pages, named, entries) = positions();
    let doc = build(&pages, &named, &entries);
    let outline = DocumentOutline::read(&doc).unwrap();
    let found: Vec<(&str, usize, Option<u32>)> = outline
        .items
        .iter()
        .map(|item| (item.title.as_str(), item.depth, item.target.map(|target| target.page)))
        .collect();
    assert_eq!(
        found,
        [
            ("Upright heading", 0, Some(1)),
            ("Cropped heading", 1, Some(2)),
            ("Turn 90", 1, Some(3)),
            ("Turn 180", 1, Some(4)),
            ("Turn 270", 1, Some(5)),
            ("FitH heading", 0, Some(6)),
            ("FitR heading", 0, Some(6)),
            ("FitV view", 0, Some(6)),
            ("Fit view", 0, Some(6)),
            ("Upright heading", 0, Some(1)),
            ("FitH heading", 0, Some(6)),
            ("Missing name", 0, None),
            ("Website", 0, None),
            ("Another file", 0, None),
            ("No destination", 0, None),
            ("Child of an untitled entry", 1, Some(6)),
            ("Tab and spaces in a title", 0, Some(1)),
        ]
    );
    assert_eq!(PageGeometry::read(&doc, doc.get_pages()[&5]).unwrap().quarter_turns, 3);
}

#[test]
fn the_sample_of_one_heading_leads_to_it() {
    let (pages, named, entries) = letter();
    let doc = build(&pages, &named, &entries);
    let outline = DocumentOutline::read(&doc).unwrap();
    assert_eq!(outline.items.len(), 1);
    assert_eq!(outline.items[0].title, "Letter heading");
    assert_eq!(outline.items[0].target.unwrap().page, 1);
}
