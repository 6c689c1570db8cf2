//! `PageGeometry` reads a page's visible box and rotation as pdfium does, and measures where a
//! destination's view puts the top of the window on the displayed page.

use lopdf::destinations::DestinationView;
use lopdf::document::Document;
use lopdf::number::Real;
use lopdf::object::{Dictionary, Object, ObjectId};
use lopdf::page_geometry::{Extent, PageGeometry, PageRect};

fn real_of(value: f32) -> Real {
    Real { bits: value.to_bits() }
}

fn integer(value: i64) -> Object {
    Object::Integer(value)
}

fn name(value: &str) -> Object {
    Object::Name(value.as_bytes().to_vec())
}

fn dictionary(entries: Vec<(&str, Object)>) -> Dictionary {
    let mut dictionary = Dictionary::new();
    for (key, value) in entries {
        dictionary.set(key.as_bytes().to_vec(), value);
    }
    dictionary
}

fn length(extent: Extent) -> f32 {
    f32::from_bits(extent.to.bits) - f32::from_bits(extent.from.bits)
}

fn displayed_size(geometry: &PageGeometry) -> (f32, f32) {
    let (width, height) = geometry.displayed_extents();
    (length(width), length(height))
}

fn top_fraction(geometry: &PageGeometry, view: DestinationView) -> Option<f64> {
    let (offset, height) = geometry.top_extents(view)?;
    let fraction = f64::from(length(offset)) / f64::from(length(height));
    fraction.is_finite().then_some(fraction)
}

#[test]
fn the_visible_box_is_the_crop_box_clipped_to_the_media_box() {
    let (doc, pages) = with_pages(
        dictionary(vec![("MediaBox", rect(0, 0, 600, 800))]),
        vec![
            dictionary(vec![]),
            dictionary(vec![("CropBox", rect(550, 700, 50, 100))]),
            dictionary(vec![("CropBox", rect(-100, -100, 1000, 1000))]),
            dictionary(vec![("CropBox", rect(700, 900, 800, 1000))]),
            dictionary(vec![("MediaBox", Object::Null)]),
            dictionary(vec![("MediaBox", rect(0, 0, 0, 100))]),
        ],
    );

    let visible: Vec<PageRect> = pages
        .iter()
        .map(|page| PageGeometry::read(&doc, *page).unwrap().visible)
        .collect();

    assert_eq!(
        visible,
        [
            page_rect(0.0, 0.0, 600.0, 800.0),
            page_rect(50.0, 100.0, 550.0, 700.0),
            page_rect(0.0, 0.0, 600.0, 800.0),
            PageRect::default(),
            PageRect::letter(),
            PageRect::letter(),
        ]
    );
}

#[test]
fn rotation_is_inherited_and_counted_in_whole_quarter_turns() {
    let (doc, pages) = with_pages(
        dictionary(vec![("MediaBox", rect(0, 0, 600, 800)), ("Rotate", integer(90))]),
        vec![
            dictionary(vec![]),
            dictionary(vec![("Rotate", integer(180))]),
            dictionary(vec![("Rotate", integer(-90))]),
            dictionary(vec![("Rotate", integer(450))]),
            dictionary(vec![("Rotate", Object::Real(real_of(135.0)))]),
        ],
    );

    let turns: Vec<(u8, (f32, f32))> = pages
        .iter()
        .map(|page| {
            let geometry = PageGeometry::read(&doc, *page).unwrap();
            (geometry.quarter_turns, displayed_size(&geometry))
        })
        .collect();

    assert_eq!(
        turns,
        [
            (1, (800.0, 600.0)),
            (2, (600.0, 800.0)),
            (3, (800.0, 600.0)),
            (1, (800.0, 600.0)),
            (1, (800.0, 600.0)),
        ]
    );
}

#[test]
fn views_are_measured_from_the_edge_displayed_on_top() {
    let upright = geometry(0);
    assert_eq!(top_fraction(&upright, xyz(Some(72.0), Some(700.0))), Some(0.125));
    assert_eq!(
        top_fraction(&upright, DestinationView::FitH { top: Some(real_of(400.0)) }),
        Some(0.5)
    );
    assert_eq!(
        top_fraction(&upright, DestinationView::FitR {
            left: real_of(0.0),
            bottom: real_of(0.0),
            right: real_of(100.0),
            top: real_of(600.0)
        }),
        Some(0.25)
    );
    assert_eq!(top_fraction(&upright, xyz(None, Some(900.0))), Some(-0.125));
    assert_eq!(top_fraction(&upright, xyz(None, Some(-80.0))), Some(1.1));
    assert_eq!(top_fraction(&upright, xyz(Some(72.0), None)), None);
    assert_eq!(top_fraction(&upright, DestinationView::Fit), None);

    assert_eq!(top_fraction(&geometry(1), xyz(Some(150.0), Some(700.0))), Some(0.25));
    assert_eq!(
        top_fraction(&geometry(1), DestinationView::FitH { top: Some(real_of(400.0)) }),
        None
    );
    assert_eq!(
        top_fraction(&geometry(1), DestinationView::FitV { left: Some(real_of(300.0)) }),
        Some(0.5)
    );
    assert_eq!(top_fraction(&geometry(2), xyz(None, Some(200.0))), Some(0.25));
    assert_eq!(top_fraction(&geometry(3), xyz(Some(150.0), None)), Some(0.75));

    let empty = PageGeometry {
        visible: PageRect::default(),
        quarter_turns: 0,
    };
    assert_eq!(top_fraction(&empty, xyz(None, Some(10.0))), None);
}

fn geometry(quarter_turns: u8) -> PageGeometry {
    PageGeometry {
        visible: page_rect(0.0, 0.0, 600.0, 800.0),
        quarter_turns,
    }
}

fn xyz(left: Option<f32>, top: Option<f32>) -> DestinationView {
    DestinationView::Xyz {
        left: left.map(real_of),
        top: top.map(real_of),
        zoom: None,
    }
}

fn page_rect(left: f32, bottom: f32, right: f32, top: f32) -> PageRect {
    PageRect {
        left: real_of(left),
        bottom: real_of(bottom),
        right: real_of(right),
        top: real_of(top),
    }
}

fn rect(left: i64, bottom: i64, right: i64, top: i64) -> Object {
    Object::Array(vec![integer(left), integer(bottom), integer(right), integer(top)])
}

/// A document whose page tree node has `tree` attributes and one page per entry of `pages`.
fn with_pages(mut tree: Dictionary, pages: Vec<Dictionary>) -> (Document, Vec<ObjectId>) {
    let mut doc = Document::with_version("1.7");
    let tree_id = doc.new_object_id();
    let page_ids: Vec<ObjectId> = pages
        .into_iter()
        .map(|mut page| {
            page.set(b"Type".to_vec(), name("Page"));
            page.set(b"Parent".to_vec(), Object::Reference(tree_id));
            doc.add_object(Object::Dictionary(page))
        })
        .collect();
    tree.set(b"Type".to_vec(), name("Pages"));
    tree.set(b"Count".to_vec(), integer(page_ids.len() as i64));
    tree.set(
        b"Kids".to_vec(),
        Object::Array(page_ids.iter().copied().map(Object::Reference).collect()),
    );
    doc.set_object(tree_id, Object::Dictionary(tree));
    let catalog_id = doc.add_object(Object::Dictionary(dictionary(vec![
        ("Type", name("Catalog")),
        ("Pages", Object::Reference(tree_id)),
    ])));
    doc.trailer.set(b"Root".to_vec(), Object::Reference(catalog_id));
    (doc, page_ids)
}

#[test]
fn a_point_is_measured_from_the_displayed_page_s_top_left() {
    let at = |turns: u8| {
        let (right, down) = geometry(turns).displayed_corner(real_of(100.0), real_of(200.0));
        (length(right), length(down))
    };
    assert_eq!(at(0), (100.0, 600.0));
    assert_eq!(at(1), (200.0, 100.0));
    assert_eq!(at(2), (500.0, 200.0));
    assert_eq!(at(3), (600.0, 500.0));
    // The bottom left of user space is the displayed page's bottom left only while it is upright.
    for turns in 0..4 {
        let (width, height) = displayed_size(&geometry(turns));
        let (right, down) = geometry(turns).displayed_corner(real_of(0.0), real_of(0.0));
        let corner = (length(right), length(down));
        let expected = [(0.0, height), (0.0, 0.0), (width, 0.0), (width, height)][turns as usize];
        assert_eq!(corner, expected);
    }
}

#[test]
fn rectangles_intersect_and_are_empty_where_they_do_not() {
    let a = page_rect(0.0, 0.0, 100.0, 100.0);
    let b = page_rect(50.0, -20.0, 200.0, 60.0);
    assert_eq!(a.intersection(&b), page_rect(50.0, 0.0, 100.0, 60.0));
    assert_eq!(b.intersection(&a), a.intersection(&b));
    assert!(!a.is_empty());
    assert_eq!(a.intersection(&page_rect(100.5, 0.0, 200.0, 100.0)), PageRect::default());
    assert!(PageRect::default().is_empty());
    assert!(page_rect(10.0, 0.0, 10.0, 5.0).is_empty());
    assert_eq!(PageRect::letter(), page_rect(0.0, 0.0, 612.0, 792.0));
}

#[test]
fn a_rectangle_is_read_with_its_corners_in_any_order() {
    let doc = Document::with_version("1.7");
    let read = PageRect::read(&doc, &rect(300, 720, 10, 600)).unwrap();
    assert_eq!(read, Some(page_rect(10.0, 600.0, 300.0, 720.0)));
    assert_eq!(PageRect::read(&doc, &Object::Array(vec![integer(1), integer(2)])).unwrap(), None);
    assert_eq!(PageRect::read(&doc, &name("box")).unwrap(), None);
}

#[test]
fn numbers_compare_by_value() {
    let real = |value: f32| Real { bits: value.to_bits() };
    assert_eq!(real(0.0), real(-0.0));
    assert_ne!(real(f32::NAN), real(f32::NAN));
    assert_eq!(real(f32::INFINITY), real(f32::INFINITY));
    assert_ne!(real(1.5), real(-1.5));
    let rect = |left: f32| PageRect {
        left: real(left),
        bottom: real(0.0),
        right: real(1.0),
        top: real(1.0),
    };
    assert_eq!(rect(0.0), rect(-0.0));
    assert_ne!(rect(f32::NAN), rect(f32::NAN));
}
