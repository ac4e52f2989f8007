use rzpdf::page::clip_path::{ClipElement, ClipPath};
use rzpdf::page::general_state::BlendMode;
use rzpdf::page::graph_state::{LineCap, LineJoin};
use rzpdf::page::graphic_state::FillType;
use rzpdf::page::text_object::CharItem;
use rzpdf::page::text_state::TextRenderingMode;
use rzpdf::path::pdf_path::{Bezier, PdfPath, Segment, SubPath};

#[derive(Debug, Clone, Copy, PartialEq)]
struct Pt(i64, i64);

#[test]
fn open_path_loses_its_last_move() {
    let mut sp = SubPath::new(vec![Segment::MoveTo(Pt(0, 0)), Segment::LineTo(Pt(1, 1)), Segment::MoveTo(Pt(2, 2))], false);
    sp.remove_last_opened_move();
    assert_eq!(sp.segments().len(), 2);
    sp.remove_last_opened_move();
    assert_eq!(sp.segments().len(), 2);
    let mut closed = SubPath::new(vec![Segment::MoveTo(Pt(0, 0))], true);
    closed.remove_last_opened_move();
    assert_eq!(closed.segments().len(), 1);
}

#[test]
fn transform_maps_every_point() {
    let sp = SubPath::new(
        vec![Segment::MoveTo(Pt(1, 2)), Segment::CurveTo(Bezier::new(Pt(1, 1), Pt(2, 2), Pt(3, 3)))],
        true,
    );
    let shift = |p: &Pt| Pt(p.0 + 10, p.1 * 2);
    let t = sp.transform(&shift);
    assert!(t.is_closed());
    match &t.segments()[0] {
        Segment::MoveTo(p) => assert_eq!(*p, Pt(11, 4)),
        _ => panic!("kind changed"),
    }
    match &t.segments()[1] {
        Segment::CurveTo(b) => {
            assert_eq!(*b.p1(), Pt(11, 2));
            assert_eq!(*b.p3(), Pt(13, 6));
        }
        _ => panic!("kind changed"),
    }
}

#[test]
fn path_subpaths_close_together() {
    let mut path: PdfPath<Pt> = PdfPath::default();
    assert!(path.is_empty());
    path.add_subpath(SubPath::new(vec![Segment::MoveTo(Pt(0, 0))], false));
    path.add_subpath(SubPath::default());
    path.last_mut_subpath().unwrap().add_segment(Segment::LineTo(Pt(5, 5)));
    path.close_all();
    assert!(path.subpaths().iter().all(|s| s.is_closed()));
    assert_eq!(path.subpaths()[1].segments().len(), 1);
    let mut sp = SubPath::new(vec![Segment::LineTo(Pt(1, 1))], false);
    assert!(sp.pop().is_some());
    assert!(sp.pop().is_none());
    assert!(sp.is_empty() && sp.last_segment().is_none() && sp.last_seg().is_none());
}

#[test]
fn clip_path_keeps_elements_in_order() {
    let mut clip: ClipPath<Pt, u8> = ClipPath::default();
    assert!(clip.is_empty());
    clip.add_path(PdfPath::default(), FillType::EvenOdd, 1);
    clip.add_path(PdfPath::default(), FillType::Winding, 2);
    assert_eq!(clip.elements().len(), 2);
    assert_eq!(clip.elements()[1].fill_type, FillType::Winding);
    let e: ClipElement<Pt, u8> = ClipElement::new(PdfPath::default(), FillType::NoFill, 3);
    assert_eq!(e.matrix, 3);
}

#[test]
fn enums_from_operand_values() {
    assert_eq!(LineCap::new_from_value(1), LineCap::Round);
    assert_eq!(LineCap::new_from_value(2), LineCap::Square);
    assert_eq!(LineCap::new_from_value(9), LineCap::Butt);
    assert_eq!(LineJoin::new_from_value(2), LineJoin::Bevel);
    assert_eq!(LineJoin::new_from_value(7), LineJoin::Miter);
    assert_eq!(FillType::default(), FillType::NoFill);
    assert_eq!(BlendMode::default(), BlendMode::Normal);
    assert_eq!(TextRenderingMode::default(), TextRenderingMode::Fill);
}

#[test]
fn char_item_fields() {
    let c = CharItem::new(Pt(1, 2), 65u32, Some("A".to_string()));
    assert_eq!(*c.pos(), Pt(1, 2));
    assert_eq!(*c.charcode(), 65);
    assert_eq!(c.unicode(), Some(&"A".to_string()));
}
