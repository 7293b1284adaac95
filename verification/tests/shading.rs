//! Base colours by slot.

use tnviz::attrs::parse_attrs;
use tnviz::error::Pos;
use tnviz::shading::{Other, Slots};

#[test]
fn colours_are_slots() {
    let mut s = Slots::new();
    assert_eq!(s.get("blue!64!black"), 0);
    assert_eq!(s.get("red"), 1);
    assert_eq!(s.get("blue!64!black"), 0);
    assert_eq!(s.exprs().len(), 2);
    assert_eq!(s.exprs()[1], "red");
}

#[test]
fn colour_attributes_and_defaults() {
    let mut s = Slots::new();
    let a = parse_attrs(r#"color="green", label-color=auto"#, Pos::default()).unwrap();
    assert_eq!(s.colour_attr(&a, "color", "black"), 0);
    assert_eq!(s.colour_attr(&a, "fill", "black"), 1);
    assert_eq!(s.colour_attr(&a, "label-color", "black"), 2);
    assert_eq!(s.exprs(), ["green".to_string(), "black".to_string(), "auto".to_string()]);
    assert_ne!(Other::White, Other::Black);
}
