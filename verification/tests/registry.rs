//! The attribute registry: categories, kinds, checks, and accessors.

use tnviz::attrs::parse_attrs;
use tnviz::error::Pos;
use tnviz::model::{Direction, Selector};
use tnviz::number::Number;
use tnviz::registry::{
    Category, Kind, Target, Targets, WordSet, category, check, describe, direction, direction_word,
    expand_flags, get, number, points, rotation, targets, validate, word,
};
use tnviz::value::{Attr, Value};

fn p(s: &str) -> Vec<Attr> {
    match parse_attrs(s, Pos::default()) {
        Ok(a) => a,
        Err(e) => panic!("{}", e.to_text()),
    }
}

fn only_tensors() -> Targets {
    Targets { tensor: true, bond: false, leg: false, plane: false }
}

#[test]
fn categories_depend_on_the_target() {
    assert_eq!(category("shape", Target::Tensor), Some(Category::Geometry));
    assert_eq!(category("shape", Target::Bond), None);
    assert_eq!(category("via", Target::Bond), Some(Category::Layout));
    assert_eq!(category("z", Target::Plane), Some(Category::Order));
    assert_eq!(category("arrow", Target::Bond), Some(Category::Appearance));
    assert_eq!(category("color", Target::Leg), Some(Category::Appearance));
    // A label on a line is text; on a tensor it may also be `none`.
    assert_eq!(category("label", Target::Bond), Some(Category::Appearance));
    assert_eq!(category("bogus", Target::Tensor), None);
}

#[test]
fn kinds_in_words() {
    assert_eq!(describe(Kind::Fraction), "a number between 0 and 1");
    assert_eq!(describe(Kind::EmLength), "a length");
    assert_eq!(describe(Kind::Word(WordSet::RoundFlat)), "one of round, flat");
    assert_eq!(describe(Kind::Word(WordSet::Arrow)), "one of none, forward, backward");
}

#[test]
fn values_are_checked_against_kinds() {
    assert!(check(Kind::Fraction, &Value::Number(Number::new(5, 1))).is_ok());
    assert_eq!(
        check(Kind::Fraction, &Value::Number(Number::new(2, 0))),
        Err("expected a number between 0 and 1, found `2`".to_string())
    );
    assert!(check(Kind::Direction, &Value::Word("up-left".into())).is_ok());
    assert!(check(Kind::Direction, &Value::Word("sideways".into())).is_err());
    assert!(check(Kind::Word(WordSet::OnOff), &Value::Word("off".into())).is_ok());
    assert!(check(Kind::Length, &Value::Length(Number::new(32, 1), "mm".into())).is_ok());
}

#[test]
fn every_problem_has_its_message() {
    assert!(validate(only_tensors(), &p("shape=orb, opacity=.5")).is_ok());
    let e = validate(only_tensors(), &p("via=(1, 2)")).unwrap_err();
    assert_eq!(e.to_text(), "`via` does not apply here");
    let e = validate(only_tensors(), &p("bogus=1")).unwrap_err();
    assert_eq!(e.to_text(), "unknown attribute `bogus`");
    let e = validate(only_tensors(), &p("opacity=2")).unwrap_err();
    assert_eq!(e.to_text(), "`opacity`: expected a number between 0 and 1, found `2`");
    // The first problem is reported.
    let e = validate(only_tensors(), &p("shape=orb, bogus, via=(1, 2)")).unwrap_err();
    assert_eq!(e.to_text(), "unknown attribute `bogus`");
}

#[test]
fn selectors_pick_targets() {
    assert_eq!(targets(&Selector::Tensors), only_tensors());
    assert_eq!(targets(&Selector::Bonds), Targets { tensor: false, bond: true, leg: false, plane: false });
    assert_eq!(targets(&Selector::OpenLegs), Targets { tensor: false, bond: false, leg: true, plane: false });
    assert_eq!(targets(&Selector::Tag("Site".into())), Targets { tensor: false, bond: true, leg: true, plane: false });
}

#[test]
fn flags_expand_to_attributes() {
    let a = expand_flags(&p("tube, hop, color=red")).unwrap();
    assert_eq!(a, p("style=tube, crossing=hop, color=red"));
    assert_eq!(expand_flags(&p("color=red, shiny")).unwrap_err().to_text(), "`shiny` needs a value");
}

#[test]
fn direction_words() {
    assert_eq!(direction_word(&['u', 'p']), Some(Direction::Word("up".into())));
    assert_eq!(direction_word(&['+', 'z']), Some(Direction::Axis("+z".into())));
    assert_eq!(direction_word(&['w', 'e', 's', 't']), None);
}

#[test]
fn typed_accessors() {
    let a = p("leg-dir=30, rotate=(10, 20, 30), via=(1, 2), (3, 4), shape=orb, color=red, leg-length=2");
    assert_eq!(get(&a, "shape"), Some(&Value::Word("orb".into())));
    assert_eq!(get(&a, "missing"), None);
    assert_eq!(word(&a, "color"), Some("red"));
    assert_eq!(word(&a, "leg-length"), None);
    assert_eq!(number(&a, "leg-length"), Some(Number::new(2, 0)));
    assert_eq!(rotation(&a, "leg-dir"), Some([Number::new(0, 0), Number::new(0, 0), Number::new(30, 0)]));
    assert_eq!(rotation(&a, "rotate"), Some([Number::new(10, 0), Number::new(20, 0), Number::new(30, 0)]));
    assert_eq!(direction(&a, "leg-dir"), Some(Direction::Angle(Number::new(30, 0))));
    assert_eq!(direction(&p("d=down-right"), "d"), Some(Direction::Word("down-right".into())));
    assert_eq!(
        points(&a, "via"),
        Some(vec![vec![Number::new(1, 0), Number::new(2, 0)], vec![Number::new(3, 0), Number::new(4, 0)]])
    );
}
