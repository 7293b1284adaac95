//! Attribute values and their lists.

use tnviz::attrs::parse_attrs;
use tnviz::error::Pos;
use tnviz::number::Number;
use tnviz::value::{Attr, Value, merge_attrs};

fn p(s: &str) -> Vec<Attr> {
    match parse_attrs(s, Pos::default()) {
        Ok(a) => a,
        Err(e) => panic!("{}", e.to_text()),
    }
}

fn n(m: i64, scale: u32) -> Number {
    Number::new(m, scale)
}

#[test]
fn values() {
    let a = p(r#"tube, width=3.2mm, color=blue!64!black, label=$T_{1,2}$, via=(2, 1), (3, -1.5), n=.5, s="a b""#);
    assert_eq!(a[0], Attr::new("tube".to_string(), Value::Flag));
    assert_eq!(a[1].value, Value::Length(n(32, 1), "mm".into()));
    assert_eq!(a[2].value, Value::Word("blue!64!black".into()));
    assert_eq!(a[3].value, Value::Math("$T_{1,2}$".into()));
    assert_eq!(a[4].value, Value::Points(vec![vec![n(2, 0), n(1, 0)], vec![n(3, 0), n(-15, 1)]]));
    assert_eq!(a[5].value, Value::Number(n(5, 1)));
    assert_eq!(a[6].value, Value::Str("a b".into()));
}

#[test]
fn raw_strings_and_errors() {
    assert_eq!(p(r##"label=#"say "hi""#"##)[0].value, Value::Str("say \"hi\"".into()));
    assert!(parse_attrs("label=$\\chi", Pos::default()).is_err());
    assert!(parse_attrs("a=1,,b", Pos::default()).is_err());
    assert!(parse_attrs("(1, 2)", Pos::default()).is_err());
}

#[test]
fn merge() {
    let a = p("color=red, tube");
    let b = p("color=blue, width=2");
    let m = merge_attrs(&[a, b]);
    assert_eq!(m.len(), 3);
    assert_eq!(m[0].value, Value::Word("blue".into()));
}
