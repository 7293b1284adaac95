//! The laws of the library, on concrete values.

use tnviz::attrs::{parse_attrs, substitute};
use tnviz::error::Pos;
use tnviz::lower::{enumerate, parse, pairs};
use tnviz::model::{Network, Selector};
use tnviz::name::{Name, NamePattern, SubPattern};
use tnviz::number::{Number, parse_decimal};
use tnviz::print::to_tnv;
use tnviz::value::{Value, attrs_to_text, merge_attrs};

fn net(src: &str) -> Network {
    match parse(src) {
        Ok(n) => n,
        Err(e) => panic!("{}", e.to_text()),
    }
}

#[test]
fn the_last_list_wins_a_merge() {
    let a = parse_attrs("color=red, width=1", Pos::default()).unwrap();
    let b = parse_attrs("color=blue", Pos::default()).unwrap();
    let c = parse_attrs("color=green, tube", Pos::default()).unwrap();
    let m = merge_attrs(&[a, b, c]);
    let keys: Vec<&str> = m.iter().map(|x| x.key.as_str()).collect();
    assert_eq!(keys, ["color", "width", "tube"]);
    assert_eq!(m[0].value, Value::Word("green".into()));
}

#[test]
fn an_exact_pattern_names_one_thing() {
    let a = Name::new("A".to_string(), vec![1, 2]);
    let p = NamePattern::exact(&a, 1);
    assert!(p.is_exact());
    assert!(p.matches(&a, 1));
    assert!(!p.matches(&a, 0));
    assert!(!p.matches(&Name::new("A".to_string(), vec![1, 3]), 1));
    assert!(!p.matches(&Name::plain("A".to_string()), 1));
}

#[test]
fn ranges_enumerate_their_product_in_order() {
    let p = NamePattern {
        base: "A".to_string(),
        subscripts: vec![SubPattern::Range(1, 2), SubPattern::Exact(7), SubPattern::Range(3, 4)],
        prime: 0,
    };
    let names: Vec<String> = enumerate(&p).iter().map(|n| n.to_text()).collect();
    assert_eq!(names, ["A[1,7,3]", "A[1,7,4]", "A[2,7,3]", "A[2,7,4]"]);
    let empty = NamePattern { base: "B".to_string(), subscripts: vec![SubPattern::Range(3, 1)], prime: 0 };
    assert!(enumerate(&empty).is_empty());
}

#[test]
fn lists_pair_one_to_one_or_fan_out() {
    assert_eq!(pairs(3, 3, Pos::default()).unwrap(), vec![(0, 0), (1, 1), (2, 2)]);
    assert_eq!(pairs(1, 3, Pos::default()).unwrap(), vec![(0, 0), (0, 1), (0, 2)]);
    assert_eq!(pairs(2, 1, Pos::default()).unwrap(), vec![(0, 0), (1, 0)]);
    assert!(pairs(2, 3, Pos { line: 5, col: 1 }).unwrap_err().to_text().starts_with("5:1: cannot pair"));
}

#[test]
fn numbers_read_back_from_their_text() {
    for (m, s) in [(-15, 1), (0, 0), (3, 2), (1234500, 3), (i64::MAX, 0), (-7, 18)] {
        let n = Number::new(m, s);
        let text = n.to_text();
        let chars: Vec<char> = text.chars().collect();
        assert_eq!(parse_decimal(&chars), Some(n), "{text}");
    }
    assert_eq!(Number::new(-15, 1).to_text(), "-1.5");
    assert_eq!(Number::new(1234500, 3).to_text(), "1234.5");
}

#[test]
fn connecting_twice_makes_one_bond() {
    let n = net("A - B\nA - B\nB - A\n");
    assert_eq!(n.bonds().len(), 1);
    let m = net("A.x - B.y\nA.x - B.y\n");
    assert_eq!(m.bonds().len(), 1);
}

#[test]
fn the_most_specific_rule_wins() {
    let n = net("A - B\nA [color=red]\n* [color=gray]\nA [color=green]\n");
    let a = n.find_tensor(&Name::plain("A".to_string())).unwrap();
    let b = n.find_tensor(&Name::plain("B".to_string())).unwrap();
    let color = |t| n.tensor_style(t).into_iter().find(|x| x.key == "color").map(|x| x.value);
    assert_eq!(color(a), Some(Value::Word("green".into())));
    assert_eq!(color(b), Some(Value::Word("gray".into())));
}

#[test]
fn printed_networks_read_back() {
    for src in [
        "chain A[1..4] [tube]\nA[*]: leg p down\n",
        "index s[1..2] : Site [dim=2]\ntensor A[n] (s[n], l[n]) for n in 1..2\n",
        "grid T 2x2\nT[1,1] at (0, 0)\n- [color=blue!64!black]\n",
        "3d\nspacing 2.5\nA - B\nB right of A, 3\n",
    ] {
        let n = net(src);
        let text = to_tnv(&n);
        let back = net(&text);
        assert_eq!(to_tnv(&back), text, "{src}");
        assert_eq!(back.tensors().len(), n.tensors().len());
        assert_eq!(back.bonds().len(), n.bonds().len());
        assert_eq!(back.open_legs().len(), n.open_legs().len());
    }
}

#[test]
fn attribute_lists_read_back_from_their_text() {
    for src in [
        r#"tube, width=3.2mm, color=blue!64!black, label=$T_{1,2}$, via=(2, 1), (3, -1.5), n=.5, s="a b""#,
        r##"label=#"say "hi""#, z=-2, rotate=(10, 20, 30)"##,
        "leg-dir=down-left, opacity=1.50, label-padding=.08em",
    ] {
        let a = parse_attrs(src, Pos::default()).unwrap();
        let text = attrs_to_text(&a);
        assert!(text.starts_with('[') && text.ends_with(']'));
        let inner = &text[1..text.len() - 1];
        let back = parse_attrs(inner, Pos::default()).unwrap();
        assert_eq!(back, a, "{text}");
    }
    // The printed text is canonical: numbers in lowest terms, one space after commas.
    let a = parse_attrs("n=1.50,  via=(1.0,2)", Pos::default()).unwrap();
    assert_eq!(attrs_to_text(&a), "[n=1.5, via=(1, 2)]");
}

#[test]
fn the_bond_made_is_found_both_ways_and_reused() {
    let mut n = net("A\nB\n");
    let a = n.find_tensor(&Name::plain("A".to_string())).unwrap();
    let b = n.find_tensor(&Name::plain("B".to_string())).unwrap();
    let i = n.connect(a, &None, b, &None).unwrap();
    assert_eq!(n.bond_between(a, b), Some(i));
    assert_eq!(n.bond_between(b, a), Some(i));
    let before = to_tnv(&n);
    assert_eq!(n.connect(a, &None, b, &None).unwrap(), i);
    assert_eq!(n.connect(b, &None, a, &None).unwrap(), i);
    assert_eq!(to_tnv(&n), before);
    assert_eq!(n.bonds().len(), 1);
}

#[test]
fn merging_keeps_first_occurrence_order_and_is_idempotent() {
    let a = parse_attrs("width=1, color=red", Pos::default()).unwrap();
    let b = parse_attrs("tube, width=2", Pos::default()).unwrap();
    let c = parse_attrs("color=blue, opacity=.5", Pos::default()).unwrap();
    let m = merge_attrs(&[a, b, c]);
    let keys: Vec<&str> = m.iter().map(|x| x.key.as_str()).collect();
    assert_eq!(keys, ["width", "color", "tube", "opacity"]);
    assert_eq!(merge_attrs(&[m.clone()]), m);
    assert_eq!(merge_attrs(&[m.clone(), m.clone()]), m);
}

#[test]
fn declarations_and_versions_succeed() {
    let n = net("tnv 0.3\nA\n");
    assert!(n.find_tensor(&Name::plain("A".to_string())).is_some());
    let n = net("tnv 0.2\nA[1..3], B\n");
    assert_eq!(n.tensors().len(), 4);
}

#[test]
fn a_grid_links_right_and_down_neighbours() {
    let n = net("grid T 2x3\n");
    assert_eq!(n.tensors().len(), 6);
    // Two rows of two right bonds, three columns of one down bond.
    assert_eq!(n.bonds().len(), 7);
    let t = |i: i64, j: i64| n.find_tensor(&Name::new("T".to_string(), vec![i, j])).unwrap();
    assert!(n.bond_between(t(1, 1), t(1, 2)).is_some());
    assert!(n.bond_between(t(1, 1), t(2, 1)).is_some());
    assert!(n.bond_between(t(2, 2), t(2, 3)).is_some());
    assert!(n.bond_between(t(1, 1), t(2, 2)).is_none());
}

#[test]
fn a_chain_links_consecutive_tensors() {
    let n = net("chain A[1..4]\n");
    let t = |i: i64| n.find_tensor(&Name::new("A".to_string(), vec![i])).unwrap();
    assert_eq!(n.bonds().len(), 3);
    assert!(n.bond_between(t(1), t(2)).is_some());
    assert!(n.bond_between(t(3), t(4)).is_some());
    assert!(n.bond_between(t(1), t(3)).is_none());
}

#[test]
fn a_failed_pairing_says_both_counts() {
    let e = pairs(2, 3, Pos { line: 4, col: 2 }).unwrap_err();
    assert_eq!(e.to_text(), "4:2: cannot pair 2 tensors with 3");
}

#[test]
fn a_new_tensor_on_new_indices_is_declared() {
    let n = net("tensor A (i, j)\ntensor B[1] (up=k, down=l')\n");
    assert_eq!(n.tensors().len(), 2);
    let a = n.find_tensor(&Name::plain("A".to_string())).unwrap();
    assert_eq!(n.tensor(a).slots.len(), 2);
    let b = n.find_tensor(&Name::new("B".to_string(), vec![1])).unwrap();
    assert_eq!(n.tensor(b).slots.len(), 2);
}

#[test]
fn an_index_statement_checks_dim_only_where_it_names_an_index() {
    assert!(parse("index s[1..2] [dim=0]\n").is_err());
    assert!(parse("index s[1..2] [dim=2.5]\n").is_err());
    assert!(parse("index s[1..2] [dim=3]\n").is_ok());
    assert!(parse("index s[2..1] [dim=0]\n").is_ok());
}

#[test]
fn statements_write_their_attributes_as_rules() {
    // One rule per bond a connection makes, holding its attributes.
    let n = net("A - B - C [color=red]\n");
    assert_eq!(n.rules().len(), 2);
    for r in n.rules() {
        assert!(matches!(r.selector, Selector::Index(_)));
        assert_eq!(r.attrs.len(), 1);
        assert_eq!(r.attrs[0].key, "color");
    }
    // A chain: one per bond; a grid: one per tensor.
    assert_eq!(net("chain A[1..4] [tube]\n").rules().len(), 3);
    let g = net("grid T 2x3 [color=blue]\n");
    assert_eq!(g.rules().len(), 6);
    assert!(g.rules().iter().all(|r| matches!(r.selector, Selector::Tensor(_))));
    // No attributes, no rules.
    assert_eq!(net("A - B\nchain C[1..3]\ngrid T 2x2\n").rules().len(), 0);
    // Legs: a `leg-dir` rule for each new leg with a direction.
    let l = net("A[1..2]: legs up, down\n");
    assert_eq!(l.rules().len(), 4);
    assert!(l.rules().iter().all(|r| matches!(r.selector, Selector::Slot(_, _)) && r.attrs[0].key == "leg-dir"));
}

#[test]
fn an_index_statement_sets_dim_and_keeps_the_rest_as_a_rule() {
    let n = net("index s[1..2] : Site [dim=2, color=red, dim=3]\n");
    assert_eq!(n.rules().len(), 2);
    for r in n.rules() {
        assert!(matches!(r.selector, Selector::Index(_)));
        assert_eq!(r.attrs.len(), 1);
        assert_eq!(r.attrs[0].key, "color");
    }
    let s1 = n.find_index(&Name::new("s".to_string(), vec![1]), 0).unwrap();
    assert_eq!(n.index(s1).dim, Some(3));
}

#[test]
fn statements_add_only_the_tensors_they_name() {
    let n = net("A - B\nchain C[1..3]\nD[1..2]: leg down\n");
    assert_eq!(n.tensors().len(), 7);
    let g = net("grid T 2x2\n");
    let names: Vec<String> = g.tensors().iter().map(|t| t.name.to_text()).collect();
    assert_eq!(names.len(), 4);
    assert!(names.iter().all(|x| ["T[1,1]", "T[1,2]", "T[2,1]", "T[2,2]"].contains(&x.as_str())));
}

#[test]
fn text_without_variables_outside_strings_and_math_is_kept() {
    for raw in ["color=red, width=2", "label=\"a@b\", tex=$x@y$", ""] {
        assert_eq!(substitute(raw, &[]), Ok(raw.to_string()));
        assert_eq!(substitute(raw, &[("b".to_string(), "1".to_string())]), Ok(raw.to_string()));
    }
}

#[test]
fn a_group_holds_the_tensors_it_names_in_order() {
    let n = net("A\nB\nket: B, A, C\n");
    let g = n.group("ket").unwrap();
    let id = |s: &str| n.find_tensor(&Name::plain(s.to_string())).unwrap();
    assert_eq!(g.members, vec![id("B"), id("A"), id("C")]);
    assert!(parse("A\nket: A\nket: A\n").is_err());
    assert!(parse("ket\nket: ket\n").is_err());
}

#[test]
fn refused_statements_say_why_and_where() {
    let msg = |s: &str| parse(s).unwrap_err().to_text();
    assert_eq!(msg("A[1..2] - B[1..3]\n"), "1:1: cannot pair 2 tensors with 3");
    assert_eq!(msg("A\nB[*]: leg down\n"), "2:1: `B[*]` matches no tensor");
    assert_eq!(msg("tensor A (i)\ntensor B (i)\ntensor C (i)\n"), "3:11: index i already joins two tensors");
    assert_eq!(msg("stack nope\n"), "1:1: `nope` is not a group");
    assert_eq!(msg("index s[*]\n"), "1:7: `s[*]` names no index: `*` only matches tensors");
    assert_eq!(msg("index s[1..2] [dim=0]\n"), "1:7: dim must be a positive integer");
}
