//! What single statements do to a network.

use tnviz::lower::parse;
use tnviz::model::{LayoutStmt, Network, Selector};
use tnviz::name::Name;
use tnviz::number::Number;

fn net(src: &str) -> Network {
    match parse(src) {
        Ok(n) => n,
        Err(e) => panic!("{}\n---\n{src}", e.to_text()),
    }
}

fn index_named(n: &Network, base: &str, subs: &[i64], prime: u32) -> usize {
    n.indices()
        .iter()
        .position(|i| i.name == Name::new(base.to_string(), subs.to_vec()) && i.prime == prime)
        .unwrap_or_else(|| panic!("no index {base}{subs:?}"))
}

#[test]
fn index_statements_tag_every_index_of_a_range() {
    let n = net("index s[1..3] : Site, Phys\nindex s[2]' : Out [dim=4]\n");
    for k in 1..=3 {
        let i = &n.indices()[index_named(&n, "s", &[k], 0)];
        assert_eq!(i.tags, vec!["Phys".to_string(), "Site".to_string()]);
        assert!(i.holders.is_empty());
    }
    let p = &n.indices()[index_named(&n, "s", &[2], 1)];
    assert_eq!(p.tags, vec!["Out".to_string()]);
    assert_eq!(p.dim, Some(4));
    assert!(n.tensors().is_empty());
}

#[test]
fn an_index_statement_per_loop_round() {
    let n = net("index l[n] : Link for n in 2..4\n");
    assert_eq!(n.indices().len(), 3);
    for k in 2..=4 {
        let i = &n.indices()[index_named(&n, "l", &[k], 0)];
        assert_eq!(i.tags, vec!["Link".to_string()]);
    }
}

#[test]
fn tensor_statements_add_slots_in_order() {
    let n = net("tensor A (s, r=l[1], l[2]')\ntensor A (x)\n");
    assert_eq!(n.tensors().len(), 1);
    let a = &n.tensors()[0];
    let names: Vec<(String, u32, Option<String>)> = a
        .slots
        .iter()
        .map(|s| {
            let i = &n.indices()[s.index.0];
            (i.name.to_text(), i.prime, s.label.clone())
        })
        .collect();
    assert_eq!(
        names,
        vec![
            ("s".to_string(), 0, None),
            ("l[1]".to_string(), 0, Some("r".to_string())),
            ("l[2]".to_string(), 1, None),
            ("x".to_string(), 0, None),
        ]
    );
}

#[test]
fn a_tensor_with_attributes_gets_a_rule() {
    let n = net("tensor B[1] (a) [color=red]\n");
    assert_eq!(n.rules().len(), 1);
    assert_eq!(n.rules()[0].selector, Selector::Tensor(tnviz::model::TensorId(0)));
    assert_eq!(n.rules()[0].attrs[0].key, "color");
}

#[test]
fn grids_make_every_tensor_and_their_layout() {
    let n = net("grid T 2x3\n");
    for r in 1..=2 {
        for c in 1..=3 {
            assert!(n.find_tensor(&Name::new("T".to_string(), vec![r, c])).is_some());
        }
    }
    assert_eq!(n.tensors().len(), 6);
    assert_eq!(n.bonds().len(), 7);
    match n.layout_statements().last() {
        Some(LayoutStmt::Grid { base, rows, cols }) => {
            assert_eq!((base.as_str(), *rows, *cols), ("T", 2, 3));
        },
        other => panic!("{other:?}"),
    }
}

#[test]
fn cameras_keep_earlier_angles_and_add_attributes() {
    let n = net("3d\ncamera 30 20 [zoom=2]\ncamera [tilt=1]\n");
    let cam = n.scene().camera.as_ref().unwrap();
    assert_eq!(cam.angles, Some((Number::integer(30), Number::integer(20))));
    let keys: Vec<&str> = cam.attrs.iter().map(|a| a.key.as_str()).collect();
    assert_eq!(keys, vec!["zoom", "tilt"]);
}

#[test]
fn named_chains_add_a_group_and_a_row() {
    let n = net("ket: chain A[1..3]\n");
    assert_eq!(n.groups().len(), 1);
    assert_eq!(n.groups()[0].name, "ket");
    assert_eq!(n.groups()[0].members.len(), 3);
    assert!(matches!(n.layout_statements().last(), Some(LayoutStmt::Row { .. })));
    assert_eq!(n.bonds().len(), 2);
}

#[test]
fn styles_append_one_rule_with_their_selector() {
    let n = net("A - B\nA [color=blue]\ntag:Link [width=2]\n");
    assert_eq!(n.rules().len(), 2);
    assert!(matches!(&n.rules()[0].selector, Selector::Name(p) if p.base == "A"));
    assert!(matches!(&n.rules()[1].selector, Selector::Tag(t) if t == "Link"));
}

#[test]
fn styles_with_unreadable_subscripts_are_refused() {
    assert!(parse("A[n] [color=red]\n").is_err());
}
