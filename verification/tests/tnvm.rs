//! The `.tnvm` file: figures and label sizes.

use tnviz::number::Number;
use tnviz::tnvm::{TnvmFigure, parse_tnvm};

fn label(f: &TnvmFigure, id: &str) -> Option<[Number; 3]> {
    f.labels.iter().find(|l| l.id == id).map(|l| [l.width, l.height, l.depth])
}

#[test]
fn figures_and_labels() {
    let f = parse_tnvm(
        "tnvm 1\n% comment\nfigure mps unit=28.45274 em=10 source=paper-mps.tnv\n\
         label mps t:A[1] 7.52 6.83 0\nfigure p unit=22.76 em=10.95 source=figures/my peps.tnv\n",
    )
    .unwrap();
    assert_eq!(f.len(), 2);
    assert_eq!(label(&f[0], "t:A[1]"), Some([Number::new(752, 2), Number::new(683, 2), Number::new(0, 0)]));
    assert_eq!(f[1].source, "figures/my peps.tnv");
    assert_eq!(f[1].em_pt, Number::new(1095, 2));
    assert_eq!(f[0].unit_pt, Number::new(2845274, 5));
    assert_eq!(f[0].name, "mps");
}

#[test]
fn tnvm_errors() {
    let bad = |s: &str| parse_tnvm(s).unwrap_err().to_text();
    assert!(bad("tnvm 2\n").contains("version 2"));
    assert!(bad("figure a unit=1 em=1 source=x\n").contains("starts with"));
    assert!(bad("tnvm 1\nlabel a t:A 1 2 3\n").starts_with("2:1: label of unknown figure"));
    assert!(bad("tnvm 1\nfigure a unit=1 source=x\n").contains("expected"));
    assert!(bad("tnvm 1\nfigure a/b unit=1 em=1 source=x\n").contains("figure name"));
}

#[test]
fn tnvm_records_in_detail() {
    let bad = |s: &str| parse_tnvm(s).unwrap_err().to_text();
    assert_eq!(bad(""), "empty .tnvm file");
    assert_eq!(bad("% only a comment\n"), "empty .tnvm file");
    assert_eq!(bad("tnvm x\n"), "1:1: bad version `x`");
    assert_eq!(bad("tnvm 3\n"), "1:1: this is .tnvm version 3; tnviz reads version 1");
    assert_eq!(bad("tnvm 1\ntnvm 1\n"), "2:1: unknown record `tnvm`");
    assert_eq!(bad("tnvm 1\nfigure a unit=1 em=0 source=x\n"), "2:1: unit and em must be positive");
    assert_eq!(bad("tnvm 1\nfigure a unit=1 em=x source=x\n"), "2:1: bad length `x`");
    assert_eq!(bad("tnvm 1\nfigure a unit=1 em=1 size=2 source=x\n"), "2:1: unknown field `size`");
    assert_eq!(
        bad("tnvm 1\nfigure a unit=1 em=1 source=x\nfigure a unit=2 em=2 source=y\n"),
        "3:1: figure `a` appears twice"
    );
    assert_eq!(
        bad("tnvm 1\nfigure a unit=1 em=1 source=x\nlabel a t:A 1 2\n"),
        "3:1: expected `label <figure> <id> <width> <height> <depth>`"
    );
    assert_eq!(bad("tnvm 1\nfigure a unit=1 em=1 source=x\nlabel a t:A 1 q 2\n"), "3:1: bad length `q`");
    // Windows line ends, blank lines, and a later size for the same label.
    let f = parse_tnvm(
        "\r\n  tnvm +1\r\n\r\nfigure a unit=1 em=1 source=  x y  \r\nlabel a t:A 1 2 3\nlabel a t:A 4 5 6\nlabel a t:B 7 8 9",
    )
    .unwrap();
    assert_eq!(f[0].source, "x y");
    assert_eq!(f[0].labels.len(), 2);
    assert_eq!(f[0].labels[0].width, Number::new(4, 0));
    assert_eq!(f[0].labels[1].id, "t:B");
}
