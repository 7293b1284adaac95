//! Every kind of error in tnv source comes with its position.

use tnviz::lower::parse;

fn error(src: &str) -> String {
    match parse(src) {
        Ok(_) => panic!("{src:?} was accepted"),
        Err(e) => e.to_text(),
    }
}

fn fails(src: &str, pos: &str, msg: &str) {
    let err = error(src);
    assert!(err.starts_with(pos) && err.contains(msg), "{src:?} gave {err:?}");
}

#[test]
fn lexical_errors() {
    fails("A ? B\n", "1:3:", "unexpected character `?`");
    fails("A - B\nC [color=red\n", "2:3:", "attribute list is not closed by `]`");
    fails("grid T 3q\n", "1:", "is not a number, a length, or a size like 3x3");
}

#[test]
fn syntax_errors() {
    fails("A -\n", "1:", "expected");
    fails("A B C\n", "1:", "expected `-`, `:`, `at`, a relation, or an attribute list");
    fails("A[1] [color=red] junk\n", "1:", "expected the end of the statement");
    fails("A at (1)\n", "1:", "a coordinate has 2 or 3 components");
    fails("A.#0 - B\n", "1:", "leg positions start at 1");
    fails("A: leg open sideways\n", "1:", "");
    fails("tree T growing\n", "1:", "");
}

#[test]
fn errors_while_building() {
    fails("A[n] - B[n] for n in 1..2\nC[m] - D\n", "2:", "`m` is not a loop variable");
    fails("A - B\nA.#1 - B\n", "2:", "connect legs by label, not by position");
    fails("index i [dim=0]\n", "1:", "dim must be a positive integer");
    fails("index i [dim=2.5]\n", "1:", "dim must be a positive integer");
    fails("A' - B\n", "1:", "tensor names have no prime level");
    fails("tnv 0.1\n", "1:1:", "this is tnv 0.3; the file asks for 0.1");
    fails("stack top, bottom\n", "1:", "`top` is not a group");
    fails("A[1..2] at (0, 0)\n", "1:", "must name exactly one thing");
}

#[test]
fn known_versions_are_read() {
    assert!(parse("tnv 0.2\nA - B\n").is_ok());
    assert!(parse("tnv 0.3\nA - B\n").is_ok());
}

#[test]
fn errors_without_a_position_print_their_message_alone() {
    let e = tnviz::error::Error::new("nothing here".to_string());
    assert_eq!(e.to_text(), "nothing here");
    let e = e.or_at(tnviz::error::Pos { line: 4, col: 2 });
    assert_eq!(e.to_text(), "4:2: nothing here");
    // A position, once set, stays.
    let e = e.or_at(tnviz::error::Pos { line: 9, col: 9 });
    assert_eq!(e.to_text(), "4:2: nothing here");
}
