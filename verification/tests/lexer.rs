//! Tokens of tnv source.

use tnviz::lexer::{Sym, Tok, lex};
use tnviz::number::Number;

fn toks(s: &str) -> Vec<Tok> {
    match lex(s) {
        Ok(t) => t.into_iter().map(|t| t.tok).collect(),
        Err(e) => panic!("{}", e.to_text()),
    }
}

#[test]
fn subscripts_and_attrs() {
    assert_eq!(
        toks("A[1..6] [color=red]"),
        vec![
            Tok::Ident("A".into()),
            Tok::Sym(Sym::LBracket),
            Tok::Int(1),
            Tok::Sym(Sym::DotDot),
            Tok::Int(6),
            Tok::Sym(Sym::RBracket),
            Tok::Attrs("color=red".into()),
            Tok::Eof
        ]
    );
    assert_eq!(toks("- [label=$a[1]$]"), vec![Tok::Sym(Sym::Dash), Tok::Attrs("label=$a[1]$".into()), Tok::Eof]);
}

#[test]
fn numbers() {
    assert_eq!(
        toks("3x3 2mm .5 3d"),
        vec![
            Tok::Dims(3, 3),
            Tok::Length(Number::integer(2), "mm".into()),
            Tok::Num(Number::new(5, 1)),
            Tok::Ident("3d".into()),
            Tok::Eof
        ]
    );
    assert!(lex("3kg").is_err());
}

#[test]
fn newlines_inside_parentheses() {
    let t = toks("tensor A (a,\n b)\nB");
    assert_eq!(t.iter().filter(|t| **t == Tok::Newline).count(), 1);
}

#[test]
fn positions_count_lines_and_columns() {
    let toks = match lex("A - B\n  C[1] [x=1]  // note\nD") {
        Ok(t) => t,
        Err(e) => panic!("{}", e.to_text()),
    };
    let at: Vec<(usize, usize)> = toks.iter().map(|t| (t.pos.line, t.pos.col)).collect();
    assert_eq!(at, [(1, 1), (1, 3), (1, 5), (1, 6), (2, 3), (2, 4), (2, 5), (2, 6), (2, 8), (2, 22), (3, 1), (3, 2)]);
    assert!(!toks[1].attached && toks[5].attached && toks[6].attached && !toks[8].attached);
    assert_eq!(toks[8].tok, Tok::Attrs("x=1".to_string()));
}

#[test]
fn let_values_are_raw() {
    let toks = match lex("let c = blue!64!black ; A") {
        Ok(t) => t,
        Err(e) => panic!("{}", e.to_text()),
    };
    assert_eq!(toks[3].tok, Tok::Raw("blue!64!black".to_string()));
    assert_eq!(toks[4].tok, Tok::Sym(Sym::Semi));
    assert!(lex("let c =\n").is_err());
}
