//! The grammar of tnv over tokens: what each part of the parser reads from
//! a position in the tokens, and where it stops; or the position of the
//! error it finds.

use vstd::prelude::*;

use crate::ast::{
    DirV, EndV, ExprV, ForV, KindV, LegRefV, LegSpecV, NameV, SelV, SlotV, StmtV, SubV,
};
use crate::attrs::{attrs_of, substitution};
use crate::error::Pos;
use crate::lexer::{Sym, TokV, lex_spec};
use crate::model::{Dim, Relation, is_direction_word};
use crate::number::Number;
use crate::value::ValueView;

verus! {

/// Tokens as the lexer makes them: the token, its position, and whether it
/// is attached to the one before.
pub type Toks = Seq<(TokV, Pos, bool)>;

/// Attribute lists as mathematical data.
pub type AttrsV = Seq<(Seq<char>, ValueView)>;

/// `let` variables and their values.
pub type Vars = Seq<(Seq<char>, Seq<char>)>;

/// A position for a read that cannot happen on the lexer's tokens.
pub open spec fn nowhere() -> Pos {
    Pos { line: 0, col: 0 }
}

pub open spec fn tok(ts: Toks, i: int) -> TokV {
    ts[i].0
}

pub open spec fn pos(ts: Toks, i: int) -> Pos {
    ts[i].1
}

/// The position after the token at `i`; the end of the file stays.
pub open spec fn next(ts: Toks, i: int) -> int {
    if ts[i].0 is Eof {
        i
    } else {
        i + 1
    }
}

/// The token `n` after `i`, or the end of the file.
pub open spec fn ahead(ts: Toks, i: int, n: int) -> TokV {
    if i + n < ts.len() {
        ts[i + n].0
    } else {
        TokV::Eof
    }
}

pub open spec fn is_sym(ts: Toks, i: int, s: Sym) -> bool {
    ts[i].0 == TokV::Sym(s)
}

/// Step over a symbol when it is there.
pub open spec fn eat(ts: Toks, i: int, s: Sym) -> int {
    if is_sym(ts, i, s) {
        i + 1
    } else {
        i
    }
}

pub open spec fn is_word(ts: Toks, i: int, w: Seq<char>) -> bool {
    ts[i].0 == TokV::Ident(w)
}

/// The end of a statement: a newline, a `;`, or the end of the file.
pub open spec fn at_end(ts: Toks, i: int) -> bool {
    ts[i].0 is Newline || ts[i].0 is Eof || ts[i].0 == TokV::Sym(Sym::Semi)
}

pub open spec fn expect(ts: Toks, i: int, s: Sym) -> Result<int, Pos> {
    if is_sym(ts, i, s) {
        Ok(i + 1)
    } else {
        Err(pos(ts, i))
    }
}

#[verifier::opaque]
pub open spec fn ident(ts: Toks, i: int) -> Result<(Seq<char>, int), Pos> {
    match ts[i].0 {
        TokV::Ident(w) => Ok((w, i + 1)),
        _ => Err(pos(ts, i)),
    }
}

/// An integer, with an optional `-`.
#[verifier::opaque]
pub open spec fn integer(ts: Toks, i: int) -> Result<(i64, int), Pos> {
    let j = eat(ts, i, Sym::Dash);
    match ts[j].0 {
        TokV::Int(n) => Ok((if j > i { (-n) as i64 } else { n }, j + 1)),
        _ => Err(pos(ts, j)),
    }
}

/// A number, with an optional `-`.
#[verifier::opaque]
pub open spec fn number(ts: Toks, i: int) -> Result<(Number, int), Pos> {
    let j = eat(ts, i, Sym::Dash);
    let x = match ts[j].0 {
        TokV::Int(n) => Some(Number { mantissa: n, scale: 0 }),
        TokV::Num(x) => Some(x),
        _ => None,
    };
    match x {
        Some(x) => Ok((
            if j > i {
                Number { mantissa: (-x.mantissa) as i64, scale: x.scale }
            } else {
                x
            },
            j + 1,
        )),
        None => Err(pos(ts, j)),
    }
}

/// The numbers after the first of a coordinate, each after a comma.
pub open spec fn numbers_rest(ts: Toks, i: int, acc: Seq<Number>) -> Result<(Seq<Number>, int), Pos>
    decreases ts.len() - i,
{
    if !(0 <= i < ts.len()) {
        Err(nowhere())
    } else if is_sym(ts, i, Sym::Comma) {
        match number(ts, i + 1) {
            Ok((x, j)) => if i < j <= ts.len() {
                numbers_rest(ts, j, acc.push(x))
            } else {
                Err(nowhere())
            },
            Err(p) => Err(p),
        }
    } else {
        Ok((acc, i))
    }
}

/// `(x, y)` or `(x, y, z)`.
#[verifier::opaque]
pub open spec fn point(ts: Toks, i: int) -> Result<(Seq<Number>, int), Pos> {
    match expect(ts, i, Sym::LParen) {
        Err(p) => Err(p),
        Ok(j) => match number(ts, j) {
            Err(p) => Err(p),
            Ok((x, k)) => match numbers_rest(ts, k, seq![x]) {
                Err(p) => Err(p),
                Ok((v, m)) => match expect(ts, m, Sym::RParen) {
                    Err(p) => Err(p),
                    Ok(e) => if v.len() == 2 || v.len() == 3 {
                        Ok((v, e))
                    } else {
                        Err(pos(ts, e))
                    },
                },
            },
        },
    }
}

/// A subscript expression: an integer, or a variable with an offset.
pub open spec fn expr(ts: Toks, i: int) -> Result<(ExprV, int), Pos> {
    match ts[i].0 {
        TokV::Ident(v) => {
            let j = i + 1;
            if is_sym(ts, j, Sym::Plus) {
                match integer(ts, j + 1) {
                    Ok((n, k)) => Ok((ExprV::Var(v, n), k)),
                    Err(p) => Err(p),
                }
            } else if is_sym(ts, j, Sym::Dash) && ahead(ts, j, 1) is Int {
                match integer(ts, j + 1) {
                    Ok((n, k)) => Ok((ExprV::Var(v, (-n) as i64), k)),
                    Err(p) => Err(p),
                }
            } else {
                Ok((ExprV::Var(v, 0), j))
            }
        },
        _ => match integer(ts, i) {
            Ok((n, k)) => Ok((ExprV::Int(n), k)),
            Err(p) => Err(p),
        },
    }
}

/// One subscript: `*`, an expression, or a range.
pub open spec fn subscript(ts: Toks, i: int) -> Result<(SubV, int), Pos> {
    if is_sym(ts, i, Sym::Star) {
        Ok((SubV::Any, i + 1))
    } else {
        match expr(ts, i) {
            Err(p) => Err(p),
            Ok((a, j)) => if is_sym(ts, j, Sym::DotDot) {
                match expr(ts, j + 1) {
                    Ok((b, k)) => Ok((SubV::Range(a, b), k)),
                    Err(p) => Err(p),
                }
            } else {
                Ok((SubV::Expr(a), j))
            },
        }
    }
}

/// Subscripts separated by commas, after those in `acc`.
pub open spec fn subs(ts: Toks, i: int, acc: Seq<SubV>) -> Result<(Seq<SubV>, int), Pos>
    decreases ts.len() - i,
{
    if !(0 <= i < ts.len()) {
        Err(nowhere())
    } else {
        match subscript(ts, i) {
            Err(p) => Err(p),
            Ok((s, j)) => if is_sym(ts, j, Sym::Comma) {
                if i < j + 1 <= ts.len() {
                    subs(ts, j + 1, acc.push(s))
                } else {
                    Err(nowhere())
                }
            } else {
                Ok((acc.push(s), j))
            },
        }
    }
}

/// Primes attached to a name, after `count` of them.
pub open spec fn primes(ts: Toks, i: int, count: u32) -> Result<(u32, int), Pos>
    decreases ts.len() - i,
{
    if !(0 <= i < ts.len()) {
        Err(nowhere())
    } else if is_sym(ts, i, Sym::Prime) && ts[i].2 {
        if count == u32::MAX {
            Err(pos(ts, i))
        } else {
            primes(ts, i + 1, (count + 1) as u32)
        }
    } else {
        Ok((count, i))
    }
}

/// Subscripts in brackets attached at `j`, if there are any.
pub open spec fn bracket(ts: Toks, j: int) -> Result<(Seq<SubV>, int), Pos> {
    if is_sym(ts, j, Sym::LBracket) && ts[j].2 {
        match subs(ts, j + 1, Seq::empty()) {
            Err(p) => Err(p),
            Ok((v, k)) => match expect(ts, k, Sym::RBracket) {
                Err(p) => Err(p),
                Ok(m) => Ok((v, m)),
            },
        }
    } else {
        Ok((Seq::empty(), j))
    }
}

/// A name: an identifier, subscripts in attached brackets, and primes.
#[verifier::opaque]
pub open spec fn name(ts: Toks, i: int) -> Result<(NameV, int), Pos> {
    match ident(ts, i) {
        Err(p) => Err(p),
        Ok((base, j)) => match bracket(ts, j) {
            Err(p) => Err(p),
            Ok((v, k)) => match primes(ts, k, 0) {
                Err(p) => Err(p),
                Ok((n, m)) => Ok((NameV { base, subs: v, prime: n, pos: pos(ts, i) }, m)),
            },
        },
    }
}

/// A name with an optional leg: `A.r` or `A.#2`.
#[verifier::opaque]
pub open spec fn end_ref(ts: Toks, i: int) -> Result<(EndV, int), Pos> {
    match name(ts, i) {
        Err(p) => Err(p),
        Ok((n, j)) => if is_sym(ts, j, Sym::Dot) && ts[j].2 {
            let k = j + 1;
            if is_sym(ts, k, Sym::Hash) {
                match integer(ts, k + 1) {
                    Err(p) => Err(p),
                    Ok((x, m)) => if x < 1 || x > usize::MAX {
                        Err(pos(ts, m))
                    } else {
                        Ok((EndV { name: n, leg: Some(LegRefV::Position(x as usize)) }, m))
                    },
                }
            } else {
                match ident(ts, k) {
                    Err(p) => Err(p),
                    Ok((l, m)) => Ok((EndV { name: n, leg: Some(LegRefV::Label(l)) }, m)),
                }
            }
        } else {
            Ok((EndV { name: n, leg: None }, j))
        },
    }
}

/// References after the first of a list, each after a comma.
pub open spec fn ends_rest(ts: Toks, i: int, acc: Seq<EndV>) -> Result<(Seq<EndV>, int), Pos>
    decreases ts.len() - i,
{
    if !(0 <= i < ts.len()) {
        Err(nowhere())
    } else if is_sym(ts, i, Sym::Comma) {
        match end_ref(ts, i + 1) {
            Ok((e, j)) => if i < j <= ts.len() {
                ends_rest(ts, j, acc.push(e))
            } else {
                Err(nowhere())
            },
            Err(p) => Err(p),
        }
    } else {
        Ok((acc, i))
    }
}

/// References separated by commas.
#[verifier::opaque]
pub open spec fn end_list(ts: Toks, i: int) -> Result<(Seq<EndV>, int), Pos> {
    match end_ref(ts, i) {
        Err(p) => Err(p),
        Ok((e, j)) => ends_rest(ts, j, seq![e]),
    }
}

/// The axes a signed direction names.
pub open spec fn is_axis_letter(w: Seq<char>) -> bool {
    w == "x"@ || w == "y"@ || w == "z"@
}

/// A direction, if one is here: `down`, `down-left`, `+z`, `-45`, `30`, or
/// `(0, 0, 1)`.
#[verifier::opaque]
pub open spec fn direction(ts: Toks, i: int) -> Result<(Option<DirV>, int), Pos> {
    let t = ts[i].0;
    if t == TokV::Sym(Sym::Plus) || t == TokV::Sym(Sym::Dash) {
        let sign = if t == TokV::Sym(Sym::Plus) {
            '+'
        } else {
            '-'
        };
        if ahead(ts, i, 1) matches TokV::Ident(a) && is_axis_letter(a) && ts[i + 1].2 {
            Ok((Some(DirV::Axis(seq![sign] + ahead(ts, i, 1)->Ident_0)), i + 2))
        } else {
            match number(ts, i) {
                Ok((x, j)) => Ok((Some(DirV::Angle(x)), j)),
                Err(p) => Err(p),
            }
        }
    } else if t is Int || t is Num {
        match number(ts, i) {
            Ok((x, j)) => Ok((Some(DirV::Angle(x)), j)),
            Err(p) => Err(p),
        }
    } else if t == TokV::Sym(Sym::LParen) {
        match point(ts, i) {
            Ok((v, j)) => Ok((Some(DirV::Vector(v)), j)),
            Err(p) => Err(p),
        }
    } else if t matches TokV::Ident(w) && is_direction_word(w) {
        let w = t->Ident_0;
        let j = i + 1;
        let (word, k) = if is_sym(ts, j, Sym::Dash) && ts[j].2 && ahead(ts, j, 1) is Ident {
            (w + seq!['-'] + ahead(ts, j, 1)->Ident_0, j + 2)
        } else {
            (w, j)
        };
        if is_direction_word(word) {
            Ok((Some(DirV::Word(word)), k))
        } else {
            Err(pos(ts, k))
        }
    } else {
        Ok((None, i))
    }
}

/// Legs after those in `acc`: each an optional label and an optional
/// direction, separated by commas.
pub open spec fn legs_from(ts: Toks, i: int, acc: Seq<LegSpecV>) -> Result<(Seq<LegSpecV>, int), Pos>
    decreases ts.len() - i,
{
    if !(0 <= i < ts.len()) {
        Err(nowhere())
    } else {
        let label = match ts[i].0 {
            TokV::Ident(w) => if is_direction_word(w) {
                None
            } else {
                Some(w)
            },
            _ => None,
        };
        let j = if label is Some {
            i + 1
        } else {
            i
        };
        match direction(ts, j) {
            Err(p) => Err(p),
            Ok((d, k)) => {
                let acc = acc.push(LegSpecV { label, dir: d });
                if is_sym(ts, k, Sym::Comma) {
                    if i < k + 1 <= ts.len() {
                        legs_from(ts, k + 1, acc)
                    } else {
                        Err(nowhere())
                    }
                } else {
                    Ok((acc, k))
                }
            },
        }
    }
}

/// The legs of `A: legs …`; none written is one leg.
pub open spec fn leg_specs(ts: Toks, i: int) -> Result<(Seq<LegSpecV>, int), Pos> {
    if at_end(ts, i) {
        Ok((seq![LegSpecV { label: None, dir: None }], i))
    } else {
        legs_from(ts, i, Seq::empty())
    }
}

/// An optional `for v in a..b`.
pub open spec fn for_opt(ts: Toks, i: int) -> Result<(Option<ForV>, int), Pos> {
    if !is_word(ts, i, "for"@) {
        Ok((None, i))
    } else {
        match ident(ts, i + 1) {
            Err(p) => Err(p),
            Ok((var, j)) => if !is_word(ts, j, "in"@) {
                Err(pos(ts, j))
            } else {
                match integer(ts, j + 1) {
                    Err(p) => Err(p),
                    Ok((from, k)) => match expect(ts, k, Sym::DotDot) {
                        Err(p) => Err(p),
                        Ok(m) => match integer(ts, m) {
                            Err(p) => Err(p),
                            Ok((to, e)) => Ok((Some(ForV { var, from, to }), e)),
                        },
                    },
                }
            },
        }
    }
}

/// An attribute list, if one is here, with variables substituted.
#[verifier::opaque]
pub open spec fn attrs_maybe(ts: Toks, i: int, vars: Vars) -> Result<(Option<AttrsV>, int), Pos> {
    match ts[i].0 {
        TokV::Attrs(raw) => match substitution(raw, vars) {
            Err(_) => Err(pos(ts, i)),
            Ok(text) => match attrs_of(text) {
                Ok(a) => Ok((Some(a), i + 1)),
                Err(_) => Err(pos(ts, i)),
            },
        },
        _ => Ok((None, i)),
    }
}

/// An attribute list.
pub open spec fn attrs(ts: Toks, i: int, vars: Vars) -> Result<(AttrsV, int), Pos> {
    match attrs_maybe(ts, i, vars) {
        Err(p) => Err(p),
        Ok((Some(a), j)) => Ok((a, j)),
        Ok((None, _)) => Err(pos(ts, i)),
    }
}

/// An optional attribute list; none is an empty one.
pub open spec fn attrs_opt(ts: Toks, i: int, vars: Vars) -> Result<(AttrsV, int), Pos> {
    match attrs_maybe(ts, i, vars) {
        Err(p) => Err(p),
        Ok((Some(a), j)) => Ok((a, j)),
        Ok((None, j)) => Ok((Seq::empty(), j)),
    }
}

/// The first reference of a list with a leg, if any.
pub open spec fn first_leg(list: Seq<EndV>) -> Option<int>
    decreases list.len(),
{
    if list.len() == 0 {
        None
    } else {
        match first_leg(list.drop_last()) {
            Some(k) => Some(k),
            None => if list.last().leg is Some {
                Some(list.len() - 1)
            } else {
                None
            },
        }
    }
}

/// A list that may not have legs: the position of the first that has one.
pub open spec fn no_legs(list: Seq<EndV>) -> Option<Pos> {
    match first_leg(list) {
        Some(k) => Some(list[k].name.pos),
        None => None,
    }
}

/// `chain` and what follows it.
#[verifier::opaque]
pub open spec fn chain(ts: Toks, i: int, vars: Vars, group: Option<Seq<char>>) -> Result<(KindV, int), Pos> {
    match end_list(ts, i) {
        Err(p) => Err(p),
        Ok((list, j)) => match attrs_opt(ts, j, vars) {
            Err(p) => Err(p),
            Ok((a, k)) => Ok((KindV::Chain { group, list, attrs: a }, k)),
        },
    }
}

/// Lists after the first of a connection, each after a `-`.
pub open spec fn lists_rest(ts: Toks, i: int, acc: Seq<Seq<EndV>>) -> Result<(Seq<Seq<EndV>>, int), Pos>
    decreases ts.len() - i,
{
    if !(0 <= i < ts.len()) {
        Err(nowhere())
    } else if is_sym(ts, i, Sym::Dash) {
        match end_list(ts, i + 1) {
            Ok((l, j)) => if i < j <= ts.len() {
                lists_rest(ts, j, acc.push(l))
            } else {
                Err(nowhere())
            },
            Err(p) => Err(p),
        }
    } else {
        Ok((acc, i))
    }
}

/// The relation a placement starts with, and where its anchor starts; or
/// `None` when it is no placement.
pub open spec fn relation(ts: Toks, i: int) -> Option<Result<(Relation, int), Pos>> {
    if is_word(ts, i, "right"@) || is_word(ts, i, "left"@) {
        Some(
            if is_word(ts, i + 1, "of"@) {
                Ok((
                    if is_word(ts, i, "right"@) {
                        Relation::RightOf
                    } else {
                        Relation::LeftOf
                    },
                    i + 2,
                ))
            } else {
                Err(pos(ts, i + 1))
            },
        )
    } else if is_word(ts, i, "above"@) {
        Some(Ok((Relation::Above, i + 1)))
    } else if is_word(ts, i, "below"@) {
        Some(Ok((Relation::Below, i + 1)))
    } else {
        None
    }
}

/// Statements that start with names: connections, legs, groups,
/// placement, styles, and declarations.
#[verifier::opaque]
pub open spec fn name_statement(ts: Toks, i: int, vars: Vars) -> Result<(KindV, int), Pos> {
    match end_list(ts, i) {
        Err(p) => Err(p),
        Ok((first, j)) => if is_sym(ts, j, Sym::Colon) {
            let k = j + 1;
            if is_word(ts, k, "leg"@) || is_word(ts, k, "legs"@) {
                match no_legs(first) {
                    Some(p) => Err(p),
                    None => match leg_specs(ts, k + 1) {
                        Err(p) => Err(p),
                        Ok((legs, m)) => Ok((KindV::Legs { targets: first, legs }, m)),
                    },
                }
            } else if !(first.len() == 1 && first[0].leg is None && first[0].name.subs.len() == 0
                && first[0].name.prime == 0) {
                Err(first[0].name.pos)
            } else if is_word(ts, k, "chain"@) {
                chain(ts, k + 1, vars, Some(first[0].name.base))
            } else {
                match end_list(ts, k) {
                    Err(p) => Err(p),
                    Ok((members, m)) => match no_legs(members) {
                        Some(p) => Err(p),
                        None => Ok((KindV::Group { name: first[0].name.base, members }, m)),
                    },
                }
            }
        } else if is_word(ts, j, "at"@) {
            if !(first.len() == 1 && first[0].leg is None) {
                Err(first[0].name.pos)
            } else {
                match point(ts, j + 1) {
                    Err(p) => Err(p),
                    Ok((v, m)) => Ok((KindV::At { target: first[0].name, pos: v }, m)),
                }
            }
        } else if relation(ts, j) is Some {
            match relation(ts, j)->Some_0 {
                Err(p) => Err(p),
                Ok((rel, k)) => if !(first.len() == 1 && first[0].leg is None) {
                    Err(first[0].name.pos)
                } else {
                    match name(ts, k) {
                        Err(p) => Err(p),
                        Ok((anchor, m)) => if is_sym(ts, m, Sym::Comma) {
                            match number(ts, m + 1) {
                                Err(p) => Err(p),
                                Ok((d, e)) => Ok((
                                    KindV::Relative {
                                        target: first[0].name,
                                        relation: rel,
                                        anchor,
                                        distance: Some(d),
                                    },
                                    e,
                                )),
                            }
                        } else {
                            Ok((
                                KindV::Relative { target: first[0].name, relation: rel, anchor, distance: None },
                                m,
                            ))
                        },
                    }
                },
            }
        } else if is_sym(ts, j, Sym::Dash) {
            match lists_rest(ts, j, seq![first]) {
                Err(p) => Err(p),
                Ok((lists, k)) => match attrs_opt(ts, k, vars) {
                    Err(p) => Err(p),
                    Ok((a, m)) => match for_opt(ts, m) {
                        Err(p) => Err(p),
                        Ok((each, e)) => Ok((KindV::Connect { lists, attrs: a, each }, e)),
                    },
                },
            }
        } else if ts[j].0 is Attrs {
            if first.len() != 1 {
                Err(pos(ts, j))
            } else {
                let selector = match first[0].leg {
                    Some(l) => SelV::LegOf(first[0].name, l),
                    None => SelV::Name(first[0].name),
                };
                match attrs(ts, j, vars) {
                    Err(p) => Err(p),
                    Ok((a, m)) => Ok((KindV::Style { selector, attrs: a }, m)),
                }
            }
        } else if at_end(ts, j) {
            match no_legs(first) {
                Some(p) => Err(p),
                None => Ok((KindV::Declare(first), j)),
            }
        } else {
            Err(pos(ts, j))
        },
    }
}

/// Identifiers after the first of a list, each after a comma.
pub open spec fn idents_rest(ts: Toks, i: int, acc: Seq<Seq<char>>) -> Result<(Seq<Seq<char>>, int), Pos>
    decreases ts.len() - i,
{
    if !(0 <= i < ts.len()) {
        Err(nowhere())
    } else if is_sym(ts, i, Sym::Comma) {
        match ident(ts, i + 1) {
            Ok((w, j)) => if i < j <= ts.len() {
                idents_rest(ts, j, acc.push(w))
            } else {
                Err(nowhere())
            },
            Err(p) => Err(p),
        }
    } else {
        Ok((acc, i))
    }
}

/// The slots of a tensor after those in `acc`: an optional `label =` and
/// an index name, separated by commas.
pub open spec fn slots_from(ts: Toks, i: int, acc: Seq<SlotV>) -> Result<(Seq<SlotV>, int), Pos>
    decreases ts.len() - i,
{
    if !(0 <= i < ts.len()) {
        Err(nowhere())
    } else {
        let labelled = ts[i].0 is Ident && ahead(ts, i, 1) == TokV::Sym(Sym::Equals);
        let (label, j) = if labelled {
            (Some(ts[i].0->Ident_0), i + 2)
        } else {
            (None, i)
        };
        match name(ts, j) {
            Err(p) => Err(p),
            Ok((index, k)) => {
                let acc = acc.push(SlotV { label, index });
                if is_sym(ts, k, Sym::Comma) {
                    if i < k + 1 <= ts.len() {
                        slots_from(ts, k + 1, acc)
                    } else {
                        Err(nowhere())
                    }
                } else {
                    Ok((acc, k))
                }
            },
        }
    }
}

/// The text of a version number.
pub open spec fn version_text(t: TokV) -> Seq<char> {
    match t {
        TokV::Num(x) => crate::number::number_text(x),
        TokV::Int(n) => crate::text::int_text(n as int),
        _ => Seq::empty(),
    }
}

/// `camera`, after the keyword: optional azimuth and elevation, then
/// attributes.
#[verifier::opaque]
pub open spec fn camera_kind(ts: Toks, j: int, vars: Vars) -> Result<(KindV, int), Pos> {
    let angles: Result<(Option<(Number, Number)>, int), Pos> = if ts[j].0 is Int || ts[j].0 is Num
        || ts[j].0 == TokV::Sym(Sym::Dash) {
        match number(ts, j) {
            Err(p) => Err(p),
            Ok((az, k)) => match number(ts, k) {
                Err(p) => Err(p),
                Ok((el, m)) => Ok((Some((az, el)), m)),
            },
        }
    } else {
        Ok((None, j))
    };
    match angles {
        Err(p) => Err(p),
        Ok((angles, k)) => match attrs_opt(ts, k, vars) {
            Err(p) => Err(p),
            Ok((a, m)) => Ok((KindV::Camera { angles, attrs: a }, m)),
        },
    }
}

/// `index`, after the keyword: a name, optional tags, attributes and a loop.
#[verifier::opaque]
pub open spec fn index_kind(ts: Toks, j: int, vars: Vars) -> Result<(KindV, int), Pos> {
    match name(ts, j) {
        Err(p) => Err(p),
        Ok((n, k)) => {
            let tags: Result<(Seq<Seq<char>>, int), Pos> = if is_sym(ts, k, Sym::Colon) {
                match ident(ts, k + 1) {
                    Err(p) => Err(p),
                    Ok((t, m)) => idents_rest(ts, m, seq![t]),
                }
            } else {
                Ok((Seq::empty(), k))
            };
            match tags {
                Err(p) => Err(p),
                Ok((tags, m)) => match attrs_opt(ts, m, vars) {
                    Err(p) => Err(p),
                    Ok((a, e)) => match for_opt(ts, e) {
                        Err(p) => Err(p),
                        Ok((each, f)) => Ok((KindV::Index { name: n, tags, attrs: a, each }, f)),
                    },
                },
            }
        },
    }
}

/// The slots of a tensor between its parentheses, at the token after `(`.
pub open spec fn slots(ts: Toks, m: int) -> Result<(Seq<SlotV>, int), Pos> {
    if is_sym(ts, m, Sym::RParen) {
        Ok((Seq::empty(), m))
    } else {
        slots_from(ts, m, Seq::empty())
    }
}

/// `tensor`, after the keyword: a name, slots in parentheses, attributes
/// and a loop.
#[verifier::opaque]
pub open spec fn tensor_kind(ts: Toks, j: int, vars: Vars) -> Result<(KindV, int), Pos> {
    match name(ts, j) {
        Err(p) => Err(p),
        Ok((n, k)) => match expect(ts, k, Sym::LParen) {
            Err(p) => Err(p),
            Ok(m) => match slots(ts, m) {
                Err(p) => Err(p),
                Ok((slots, e)) => match expect(ts, e, Sym::RParen) {
                    Err(p) => Err(p),
                    Ok(f) => match attrs_opt(ts, f, vars) {
                        Err(p) => Err(p),
                        Ok((a, g)) => match for_opt(ts, g) {
                            Err(p) => Err(p),
                            Ok((each, h)) => Ok((KindV::Tensor { name: n, slots, attrs: a, each }, h)),
                        },
                    },
                },
            },
        },
    }
}

/// `grid`, after the keyword: a base name, a size, and attributes.
pub open spec fn grid_kind(ts: Toks, j: int, vars: Vars) -> Result<(KindV, int), Pos> {
    match ident(ts, j) {
        Err(p) => Err(p),
        Ok((base, k)) => match ts[k].0 {
            TokV::Dims(rows, cols) => match attrs_opt(ts, k + 1, vars) {
                Err(p) => Err(p),
                Ok((a, m)) => Ok((KindV::Grid { base, rows, cols, attrs: a }, m)),
            },
            _ => Err(pos(ts, k)),
        },
    }
}

/// `stack`, after the keyword: group names separated by commas.
pub open spec fn stack_kind(ts: Toks, j: int) -> Result<(KindV, int), Pos> {
    match ident(ts, j) {
        Err(p) => Err(p),
        Ok((g, k)) => match idents_rest(ts, k, seq![g]) {
            Err(p) => Err(p),
            Ok((groups, m)) => Ok((KindV::Stack(groups), m)),
        },
    }
}

/// `tree`, after the keyword: a root and a direction.
pub open spec fn tree_kind(ts: Toks, j: int) -> Result<(KindV, int), Pos> {
    match name(ts, j) {
        Err(p) => Err(p),
        Ok((root, k)) => match direction(ts, k) {
            Err(p) => Err(p),
            Ok((Some(d), m)) => Ok((KindV::Tree { root, dir: d }, m)),
            Ok((None, m)) => Err(pos(ts, m)),
        },
    }
}

/// `leg [..]` or `leg.open [..]`, after the keyword.
pub open spec fn legs_style_kind(ts: Toks, j: int, vars: Vars) -> Result<(KindV, int), Pos> {
    if is_sym(ts, j, Sym::Dot) {
        if !is_word(ts, j + 1, "open"@) {
            Err(pos(ts, j + 1))
        } else {
            match attrs(ts, j + 2, vars) {
                Err(p) => Err(p),
                Ok((a, m)) => Ok((KindV::Style { selector: SelV::OpenLegs, attrs: a }, m)),
            }
        }
    } else {
        match attrs(ts, j, vars) {
            Err(p) => Err(p),
            Ok((a, m)) => Ok((KindV::Style { selector: SelV::Legs, attrs: a }, m)),
        }
    }
}

/// A style for everything a selector symbol names, after the symbol.
pub open spec fn symbol_style_kind(ts: Toks, j: int, vars: Vars, selector: SelV) -> Result<(KindV, int), Pos> {
    match attrs(ts, j, vars) {
        Err(p) => Err(p),
        Ok((a, m)) => Ok((KindV::Style { selector, attrs: a }, m)),
    }
}

/// The light, after `light`: a position in parentheses or one number.
pub open spec fn light_kind(ts: Toks, j: int) -> Result<(KindV, int), Pos> {
    if is_sym(ts, j, Sym::LParen) {
        match point(ts, j) {
            Ok((v, k)) => Ok((KindV::Light(v), k)),
            Err(p) => Err(p),
        }
    } else {
        match number(ts, j) {
            Ok((x, k)) => Ok((KindV::Light(seq![x]), k)),
            Err(p) => Err(p),
        }
    }
}

/// What a statement that starts with the word `w` says, the word at `i`.
#[verifier::opaque]
pub open spec fn word_kind(ts: Toks, i: int, vars: Vars, w: Seq<char>) -> Result<(KindV, int), Pos> {
    let j = i + 1;
    if w == "tnv"@ && (ahead(ts, i, 1) is Num || ahead(ts, i, 1) is Int) {
        Ok((KindV::Version(version_text(ts[j].0)), j + 1))
    } else if w == "2d"@ || w == "3d"@ {
        Ok((
            KindV::Scene(
                if w == "2d"@ {
                    Dim::Two
                } else {
                    Dim::Three
                },
            ),
            j,
        ))
    } else if w == "spacing"@ {
        match number(ts, j) {
            Ok((x, k)) => Ok((KindV::Spacing(x), k)),
            Err(p) => Err(p),
        }
    } else if w == "light"@ {
        light_kind(ts, j)
    } else if w == "camera"@ {
        camera_kind(ts, j, vars)
    } else if w == "index"@ {
        index_kind(ts, j, vars)
    } else if w == "tensor"@ {
        tensor_kind(ts, j, vars)
    } else if w == "chain"@ {
        chain(ts, j, vars, None)
    } else if w == "grid"@ {
        grid_kind(ts, j, vars)
    } else if w == "stack"@ {
        stack_kind(ts, j)
    } else if w == "tree"@ {
        tree_kind(ts, j)
    } else if w == "leg"@ && (ahead(ts, i, 1) is Attrs || ahead(ts, i, 1) == TokV::Sym(Sym::Dot)) {
        legs_style_kind(ts, j, vars)
    } else if w == "tag"@ && ahead(ts, i, 1) == TokV::Sym(Sym::Colon) {
        match ident(ts, i + 2) {
            Err(p) => Err(p),
            Ok((t, k)) => symbol_style_kind(ts, k, vars, SelV::Tag(t)),
        }
    } else {
        name_statement(ts, i, vars)
    }
}

/// One statement, other than `let`.
#[verifier::opaque]
pub open spec fn statement(ts: Toks, i: int, vars: Vars) -> Result<(StmtV, int), Pos> {
    let kind: Result<(KindV, int), Pos> = match ts[i].0 {
        TokV::Ident(w) => word_kind(ts, i, vars, w),
        _ => if is_sym(ts, i, Sym::Star) {
            symbol_style_kind(ts, i + 1, vars, SelV::Tensors)
        } else if is_sym(ts, i, Sym::Dash) {
            symbol_style_kind(ts, i + 1, vars, SelV::Bonds)
        } else {
            Err(pos(ts, i))
        },
    };
    match kind {
        Ok((k, j)) => Ok((StmtV { pos: pos(ts, i), kind: k }, j)),
        Err(p) => Err(p),
    }
}

/// Blank lines and `;`.
pub open spec fn skip_blanks(ts: Toks, i: int) -> int
    decreases ts.len() - i,
{
    if 0 <= i < ts.len() && (ts[i].0 is Newline || ts[i].0 == TokV::Sym(Sym::Semi)) {
        skip_blanks(ts, i + 1)
    } else {
        i
    }
}

/// `let name = value`, at `let`: the variables after it.
#[verifier::opaque]
pub open spec fn let_statement(ts: Toks, i: int, vars: Vars) -> Result<(Vars, int), Pos> {
    let j = i + 1;
    match ident(ts, j) {
        Err(p) => Err(p),
        Ok((name, k)) => match expect(ts, k, Sym::Equals) {
            Err(p) => Err(p),
            Ok(m) => match ts[m].0 {
                TokV::Raw(raw) => if exists|q: int| 0 <= q < vars.len() && (#[trigger] vars[q]).0 == name {
                    Err(pos(ts, j))
                } else {
                    match substitution(raw, vars) {
                        Ok(v) => Ok((vars.push((name, v)), next(ts, m))),
                        Err(_) => Err(pos(ts, j)),
                    }
                },
                _ => Err(pos(ts, j)),
            },
        },
    }
}

/// The statements from `i` on, after those in `acc`.
pub open spec fn file(ts: Toks, i: int, vars: Vars, acc: Seq<StmtV>) -> Result<Seq<StmtV>, Pos>
    decreases ts.len() - i,
{
    let j = skip_blanks(ts, i);
    if !(0 <= i <= j < ts.len()) {
        Err(nowhere())
    } else if ts[j].0 is Eof {
        Ok(acc)
    } else if is_word(ts, j, "let"@) {
        match let_statement(ts, j, vars) {
            Err(p) => Err(p),
            Ok((vars, k)) => if !at_end(ts, k) {
                Err(pos(ts, k))
            } else if j < k <= ts.len() {
                file(ts, k, vars, acc)
            } else {
                Err(nowhere())
            },
        }
    } else {
        match statement(ts, j, vars) {
            Err(p) => Err(p),
            Ok((s, k)) => {
                let chained = s.kind is Scene && is_sym(ts, k, Sym::Comma);
                if !chained && !at_end(ts, k) {
                    Err(pos(ts, k))
                } else {
                    let k = if chained {
                        k + 1
                    } else {
                        k
                    };
                    if j < k <= ts.len() {
                        file(ts, k, vars, acc.push(s))
                    } else {
                        Err(nowhere())
                    }
                }
            },
        }
    }
}

/// The statements of a source text, or the position of its first error.
pub open spec fn parse_spec(src: Seq<char>) -> Result<Seq<StmtV>, Pos> {
    match lex_spec(src) {
        Err((p, _)) => Err(p),
        Ok(ts) => file(ts, 0, Seq::empty(), Seq::empty()),
    }
}

} // verus!
