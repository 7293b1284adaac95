//! Syntax tree of tnv source, before names are resolved.

use vstd::prelude::*;

use crate::error::Pos;
use crate::model::{Dim, Direction, Relation};
use crate::number::{Number, number_wf};
use crate::value::{Attr, ValueView, attrs_view, attrs_wf};

verus! {

/// A subscript expression: an integer, or a loop variable plus an offset.
#[derive(Clone, Debug, PartialEq)]
pub enum Expr {
    Int(i64),
    Var(String, i64),
}

#[derive(Clone, Debug, PartialEq)]
pub enum Sub {
    Expr(Expr),
    Range(Expr, Expr),
    Any,
}

#[derive(Clone, Debug, PartialEq)]
pub struct NameAst {
    pub base: String,
    pub subs: Vec<Sub>,
    pub prime: u32,
    pub pos: Pos,
}

#[derive(Clone, Debug, PartialEq)]
pub enum LegRef {
    Label(String),
    /// 1-based.
    Position(usize),
}

/// `A`, `A[*]`, or `A.r`.
#[derive(Clone, Debug, PartialEq)]
pub struct EndRef {
    pub name: NameAst,
    pub leg: Option<LegRef>,
}

#[derive(Clone, Debug, PartialEq)]
pub struct SlotAst {
    pub label: Option<String>,
    pub index: NameAst,
}

#[derive(Clone, Debug, PartialEq)]
pub struct LegSpec {
    pub label: Option<String>,
    pub dir: Option<Direction>,
}

#[derive(Clone, Debug, PartialEq)]
pub struct ForClause {
    pub var: String,
    pub from: i64,
    pub to: i64,
}

#[derive(Clone, Debug, PartialEq)]
pub enum SelectorAst {
    Tensors,
    Bonds,
    Legs,
    OpenLegs,
    Tag(String),
    Name(NameAst),
    LegOf(NameAst, LegRef),
}

#[derive(Clone, Debug, PartialEq)]
#[allow(inconsistent_fields)]
pub enum StmtKind {
    Version(String),
    Scene(Dim),
    Spacing(Number),
    /// An angle, or a vector.
    Light(Vec<Number>),
    Camera { angles: Option<(Number, Number)>, attrs: Vec<Attr> },
    Index { name: NameAst, tags: Vec<String>, attrs: Vec<Attr>, each: Option<ForClause> },
    Tensor { name: NameAst, slots: Vec<SlotAst>, attrs: Vec<Attr>, each: Option<ForClause> },
    /// Tensors named on their own line.
    Declare(Vec<EndRef>),
    Connect { lists: Vec<Vec<EndRef>>, attrs: Vec<Attr>, each: Option<ForClause> },
    Chain { group: Option<String>, list: Vec<EndRef>, attrs: Vec<Attr> },
    Grid { base: String, rows: usize, cols: usize, attrs: Vec<Attr> },
    Legs { targets: Vec<EndRef>, legs: Vec<LegSpec> },
    Group { name: String, members: Vec<EndRef> },
    At { target: NameAst, pos: Vec<Number> },
    Relative { target: NameAst, relation: Relation, anchor: NameAst, distance: Option<Number> },
    Stack(Vec<String>),
    Tree { root: NameAst, dir: Direction },
    Style { selector: SelectorAst, attrs: Vec<Attr> },
}

#[derive(Clone, Debug, PartialEq)]
pub struct Stmt {
    pub pos: Pos,
    pub kind: StmtKind,
}

/// Every number of a list is in lowest terms.
pub open spec fn numbers_wf(v: Seq<Number>) -> bool {
    forall|i: int| 0 <= i < v.len() ==> number_wf(#[trigger] v[i])
}

/// The numbers of a direction are in lowest terms.
pub open spec fn direction_wf(d: Direction) -> bool {
    match d {
        Direction::Angle(a) => number_wf(a),
        Direction::Vector(v) => numbers_wf(v@),
        _ => true,
    }
}

/// The numbers of a statement are in lowest terms, and its attributes are
/// well formed.
pub open spec fn stmt_wf(s: Stmt) -> bool {
    match s.kind {
        StmtKind::Spacing(x) => number_wf(x),
        StmtKind::Light(v) => numbers_wf(v@),
        StmtKind::Camera { angles, attrs } => (angles matches Some((a, b)) ==> number_wf(a) && number_wf(
            b,
        )) && attrs_wf(attrs_view(attrs@)),
        StmtKind::Index { attrs, .. } => attrs_wf(attrs_view(attrs@)),
        StmtKind::Tensor { attrs, .. } => attrs_wf(attrs_view(attrs@)),
        StmtKind::Connect { attrs, .. } => attrs_wf(attrs_view(attrs@)),
        StmtKind::Chain { attrs, .. } => attrs_wf(attrs_view(attrs@)),
        StmtKind::Grid { attrs, .. } => attrs_wf(attrs_view(attrs@)),
        StmtKind::Legs { legs, .. } => forall|i: int|
            0 <= i < legs@.len() ==> ((#[trigger] legs@[i]).dir matches Some(d) ==> direction_wf(d)),
        StmtKind::At { pos, .. } => numbers_wf(pos@),
        StmtKind::Relative { distance, .. } => distance matches Some(d) ==> number_wf(d),
        StmtKind::Tree { dir, .. } => direction_wf(dir),
        StmtKind::Style { attrs, .. } => attrs_wf(attrs_view(attrs@)),
        _ => true,
    }
}

// ---- The tree as mathematical data ----------------------------------------------

pub enum ExprV {
    Int(i64),
    Var(Seq<char>, i64),
}

pub enum SubV {
    Expr(ExprV),
    Range(ExprV, ExprV),
    Any,
}

pub struct NameV {
    pub base: Seq<char>,
    pub subs: Seq<SubV>,
    pub prime: u32,
    pub pos: Pos,
}

pub enum LegRefV {
    Label(Seq<char>),
    Position(usize),
}

pub struct EndV {
    pub name: NameV,
    pub leg: Option<LegRefV>,
}

pub enum DirV {
    Word(Seq<char>),
    Angle(Number),
    Axis(Seq<char>),
    Vector(Seq<Number>),
}

pub struct LegSpecV {
    pub label: Option<Seq<char>>,
    pub dir: Option<DirV>,
}

pub struct ForV {
    pub var: Seq<char>,
    pub from: i64,
    pub to: i64,
}

pub struct SlotV {
    pub label: Option<Seq<char>>,
    pub index: NameV,
}

pub enum SelV {
    Tensors,
    Bonds,
    Legs,
    OpenLegs,
    Tag(Seq<char>),
    Name(NameV),
    LegOf(NameV, LegRefV),
}

pub enum KindV {
    Version(Seq<char>),
    Scene(Dim),
    Spacing(Number),
    Light(Seq<Number>),
    Camera { angles: Option<(Number, Number)>, attrs: Seq<(Seq<char>, ValueView)> },
    Index { name: NameV, tags: Seq<Seq<char>>, attrs: Seq<(Seq<char>, ValueView)>, each: Option<ForV> },
    Tensor { name: NameV, slots: Seq<SlotV>, attrs: Seq<(Seq<char>, ValueView)>, each: Option<ForV> },
    Declare(Seq<EndV>),
    Connect { lists: Seq<Seq<EndV>>, attrs: Seq<(Seq<char>, ValueView)>, each: Option<ForV> },
    Chain { group: Option<Seq<char>>, list: Seq<EndV>, attrs: Seq<(Seq<char>, ValueView)> },
    Grid { base: Seq<char>, rows: usize, cols: usize, attrs: Seq<(Seq<char>, ValueView)> },
    Legs { targets: Seq<EndV>, legs: Seq<LegSpecV> },
    Group { name: Seq<char>, members: Seq<EndV> },
    At { target: NameV, pos: Seq<Number> },
    Relative { target: NameV, relation: Relation, anchor: NameV, distance: Option<Number> },
    Stack(Seq<Seq<char>>),
    Tree { root: NameV, dir: DirV },
    Style { selector: SelV, attrs: Seq<(Seq<char>, ValueView)> },
}

pub struct StmtV {
    pub pos: Pos,
    pub kind: KindV,
}

pub open spec fn expr_v(e: Expr) -> ExprV {
    match e {
        Expr::Int(n) => ExprV::Int(n),
        Expr::Var(v, off) => ExprV::Var(v@, off),
    }
}

pub open spec fn sub_v(s: Sub) -> SubV {
    match s {
        Sub::Expr(e) => SubV::Expr(expr_v(e)),
        Sub::Range(a, b) => SubV::Range(expr_v(a), expr_v(b)),
        Sub::Any => SubV::Any,
    }
}

pub open spec fn name_v(n: NameAst) -> NameV {
    NameV { base: n.base@, subs: n.subs@.map_values(|s: Sub| sub_v(s)), prime: n.prime, pos: n.pos }
}

pub open spec fn leg_v(l: LegRef) -> LegRefV {
    match l {
        LegRef::Label(s) => LegRefV::Label(s@),
        LegRef::Position(k) => LegRefV::Position(k),
    }
}

pub open spec fn opt_leg_v(l: Option<LegRef>) -> Option<LegRefV> {
    match l {
        Some(x) => Some(leg_v(x)),
        None => None,
    }
}

pub open spec fn end_v(e: EndRef) -> EndV {
    EndV { name: name_v(e.name), leg: opt_leg_v(e.leg) }
}

pub open spec fn ends_v(v: Seq<EndRef>) -> Seq<EndV> {
    v.map_values(|e: EndRef| end_v(e))
}

pub open spec fn dir_v(d: Direction) -> DirV {
    match d {
        Direction::Word(w) => DirV::Word(w@),
        Direction::Angle(a) => DirV::Angle(a),
        Direction::Axis(w) => DirV::Axis(w@),
        Direction::Vector(v) => DirV::Vector(v@),
    }
}

pub open spec fn opt_str_v(s: Option<String>) -> Option<Seq<char>> {
    match s {
        Some(x) => Some(x@),
        None => None,
    }
}

pub open spec fn opt_dir_v(d: Option<Direction>) -> Option<DirV> {
    match d {
        Some(x) => Some(dir_v(x)),
        None => None,
    }
}

pub open spec fn leg_spec_v(l: LegSpec) -> LegSpecV {
    LegSpecV { label: opt_str_v(l.label), dir: opt_dir_v(l.dir) }
}

pub open spec fn for_v(f: Option<ForClause>) -> Option<ForV> {
    match f {
        Some(c) => Some(ForV { var: c.var@, from: c.from, to: c.to }),
        None => None,
    }
}

pub open spec fn slot_v(s: SlotAst) -> SlotV {
    SlotV { label: opt_str_v(s.label), index: name_v(s.index) }
}

pub open spec fn sel_v(s: SelectorAst) -> SelV {
    match s {
        SelectorAst::Tensors => SelV::Tensors,
        SelectorAst::Bonds => SelV::Bonds,
        SelectorAst::Legs => SelV::Legs,
        SelectorAst::OpenLegs => SelV::OpenLegs,
        SelectorAst::Tag(t) => SelV::Tag(t@),
        SelectorAst::Name(n) => SelV::Name(name_v(n)),
        SelectorAst::LegOf(n, l) => SelV::LegOf(name_v(n), leg_v(l)),
    }
}

pub open spec fn strs_v(v: Seq<String>) -> Seq<Seq<char>> {
    v.map_values(|s: String| s@)
}

pub open spec fn kind_v(k: StmtKind) -> KindV {
    match k {
        StmtKind::Version(v) => KindV::Version(v@),
        StmtKind::Scene(d) => KindV::Scene(d),
        StmtKind::Spacing(x) => KindV::Spacing(x),
        StmtKind::Light(v) => KindV::Light(v@),
        StmtKind::Camera { angles, attrs } => KindV::Camera { angles, attrs: attrs_view(attrs@) },
        StmtKind::Index { name, tags, attrs, each } => KindV::Index {
            name: name_v(name),
            tags: strs_v(tags@),
            attrs: attrs_view(attrs@),
            each: for_v(each),
        },
        StmtKind::Tensor { name, slots, attrs, each } => KindV::Tensor {
            name: name_v(name),
            slots: slots@.map_values(|s: SlotAst| slot_v(s)),
            attrs: attrs_view(attrs@),
            each: for_v(each),
        },
        StmtKind::Declare(list) => KindV::Declare(ends_v(list@)),
        StmtKind::Connect { lists, attrs, each } => KindV::Connect {
            lists: lists@.map_values(|l: Vec<EndRef>| ends_v(l@)),
            attrs: attrs_view(attrs@),
            each: for_v(each),
        },
        StmtKind::Chain { group, list, attrs } => KindV::Chain {
            group: opt_str_v(group),
            list: ends_v(list@),
            attrs: attrs_view(attrs@),
        },
        StmtKind::Grid { base, rows, cols, attrs } => KindV::Grid {
            base: base@,
            rows,
            cols,
            attrs: attrs_view(attrs@),
        },
        StmtKind::Legs { targets, legs } => KindV::Legs {
            targets: ends_v(targets@),
            legs: legs@.map_values(|l: LegSpec| leg_spec_v(l)),
        },
        StmtKind::Group { name, members } => KindV::Group { name: name@, members: ends_v(members@) },
        StmtKind::At { target, pos } => KindV::At { target: name_v(target), pos: pos@ },
        StmtKind::Relative { target, relation, anchor, distance } => KindV::Relative {
            target: name_v(target),
            relation,
            anchor: name_v(anchor),
            distance,
        },
        StmtKind::Stack(groups) => KindV::Stack(strs_v(groups@)),
        StmtKind::Tree { root, dir } => KindV::Tree { root: name_v(root), dir: dir_v(dir) },
        StmtKind::Style { selector, attrs } => KindV::Style { selector: sel_v(selector), attrs: attrs_view(attrs@) },
    }
}

pub open spec fn stmt_v(s: Stmt) -> StmtV {
    StmtV { pos: s.pos, kind: kind_v(s.kind) }
}

pub open spec fn stmts_v(v: Seq<Stmt>) -> Seq<StmtV> {
    v.map_values(|s: Stmt| stmt_v(s))
}

} // verus!
