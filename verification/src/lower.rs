//! Turn statements into a network.
//!
//! Statements run in order.  Structural statements (connections, legs,
//! groups) see the tensors that exist when they run, while style rules are
//! stored with their selectors and match whenever styles are resolved.

use vstd::prelude::*;

use crate::ast::{
    EndRef, Expr, ForClause, LegRef, NameAst, SelectorAst, Stmt, StmtKind, Sub, direction_wf, numbers_wf,
    stmt_wf,
};
use crate::error::{Error, Pos, error_at, error_new};
use crate::model::{
    tagged, links_fresh, lemma_links_fresh_same, sites_fresh, lemma_sites_fresh_same,
    Dim, Direction, Scene, LayoutStmt, LegKey, Network, Relation, Rule, Selector, TensorId, grows, lemma_grows_refl,
    lemma_grows_trans, lemma_refs_grow, refs_ok, same_extras, selector_ok, layout_refs_ok,
};
use crate::name::{Name, NamePattern, SubPattern, pattern_is_exact};
use crate::number::{Number, number_wf};
use crate::text::{chars_of, push_chars, push_int, push_str, str_is, string_copy, string_of};
use crate::value::{Attr, Value, ValueView, attrs_view, attrs_wf};

verus! {

// ---- Loop variables and subscripts -----------------------------------------------

/// The value of a loop variable in an environment of at most one variable.
pub open spec fn env_value(env: Option<(String, i64)>, v: Seq<char>) -> Option<i64> {
    match env {
        Some((name, x)) => if name@ == v {
            Some(x)
        } else {
            None
        },
        None => None,
    }
}

fn copy_env(env: &Option<(String, i64)>) -> (r: Option<(String, i64)>)
    ensures
        forall|v: Seq<char>| env_value(r, v) == env_value(*env, v),
{
    match env {
        Some((n, x)) => Some((string_copy(n), *x)),
        None => None,
    }
}

/// Evaluate a subscript expression.
pub fn eval(e: &Expr, env: &Option<(String, i64)>, pos: Pos) -> (r: Result<i64, Error>)
    ensures
        e matches Expr::Int(n) ==> r == Ok::<i64, Error>(*n),
        e matches Expr::Var(v, off) ==> match env_value(*env, v@) {
            Some(x) => (i64::MIN <= x + *off <= i64::MAX ==> r == Ok::<i64, Error>((x + *off) as i64))
                && (!(i64::MIN <= x + *off <= i64::MAX) ==> r is Err),
            None => r is Err,
        },
        r matches Err(err) ==> err.pos == Some(pos),
{
    match e {
        Expr::Int(n) => Ok(*n),
        Expr::Var(v, off) => {
            let x = match env {
                Some((name, x)) => if crate::text::strings_equal(name, v) {
                    Some(*x)
                } else {
                    None
                },
                None => None,
            };
            match x {
                Some(x) => match x.checked_add(*off) {
                    Some(s) => Ok(s),
                    None => Err(error_at(pos, chars_of("a subscript is out of range").as_slice())),
                },
                None => {
                    let mut m: Vec<char> = Vec::new();
                    push_str(&mut m, "`");
                    push_str(&mut m, v.as_str());
                    push_str(&mut m, "` is not a loop variable");
                    Err(error_at(pos, m.as_slice()))
                },
            }
        },
    }
}

/// Evaluate loop variables, leaving a pattern.
/// The value of a subscript expression in an environment, when the
/// variable is bound and the sum fits.
pub open spec fn eval_of(e: Expr, env: Option<(String, i64)>) -> Option<i64> {
    match e {
        Expr::Int(n) => Some(n),
        Expr::Var(v, off) => match env_value(env, v@) {
            Some(x) => if i64::MIN <= x + off <= i64::MAX {
                Some((x + off) as i64)
            } else {
                None
            },
            None => None,
        },
    }
}

/// The pattern of one subscript in an environment.
pub open spec fn sub_pattern_of(s: Sub, env: Option<(String, i64)>) -> Option<SubPattern> {
    match s {
        Sub::Any => Some(SubPattern::Any),
        Sub::Expr(e) => match eval_of(e, env) {
            Some(x) => Some(SubPattern::Exact(x)),
            None => None,
        },
        Sub::Range(a, b) => match (eval_of(a, env), eval_of(b, env)) {
            (Some(x), Some(y)) => Some(SubPattern::Range(x, y)),
            _ => None,
        },
    }
}

/// The patterns of a name's subscripts in an environment, or `None` when
/// one cannot be evaluated.
pub open spec fn subs_of(subs: Seq<Sub>, env: Option<(String, i64)>) -> Option<Seq<SubPattern>>
    decreases subs.len(),
{
    if subs.len() == 0 {
        Some(Seq::empty())
    } else {
        match (subs_of(subs.drop_last(), env), sub_pattern_of(subs.last(), env)) {
            (Some(ps), Some(x)) => Some(ps.push(x)),
            _ => None,
        }
    }
}

proof fn lemma_subs_of_none(s: Seq<Sub>, env: Option<(String, i64)>, k: int)
    requires
        0 <= k <= s.len(),
        subs_of(s.take(k), env) is None,
    ensures
        subs_of(s, env) is None,
    decreases s.len() - k,
{
    if k < s.len() {
        assert(s.take(k + 1).drop_last() =~= s.take(k));
        lemma_subs_of_none(s, env, k + 1);
    } else {
        assert(s.take(k) =~= s);
    }
}

/// The values of exact subscript patterns.
pub open spec fn exact_values(ps: Seq<SubPattern>) -> Seq<i64> {
    ps.map_values(|p: SubPattern| p->Exact_0)
}

/// The subscripts of the one name a name stands for in an environment:
/// `None` when a subscript cannot be evaluated or is not a single value.
pub open spec fn single_name_of(name: NameAst, env: Option<(String, i64)>) -> Option<Seq<i64>> {
    match subs_of(name.subs@, env) {
        Some(ps) => if forall|k: int| 0 <= k < ps.len() ==> (#[trigger] ps[k]) is Exact {
            Some(exact_values(ps))
        } else {
            None
        },
        None => None,
    }
}

pub fn pattern(name: &NameAst, env: &Option<(String, i64)>) -> (r: Result<NamePattern, Error>)
    ensures
        r matches Ok(p) ==> p.base@ == name.base@ && p.prime == name.prime && p.subscripts@.len()
            == name.subs@.len() && forall|k: int|
            0 <= k < p.subscripts@.len() ==> ((#[trigger] p.subscripts@[k] is Any) <==> name.subs@[k] is Any),
        match subs_of(name.subs@, *env) {
            Some(ps) => r matches Ok(p) && p.subscripts@ == ps,
            None => r is Err,
        },
        r matches Err(e) ==> e.pos == Some(name.pos),
{
    let mut subs: Vec<SubPattern> = Vec::new();
    let mut k: usize = 0;
    assert(name.subs@.take(0) =~= Seq::<Sub>::empty());
    while k < name.subs.len()
        invariant
            k <= name.subs@.len(),
            subs@.len() == k,
            forall|j: int| 0 <= j < k ==> ((#[trigger] subs@[j] is Any) <==> name.subs@[j] is Any),
            subs_of(name.subs@.take(k as int), *env) == Some(subs@),
        decreases name.subs@.len() - k,
    {
        assert(name.subs@.take(k + 1).drop_last() =~= name.subs@.take(k as int));
        assert(name.subs@.take(k + 1).last() == name.subs@[k as int]);
        let s = match &name.subs[k] {
            Sub::Any => SubPattern::Any,
            Sub::Expr(e) => match eval(e, env, name.pos) {
                Ok(x) => SubPattern::Exact(x),
                Err(e) => {
                    proof {
                        lemma_subs_of_none(name.subs@, *env, k + 1);
                    }
                    return Err(e);
                },
            },
            Sub::Range(a, b) => {
                let a = match eval(a, env, name.pos) {
                    Ok(x) => x,
                    Err(e) => {
                        proof {
                            lemma_subs_of_none(name.subs@, *env, k + 1);
                        }
                        return Err(e);
                    },
                };
                let b = match eval(b, env, name.pos) {
                    Ok(x) => x,
                    Err(e) => {
                        proof {
                            lemma_subs_of_none(name.subs@, *env, k + 1);
                        }
                        return Err(e);
                    },
                };
                SubPattern::Range(a, b)
            },
        };
        subs.push(s);
        k = k + 1;
    }
    assert(name.subs@.take(k as int) =~= name.subs@);
    Ok(NamePattern { base: string_copy(&name.base), subscripts: subs, prime: name.prime })
}

/// The values a subscript pattern enumerates.
pub open spec fn sub_values(s: SubPattern) -> Seq<i64> {
    match s {
        SubPattern::Exact(e) => seq![e],
        SubPattern::Range(a, b) => if a <= b {
            Seq::new((b - a + 1) as nat, |k: int| (a + k) as i64)
        } else {
            Seq::empty()
        },
        SubPattern::Any => Seq::empty(),
    }
}

/// Every prefix extended by every value, prefixes first.
pub open spec fn extend_all(ps: Seq<Seq<i64>>, vs: Seq<i64>) -> Seq<Seq<i64>>
    decreases ps.len(),
{
    if ps.len() == 0 {
        Seq::empty()
    } else {
        extend_all(ps.drop_last(), vs) + vs.map_values(|v: i64| ps.last().push(v))
    }
}

/// The subscript lists a pattern enumerates, in lexicographic order of
/// positions.
pub open spec fn product(subs: Seq<SubPattern>) -> Seq<Seq<i64>>
    decreases subs.len(),
{
    if subs.len() == 0 {
        seq![Seq::empty()]
    } else {
        extend_all(product(subs.drop_last()), sub_values(subs.last()))
    }
}

fn values_of(s: SubPattern) -> (r: Vec<i64>)
    ensures
        r@ == sub_values(s),
{
    let mut out: Vec<i64> = Vec::new();
    match s {
        SubPattern::Exact(e) => {
            out.push(e);
            assert(out@ =~= seq![e]);
        },
        SubPattern::Range(a, b) => {
            if a <= b {
                let mut v: i64 = a;
                loop
                    invariant_except_break
                        a <= v <= b,
                        out@ == Seq::new((v - a) as nat, |k: int| (a + k) as i64),
                    ensures
                        out@ == Seq::new((b - a + 1) as nat, |k: int| (a + k) as i64),
                    decreases b - v,
                {
                    out.push(v);
                    if v == b {
                        assert(out@ =~= Seq::new((b - a + 1) as nat, |k: int| (a + k) as i64));
                        break;
                    }
                    v = v + 1;
                    assert(out@ =~= Seq::new((v - a) as nat, |k: int| (a + k) as i64));
                }
            } else {
                assert(out@ =~= Seq::<i64>::empty());
            }
        },
        SubPattern::Any => {
            assert(out@ =~= Seq::<i64>::empty());
        },
    }
    out
}

fn copy_ints(v: &Vec<i64>) -> (r: Vec<i64>)
    ensures
        r@ == v@,
{
    let mut r: Vec<i64> = Vec::new();
    let mut k: usize = 0;
    while k < v.len()
        invariant
            k <= v@.len(),
            r@ == v@.take(k as int),
        decreases v@.len() - k,
    {
        r.push(v[k]);
        k = k + 1;
        assert(r@ =~= v@.take(k as int));
    }
    assert(v@.take(v@.len() as int) =~= v@);
    r
}

/// The views of a list of subscript lists.
pub open spec fn lists_view(v: Seq<Vec<i64>>) -> Seq<Seq<i64>> {
    v.map_values(|x: Vec<i64>| x@)
}

fn extend_lists(names: &Vec<Vec<i64>>, values: &Vec<i64>) -> (r: Vec<Vec<i64>>)
    ensures
        lists_view(r@) == extend_all(lists_view(names@), values@),
{
    let ghost ps = lists_view(names@);
    let ghost vs = values@;
    let mut next: Vec<Vec<i64>> = Vec::new();
    let mut k: usize = 0;
    while k < names.len()
        invariant
            k <= names@.len(),
            ps == lists_view(names@),
            vs == values@,
            lists_view(next@) == extend_all(ps.take(k as int), vs),
        decreases names@.len() - k,
    {
        let ghost start = lists_view(next@);
        let ghost prefix = names@[k as int]@;
        let mut m: usize = 0;
        while m < values.len()
            invariant
                k < names@.len(),
                m <= values@.len(),
                vs == values@,
                prefix == names@[k as int]@,
                lists_view(next@) == start + vs.take(m as int).map_values(|v: i64| prefix.push(v)),
            decreases values@.len() - m,
        {
            let mut n = copy_ints(&names[k]);
            n.push(values[m]);
            let ghost before = next@;
            next.push(n);
            proof {
                assert(next@ =~= before.push(n));
                assert(vs.take(m + 1).map_values(|v: i64| prefix.push(v)) =~= vs.take(m as int).map_values(
                    |v: i64| prefix.push(v),
                ).push(prefix.push(vs[m as int])));
                assert(lists_view(next@) =~= lists_view(before).push(n@));
            }
            m = m + 1;
        }
        proof {
            assert(vs.take(vs.len() as int) =~= vs);
            assert(ps.take(k + 1).drop_last() =~= ps.take(k as int));
            assert(ps.take(k + 1).last() == prefix);
        }
        k = k + 1;
    }
    assert(ps.take(ps.len() as int) =~= ps);
    next
}

/// The names a pattern without `*` stands for, in order: ranges enumerate
/// their values.
pub fn enumerate(p: &NamePattern) -> (r: Vec<Name>)
    requires
        forall|k: int| 0 <= k < p.subscripts@.len() ==> !(#[trigger] p.subscripts@[k] is Any),
    ensures
        r@.len() == product(p.subscripts@).len(),
        forall|k: int|
            0 <= k < r@.len() ==> (#[trigger] r@[k]).base@ == p.base@ && r@[k].subscripts@ == product(
                p.subscripts@,
            )[k],
{
    let mut names: Vec<Vec<i64>> = Vec::new();
    names.push(Vec::new());
    let ghost subs = p.subscripts@;
    assert(lists_view(names@) =~= product(subs.take(0)));
    let mut j: usize = 0;
    while j < p.subscripts.len()
        invariant
            j <= subs.len(),
            subs == p.subscripts@,
            lists_view(names@) == product(subs.take(j as int)),
        decreases subs.len() - j,
    {
        let values = values_of(p.subscripts[j]);
        names = extend_lists(&names, &values);
        assert(subs.take(j + 1).drop_last() =~= subs.take(j as int));
        j = j + 1;
    }
    assert(subs.take(subs.len() as int) =~= subs);
    let mut out: Vec<Name> = Vec::new();
    let mut k: usize = 0;
    while k < names.len()
        invariant
            k <= names@.len(),
            lists_view(names@) == product(subs),
            subs == p.subscripts@,
            out@.len() == k,
            forall|i: int|
                0 <= i < k ==> (#[trigger] out@[i]).base@ == p.base@ && out@[i].subscripts@ == product(
                    subs,
                )[i],
        decreases names@.len() - k,
    {
        let n = Name::new(string_copy(&p.base), copy_ints(&names[k]));
        assert(names@[k as int]@ == lists_view(names@)[k as int]);
        out.push(n);
        k = k + 1;
    }
    out
}

proof fn lemma_extend_one(ps: Seq<Seq<i64>>, e: i64)
    ensures
        extend_all(ps, seq![e]).len() == ps.len(),
        forall|k: int| 0 <= k < ps.len() ==> #[trigger] extend_all(ps, seq![e])[k] == ps[k].push(e),
    decreases ps.len(),
{
    if ps.len() > 0 {
        lemma_extend_one(ps.drop_last(), e);
        let m = seq![e].map_values(|v: i64| ps.last().push(v));
        assert(m =~= seq![ps.last().push(e)]);
    }
}

/// An exact pattern stands for one name: the subscripts it spells.
pub proof fn lemma_exact_product(subs: Seq<SubPattern>)
    requires
        forall|k: int| 0 <= k < subs.len() ==> (#[trigger] subs[k]) is Exact,
    ensures
        product(subs).len() == 1,
        product(subs)[0].len() == subs.len(),
        forall|k: int| 0 <= k < subs.len() ==> subs[k] == SubPattern::Exact(#[trigger] product(subs)[0][k]),
    decreases subs.len(),
{
    if subs.len() > 0 {
        lemma_exact_product(subs.drop_last());
        let e = subs.last()->Exact_0;
        assert(sub_values(subs.last()) =~= seq![e]);
        lemma_extend_one(product(subs.drop_last()), e);
        assert forall|k: int| 0 <= k < subs.len() implies subs[k] == SubPattern::Exact(
            #[trigger] product(subs)[0][k],
        ) by {
            if k < subs.len() - 1 {
                assert(subs.drop_last()[k] == subs[k]);
            }
        }
    }
}

// ---- The network being built -----------------------------------------------------

/// The numbers of a layout statement are in lowest terms.
pub open spec fn layout_values_ok(l: LayoutStmt) -> bool {
    match l {
        LayoutStmt::At { pos, .. } => numbers_wf(pos@),
        LayoutStmt::Relative { distance, .. } => distance matches Some(d) ==> number_wf(d),
        LayoutStmt::Tree { direction, .. } => direction_wf(direction),
        _ => true,
    }
}

/// Every number and attribute of the scene, the layout, and the rules is
/// well formed.
pub open spec fn values_ok(n: &Network) -> bool {
    let sc = n.scene_view();
    &&& (sc.spacing matches Some(x) ==> number_wf(x))
    &&& (sc.light matches Some(v) ==> numbers_wf(v@))
    &&& (sc.camera matches Some(c) ==> (c.angles matches Some((a, b)) ==> number_wf(a) && number_wf(b))
        && attrs_wf(attrs_view(c.attrs@)))
    &&& forall|r: int| 0 <= r < n.rules_view().len() ==> attrs_wf(attrs_view(#[trigger] n.rules_view()[r].attrs@))
    &&& forall|r: int| 0 <= r < n.layout_view().len() ==> layout_values_ok(#[trigger] n.layout_view()[r])
}

/// A network as lowering builds it: well formed, with its references and
/// values in order.
pub open spec fn lowered(n: &Network) -> bool {
    n.wf() && refs_ok(n) && values_ok(n)
}

proof fn lemma_lowered_grow(a: &Network, b: &Network)
    requires
        lowered(a),
        b.wf(),
        grows(a, b),
        same_extras(a, b),
    ensures
        lowered(b),
{
    lemma_refs_grow(a, b);
}

/// The tensor with this name, created if missing.
/// `b` is `a` with new tensors after its own, which hold no index yet.
pub open spec fn only_adds_tensors(a: &Network, b: &Network) -> bool {
    &&& same_extras(a, b)
    &&& b.indices_view() == a.indices_view()
    &&& a.tensors_view().len() <= b.tensors_view().len()
    &&& b.tensors_view().take(a.tensors_view().len() as int) == a.tensors_view()
    &&& forall|t: int|
        a.tensors_view().len() <= t < b.tensors_view().len() ==> (#[trigger] b.tensors_view()[t]).slots@.len()
            == 0
}

proof fn lemma_only_adds_refl(a: &Network)
    ensures
        only_adds_tensors(a, a),
{
    assert(a.tensors_view().take(a.tensors_view().len() as int) =~= a.tensors_view());
}

proof fn lemma_only_adds_trans(a: &Network, b: &Network, c: &Network)
    requires
        only_adds_tensors(a, b),
        only_adds_tensors(b, c),
    ensures
        only_adds_tensors(a, c),
{
    let n = a.tensors_view().len() as int;
    assert(c.tensors_view().take(n) =~= b.tensors_view().take(b.tensors_view().len() as int).take(n));
    assert(b.tensors_view().take(n) =~= a.tensors_view());
    assert(c.tensors_view().take(n) =~= a.tensors_view()) by {
        assert forall|i: int| 0 <= i < n implies c.tensors_view().take(n)[i] == a.tensors_view()[i] by {
            assert(c.tensors_view()[i] == c.tensors_view().take(b.tensors_view().len() as int)[i]);
            assert(b.tensors_view()[i] == b.tensors_view().take(n)[i]);
        }
    }
    assert forall|t: int| n <= t < c.tensors_view().len() implies (#[trigger] c.tensors_view()[t]).slots@.len()
        == 0 by {
        if t < b.tensors_view().len() {
            assert(c.tensors_view()[t] == c.tensors_view().take(b.tensors_view().len() as int)[t]);
        }
    }
}

fn tensor_of(net: &mut Network, name: &Name) -> (t: TensorId)
    requires
        lowered(old(net)),
    ensures
        lowered(final(net)),
        grows(old(net), final(net)),
        same_extras(old(net), final(net)),
        final(net).links_made() == old(net).links_made(),
        final(net).sites_made() == old(net).sites_made(),
        t.0 < final(net).tensors_view().len(),
        crate::name::same_name(final(net).tensors_view()[t.0 as int].name, *name),
        only_adds_tensors(old(net), final(net)),
        final(net).tensors_view().len() <= old(net).tensors_view().len() + 1,
        t.0 < old(net).tensors_view().len() ==> final(net).tensors_view() == old(net).tensors_view(),
        t.0 >= old(net).tensors_view().len() ==> t.0 == old(net).tensors_view().len(),
{
    let ghost n0 = *net;
    let t = net.tensor_or_create(name);
    proof {
        if net.tensors_view().len() == n0.tensors_view().len() {
            assert(net.tensors_view().take(n0.tensors_view().len() as int) =~= n0.tensors_view());
        } else {
            assert(net.tensors_view().take(n0.tensors_view().len() as int) =~= net.tensors_view().drop_last());
        }
        if net.tensors_view().len() > n0.tensors_view().len() {
            assert forall|k: int| 0 <= k < n0.tensors_view().len() implies net.tensors_view()[k]
                == n0.tensors_view()[k] by {
                assert(net.tensors_view().drop_last()[k] == net.tensors_view()[k]);
            }
        }
        lemma_lowered_grow(&n0, net);
    }
    t
}

/// The index with this name and prime level, created if missing.
/// The network's tensors, groups, layout, and scene are as they were; its
/// indices are held as they were, and new ones by no tensor: no bond or
/// leg was made or changed.
pub open spec fn keeps_structure(a: &Network, b: &Network) -> bool {
    &&& b.tensors_view() == a.tensors_view()
    &&& b.groups_view() == a.groups_view()
    &&& b.layout_view() == a.layout_view()
    &&& b.scene_view() == a.scene_view()
    &&& a.indices_view().len() <= b.indices_view().len()
    &&& forall|i: int|
        0 <= i < a.indices_view().len() ==> (#[trigger] b.indices_view()[i]).holders == a.indices_view()[i].holders
    &&& forall|i: int|
        a.indices_view().len() <= i < b.indices_view().len() ==> (#[trigger] b.indices_view()[i]).holders@.len()
            == 0
}

proof fn lemma_keeps_structure_trans(a: &Network, b: &Network, c: &Network)
    requires
        keeps_structure(a, b),
        keeps_structure(b, c),
    ensures
        keeps_structure(a, c),
{
    assert forall|i: int| 0 <= i < a.indices_view().len() implies (#[trigger] c.indices_view()[i]).holders
        == a.indices_view()[i].holders by {
        assert(c.indices_view()[i].holders == b.indices_view()[i].holders);
    }
    assert forall|i: int| a.indices_view().len() <= i < c.indices_view().len() implies (
    #[trigger] c.indices_view()[i]).holders@.len() == 0 by {
        if i < b.indices_view().len() {
            assert(c.indices_view()[i].holders == b.indices_view()[i].holders);
        }
    }
}

fn index_of(net: &mut Network, name: &Name, prime: u32) -> (i: crate::model::IndexId)
    requires
        lowered(old(net)),
    ensures
        lowered(final(net)),
        grows(old(net), final(net)),
        same_extras(old(net), final(net)),
        final(net).links_made() == old(net).links_made(),
        final(net).sites_made() == old(net).sites_made(),
        final(net).tensors_view() == old(net).tensors_view(),
        keeps_structure(old(net), final(net)),
        i.0 < final(net).indices_view().len(),
        crate::name::same_name(final(net).indices_view()[i.0 as int].name, *name),
        final(net).indices_view()[i.0 as int].prime == prime,
        forall|k: int| 0 <= k < old(net).indices_view().len() ==> #[trigger] final(net).indices_view()[k]
            == old(net).indices_view()[k],
        crate::model::index_pos(old(net).indices_view(), *name, prime) >= 0 ==> final(net).indices_view() == old(
            net,
        ).indices_view(),
        crate::model::index_pos(old(net).indices_view(), *name, prime) < 0 ==> i.0 == old(net).indices_view().len()
            && final(net).indices_view().len() == old(net).indices_view().len() + 1
            && final(net).indices_view()[i.0 as int].holders@.len() == 0,
{
    let ghost n0 = *net;
    let i = net.index_or_create(name, prime);
    proof {
        if net.indices_view().len() > n0.indices_view().len() {
            assert forall|k: int| 0 <= k < n0.indices_view().len() implies net.indices_view()[k]
                == n0.indices_view()[k] by {
                assert(net.indices_view().drop_last()[k] == net.indices_view()[k]);
            }
        }
        lemma_lowered_grow(&n0, net);
    }
    i
}

fn copy_attrs(attrs: &[Attr]) -> (r: Vec<Attr>)
    ensures
        attrs_view(r@) == attrs_view(attrs@),
{
    let mut r: Vec<Attr> = Vec::new();
    let mut k: usize = 0;
    while k < attrs.len()
        invariant
            k <= attrs@.len(),
            attrs_view(r@) == attrs_view(attrs@.take(k as int)),
        decreases attrs@.len() - k,
    {
        let ghost before = r@;
        let a = attrs[k].copy();
        r.push(a);
        proof {
            assert(attrs_view(r@) =~= attrs_view(before).push(a@));
            assert(attrs_view(attrs@.take(k + 1)) =~= attrs_view(attrs@.take(k as int)).push(attrs@[k as int]@));
        }
        k = k + 1;
    }
    assert(attrs@.take(attrs@.len() as int) =~= attrs@);
    r
}

/// Store a style rule, unless it sets nothing.
#[verifier::spinoff_prover]
/// `after` is `before` with rules appended, each with a selector of the
/// kind `sel` and holding exactly `attrs`; none when `attrs` is empty.
pub open spec fn rules_added(
    before: Seq<Rule>,
    after: Seq<Rule>,
    attrs: Seq<(Seq<char>, ValueView)>,
    sel: spec_fn(Selector) -> bool,
) -> bool {
    &&& before.len() <= after.len()
    &&& after.take(before.len() as int) == before
    &&& (attrs.len() == 0 ==> after.len() == before.len())
    &&& forall|j: int|
        before.len() <= j < after.len() ==> sel((#[trigger] after[j]).selector) && attrs_view(after[j].attrs@)
            == attrs
}

/// Selectors of one bond.
pub open spec fn index_sel() -> spec_fn(Selector) -> bool {
    |s: Selector| s is Index
}

/// Selectors of one tensor.
pub open spec fn tensor_sel() -> spec_fn(Selector) -> bool {
    |s: Selector| s is Tensor
}

/// `x` rules when there are attributes to hold, none otherwise.
pub open spec fn per(attrs: Seq<(Seq<char>, ValueView)>, x: int) -> int {
    if attrs.len() > 0 {
        x
    } else {
        0
    }
}

proof fn lemma_rules_added_refl(r: Seq<Rule>, attrs: Seq<(Seq<char>, ValueView)>, sel: spec_fn(Selector) -> bool)
    ensures
        rules_added(r, r, attrs, sel),
{
    assert(r.take(r.len() as int) =~= r);
}

proof fn lemma_rules_added_trans(
    r0: Seq<Rule>,
    r1: Seq<Rule>,
    r2: Seq<Rule>,
    attrs: Seq<(Seq<char>, ValueView)>,
    sel: spec_fn(Selector) -> bool,
)
    requires
        rules_added(r0, r1, attrs, sel),
        rules_added(r1, r2, attrs, sel),
    ensures
        rules_added(r0, r2, attrs, sel),
{
    assert(r2.take(r0.len() as int) =~= r1.take(r0.len() as int)) by {
        assert forall|j: int| 0 <= j < r0.len() implies r2[j] == r1[j] by {
            assert(r2.take(r1.len() as int)[j] == r2[j]);
        }
    }
    assert forall|j: int| r0.len() <= j < r2.len() implies sel((#[trigger] r2[j]).selector) && attrs_view(r2[j].attrs@)
        == attrs by {
        if j < r1.len() {
            assert(r2.take(r1.len() as int)[j] == r2[j]);
            assert(r1[j] == r2[j]);
        }
    }
}

/// One call of `rule` with this selector and these attributes.
proof fn lemma_rules_added_rule(
    r0: Seq<Rule>,
    r1: Seq<Rule>,
    r2: Seq<Rule>,
    attrs: Seq<(Seq<char>, ValueView)>,
    sel: spec_fn(Selector) -> bool,
    s: Selector,
)
    requires
        rules_added(r0, r1, attrs, sel),
        sel(s),
        attrs.len() == 0 ==> r2 == r1,
        attrs.len() > 0 ==> r2.len() == r1.len() + 1 && r2.drop_last() == r1 && r2.last().selector == s && attrs_view(
            r2.last().attrs@,
        ) == attrs,
    ensures
        rules_added(r0, r2, attrs, sel),
        r2.len() == r1.len() + per(attrs, 1),
{
    if attrs.len() > 0 {
        assert(rules_added(r1, r2, attrs, sel)) by {
            assert(r2.take(r1.len() as int) =~= r2.drop_last());
        }
        lemma_rules_added_trans(r0, r1, r2, attrs, sel);
    }
}

fn rule(net: &mut Network, selector: Selector, attrs: &[Attr])
    requires
        lowered(old(net)),
        selector_ok(selector, old(net).tensors_view(), old(net).indices_view().len()),
        attrs_wf(attrs_view(attrs@)),
    ensures
        lowered(final(net)),
        final(net).tensors_view() == old(net).tensors_view(),
        final(net).indices_view() == old(net).indices_view(),
        final(net).groups_view() == old(net).groups_view(),
        final(net).layout_view() == old(net).layout_view(),
        final(net).scene_view() == old(net).scene_view(),
        grows(old(net), final(net)),
        final(net).links_made() == old(net).links_made(),
        final(net).sites_made() == old(net).sites_made(),
        attrs@.len() == 0 ==> final(net).rules_view() == old(net).rules_view(),
        attrs@.len() > 0 ==> final(net).rules_view().len() == old(net).rules_view().len() + 1
            && final(net).rules_view().drop_last() == old(net).rules_view() && final(net).rules_view().last().selector
            == selector && attrs_view(final(net).rules_view().last().attrs@) == attrs_view(attrs@),
{
    proof {
        lemma_grows_refl(net);
    }
    if attrs.len() > 0 {
        let ghost n0 = *net;
        let copied = copy_attrs(attrs);
        net.push_rule(Rule { selector, attrs: copied });
        assert(net.rules_view().drop_last() =~= n0.rules_view());
        proof {
            let rs = net.rules_view();
            assert forall|r: int| 0 <= r < rs.len() implies attrs_wf(attrs_view(#[trigger] rs[r].attrs@)) by {
                if r < rs.len() - 1 {
                    assert(rs[r] == n0.rules_view()[r]);
                }
            }
            assert forall|r: int| 0 <= r < rs.len() implies selector_ok(#[trigger] rs[r].selector, net.tensors_view(),
                net.indices_view().len()) by {
                if r < rs.len() - 1 {
                    assert(rs[r] == n0.rules_view()[r]);
                }
            }
        }
    }
}

proof fn lemma_attach_grows(a: &Network, b: &Network, t: int, s: crate::model::Slot, i: int, h: (
    TensorId,
    usize,
))
    requires
        0 <= t < a.tensors_view().len(),
        0 <= i < a.indices_view().len(),
        crate::model::slot_added(a.tensors_view(), b.tensors_view(), t, s),
        crate::model::holder_added(a.indices_view(), b.indices_view(), i, h),
    ensures
        grows(a, b),
{
    assert forall|k: int| 0 <= k < a.tensors_view().len() implies {
        &&& (#[trigger] b.tensors_view()[k]).name == a.tensors_view()[k].name
        &&& a.tensors_view()[k].slots@.len() <= b.tensors_view()[k].slots@.len()
        &&& forall|j: int|
            0 <= j < a.tensors_view()[k].slots@.len() ==> #[trigger] b.tensors_view()[k].slots@[j]
                == a.tensors_view()[k].slots@[j]
    } by {
        if k == t {
            assert forall|j: int| 0 <= j < a.tensors_view()[k].slots@.len() implies #[trigger] b.tensors_view()[
                k].slots@[j] == a.tensors_view()[k].slots@[j] by {
                assert(b.tensors_view()[k].slots@ == a.tensors_view()[k].slots@.push(s));
            }
        }
    }
}

/// The names a pattern stands for, in order: ranges enumerate their values,
/// and `*` matches existing tensors.
/// A reference that stands for tensors by their names: its subscripts are
/// values or ranges, it has no prime, and it is not the name of a group.
pub open spec fn plain_end(n: &Network, e: EndRef, env: Option<(String, i64)>) -> bool {
    &&& (subs_of(e.name.subs@, env) matches Some(ps) && forall|k: int| 0 <= k < ps.len() ==> !(#[trigger] ps[k] is Any))
    &&& e.name.prime == 0
    &&& (e.name.subs@.len() > 0 || crate::model::group_pos(n.groups_view(), e.name.base@) < 0)
}

/// Every reference of a list stands for tensors by their names.
pub open spec fn plain_list(n: &Network, list: Seq<EndRef>, env: Option<(String, i64)>) -> bool {
    forall|k: int| 0 <= k < list.len() ==> plain_end(n, #[trigger] list[k], env)
}

/// The tensors a reference names, by base name and subscripts, each with the
/// reference's leg, in the order of its ranges.
pub open spec fn end_targets(e: EndRef, env: Option<(String, i64)>) -> Seq<(Seq<char>, Seq<i64>, Option<crate::ast::LegRefV>)> {
    match subs_of(e.name.subs@, env) {
        Some(ps) => product(ps).map_values(|s: Seq<i64>| (e.name.base@, s, crate::ast::opt_leg_v(e.leg))),
        None => Seq::empty(),
    }
}

/// The tensors a list of references names, in order.
pub open spec fn targets(list: Seq<EndRef>, env: Option<(String, i64)>) -> Seq<(Seq<char>, Seq<i64>, Option<crate::ast::LegRefV>)>
    decreases list.len(),
{
    if list.len() == 0 {
        Seq::empty()
    } else {
        targets(list.drop_last(), env) + end_targets(list.last(), env)
    }
}

/// Tensor `t` of `n` has this name.
pub open spec fn tensor_is(n: &Network, t: TensorId, base: Seq<char>, subs: Seq<i64>) -> bool {
    &&& t.0 < n.tensors_view().len()
    &&& n.tensors_view()[t.0 as int].name.base@ == base
    &&& n.tensors_view()[t.0 as int].name.subscripts@ == subs
}

proof fn lemma_extend_all_lens(ps: Seq<Seq<i64>>, vs: Seq<i64>, n: int)
    requires
        forall|k: int| 0 <= k < ps.len() ==> (#[trigger] ps[k]).len() == n,
    ensures
        forall|k: int| 0 <= k < extend_all(ps, vs).len() ==> (#[trigger] extend_all(ps, vs)[k]).len() == n + 1,
    decreases ps.len(),
{
    if ps.len() > 0 {
        lemma_extend_all_lens(ps.drop_last(), vs, n);
        let a = extend_all(ps.drop_last(), vs);
        let m = vs.map_values(|v: i64| ps.last().push(v));
        assert forall|k: int| 0 <= k < extend_all(ps, vs).len() implies (#[trigger] extend_all(ps, vs)[k]).len() == n + 1 by {
            if k < a.len() {
                assert(extend_all(ps, vs)[k] == a[k]);
            } else {
                assert(extend_all(ps, vs)[k] == m[k - a.len()]);
            }
        }
    }
}

proof fn lemma_product_lens(subs: Seq<SubPattern>)
    ensures
        forall|k: int| 0 <= k < product(subs).len() ==> (#[trigger] product(subs)[k]).len() == subs.len(),
    decreases subs.len(),
{
    if subs.len() > 0 {
        lemma_product_lens(subs.drop_last());
        lemma_extend_all_lens(product(subs.drop_last()), sub_values(subs.last()), subs.len() - 1);
    }
}

/// A pattern the written name stands for in an environment.
pub open spec fn end_pattern(p: NamePattern, name: NameAst, env: Option<(String, i64)>) -> bool {
    p.base@ == name.base@ && p.prime == name.prime && subs_of(name.subs@, env) == Some(p.subscripts@)
}

/// The written name has `*` among its subscripts and matches no tensor of
/// `n`.
pub open spec fn matches_none(n: &Network, name: NameAst, env: Option<(String, i64)>) -> bool {
    &&& name.prime == 0
    &&& subs_of(name.subs@, env) matches Some(ps) && exists|k: int| 0 <= k < ps.len() && (#[trigger] ps[k]) is Any
    &&& forall|p: NamePattern, t: int|
        end_pattern(p, name, env) && 0 <= t < n.tensors_view().len() ==> !#[trigger] crate::name::pattern_matches(
            p,
            n.tensors_view()[t].name,
            0,
        )
}

/// The error for a written name that matches no tensor: `` `B[*]` matches no
/// tensor ``, at the name.
pub open spec fn no_match_err(name: NameAst, env: Option<(String, i64)>, e: Error) -> bool {
    e.pos == Some(name.pos) && exists|p: NamePattern|
        end_pattern(p, name, env) && e.message@ == "`"@ + #[trigger] crate::name::pattern_text(p) + "` matches no tensor"@
}

fn tensor_names(net: &Network, name: &NameAst, env: &Option<(String, i64)>) -> (r: Result<
    Vec<Name>,
    Error,
>)
    requires
        net.wf(),
    ensures
        r matches Err(e) ==> e.pos == Some(name.pos),
        matches_none(net, *name, *env) ==> (r matches Err(e) && no_match_err(*name, *env, e)),
        match subs_of(name.subs@, *env) {
            Some(ps) => (forall|k: int| 0 <= k < ps.len() ==> !(#[trigger] ps[k] is Any)) && name.prime == 0
                ==> (r matches Ok(v) && v@.len() == product(ps).len() && forall|k: int|
                0 <= k < v@.len() ==> (#[trigger] v@[k]).base@ == name.base@ && v@[k].subscripts@ == product(ps)[k]
                && v@[k].subscripts@.len() == name.subs@.len()),
            None => true,
        },
{
    if name.prime != 0 {
        return Err(error_at(name.pos, chars_of("tensor names have no prime level").as_slice()));
    }
    let p = match pattern(name, env) {
        Ok(p) => p,
        Err(e) => return Err(e),
    };
    let mut any = false;
    let mut k: usize = 0;
    while k < p.subscripts.len()
        invariant
            k <= p.subscripts@.len(),
            !any ==> forall|j: int| 0 <= j < k ==> !(#[trigger] p.subscripts@[j] is Any),
            any ==> exists|j: int| 0 <= j < k && (#[trigger] p.subscripts@[j] is Any),
        decreases p.subscripts@.len() - k,
    {
        match p.subscripts[k] {
            SubPattern::Any => {
                any = true;
            },
            _ => {},
        }
        k = k + 1;
    }
    if any {
        let found = net.match_tensors(&p);
        proof {
            if matches_none(net, *name, *env) {
                assert(end_pattern(p, *name, *env));
                if found@.len() > 0 {
                    let t = found@[0].0 as int;
                    assert(crate::name::pattern_matches(p, net.tensors_view()[t].name, 0));
                }
            }
        }
        if found.len() == 0 {
            let mut m: Vec<char> = Vec::new();
            push_str(&mut m, "`");
            p.push_text(&mut m);
            push_str(&mut m, "` matches no tensor");
            return Err(error_at(name.pos, m.as_slice()));
        }
        let mut names: Vec<Name> = Vec::new();
        let mut j: usize = 0;
        while j < found.len()
            invariant
                j <= found@.len(),
                forall|i: int| 0 <= i < found@.len() ==> (#[trigger] found@[i]).0 < net.tensors_view().len(),
            decreases found@.len() - j,
        {
            names.push(net.tensor(found[j]).name.copy());
            j = j + 1;
        }
        return Ok(names);
    }
    proof {
        if matches_none(net, *name, *env) {
            let k = choose|k: int| 0 <= k < p.subscripts@.len() && (#[trigger] p.subscripts@[k]) is Any;
            assert(p.subscripts@[k] is Any);
        }
    }
    let names = enumerate(&p);
    proof {
        lemma_product_lens(p.subscripts@);
    }
    Ok(names)
}

/// The one name a pattern stands for.
fn single_name(name: &NameAst, env: &Option<(String, i64)>) -> (r: Result<Name, Error>)
    ensures
        r matches Ok(n) ==> n.base@ == name.base@,
        r matches Err(e) ==> e.pos == Some(name.pos),
        r is Ok <==> single_name_of(*name, *env) is Some,
        r matches Ok(n) ==> single_name_of(*name, *env) == Some(n.subscripts@),
{
    let p = match pattern(name, env) {
        Ok(p) => p,
        Err(e) => return Err(e),
    };
    if p.is_exact() {
        proof {
            lemma_exact_product(p.subscripts@);
        }
        let mut names = enumerate(&p);
        let n = names.remove(0);
        proof {
            let ps = p.subscripts@;
            assert(n.subscripts@ == product(ps)[0]);
            assert(exact_values(ps) =~= product(ps)[0]) by {
                assert forall|k: int| 0 <= k < ps.len() implies exact_values(ps)[k] == product(ps)[0][k] by {
                    assert(ps[k] == SubPattern::Exact(product(ps)[0][k]));
                }
            }
        }
        Ok(n)
    } else {
        let mut m: Vec<char> = Vec::new();
        push_str(&mut m, "`");
        p.push_text(&mut m);
        push_str(&mut m, "` must name exactly one thing");
        Err(error_at(name.pos, m.as_slice()))
    }
}

fn copy_leg(leg: &Option<LegRef>) -> (r: Option<LegRef>)
    ensures
        r is Some <==> leg is Some,
        crate::ast::opt_leg_v(r) == crate::ast::opt_leg_v(*leg),
{
    match leg {
        Some(LegRef::Label(l)) => Some(LegRef::Label(string_copy(l))),
        Some(LegRef::Position(k)) => Some(LegRef::Position(*k)),
        None => None,
    }
}

/// Resolve a list of references to tensors (created when missing), with
/// their optional leg references.  A plain group name stands for its
/// members.
fn resolve_list(net: &mut Network, list: &Vec<EndRef>, env: &Option<(String, i64)>) -> (r: Result<
    Vec<(TensorId, Option<LegRef>)>,
    Error,
>)
    requires
        lowered(old(net)),
    ensures
        lowered(final(net)),
        grows(old(net), final(net)),
        same_extras(old(net), final(net)),
        final(net).links_made() == old(net).links_made(),
        final(net).sites_made() == old(net).sites_made(),
        r matches Ok(v) ==> ends_in(v@, final(net).tensors_view().len()),
        r matches Err(e) ==> e.pos is Some,
        only_adds_tensors(old(net), final(net)),
        plain_list(old(net), list@, *env) ==> (r matches Ok(v) && resolved_as(final(net), v@, list@, *env)
            && covers_new(old(net), final(net), v@)),
        list@.len() > 0 && matches_none(old(net), list@[0].name, *env) ==> (r matches Err(e) && no_match_err(
            list@[0].name,
            *env,
            e,
        )),
{
    proof {
        lemma_grows_refl(net);
        lemma_only_adds_refl(net);
    }
    let ghost n0 = *net;
    let ghost mn = list@.len() > 0 && matches_none(old(net), list@[0].name, *env);
    let mut out: Vec<(TensorId, Option<LegRef>)> = Vec::new();
    let mut e: usize = 0;
    while e < list.len()
        invariant
            n0 == *old(net),
            e <= list@.len(),
            lowered(net),
            grows(&n0, net),
            same_extras(&n0, net),
            net.links_made() == n0.links_made(),
            net.sites_made() == n0.sites_made(),
            forall|k: int| 0 <= k < out@.len() ==> (#[trigger] out@[k]).0.0 < net.tensors_view().len(),
            only_adds_tensors(&n0, net),
            plain_list(&n0, list@, *env) ==> resolved_as(net, out@, list@.take(e as int), *env),
            plain_list(&n0, list@, *env) ==> covers_new(&n0, net, out@),
            mn == (list@.len() > 0 && matches_none(old(net), list@[0].name, *env)),
            mn ==> e == 0 && *net == *old(net),
        decreases list@.len() - e,
    {
        let end = &list[e];
        let ghost out0 = out@;
        let ghost plain = plain_list(&n0, list@, *env);
        let ghost eps = subs_of(end.name.subs@, *env)->Some_0;
        let names = match tensor_names(net, &end.name, env) {
            Ok(n) => n,
            Err(err) => return Err(err),
        };
        proof {
            if plain {
                assert(plain_end(&n0, list@[e as int], *env));
            }
        }
        let mut j: usize = 0;
        while j < names.len()
            invariant
                n0 == *old(net),
                j <= names@.len(),
                lowered(net),
                grows(&n0, net),
                same_extras(&n0, net),
                net.links_made() == n0.links_made(),
                net.sites_made() == n0.sites_made(),
                forall|k: int| 0 <= k < out@.len() ==> (#[trigger] out@[k]).0.0 < net.tensors_view().len(),
                only_adds_tensors(&n0, net),
                plain == plain_list(&n0, list@, *env),
                plain ==> names@.len() == product(eps).len(),
                plain ==> forall|m: int| 0 <= m < names@.len() ==> (#[trigger] names@[m]).base@ == end.name.base@
                    && names@[m].subscripts@ == product(eps)[m] && names@[m].subscripts@.len() == end.name.subs@.len(),
                plain ==> (end.name.subs@.len() > 0 || crate::model::group_pos(n0.groups_view(), end.name.base@) < 0),
                plain ==> resolved_as(net, out0, list@.take(e as int), *env),
                plain ==> out@.len() == out0.len() + j,
                plain ==> forall|m: int| 0 <= m < out0.len() ==> #[trigger] out@[m] == out0[m],
                plain ==> covers_new(&n0, net, out@),
                plain ==> forall|m: int| 0 <= m < j ==> tensor_is(net, (#[trigger] out@[out0.len() + m]).0, end.name.base@, product(eps)[m])
                    && crate::ast::opt_leg_v(out@[out0.len() + m].1) == crate::ast::opt_leg_v(end.leg),
            decreases names@.len() - j,
        {
            let name = &names[j];
            let is_group = name.subscripts.len() == 0 && net.group(name.base.as_str()).is_some();
            if is_group {
                proof {
                    if plain {
                        assert(names@[j as int].subscripts@.len() == end.name.subs@.len());
                        assert(net.groups_view() == n0.groups_view());
                    }
                }
                let members: Vec<TensorId> = match net.group(name.base.as_str()) {
                    Some(g) => {
                        proof {
                            crate::model::lemma_group_pos(net.groups_view(), name.base@);
                        }
                        let mut ms: Vec<TensorId> = Vec::new();
                        let mut m: usize = 0;
                        while m < g.members.len()
                            invariant
                                m <= g.members@.len(),
                                forall|k: int| 0 <= k < g.members@.len() ==> (#[trigger] g.members@[k]).0 < net.tensors_view().len(),
                                forall|k: int| 0 <= k < ms@.len() ==> (#[trigger] ms@[k]).0 < net.tensors_view().len(),
                            decreases g.members@.len() - m,
                        {
                            ms.push(g.members[m]);
                            m = m + 1;
                        }
                        ms
                    },
                    None => Vec::new(),
                };
                let mut m: usize = 0;
                while m < members.len()
                    invariant
                        m <= members@.len(),
                        forall|k: int| 0 <= k < members@.len() ==> (#[trigger] members@[k]).0 < net.tensors_view().len(),
                        forall|k: int| 0 <= k < out@.len() ==> (#[trigger] out@[k]).0.0 < net.tensors_view().len(),
                    decreases members@.len() - m,
                {
                    out.push((members[m], copy_leg(&end.leg)));
                    m = m + 1;
                }
            } else {
                let ghost n1 = *net;
                let ghost before = out@;
                let t = tensor_of(net, name);
                proof {
                    lemma_grows_trans(&n0, &n1, net);
                    lemma_only_adds_trans(&n0, &n1, net);
                    if plain {
                        lemma_resolved_as_grows(&n1, net, out0, list@.take(e as int), *env);
                    }
                }
                out.push((t, copy_leg(&end.leg)));
                proof {
                    assert(out@.drop_last() =~= before);
                    if plain {
                        assert(out@ =~= before.push(out@.last()));
                        lemma_covers_push(&n0, &n1, net, before, out@.last());
                        assert forall|m: int| 0 <= m < j + 1 implies tensor_is(net, (#[trigger] out@[out0.len() + m]).0, end.name.base@, product(eps)[m])
                            && crate::ast::opt_leg_v(out@[out0.len() + m].1) == crate::ast::opt_leg_v(end.leg) by {
                            if m < j {
                                let x = before[out0.len() + m].0;
                                assert(out@[out0.len() + m] == before[out0.len() + m]);
                                assert(tensor_is(&n1, x, end.name.base@, product(eps)[m]));
                                assert(net.tensors_view()[x.0 as int].name == n1.tensors_view()[x.0 as int].name);
                            }
                        }
                        assert forall|m: int| 0 <= m < out0.len() implies #[trigger] out@[m] == out0[m] by {
                            assert(out@[m] == before[m]);
                        }
                    }
                }
            }
            j = j + 1;
        }
        proof {
            if plain {
                let t0 = list@.take(e as int);
                let t1 = list@.take(e + 1);
                assert(t1.drop_last() =~= t0);
                assert(t1.last() == list@[e as int]);
                let et = end_targets(list@[e as int], *env);
                assert(et.len() == product(eps).len());
                assert(targets(t1, *env) == targets(t0, *env) + et);
                assert forall|k: int| 0 <= k < out@.len() implies tensor_is(net, (#[trigger] out@[k]).0, targets(t1, *env)[k].0, targets(t1, *env)[k].1)
                    && crate::ast::opt_leg_v(out@[k].1) == targets(t1, *env)[k].2 by {
                    if k < out0.len() {
                        assert(out@[k] == out0[k]);
                        assert(targets(t1, *env)[k] == targets(t0, *env)[k]);
                        let x = out0[k].0;
                        assert(tensor_is(net, x, targets(t0, *env)[k].0, targets(t0, *env)[k].1));
                    } else {
                        let m = k - out0.len();
                        assert(targets(t1, *env)[k] == et[m]);
                        assert(out@[out0.len() + m] == out@[k]);
                    }
                }
            }
        }
        e = e + 1;
    }
    assert(list@.take(e as int) =~= list@);
    Ok(out)
}

/// Every tensor of `after` that `before` did not have is one of the
/// resolved ends.
pub open spec fn covers_new(before: &Network, after: &Network, v: Seq<(TensorId, Option<LegRef>)>) -> bool {
    forall|t: int| before.tensors_view().len() <= t < after.tensors_view().len() ==> #[trigger] resolves_to(v, t)
}

/// Some resolved end is tensor `t`.
pub open spec fn resolves_to(v: Seq<(TensorId, Option<LegRef>)>, t: int) -> bool {
    exists|k: int| 0 <= k < v.len() && (#[trigger] v[k]).0.0 == t
}

proof fn lemma_covers_push(
    before: &Network,
    mid: &Network,
    after: &Network,
    v: Seq<(TensorId, Option<LegRef>)>,
    x: (TensorId, Option<LegRef>),
)
    requires
        covers_new(before, mid, v),
        before.tensors_view().len() <= mid.tensors_view().len(),
        after.tensors_view().len() <= mid.tensors_view().len() + 1,
        after.tensors_view().len() > mid.tensors_view().len() ==> x.0.0 == mid.tensors_view().len(),
    ensures
        covers_new(before, after, v.push(x)),
{
    let w = v.push(x);
    assert forall|t: int| before.tensors_view().len() <= t < after.tensors_view().len() implies #[trigger] resolves_to(w, t) by {
        if t < mid.tensors_view().len() {
            assert(resolves_to(v, t));
            let k = choose|k: int| 0 <= k < v.len() && (#[trigger] v[k]).0.0 == t;
            assert(w[k] == v[k]);
        } else {
            assert(w[v.len() as int] == x);
        }
    }
}

/// Each resolved end is the tensor its reference names, with the reference's
/// leg.
pub open spec fn resolved_as(
    n: &Network,
    v: Seq<(TensorId, Option<LegRef>)>,
    list: Seq<EndRef>,
    env: Option<(String, i64)>,
) -> bool {
    let ts = targets(list, env);
    &&& v.len() == ts.len()
    &&& forall|k: int|
        0 <= k < v.len() ==> tensor_is(n, (#[trigger] v[k]).0, ts[k].0, ts[k].1) && crate::ast::opt_leg_v(v[k].1)
            == ts[k].2
}

proof fn lemma_resolved_as_grows(a: &Network, b: &Network, v: Seq<(TensorId, Option<LegRef>)>, list: Seq<EndRef>, env: Option<(String, i64)>)
    requires
        grows(a, b),
        resolved_as(a, v, list, env),
    ensures
        resolved_as(b, v, list, env),
{
    let ts = targets(list, env);
    assert forall|k: int| 0 <= k < v.len() implies tensor_is(b, (#[trigger] v[k]).0, ts[k].0, ts[k].1)
        && crate::ast::opt_leg_v(v[k].1) == ts[k].2 by {
        assert(tensor_is(a, v[k].0, ts[k].0, ts[k].1));
        assert(b.tensors_view()[v[k].0.0 as int].name == a.tensors_view()[v[k].0.0 as int].name);
    }
}

/// `n` has a tensor with this name.
pub open spec fn has_tensor(n: &Network, base: Seq<char>, subs: Seq<i64>) -> bool {
    exists|t: int|
        0 <= t < n.tensors_view().len() && (#[trigger] n.tensors_view()[t]).name.base@ == base
            && n.tensors_view()[t].name.subscripts@ == subs
}

/// `n` has a tensor for every name of the list.
pub open spec fn has_all(n: &Network, names: Seq<(Seq<char>, Seq<i64>, Option<crate::ast::LegRefV>)>) -> bool {
    forall|k: int| 0 <= k < names.len() ==> #[trigger] has_tensor(n, names[k].0, names[k].1)
}

proof fn lemma_resolved_has_all(n: &Network, v: Seq<(TensorId, Option<LegRef>)>, list: Seq<EndRef>, env: Option<(String, i64)>)
    requires
        resolved_as(n, v, list, env),
    ensures
        has_all(n, targets(list, env)),
{
    let tg = targets(list, env);
    assert forall|k: int| 0 <= k < tg.len() implies #[trigger] has_tensor(n, tg[k].0, tg[k].1) by {
        assert(tensor_is(n, v[k].0, tg[k].0, tg[k].1));
        let t = v[k].0.0 as int;
        assert(n.tensors_view()[t].name.base@ == tg[k].0);
    }
}

/// Every resolved end names an existing tensor.
pub open spec fn ends_in(v: Seq<(TensorId, Option<LegRef>)>, nt: nat) -> bool {
    forall|k: int| 0 <= k < v.len() ==> (#[trigger] v[k]).0.0 < nt
}

/// A leg reference as the label of a connection.
fn leg_label(leg: &Option<LegRef>, pos: Pos) -> (r: Result<Option<String>, Error>)
    ensures
        leg is None ==> r == Ok::<Option<String>, Error>(None),
        leg matches Some(LegRef::Label(l)) ==> (r matches Ok(Some(x)) && x@ == l@),
        leg matches Some(LegRef::Position(_)) ==> (r matches Err(e) && e.pos == Some(pos)),
{
    match leg {
        None => Ok(None),
        Some(LegRef::Label(l)) => Ok(Some(string_copy(l))),
        Some(LegRef::Position(_)) => Err(
            error_at(pos, chars_of("connect legs by label, not by position").as_slice()),
        ),
    }
}

/// How two lists pair: equal lengths pair element by element, and a single
/// element pairs with every element of the other list.
pub open spec fn pairing(na: nat, nb: nat) -> Option<Seq<(int, int)>> {
    if na == nb {
        Some(Seq::new(na, |k: int| (k, k)))
    } else if na == 1 {
        Some(Seq::new(nb, |k: int| (0, k)))
    } else if nb == 1 {
        Some(Seq::new(na, |k: int| (k, 0)))
    } else {
        None
    }
}

/// Pair the positions of two lists.
pub fn pairs(na: usize, nb: usize, pos: Pos) -> (r: Result<Vec<(usize, usize)>, Error>)
    ensures
        match pairing(na as nat, nb as nat) {
            Some(p) => r matches Ok(v) && v@.len() == p.len() && forall|k: int|
                0 <= k < p.len() ==> (#[trigger] v@[k]).0 == p[k].0 && v@[k].1 == p[k].1,
            None => r matches Err(e) && e.pos == Some(pos) && e.message@ == "cannot pair "@ + crate::text::nat_text(
                na as nat,
            ) + " tensors with "@ + crate::text::nat_text(nb as nat),
        },
{
    let mut v: Vec<(usize, usize)> = Vec::new();
    if na == nb {
        let mut k: usize = 0;
        while k < na
            invariant
                k <= na,
                v@.len() == k,
                forall|j: int| 0 <= j < k ==> (#[trigger] v@[j]).0 == j && v@[j].1 == j,
            decreases na - k,
        {
            v.push((k, k));
            k = k + 1;
        }
        Ok(v)
    } else if na == 1 {
        let mut k: usize = 0;
        while k < nb
            invariant
                k <= nb,
                v@.len() == k,
                forall|j: int| 0 <= j < k ==> (#[trigger] v@[j]).0 == 0 && v@[j].1 == j,
            decreases nb - k,
        {
            v.push((0, k));
            k = k + 1;
        }
        Ok(v)
    } else if nb == 1 {
        let mut k: usize = 0;
        while k < na
            invariant
                k <= na,
                v@.len() == k,
                forall|j: int| 0 <= j < k ==> (#[trigger] v@[j]).0 == j && v@[j].1 == 0,
            decreases na - k,
        {
            v.push((k, 0));
            k = k + 1;
        }
        Ok(v)
    } else {
        let mut m: Vec<char> = Vec::new();
        push_str(&mut m, "cannot pair ");
        crate::text::push_nat(&mut m, na as u64);
        push_str(&mut m, " tensors with ");
        crate::text::push_nat(&mut m, nb as u64);
        Err(error_at(pos, m.as_slice()))
    }
}

// ---- Statements -------------------------------------------------------------------

/// The version of the language this library writes.
pub const VERSION: &'static str = "0.3";

/// The versions of the language this library reads.
pub open spec fn known_version(v: Seq<char>) -> bool {
    v == "0.2"@ || v == "0.3"@
}

/// An environment that gives `var` the value `v`.
pub open spec fn binds(env: Option<(String, i64)>, var: Seq<char>, v: int) -> bool {
    match env {
        Some((name, x)) => name@ == var && x == v,
        None => false,
    }
}

/// The environments a `for` clause runs a statement in: one empty
/// environment without a clause, else one per value of the variable, in
/// order.
fn each(clause: &Option<ForClause>) -> (r: Vec<Option<(String, i64)>>)
    ensures
        clause is None ==> r@.len() == 1 && r@[0] is None,
        clause matches Some(c) ==> {
            &&& r@.len() == (if c.from <= c.to { c.to - c.from + 1 } else { 0 })
            &&& forall|k: int|
                0 <= k < r@.len() ==> binds(#[trigger] r@[k], c.var@, c.from + k)
        },
{
    let mut r: Vec<Option<(String, i64)>> = Vec::new();
    match clause {
        None => {
            r.push(None);
        },
        Some(c) => {
            if c.from <= c.to {
                let mut v: i64 = c.from;
                loop
                    invariant_except_break
                        c.from <= v <= c.to,
                        r@.len() == v - c.from,
                        forall|k: int|
                            0 <= k < r@.len() ==> binds(#[trigger] r@[k], c.var@, c.from + k),
                    ensures
                        r@.len() == c.to - c.from + 1,
                        forall|k: int|
                            0 <= k < r@.len() ==> binds(#[trigger] r@[k], c.var@, c.from + k),
                    decreases c.to - v,
                {
                    r.push(Some((string_copy(&c.var), v)));
                    if v == c.to {
                        break;
                    }
                    v = v + 1;
                }
            }
        },
    }
    r
}

fn copy_strings(v: &Vec<String>) -> (r: Vec<String>)
    ensures
        r@.len() == v@.len(),
        forall|k: int| 0 <= k < v@.len() ==> (#[trigger] r@[k])@ == v@[k]@,
{
    let mut r: Vec<String> = Vec::new();
    let mut k: usize = 0;
    while k < v.len()
        invariant
            k <= v@.len(),
            r@.len() == k,
            forall|j: int| 0 <= j < k ==> (#[trigger] r@[j])@ == v@[j]@,
        decreases v@.len() - k,
    {
        r.push(string_copy(&v[k]));
        k = k + 1;
    }
    r
}

/// `index name : tags [attrs]`, once.
/// Every index of `a` is in `b` with its name and prime level, and with
/// at least its tags.
pub open spec fn tags_grow(a: &Network, b: &Network) -> bool {
    &&& a.indices_view().len() <= b.indices_view().len()
    &&& forall|i: int|
        0 <= i < a.indices_view().len() ==> (#[trigger] b.indices_view()[i]).name == a.indices_view()[i].name
            && b.indices_view()[i].prime == a.indices_view()[i].prime
    &&& forall|i: int, x: Seq<char>|
        0 <= i < a.indices_view().len() && tagged(a.indices_view()[i].tags@, x) ==> #[trigger] tagged(
            b.indices_view()[i].tags@,
            x,
        )
}

proof fn lemma_tags_grow_trans(a: &Network, b: &Network, c: &Network)
    requires
        tags_grow(a, b),
        tags_grow(b, c),
    ensures
        tags_grow(a, c),
{
    assert forall|i: int| 0 <= i < a.indices_view().len() implies (#[trigger] c.indices_view()[i]).name
        == a.indices_view()[i].name && c.indices_view()[i].prime == a.indices_view()[i].prime by {
        assert(b.indices_view()[i].name == a.indices_view()[i].name);
    }
    assert forall|i: int, x: Seq<char>|
        0 <= i < a.indices_view().len() && tagged(a.indices_view()[i].tags@, x) implies #[trigger] tagged(
        c.indices_view()[i].tags@,
        x,
    ) by {
        assert(tagged(b.indices_view()[i].tags@, x));
    }
}

proof fn lemma_index_tagged_mono(a: &Network, b: &Network, base: Seq<char>, prime: u32, tags: Seq<String>)
    requires
        tags_grow(a, b),
    ensures
        forall|subs: Seq<i64>|
            index_tagged(a, base, subs, prime, tags) ==> #[trigger] index_tagged(b, base, subs, prime, tags),
{
    assert forall|subs: Seq<i64>| index_tagged(a, base, subs, prime, tags) implies #[trigger] index_tagged(
        b,
        base,
        subs,
        prime,
        tags,
    ) by {
        let i = choose|i: int|
            0 <= i < a.indices_view().len() && (#[trigger] a.indices_view()[i]).name.base@ == base
                && a.indices_view()[i].name.subscripts@ == subs && a.indices_view()[i].prime == prime
                && forall|k: int| 0 <= k < tags.len() ==> tagged(a.indices_view()[i].tags@, #[trigger] tags[k]@);
        assert(b.indices_view()[i].name == a.indices_view()[i].name);
        assert forall|k: int| 0 <= k < tags.len() implies tagged(b.indices_view()[i].tags@, #[trigger] tags[k]@) by {
            assert(tagged(a.indices_view()[i].tags@, tags[k]@));
        }
    }
}

/// `n` has an index with this name and prime level, tagged with every tag.
pub open spec fn index_tagged(n: &Network, base: Seq<char>, subs: Seq<i64>, prime: u32, tags: Seq<String>) -> bool {
    exists|i: int|
        0 <= i < n.indices_view().len() && (#[trigger] n.indices_view()[i]).name.base@ == base
            && n.indices_view()[i].name.subscripts@ == subs && n.indices_view()[i].prime == prime
            && forall|k: int| 0 <= k < tags.len() ==> tagged(n.indices_view()[i].tags@, #[trigger] tags[k]@)
}

/// After round `env` of an `index` statement: every index its name stands
/// for exists, with every tag.
pub open spec fn index_round_done(n: &Network, name: NameAst, tags: Seq<String>, env: Option<(String, i64)>) -> bool {
    subs_of(name.subs@, env) matches Some(ps) && forall|k: int|
        0 <= k < product(ps).len() ==> #[trigger] index_tagged(n, name.base@, product(ps)[k], name.prime, tags)
}

/// Round `k` of an `index` statement with this `for` clause is done in `n`.
pub open spec fn index_round(n: &Network, name: NameAst, tags: Seq<String>, clause: Option<ForClause>, k: int) -> bool {
    exists|e: Option<(String, i64)>| #[trigger] env_of(clause, k, e) && index_round_done(n, name, tags, e)
}

proof fn lemma_index_round_keep(a: &Network, b: &Network, name: NameAst, tags: Seq<String>, env: Option<(String, i64)>)
    requires
        tags_grow(a, b),
        index_round_done(a, name, tags, env),
    ensures
        index_round_done(b, name, tags, env),
{
    lemma_index_tagged_mono(a, b, name.base@, name.prime, tags);
    let ps = subs_of(name.subs@, env)->Some_0;
    assert forall|k: int| 0 <= k < product(ps).len() implies #[trigger] index_tagged(b, name.base@, product(ps)[k], name.prime, tags) by {
        assert(index_tagged(a, name.base@, product(ps)[k], name.prime, tags));
    }
}

/// The value of the last `dim` attribute, if it is a number.
pub open spec fn last_dim(a: Seq<(Seq<char>, ValueView)>) -> Option<Number>
    decreases a.len(),
{
    if a.len() == 0 {
        None
    } else if a.last().0 == "dim"@ {
        match a.last().1 {
            ValueView::Number(x) => Some(x),
            _ => None,
        }
    } else {
        last_dim(a.drop_last())
    }
}

/// Where `d` is a number, an index with this name and prime level has it as
/// its dimension.
pub open spec fn dim_set(n: &Network, base: Seq<char>, subs: Seq<i64>, prime: u32, d: Option<Number>) -> bool {
    d matches Some(x) ==> exists|i: int|
        0 <= i < n.indices_view().len() && (#[trigger] n.indices_view()[i]).name.base@ == base
            && n.indices_view()[i].name.subscripts@ == subs && n.indices_view()[i].prime == prime
            && n.indices_view()[i].dim == Some(x.mantissa as u64)
}

/// The attributes other than `dim`, in order.
pub open spec fn no_dims(a: Seq<(Seq<char>, ValueView)>) -> Seq<(Seq<char>, ValueView)>
    decreases a.len(),
{
    if a.len() == 0 {
        Seq::empty()
    } else if a.last().0 == "dim"@ {
        no_dims(a.drop_last())
    } else {
        no_dims(a.drop_last()).push(a.last())
    }
}

/// A `dim` value: a positive whole number.
pub open spec fn dim_ok(v: ValueView) -> bool {
    v matches ValueView::Number(x) && x.scale == 0 && crate::number::at_least(x, 1)
}

/// Every `dim` attribute of the list has a positive whole number.
pub open spec fn dims_ok(attrs: Seq<(Seq<char>, ValueView)>) -> bool {
    forall|k: int| 0 <= k < attrs.len() && (#[trigger] attrs[k]).0 == "dim"@ ==> dim_ok(attrs[k].1)
}

/// When one round of an `index` statement succeeds: its name evaluates,
/// with no `*` among its subscripts, and, where it names any index, every
/// `dim` is a positive whole number.
pub open spec fn index_once_ok(name: NameAst, attrs: Seq<(Seq<char>, ValueView)>, env: Option<(String, i64)>) -> bool {
    subs_of(name.subs@, env) matches Some(ps) && (forall|k: int| 0 <= k < ps.len() ==> !(#[trigger] ps[k] is Any)) && (
    product(ps).len() > 0 ==> dims_ok(attrs))
}

/// An `index` statement's name evaluates with `*` among its subscripts.
pub open spec fn index_has_any(name: NameAst, env: Option<(String, i64)>) -> bool {
    subs_of(name.subs@, env) matches Some(ps) && exists|k: int| 0 <= k < ps.len() && (#[trigger] ps[k]) is Any
}

/// An `index` statement's name names indices, and some `dim` is not a
/// positive whole number.
pub open spec fn index_bad_dim(name: NameAst, attrs: Seq<(Seq<char>, ValueView)>, env: Option<(String, i64)>) -> bool {
    subs_of(name.subs@, env) matches Some(ps) && (forall|k: int| 0 <= k < ps.len() ==> !(#[trigger] ps[k] is Any))
        && product(ps).len() > 0 && !dims_ok(attrs)
}

/// The error for `*` in an `index` statement, at its name.
pub open spec fn index_any_err(name: NameAst, env: Option<(String, i64)>, e: Error) -> bool {
    e.pos == Some(name.pos) && exists|p: NamePattern|
        end_pattern(p, name, env) && e.message@ == "`"@ + #[trigger] crate::name::pattern_text(p)
            + "` names no index: `*` only matches tensors"@
}

fn index_once(net: &mut Network, name: &NameAst, tags: &Vec<String>, attrs: &Vec<Attr>, env: &Option<
    (String, i64),
>) -> (r: Result<(), Error>)
    requires
        lowered(old(net)),
        attrs_wf(attrs_view(attrs@)),
    ensures
        lowered(final(net)),
        keeps_structure(old(net), final(net)),
        r matches Err(e) ==> e.pos is Some,
        tags_grow(old(net), final(net)),
        r is Ok <==> index_once_ok(*name, attrs_view(attrs@), *env),
        index_has_any(*name, *env) ==> (r matches Err(e) && index_any_err(*name, *env, e)),
        index_bad_dim(*name, attrs_view(attrs@), *env) ==> (r matches Err(e) && e.pos == Some(name.pos) && e.message@
            == "dim must be a positive integer"@),
        rules_added(old(net).rules_view(), final(net).rules_view(), no_dims(attrs_view(attrs@)), index_sel()),
        r is Ok ==> (subs_of(name.subs@, *env) matches Some(ps) && forall|k: int|
            0 <= k < product(ps).len() ==> #[trigger] dim_set(
                final(net),
                name.base@,
                product(ps)[k],
                name.prime,
                last_dim(attrs_view(attrs@)),
            )),
        r is Ok ==> (subs_of(name.subs@, *env) matches Some(ps) && final(net).rules_view().len()
            == old(net).rules_view().len() + per(no_dims(attrs_view(attrs@)), product(ps).len() as int)),
        r is Ok ==> (subs_of(name.subs@, *env) matches Some(ps) && forall|k: int|
            0 <= k < product(ps).len() ==> #[trigger] index_tagged(final(net), name.base@, product(ps)[k], name.prime, tags@)),
{
    let ghost n_start = *net;
    let ghost nd = no_dims(attrs_view(attrs@));
    proof {
        lemma_rules_added_refl(net.rules_view(), nd, index_sel());
    }
    let p = match pattern(name, env) {
        Ok(p) => p,
        Err(e) => return Err(e),
    };
    let mut k: usize = 0;
    while k < p.subscripts.len()
        invariant
            k <= p.subscripts@.len(),
            lowered(net),
            *net == n_start,
            forall|j: int| 0 <= j < k ==> !(#[trigger] p.subscripts@[j] is Any),
            subs_of(name.subs@, *env) == Some(p.subscripts@),
            end_pattern(p, *name, *env),
            nd == no_dims(attrs_view(attrs@)),
            rules_added(old(net).rules_view(), net.rules_view(), nd, index_sel()),
        decreases p.subscripts@.len() - k,
    {
        match p.subscripts[k] {
            SubPattern::Any => {
                let mut m: Vec<char> = Vec::new();
                push_str(&mut m, "`");
                p.push_text(&mut m);
                push_str(&mut m, "` names no index: `*` only matches tensors");
                proof {
                    assert(end_pattern(p, *name, *env));
                }
                return Err(error_at(name.pos, m.as_slice()));
            },
            _ => {},
        }
        k = k + 1;
    }
    let names = enumerate(&p);
    let ghost ps = p.subscripts@;
    let mut j: usize = 0;
    while j < names.len()
        invariant
            j <= names@.len(),
            lowered(net),
            attrs_wf(attrs_view(attrs@)),
            keeps_structure(&n_start, net),
            n_start == *old(net),
            names@.len() == product(ps).len(),
            forall|k: int| 0 <= k < names@.len() ==> (#[trigger] names@[k]).base@ == name.base@
                && names@[k].subscripts@ == product(ps)[k],
            forall|k: int| 0 <= k < j ==> #[trigger] index_tagged(net, name.base@, product(ps)[k], name.prime, tags@),
            tags_grow(&n_start, net),
            j > 0 ==> dims_ok(attrs_view(attrs@)),
            nd == no_dims(attrs_view(attrs@)),
            rules_added(old(net).rules_view(), net.rules_view(), nd, index_sel()),
            net.rules_view().len() == old(net).rules_view().len() + per(nd, j as int),
            forall|k: int| 0 <= k < j ==> #[trigger] dim_set(net, name.base@, product(ps)[k], name.prime, last_dim(attrs_view(attrs@))),
            subs_of(name.subs@, *env) == Some(ps),
            forall|k: int| 0 <= k < ps.len() ==> !(#[trigger] ps[k] is Any),
        decreases names@.len() - j,
    {
        let ghost n_before = *net;
        let ghost rj = net.rules_view();
        let id = index_of(net, &names[j], name.prime);
        let ghost net1 = *net;
        proof {
            assert forall|k: int| 0 <= k < j implies #[trigger] dim_set(net, name.base@, product(ps)[k], name.prime, last_dim(attrs_view(attrs@))) by {
                if last_dim(attrs_view(attrs@)) is Some {
                    let x = last_dim(attrs_view(attrs@))->Some_0;
                    assert(dim_set(&n_before, name.base@, product(ps)[k], name.prime, last_dim(attrs_view(attrs@))));
                    let i = choose|i: int|
                        0 <= i < n_before.indices_view().len() && (#[trigger] n_before.indices_view()[i]).name.base@ == name.base@
                            && n_before.indices_view()[i].name.subscripts@ == product(ps)[k] && n_before.indices_view()[i].prime == name.prime
                            && n_before.indices_view()[i].dim == Some(x.mantissa as u64);
                    assert(net.indices_view()[i] == n_before.indices_view()[i]);
                }
            }
            lemma_keeps_structure_trans(&n_start, &n_before, net);
            assert(tags_grow(&n_before, net));
            lemma_index_tagged_mono(&n_before, net, name.base@, name.prime, tags@);
            lemma_tags_grow_trans(&n_start, &n_before, net);
        }
        let mut t: usize = 0;
        while t < tags.len()
            invariant
                t <= tags@.len(),
                lowered(net),
                id.0 < net.indices_view().len(),
                keeps_structure(&n_start, net),
                n_start == *old(net),
                net.indices_view()[id.0 as int].name.base@ == name.base@,
                net.indices_view()[id.0 as int].name.subscripts@ == product(ps)[j as int],
                net.indices_view()[id.0 as int].prime == name.prime,
                forall|q: int| 0 <= q < t ==> tagged(net.indices_view()[id.0 as int].tags@, #[trigger] tags@[q]@),
                forall|k: int| 0 <= k < j ==> #[trigger] index_tagged(net, name.base@, product(ps)[k], name.prime, tags@),
                tags_grow(&n_start, net),
                net.rules_view() == rj,
                nd == no_dims(attrs_view(attrs@)),
                rules_added(old(net).rules_view(), rj, nd, index_sel()),
                rj.len() == old(net).rules_view().len() + per(nd, j as int),
                net.indices_view().len() == net1.indices_view().len(),
                forall|i: int| 0 <= i < net.indices_view().len() && i != id.0 ==> #[trigger] net.indices_view()[i] == net1.indices_view()[i],
                net.indices_view()[id.0 as int].dim == net1.indices_view()[id.0 as int].dim,
            decreases tags@.len() - t,
        {
            let ghost n0 = *net;
            net.add_tag(id, tags[t].as_str());
            proof {
                lemma_lowered_grow(&n0, net);
                assert(keeps_structure(&n0, net));
                lemma_keeps_structure_trans(&n_start, &n0, net);
                assert forall|q: int| 0 <= q < t + 1 implies tagged(net.indices_view()[id.0 as int].tags@,
                    #[trigger] tags@[q]@) by {
                    if q < t {
                        assert(tagged(n0.indices_view()[id.0 as int].tags@, tags@[q]@));
                    }
                }
                assert(tags_grow(&n0, net)) by {
                    assert forall|i: int, x: Seq<char>|
                        0 <= i < n0.indices_view().len() && tagged(n0.indices_view()[i].tags@, x) implies #[trigger] tagged(
                        net.indices_view()[i].tags@,
                        x,
                    ) by {
                        if i != id.0 {
                            assert(net.indices_view()[i] == n0.indices_view()[i]);
                        }
                    }
                }
                lemma_index_tagged_mono(&n0, net, name.base@, name.prime, tags@);
                lemma_tags_grow_trans(&n_start, &n0, net);
            }
            t = t + 1;
        }
        let mut rest: Vec<Attr> = Vec::new();
        let mut a: usize = 0;
        while a < attrs.len()
            invariant
                a <= attrs@.len(),
                lowered(net),
                id.0 < net.indices_view().len(),
                attrs_wf(attrs_view(attrs@)),
                attrs_wf(attrs_view(rest@)),
                keeps_structure(&n_start, net),
                n_start == *old(net),
                net.indices_view()[id.0 as int].name.base@ == name.base@,
                net.indices_view()[id.0 as int].name.subscripts@ == product(ps)[j as int],
                net.indices_view()[id.0 as int].prime == name.prime,
                forall|q: int| 0 <= q < tags@.len() ==> tagged(net.indices_view()[id.0 as int].tags@, #[trigger] tags@[q]@),
                forall|k: int| 0 <= k < j ==> #[trigger] index_tagged(net, name.base@, product(ps)[k], name.prime, tags@),
                tags_grow(&n_start, net),
                forall|q: int| 0 <= q < a && (#[trigger] attrs_view(attrs@)[q]).0 == "dim"@ ==> dim_ok(attrs_view(attrs@)[q].1),
                j < names@.len(),
                names@.len() == product(ps).len(),
                subs_of(name.subs@, *env) == Some(ps),
                forall|k: int| 0 <= k < ps.len() ==> !(#[trigger] ps[k] is Any),
                net.rules_view() == rj,
                attrs_view(rest@) == no_dims(attrs_view(attrs@).take(a as int)),
                nd == no_dims(attrs_view(attrs@)),
                rules_added(old(net).rules_view(), rj, nd, index_sel()),
                rj.len() == old(net).rules_view().len() + per(nd, j as int),
                net.indices_view().len() == net1.indices_view().len(),
                forall|i: int| 0 <= i < net.indices_view().len() && i != id.0 ==> #[trigger] net.indices_view()[i] == net1.indices_view()[i],
                last_dim(attrs_view(attrs@).take(a as int)) matches Some(x) ==> net.indices_view()[id.0 as int].dim == Some(x.mantissa as u64),
            decreases attrs@.len() - a,
        {
            let is_dim = str_is("dim", chars_of(attrs[a].key.as_str()).as_slice());
            assert(attrs_view(attrs@)[a as int] == attrs@[a as int]@);
            proof {
                let av = attrs_view(attrs@);
                assert(av.take(a + 1).drop_last() =~= av.take(a as int));
                assert(av.take(a + 1).last() == av[a as int]);
            }
            if is_dim {
                let dim: Option<u64> = match &attrs[a].value {
                    Value::Number(x) => {
                        assert(attrs_view(attrs@)[a as int].1 == attrs@[a as int].value@);
                        if x.is_integer() && x.ge_int(1) {
                            Some(x.mantissa as u64)
                        } else {
                            None
                        }
                    },
                    _ => None,
                };
                match dim {
                    Some(d) => {
                        let ghost n0 = *net;
                        net.set_dim(id, d);
                        proof {
                            assert(tags_grow(&n0, net)) by {
                                assert forall|i: int, x: Seq<char>|
                                    0 <= i < n0.indices_view().len() && tagged(n0.indices_view()[i].tags@, x) implies #[trigger] tagged(
                                    net.indices_view()[i].tags@,
                                    x,
                                ) by {
                                    if i != id.0 {
                                        assert(net.indices_view()[i] == n0.indices_view()[i]);
                                    }
                                }
                            }
                            lemma_index_tagged_mono(&n0, net, name.base@, name.prime, tags@);
                            lemma_tags_grow_trans(&n_start, &n0, net);
                            lemma_lowered_grow(&n0, net);
                            assert(keeps_structure(&n0, net));
                            lemma_keeps_structure_trans(&n_start, &n0, net);
                        }
                    },
                    None => {
                        assert(!dim_ok(attrs_view(attrs@)[a as int].1));
                        assert(product(ps).len() > 0);
                        assert(!dims_ok(attrs_view(attrs@)));
                        return Err(error_at(name.pos, chars_of("dim must be a positive integer").as_slice()));
                    },
                }
            } else {
                let ghost before = rest@;
                let c = attrs[a].copy();
                rest.push(c);
                proof {
                    assert(attrs_view(attrs@)[a as int] == attrs@[a as int]@);
                    assert(attrs_view(rest@) =~= attrs_view(before).push(c@));
                }
            }
            a = a + 1;
        }
        let ghost n1 = *net;
        proof {
            assert(attrs_view(attrs@).take(attrs@.len() as int) =~= attrs_view(attrs@));
        }
        rule(net, Selector::Index(id), rest.as_slice());
        proof {
            lemma_rules_added_rule(old(net).rules_view(), n1.rules_view(), net.rules_view(), nd, index_sel(), Selector::Index(id));
            let ld = last_dim(attrs_view(attrs@));
            assert(net.indices_view() == n1.indices_view());
            assert forall|k: int| 0 <= k < j + 1 implies #[trigger] dim_set(net, name.base@, product(ps)[k], name.prime, ld) by {
                if ld is Some {
                    let x = ld->Some_0;
                    if k == j {
                        let ii = id.0 as int;
                        assert(net.indices_view()[ii].dim == Some(x.mantissa as u64));
                        assert(net.indices_view()[ii].name.subscripts@ == product(ps)[k]);
                    } else {
                        assert(dim_set(&net1, name.base@, product(ps)[k], name.prime, ld));
                        let i = choose|i: int|
                            0 <= i < net1.indices_view().len() && (#[trigger] net1.indices_view()[i]).name.base@ == name.base@
                                && net1.indices_view()[i].name.subscripts@ == product(ps)[k] && net1.indices_view()[i].prime
                                == name.prime && net1.indices_view()[i].dim == Some(x.mantissa as u64);
                        if i != id.0 {
                            assert(net.indices_view()[i] == net1.indices_view()[i]);
                        } else {
                            assert(net.indices_view()[i].dim == Some(x.mantissa as u64));
                            assert(net.indices_view()[i].name.subscripts@ == product(ps)[k]);
                        }
                    }
                }
            }
            assert(keeps_structure(&n1, net));
            lemma_keeps_structure_trans(&n_start, &n1, net);
            assert(net.indices_view() == n1.indices_view());
            assert(tags_grow(&n1, net));
            lemma_index_tagged_mono(&n1, net, name.base@, name.prime, tags@);
            lemma_tags_grow_trans(&n_start, &n1, net);
            assert(index_tagged(net, name.base@, product(ps)[j as int], name.prime, tags@)) by {
                let i = id.0 as int;
                assert(net.indices_view()[i].name.base@ == name.base@);
            }
        }
        j = j + 1;
    }
    Ok(())
}

/// `tensor name (slots) [attrs]`, once.
/// The tensor `t` of `n` is the one a name stands for in an environment.
pub open spec fn names_tensor_in(n: &Network, t: TensorId, name: NameAst, env: Option<(String, i64)>) -> bool {
    &&& t.0 < n.tensors_view().len()
    &&& n.tensors_view()[t.0 as int].name.base@ == name.base@
    &&& single_name_of(name, env) == Some(n.tensors_view()[t.0 as int].name.subscripts@)
}

/// A slot of `n` holds the index a written slot names, with its label.
pub open spec fn slot_matches(n: &Network, s: crate::model::Slot, w: crate::ast::SlotAst, env: Option<(String, i64)>) -> bool {
    &&& s.index.0 < n.indices_view().len()
    &&& n.indices_view()[s.index.0 as int].name.base@ == w.index.base@
    &&& single_name_of(w.index, env) == Some(n.indices_view()[s.index.0 as int].name.subscripts@)
    &&& n.indices_view()[s.index.0 as int].prime == w.index.prime
    &&& crate::ast::opt_str_v(s.label) == crate::ast::opt_str_v(w.label)
}

/// The slots of tensor `t` in `before` (none if it is new), followed in
/// `after` by one slot for each written slot, in order.
pub open spec fn slots_added(
    before: &Network,
    after: &Network,
    t: TensorId,
    written: Seq<crate::ast::SlotAst>,
    env: Option<(String, i64)>,
) -> bool {
    let had = if t.0 < before.tensors_view().len() {
        before.tensors_view()[t.0 as int].slots@
    } else {
        Seq::empty()
    };
    let now = after.tensors_view()[t.0 as int].slots@;
    &&& now.len() == had.len() + written.len()
    &&& now.take(had.len() as int) == had
    &&& forall|k: int| 0 <= k < written.len() ==> slot_matches(after, now[had.len() + k], #[trigger] written[k], env)
}

/// After a `tensor` statement once: the tensor it names, with its slots
/// added, every other tensor as it was, and a rule for its attributes.
pub open spec fn tensor_made(
    before: &Network,
    after: &Network,
    name: NameAst,
    written: Seq<crate::ast::SlotAst>,
    attrs: Seq<Attr>,
    env: Option<(String, i64)>,
) -> bool {
    exists|t: TensorId|
        #![trigger names_tensor_in(after, t, name, env)]
        {
            &&& names_tensor_in(after, t, name, env)
            &&& slots_added(before, after, t, written, env)
            &&& after.tensors_view().len() <= before.tensors_view().len() + 1
            &&& forall|u: int|
                0 <= u < after.tensors_view().len() && u != t.0 ==> u < before.tensors_view().len()
                    && #[trigger] after.tensors_view()[u] == before.tensors_view()[u]
            &&& (attrs.len() == 0 ==> after.rules_view() == before.rules_view())
            &&& (attrs.len() > 0 ==> after.rules_view().drop_last() == before.rules_view()
                && after.rules_view().last().selector == Selector::Tensor(t)
                && attrs_view(after.rules_view().last().attrs@) == attrs_view(attrs))
        }
}

/// The index a written slot names in an environment: its base, its
/// subscripts and its prime level.
pub open spec fn slot_key(w: crate::ast::SlotAst, env: Option<(String, i64)>) -> (Seq<char>, Seq<i64>, u32) {
    (w.index.base@, single_name_of(w.index, env)->Some_0, w.index.prime)
}

/// No index of the list has this base, subscripts and prime level.
pub open spec fn no_index(ix: Seq<crate::model::Index>, key: (Seq<char>, Seq<i64>, u32)) -> bool {
    forall|j: int|
        0 <= j < ix.len() ==> !((#[trigger] ix[j]).name.base@ == key.0 && ix[j].name.subscripts@ == key.1
            && ix[j].prime == key.2)
}

/// The index has the name and prime level of one of the written slots.
pub open spec fn index_keyed(ix: crate::model::Index, slots: Seq<crate::ast::SlotAst>, env: Option<(String, i64)>) -> bool {
    exists|m: int|
        0 <= m < slots.len() && (ix.name.base@, ix.name.subscripts@, ix.prime) == slot_key(#[trigger] slots[m], env)
}

/// Every index of `b` beyond those of `a` has the name of a written slot.
pub open spec fn new_indices_keyed(a: &Network, b: &Network, slots: Seq<crate::ast::SlotAst>, env: Option<(String, i64)>) -> bool {
    forall|j: int|
        a.indices_view().len() <= j < b.indices_view().len() ==> index_keyed(#[trigger] b.indices_view()[j], slots, env)
}

/// A `tensor` statement, once, declaring a new tensor whose written slots
/// name new indices, each once, under different labels: then it succeeds.
pub open spec fn new_tensor_ok(n: &Network, name: NameAst, slots: Seq<crate::ast::SlotAst>, env: Option<(String, i64)>) -> bool {
    &&& single_name_of(name, env) matches Some(subs) && forall|u: int|
        0 <= u < n.tensors_view().len() ==> !((#[trigger] n.tensors_view()[u]).name.base@ == name.base@
            && n.tensors_view()[u].name.subscripts@ == subs)
    &&& forall|k: int| 0 <= k < slots.len() ==> single_name_of((#[trigger] slots[k]).index, env) is Some
    &&& forall|k: int| 0 <= k < slots.len() ==> no_index(n.indices_view(), slot_key(#[trigger] slots[k], env))
    &&& forall|k: int, l: int|
        0 <= k < l < slots.len() ==> slot_key(#[trigger] slots[k], env) != slot_key(#[trigger] slots[l], env)
    &&& forall|k: int, l: int|
        0 <= k < l < slots.len() && (#[trigger] slots[k]).label is Some && (#[trigger] slots[l]).label is Some
            ==> slots[k].label->Some_0@ != slots[l].label->Some_0@
}

/// `index s[1] already joins two tensors`.
pub open spec fn joins_two_key(key: (Seq<char>, Seq<i64>, u32)) -> Seq<char> {
    "index "@ + crate::name::index_text(key.0, key.1, key.2 as nat) + " already joins two tensors"@
}

/// An index of the list has this base, subscripts and prime level.
pub open spec fn has_index(ix: Seq<crate::model::Index>, key: (Seq<char>, Seq<i64>, u32)) -> bool {
    exists|j: int|
        0 <= j < ix.len() && (#[trigger] ix[j]).name.base@ == key.0 && ix[j].name.subscripts@ == key.1
            && ix[j].prime == key.2
}

/// A `tensor` statement, once, whose first written slot, unlabelled, names
/// an index that already joins two tensors: it is refused there.
pub open spec fn first_slot_full(n: &Network, name: NameAst, slots: Seq<crate::ast::SlotAst>, env: Option<(String, i64)>) -> bool {
    &&& single_name_of(name, env) is Some
    &&& slots.len() > 0
    &&& slots[0].label is None
    &&& single_name_of(slots[0].index, env) is Some
    &&& has_index(n.indices_view(), slot_key(slots[0], env))
    &&& forall|j: int|
        0 <= j < n.indices_view().len() && (#[trigger] n.indices_view()[j]).name.base@ == slot_key(slots[0], env).0
            && n.indices_view()[j].name.subscripts@ == slot_key(slots[0], env).1 && n.indices_view()[j].prime
            == slot_key(slots[0], env).2 ==> n.indices_view()[j].holders@.len() >= 2
}

fn tensor_once(net: &mut Network, name: &NameAst, slots: &Vec<crate::ast::SlotAst>, attrs: &Vec<Attr>, env: &Option<
    (String, i64),
>) -> (r: Result<(), Error>)
    requires
        lowered(old(net)),
        attrs_wf(attrs_view(attrs@)),
    ensures
        lowered(final(net)),
        grows(old(net), final(net)),
        final(net).groups_view() == old(net).groups_view(),
        final(net).layout_view() == old(net).layout_view(),
        final(net).scene_view() == old(net).scene_view(),
        r matches Err(e) ==> e.pos is Some,
        single_name_of(*name, *env) is None ==> r is Err,
        slots@.len() == 0 ==> (r is Ok <==> single_name_of(*name, *env) is Some),
        new_tensor_ok(old(net), *name, slots@, *env) ==> r is Ok,
        first_slot_full(old(net), *name, slots@, *env) ==> (r matches Err(e) && e.pos == Some(slots@[0].index.pos)
            && e.message@ == joins_two_key(slot_key(slots@[0], *env))),
        r is Ok ==> tensor_made(old(net), final(net), *name, slots@, attrs@, *env),
        r is Ok ==> new_indices_keyed(old(net), final(net), slots@, *env),
{
    let n = match single_name(name, env) {
        Ok(n) => n,
        Err(e) => return Err(e),
    };
    let ghost fresh = new_tensor_ok(old(net), *name, slots@, *env);
    let ghost full = first_slot_full(old(net), *name, slots@, *env);
    let t = tensor_of(net, &n);
    let ghost n1 = *net;
    proof {
        if fresh {
            if t.0 < old(net).tensors_view().len() {
                assert(old(net).tensors_view()[t.0 as int] == net.tensors_view()[t.0 as int]);
                assert(false);
            }
        }
    }
    let ghost had = if t.0 < old(net).tensors_view().len() {
        old(net).tensors_view()[t.0 as int].slots@
    } else {
        Seq::empty()
    };
    assert(n1.tensors_view()[t.0 as int].slots@ == had) by {
        if t.0 >= old(net).tensors_view().len() {
            assert(n1.tensors_view()[t.0 as int].slots@.len() == 0);
        }
    }
    let mut k: usize = 0;
    while k < slots.len()
        invariant
            k <= slots@.len(),
            lowered(net),
            t.0 < net.tensors_view().len(),
            grows(old(net), net),
            grows(&n1, net),
            net.groups_view() == old(net).groups_view(),
            net.layout_view() == old(net).layout_view(),
            net.scene_view() == old(net).scene_view(),
            net.rules_view() == old(net).rules_view(),
            net.tensors_view().len() == n1.tensors_view().len(),
            n1.tensors_view()[t.0 as int].slots@ == had,
            net.tensors_view()[t.0 as int].name == n1.tensors_view()[t.0 as int].name,
            forall|u: int| 0 <= u < net.tensors_view().len() && u != t.0 ==> #[trigger] net.tensors_view()[u]
                == n1.tensors_view()[u],
            net.tensors_view()[t.0 as int].slots@.len() == had.len() + k,
            net.tensors_view()[t.0 as int].slots@.take(had.len() as int) == had,
            forall|m: int| 0 <= m < k ==> slot_matches(net, net.tensors_view()[t.0 as int].slots@[had.len() + m],
                #[trigger] slots@[m], *env),
            fresh == new_tensor_ok(old(net), *name, slots@, *env),
            full == first_slot_full(old(net), *name, slots@, *env),
            full ==> k == 0,
            new_indices_keyed(old(net), net, slots@, *env),
            net.indices_view().len() >= old(net).indices_view().len(),
            k == 0 ==> net.indices_view() == old(net).indices_view(),
            fresh ==> had.len() == 0,
            fresh ==> forall|m: int| k <= m < slots@.len() ==> no_index(net.indices_view(), slot_key(#[trigger] slots@[m], *env)),
            fresh ==> forall|m: int|
                k <= m < slots@.len() && (#[trigger] slots@[m]).label is Some ==> crate::model::label_pos(
                    net.tensors_view()[t.0 as int].slots@,
                    slots@[m].label->Some_0@,
                ) < 0,
        decreases slots@.len() - k,
    {
        let slot = &slots[k];
        let iname = match single_name(&slot.index, env) {
            Ok(n) => n,
            Err(e) => {
                assert(!fresh) by {
                    if fresh {
                        assert(single_name_of(slots@[k as int].index, *env) is Some);
                    }
                }
                return Err(e);
            },
        };
        let ghost n2 = *net;
        proof {
            if full {
                let key = slot_key(slots@[0], *env);
                crate::model::lemma_index_pos(net.indices_view(), iname, slot.index.prime);
                if crate::model::index_pos(net.indices_view(), iname, slot.index.prime) < 0 {
                    let j = choose|j: int|
                        0 <= j < net.indices_view().len() && (#[trigger] net.indices_view()[j]).name.base@ == key.0
                            && net.indices_view()[j].name.subscripts@ == key.1 && net.indices_view()[j].prime == key.2;
                    assert(crate::name::same_name(net.indices_view()[j].name, iname));
                }
            }
            if fresh {
                let key = slot_key(slots@[k as int], *env);
                assert(no_index(net.indices_view(), key));
                crate::model::lemma_index_pos(net.indices_view(), iname, slot.index.prime);
                if crate::model::index_pos(net.indices_view(), iname, slot.index.prime) >= 0 {
                    let q = crate::model::index_pos(net.indices_view(), iname, slot.index.prime);
                    assert(net.indices_view()[q].name.base@ == key.0);
                    assert(false);
                }
            }
        }
        let index = index_of(net, &iname, slot.index.prime);
        proof {
            assert forall|j: int| old(net).indices_view().len() <= j < net.indices_view().len() implies index_keyed(
                #[trigger] net.indices_view()[j],
                slots@,
                *env,
            ) by {
                if j < n2.indices_view().len() {
                    assert(index_keyed(n2.indices_view()[j], slots@, *env));
                    assert(net.indices_view()[j] == n2.indices_view()[j]);
                } else {
                    assert(j == index.0);
                    assert(slots@[k as int] == *slot);
                    assert((net.indices_view()[j].name.base@, net.indices_view()[j].name.subscripts@, net.indices_view()[j].prime)
                        == slot_key(slots@[k as int], *env));
                }
            }
        }
        let label = match &slot.label {
            Some(l) => Some(string_copy(l)),
            None => None,
        };
        let ghost n0 = *net;
        match net.attach(t, index, label) {
            Ok(_) => {
                proof {
                    let ghost s = net.tensors_view()[t.0 as int].slots@.last();
                    lemma_attach_grows(&n0, net, t.0 as int, s, index.0 as int, net.indices_view()[index.0 as int].holders@.last());
                    lemma_lowered_grow(&n0, net);
                    lemma_grows_trans(&n2, &n0, net);
                    lemma_grows_trans(old(net), &n2, net);
                    lemma_grows_trans(&n1, &n2, net);
                    let now = net.tensors_view()[t.0 as int].slots@;
                    let before = n2.tensors_view()[t.0 as int].slots@;
                    assert(now == before.push(crate::model::Slot { index, label }));
                    assert(now.take(had.len() as int) =~= before.take(had.len() as int));
                    assert forall|m: int| 0 <= m < k + 1 implies slot_matches(net, now[had.len() + m],
                        #[trigger] slots@[m], *env) by {
                        if m < k {
                            assert(now[had.len() + m] == before[had.len() + m]);
                            let ii = before[had.len() + m].index.0 as int;
                            assert(slot_matches(&n2, before[had.len() + m], slots@[m], *env));
                            assert(net.indices_view()[ii].name == n2.indices_view()[ii].name);
                        } else {
                            assert(now[had.len() + m] == crate::model::Slot { index, label });
                            assert(net.indices_view()[index.0 as int].name == n0.indices_view()[index.0 as int].name);
                        }
                    }
                }
            },
            Err(e) => {
                proof {
                    if full {
                        let ii = index.0 as int;
                        assert(n0.indices_view()[ii].holders@.len() >= 2);
                        assert(n0.indices_view()[ii].name.base@ == iname.base@);
                    }
                }
                assert(!fresh) by {
                    if fresh {
                        assert(n0.indices_view()[index.0 as int].holders@.len() == 0);
                        if slots@[k as int].label is Some {
                            assert(crate::model::label_pos(n2.tensors_view()[t.0 as int].slots@, slots@[k as int].label->Some_0@) < 0);
                        }
                    }
                }
                return Err(e.or_at(slot.index.pos));
            },
        }
        proof {
            if fresh {
                let kk = k as int;
                let key = slot_key(slots@[kk], *env);
                assert forall|m: int| kk + 1 <= m < slots@.len() implies no_index(net.indices_view(), slot_key(
                    #[trigger] slots@[m],
                    *env,
                )) by {
                    let km = slot_key(slots@[m], *env);
                    assert(km != key);
                    assert(no_index(n2.indices_view(), km));
                    assert forall|j: int| 0 <= j < net.indices_view().len() implies !((#[trigger] net.indices_view()[j]).name.base@
                        == km.0 && net.indices_view()[j].name.subscripts@ == km.1 && net.indices_view()[j].prime == km.2) by {
                        assert(net.indices_view()[j].name == n0.indices_view()[j].name);
                        assert(net.indices_view()[j].prime == n0.indices_view()[j].prime);
                        if j < n2.indices_view().len() {
                            assert(n0.indices_view()[j] == n2.indices_view()[j]);
                        } else {
                            assert(j == index.0);
                        }
                    }
                }
                let before = n2.tensors_view()[t.0 as int].slots@;
                let now = net.tensors_view()[t.0 as int].slots@;
                assert forall|m: int|
                    kk + 1 <= m < slots@.len() && (#[trigger] slots@[m]).label is Some implies crate::model::label_pos(
                    now,
                    slots@[m].label->Some_0@,
                ) < 0 by {
                    let l = slots@[m].label->Some_0@;
                    assert(crate::model::label_pos(before, l) < 0);
                    assert(now.drop_last() =~= before);
                    if slots@[kk].label is Some {
                        assert(slots@[kk].label->Some_0@ != l);
                    }
                    assert(!crate::model::labelled(now.last(), l));
                }
            }
        }
        k = k + 1;
    }
    let ghost n3 = *net;
    rule(net, Selector::Tensor(t), attrs.as_slice());
    proof {
        assert(names_tensor_in(net, t, *name, *env));
        assert(slots_added(old(net), net, t, slots@, *env)) by {
            assert forall|m: int| 0 <= m < slots@.len() implies slot_matches(net,
                net.tensors_view()[t.0 as int].slots@[had.len() + m], #[trigger] slots@[m], *env) by {
                assert(slot_matches(&n3, n3.tensors_view()[t.0 as int].slots@[had.len() + m], slots@[m], *env));
            }
        }
        assert forall|u: int| 0 <= u < net.tensors_view().len() && u != t.0 implies u < old(net).tensors_view().len()
            && #[trigger] net.tensors_view()[u] == old(net).tensors_view()[u] by {
            assert(n3.tensors_view()[u] == n1.tensors_view()[u]);
            if t.0 < old(net).tensors_view().len() {
                assert(n1.tensors_view() == old(net).tensors_view());
            } else {
                assert(n1.tensors_view().take(old(net).tensors_view().len() as int) == old(net).tensors_view());
                assert(n1.tensors_view().take(old(net).tensors_view().len() as int)[u] == n1.tensors_view()[u]);
            }
        }
        assert(tensor_made(old(net), net, *name, slots@, attrs@, *env));
    }
    Ok(())
}

/// Tensors `a` and `b` of `n` share an index.
pub open spec fn joined(n: &Network, a: TensorId, b: TensorId) -> bool {
    exists|i: crate::model::IndexId| crate::model::holds(n.tensors_view(), a, i) && crate::model::holds(
        n.tensors_view(),
        b,
        i,
    )
}

proof fn lemma_joined_grows(a: &Network, b: &Network, x: TensorId, y: TensorId)
    requires
        grows(a, b),
        x.0 < a.tensors_view().len(),
        y.0 < a.tensors_view().len(),
        joined(a, x, y),
    ensures
        joined(b, x, y),
{
    let i = choose|i: crate::model::IndexId| crate::model::holds(a.tensors_view(), x, i) && crate::model::holds(
        a.tensors_view(),
        y,
        i,
    );
    let sx = choose|s: int| 0 <= s < a.tensors_view()[x.0 as int].slots@.len() && #[trigger] a.tensors_view()[x.0 as int].slots@[s].index == i;
    let sy = choose|s: int| 0 <= s < a.tensors_view()[y.0 as int].slots@.len() && #[trigger] a.tensors_view()[y.0 as int].slots@[s].index == i;
    assert(b.tensors_view()[x.0 as int].slots@[sx] == a.tensors_view()[x.0 as int].slots@[sx]);
    assert(b.tensors_view()[y.0 as int].slots@[sy] == a.tensors_view()[y.0 as int].slots@[sy]);
    assert(crate::model::holds(b.tensors_view(), x, i));
    assert(crate::model::holds(b.tensors_view(), y, i));
}

/// The tensors with two names share an index.
pub open spec fn names_joined(
    n: &Network,
    x: (Seq<char>, Seq<i64>, Option<crate::ast::LegRefV>),
    y: (Seq<char>, Seq<i64>, Option<crate::ast::LegRefV>),
) -> bool {
    exists|a: TensorId, b: TensorId| tensor_is(n, a, x.0, x.1) && tensor_is(n, b, y.0, y.1) && #[trigger] joined(n, a, b)
}

/// The tensors of lists `w` and `w + 1` of a connection pair up, and each
/// pair shares an index.
pub open spec fn linked_step(n: &Network, lists: Seq<Seq<EndRef>>, w: int, env: Option<(String, i64)>) -> bool {
    let l = targets(lists[w], env);
    let r = targets(lists[w + 1], env);
    pairing(l.len(), r.len()) matches Some(ps) && forall|q: int|
        0 <= q < ps.len() ==> #[trigger] names_joined(n, l[ps[q].0], r[ps[q].1])
}

/// Every two neighbouring lists of a connection are linked.
pub open spec fn linked(n: &Network, lists: Seq<Seq<EndRef>>, env: Option<(String, i64)>) -> bool {
    forall|w: int| 0 <= w < lists.len() - 1 ==> #[trigger] linked_step(n, lists, w, env)
}

/// Every reference of every list names one tensor.
pub open spec fn plain_lists(n: &Network, lists: Seq<Seq<EndRef>>, env: Option<(String, i64)>) -> bool {
    forall|w: int| 0 <= w < lists.len() ==> plain_list(n, #[trigger] lists[w], env)
}

pub open spec fn lists_v(lists: Seq<Vec<EndRef>>) -> Seq<Seq<EndRef>> {
    lists.map_values(|l: Vec<EndRef>| l@)
}

proof fn lemma_names_joined_grows(
    a: &Network,
    b: &Network,
    x: (Seq<char>, Seq<i64>, Option<crate::ast::LegRefV>),
    y: (Seq<char>, Seq<i64>, Option<crate::ast::LegRefV>),
)
    requires
        grows(a, b),
        names_joined(a, x, y),
    ensures
        names_joined(b, x, y),
{
    let (t1, t2) = choose|t1: TensorId, t2: TensorId|
        tensor_is(a, t1, x.0, x.1) && tensor_is(a, t2, y.0, y.1) && #[trigger] joined(a, t1, t2);
    lemma_joined_grows(a, b, t1, t2);
    assert(b.tensors_view()[t1.0 as int].name == a.tensors_view()[t1.0 as int].name);
    assert(b.tensors_view()[t2.0 as int].name == a.tensors_view()[t2.0 as int].name);
    assert(tensor_is(b, t1, x.0, x.1));
    assert(tensor_is(b, t2, y.0, y.1));
}

proof fn lemma_linked_step_grows(a: &Network, b: &Network, lists: Seq<Seq<EndRef>>, w: int, env: Option<(String, i64)>)
    requires
        grows(a, b),
        0 <= w < lists.len() - 1,
        linked_step(a, lists, w, env),
    ensures
        linked_step(b, lists, w, env),
{
    let l = targets(lists[w], env);
    let r = targets(lists[w + 1], env);
    let ps = pairing(l.len(), r.len())->Some_0;
    assert forall|q: int| 0 <= q < ps.len() implies #[trigger] names_joined(b, l[ps[q].0], r[ps[q].1]) by {
        lemma_names_joined_grows(a, b, l[ps[q].0], r[ps[q].1]);
    }
}

/// The links a connection makes at most: one per pair of neighbouring
/// lists.
pub open spec fn links_needed(lists: Seq<Seq<EndRef>>, env: Option<(String, i64)>) -> int
    decreases lists.len(),
{
    if lists.len() < 2 {
        0
    } else {
        let l = targets(lists[lists.len() - 2], env).len();
        let r = targets(lists[lists.len() - 1], env).len();
        links_needed(lists.drop_last(), env) + match pairing(l, r) {
            Some(p) => p.len() as int,
            None => 0,
        }
    }
}

proof fn lemma_links_needed_prefix(lists: Seq<Seq<EndRef>>, env: Option<(String, i64)>)
    ensures
        forall|m: int| 0 <= m <= lists.len() ==> #[trigger] links_needed(lists.take(m), env) <= links_needed(lists, env),
        links_needed(lists, env) >= 0,
    decreases lists.len(),
{
    if lists.len() > 0 {
        let d = lists.drop_last();
        lemma_links_needed_prefix(d, env);
        assert forall|m: int| 0 <= m <= lists.len() implies #[trigger] links_needed(lists.take(m), env) <= links_needed(lists, env) by {
            if m < lists.len() {
                assert(lists.take(m) =~= d.take(m));
            } else {
                assert(lists.take(m) =~= lists);
            }
        }
    }
}

/// A connection succeeds in `n`: every reference names tensors without a
/// leg, neighbouring lists pair up, the next links are free and enough are
/// left.
pub open spec fn connect_lists_ok(n: &Network, lists: Seq<Seq<EndRef>>, env: Option<(String, i64)>) -> bool {
    &&& plain_lists(n, lists, env)
    &&& forall|w: int, k: int|
        0 <= w < lists.len() && 0 <= k < targets(lists[w], env).len() ==> (#[trigger] targets(lists[w], env)[k]).2 is None
    &&& forall|w: int|
        0 <= w < lists.len() - 1 ==> pairing(#[trigger] targets(lists[w], env).len(), targets(lists[w + 1], env).len()) is Some
    &&& links_fresh(n)
    &&& n.links_made() + links_needed(lists, env) <= 9223372036854775807
}

/// The lists of a connection have the shape it needs: every list names
/// single tensors, no reference names a leg, and neighbouring lists pair.
pub open spec fn lists_shape_ok(n: &Network, lists: Seq<Seq<EndRef>>, env: Option<(String, i64)>) -> bool {
    &&& plain_lists(n, lists, env)
    &&& forall|w: int, k: int|
        0 <= w < lists.len() && 0 <= k < targets(lists[w], env).len() ==> (#[trigger] targets(lists[w], env)[k]).2 is None
    &&& forall|w: int|
        0 <= w < lists.len() - 1 ==> pairing(#[trigger] targets(lists[w], env).len(), targets(lists[w + 1], env).len()) is Some
}

/// Every round of a connection statement with this `for` clause can run on
/// `n`: its lists have the shape a connection needs, it makes at most
/// `bound` new links, and the links all rounds may make are left.
pub open spec fn connect_rounds_ok(n: &Network, lists: Seq<Seq<EndRef>>, clause: Option<ForClause>, bound: int) -> bool {
    &&& links_fresh(n)
    &&& 0 <= bound
    &&& n.links_made() + rounds(clause) * bound <= 9223372036854775807
    &&& forall|k: int, e: Option<(String, i64)>|
        0 <= k < rounds(clause) && #[trigger] env_of(clause, k, e) ==> lists_shape_ok(n, lists, e) && links_needed(
            lists,
            e,
        ) <= bound
}

proof fn lemma_round_budget(k: int, rounds: int, bound: int)
    requires
        0 <= k < rounds,
        0 <= bound,
    ensures
        k * bound + bound <= rounds * bound,
        k * bound + bound == (k + 1) * bound,
        0 <= k * bound,
{
    assert(k * bound + bound == (k + 1) * bound) by (nonlinear_arith);
    assert((k + 1) * bound <= rounds * bound) by (nonlinear_arith)
        requires
            k + 1 <= rounds,
            0 <= bound,
    ;
    assert(0 <= k * bound) by (nonlinear_arith)
        requires
            0 <= k,
            0 <= bound,
    ;
}

/// If every reference names one tensor in `before`, the lists are linked in
/// `after`.
pub open spec fn round_linked(before: &Network, after: &Network, lists: Seq<Seq<EndRef>>, env: Option<(String, i64)>) -> bool {
    plain_lists(before, lists, env) ==> linked(after, lists, env)
}

/// Round `k` of a connection statement with this `for` clause linked its
/// lists.
pub open spec fn connect_round(before: &Network, after: &Network, lists: Vec<Vec<EndRef>>, clause: Option<ForClause>, k: int) -> bool {
    exists|e: Option<(String, i64)>| #[trigger] env_of(clause, k, e) && round_linked(before, after, lists_v(lists@), e)
}

proof fn lemma_plain_lists_groups(a: &Network, b: &Network, lists: Seq<Seq<EndRef>>, env: Option<(String, i64)>)
    requires
        a.groups_view() == b.groups_view(),
    ensures
        plain_lists(a, lists, env) == plain_lists(b, lists, env),
{
    if plain_lists(a, lists, env) {
        assert forall|w: int| 0 <= w < lists.len() implies plain_list(b, #[trigger] lists[w], env) by {
            assert(plain_list(a, lists[w], env));
            assert forall|k: int| 0 <= k < lists[w].len() implies plain_end(b, #[trigger] lists[w][k], env) by {
                assert(plain_end(a, lists[w][k], env));
            }
        }
    }
    if plain_lists(b, lists, env) {
        assert forall|w: int| 0 <= w < lists.len() implies plain_list(a, #[trigger] lists[w], env) by {
            assert(plain_list(b, lists[w], env));
            assert forall|k: int| 0 <= k < lists[w].len() implies plain_end(a, #[trigger] lists[w][k], env) by {
                assert(plain_end(b, lists[w][k], env));
            }
        }
    }
}

proof fn lemma_round_linked_grows(before: &Network, a: &Network, b: &Network, lists: Seq<Seq<EndRef>>, env: Option<(String, i64)>)
    requires
        grows(a, b),
        round_linked(before, a, lists, env),
    ensures
        round_linked(before, b, lists, env),
{
    if plain_lists(before, lists, env) {
        assert forall|w: int| 0 <= w < lists.len() - 1 implies #[trigger] linked_step(b, lists, w, env) by {
            lemma_linked_step_grows(a, b, lists, w, env);
        }
    }
}

/// `A - B - C [attrs]`, once.
#[verifier::rlimit(100)]
#[verifier::spinoff_prover]
fn connect_once(net: &mut Network, lists: &Vec<Vec<EndRef>>, attrs: &Vec<Attr>, env: &Option<(String, i64)>, pos: Pos) -> (r: Result<
    (),
    Error,
>)
    requires
        lowered(old(net)),
        attrs_wf(attrs_view(attrs@)),
    ensures
        lowered(final(net)),
        grows(old(net), final(net)),
        final(net).groups_view() == old(net).groups_view(),
        final(net).layout_view() == old(net).layout_view(),
        final(net).scene_view() == old(net).scene_view(),
        r is Ok && plain_lists(old(net), lists_v(lists@), *env) ==> linked(final(net), lists_v(lists@), *env),
        connect_lists_ok(old(net), lists_v(lists@), *env) ==> r is Ok && links_fresh(final(net))
            && final(net).links_made() <= old(net).links_made() + links_needed(lists_v(lists@), *env),
        lists@.len() > 0 && lists@[0]@.len() > 0 && matches_none(old(net), lists@[0]@[0].name, *env) ==> (r matches Err(
            e,
        ) && no_match_err(lists@[0]@[0].name, *env, e)),
        first_pair_fails(old(net), lists_v(lists@), *env) ==> (r matches Err(e) && e.pos == Some(pos) && e.message@
            == pair_text(targets(lists_v(lists@)[0], *env).len(), targets(lists_v(lists@)[1], *env).len())),
        rules_added(old(net).rules_view(), final(net).rules_view(), attrs_view(attrs@), index_sel()),
        r is Ok && plain_lists(old(net), lists_v(lists@), *env) ==> new_tensors_in_lists(
            old(net),
            final(net),
            lists_v(lists@),
            *env,
        ),
        r is Ok && connect_lists_ok(old(net), lists_v(lists@), *env) ==> final(net).rules_view().len()
            == old(net).rules_view().len() + per(attrs_view(attrs@), links_needed(lists_v(lists@), *env)),
{
    let ghost lv = lists_v(lists@);
    let ghost plain = plain_lists(old(net), lv, *env);
    let ghost ok = connect_lists_ok(old(net), lv, *env);
    let ghost pf = first_pair_fails(old(net), lv, *env);
    let ghost mn = lists@.len() > 0 && lists@[0]@.len() > 0 && matches_none(old(net), lists@[0]@[0].name, *env);
    let ghost l0 = old(net).links_made();
    proof {
        if ok {
            lemma_links_needed_prefix(lv, *env);
        }
    }
    let mut resolved: Vec<Vec<(TensorId, Option<LegRef>)>> = Vec::new();
    let mut k: usize = 0;
    while k < lists.len()
        invariant
            k <= lists@.len(),
            lowered(net),
            resolved@.len() == k,
            forall|j: int| 0 <= j < k ==> ends_in(#[trigger] resolved@[j]@, net.tensors_view().len()),
            grows(old(net), net),
            net.groups_view() == old(net).groups_view(),
            net.layout_view() == old(net).layout_view(),
            net.scene_view() == old(net).scene_view(),
            lv == lists_v(lists@),
            plain == plain_lists(old(net), lv, *env),
            plain ==> forall|j: int| 0 <= j < k ==> resolved_as(net, #[trigger] resolved@[j]@, lv[j], *env),
            ok == connect_lists_ok(old(net), lv, *env),
            l0 == old(net).links_made(),
            ok ==> plain && links_fresh(net) && net.links_made() == l0,
            net.rules_view() == old(net).rules_view(),
            plain ==> new_tensors_in_lists(old(net), net, lv, *env),
            pf == first_pair_fails(old(net), lv, *env),
            pf ==> plain,
            mn == (lists@.len() > 0 && lists@[0]@.len() > 0 && matches_none(old(net), lists@[0]@[0].name, *env)),
            mn ==> k == 0 && *net == *old(net),
        decreases lists@.len() - k,
    {
        let ghost n0 = *net;
        let ghost before = resolved@;
        proof {
            if plain {
                assert(plain_list(old(net), lv[k as int], *env));
                assert(lv[k as int] == lists@[k as int]@);
                assert forall|q: int| 0 <= q < lists@[k as int]@.len() implies plain_end(&n0, #[trigger] lists@[k as int]@[q], *env) by {
                    assert(plain_end(old(net), lv[k as int][q], *env));
                }
            }
        }
        match resolve_list(net, &lists[k], env) {
            Ok(v) => resolved.push(v),
            Err(e) => {
                proof {
                    lemma_rules_added_refl(net.rules_view(), attrs_view(attrs@), index_sel());
                }
                return Err(e);
            },
        }
        proof {
            if plain {
                lemma_new_tensors_resolved(&n0, net, resolved@[k as int]@, lv[k as int], *env);
                lemma_lists_named_add(old(net), &n0, net, lv, k as int, *env);
            }
            lemma_grows_trans(old(net), &n0, net);
            lemma_links_fresh_same(&n0, net);
            assert forall|j: int| 0 <= j < resolved@.len() implies ends_in(#[trigger] resolved@[j]@, net.tensors_view().len()) by {
                if j < k {
                    assert(ends_in(resolved@[j]@, n0.tensors_view().len()));
                }
            }
            if plain {
                assert forall|j: int| 0 <= j < k + 1 implies resolved_as(net, #[trigger] resolved@[j]@, lv[j], *env) by {
                    if j < k {
                        assert(resolved@[j] == before[j]);
                        lemma_resolved_as_grows(&n0, net, before[j]@, lv[j], *env);
                    }
                }
            }
        }
        k = k + 1;
    }
    let mut w: usize = 0;
    proof {
        if lv.len() > 0 {
            assert(lv.take(1).len() == 1);
            assert(links_needed(lv.take(1), *env) == 0);
        }
        lemma_rules_added_refl(net.rules_view(), attrs_view(attrs@), index_sel());
    }
    while resolved.len() > 0 && w < resolved.len() - 1
        invariant
            lowered(net),
            attrs_wf(attrs_view(attrs@)),
            forall|j: int| 0 <= j < resolved@.len() ==> ends_in(#[trigger] resolved@[j]@, net.tensors_view().len()),
            grows(old(net), net),
            net.groups_view() == old(net).groups_view(),
            net.layout_view() == old(net).layout_view(),
            net.scene_view() == old(net).scene_view(),
            resolved@.len() == lists@.len(),
            lv == lists_v(lists@),
            lv.len() == lists@.len(),
            plain ==> forall|j: int| 0 <= j < resolved@.len() ==> resolved_as(net, #[trigger] resolved@[j]@, lv[j], *env),
            plain ==> forall|j: int| 0 <= j < w ==> #[trigger] linked_step(net, lv, j, *env),
            resolved@.len() > 0 ==> w <= resolved@.len() - 1,
            ok == connect_lists_ok(old(net), lv, *env),
            l0 == old(net).links_made(),
            ok ==> plain && links_fresh(net) && (lv.len() > 0 ==> net.links_made() <= l0 + links_needed(lv.take(w + 1), *env)),
            ok ==> forall|m: int| 0 <= m <= lv.len() ==> #[trigger] links_needed(lv.take(m), *env) <= links_needed(lv, *env),
            plain ==> new_tensors_in_lists(old(net), net, lv, *env),
            pf == first_pair_fails(old(net), lv, *env),
            pf ==> plain && w == 0,
            !(lists@.len() > 0 && lists@[0]@.len() > 0 && matches_none(old(net), lists@[0]@[0].name, *env)),
            rules_added(old(net).rules_view(), net.rules_view(), attrs_view(attrs@), index_sel()),
            lv.len() == 0 ==> net.rules_view().len() == old(net).rules_view().len(),
            ok && lv.len() == 0 ==> net.links_made() == l0,
            ok && lv.len() > 0 ==> net.rules_view().len() == old(net).rules_view().len() + per(
                attrs_view(attrs@),
                links_needed(lv.take(w + 1), *env),
            ),
        decreases resolved@.len() - w,
    {
        let left = &resolved[w];
        let right = &resolved[w + 1];
        assert(ends_in(left@, net.tensors_view().len()));
        assert(ends_in(right@, net.tensors_view().len()));
        proof {
            if pf {
                assert(resolved_as(net, left@, lv[0], *env));
                assert(resolved_as(net, right@, lv[1], *env));
            }
        }
        let ps = match pairs(left.len(), right.len(), pos) {
            Ok(ps) => ps,
            Err(e) => return Err(e),
        };
        let ghost pp = pairing(left@.len() as nat, right@.len() as nat)->Some_0;
        let ghost lw = net.links_made();
        let ghost rw = net.rules_view().len();
        proof {
            if ok {
                assert(lv.take(w + 2).drop_last() =~= lv.take(w + 1));
                assert(lv.take(w + 2)[w as int] == lv[w as int]);
                assert(lv.take(w + 2)[w + 1] == lv[w + 1]);
                assert(links_needed(lv.take(w + 2), *env) == links_needed(lv.take(w + 1), *env) + pp.len());
                assert(links_needed(lv.take(w + 2), *env) <= links_needed(lv, *env));
            }
        }
        proof {
            if plain {
                assert(resolved_as(net, left@, lv[w as int], *env));
                assert(resolved_as(net, right@, lv[w + 1], *env));
            }
        }
        let mut q: usize = 0;
        while q < ps.len()
            invariant
                q <= ps@.len(),
                lowered(net),
                attrs_wf(attrs_view(attrs@)),
                forall|m: int| 0 <= m < ps@.len() ==> (#[trigger] ps@[m]).0 < left@.len() && ps@[m].1 < right@.len(),
                ends_in(left@, net.tensors_view().len()),
                ends_in(right@, net.tensors_view().len()),
                forall|j: int| 0 <= j < resolved@.len() ==> ends_in(#[trigger] resolved@[j]@, net.tensors_view().len()),
                grows(old(net), net),
                net.groups_view() == old(net).groups_view(),
                net.layout_view() == old(net).layout_view(),
                net.scene_view() == old(net).scene_view(),
                left == &resolved@[w as int],
                right == &resolved@[w + 1],
                w + 1 < resolved@.len(),
                resolved@.len() == lists@.len(),
                lv == lists_v(lists@),
                lv.len() == lists@.len(),
                pairing(left@.len() as nat, right@.len() as nat) == Some(pp),
                ps@.len() == pp.len(),
                forall|m: int| 0 <= m < pp.len() ==> (#[trigger] ps@[m]).0 == pp[m].0 && ps@[m].1 == pp[m].1,
                plain ==> forall|j: int| 0 <= j < resolved@.len() ==> resolved_as(net, #[trigger] resolved@[j]@, lv[j], *env),
                plain ==> forall|j: int| 0 <= j < w ==> #[trigger] linked_step(net, lv, j, *env),
                plain ==> forall|m: int| 0 <= m < q ==> #[trigger] names_joined(net, targets(lv[w as int], *env)[pp[m].0], targets(lv[w + 1], *env)[pp[m].1]),
                ok == connect_lists_ok(old(net), lv, *env),
                ok ==> plain && links_fresh(net) && net.links_made() <= lw + q,
                ok ==> lw + pp.len() <= l0 + links_needed(lv, *env),
                ok ==> l0 + links_needed(lv, *env) <= 9223372036854775807,
                rules_added(old(net).rules_view(), net.rules_view(), attrs_view(attrs@), index_sel()),
                ok ==> net.rules_view().len() == rw + per(attrs_view(attrs@), q as int),
                ok ==> rw == old(net).rules_view().len() + per(attrs_view(attrs@), links_needed(lv.take(w + 1), *env)),
                ok ==> links_needed(lv.take(w + 2), *env) == links_needed(lv.take(w + 1), *env) + pp.len(),
                plain ==> new_tensors_in_lists(old(net), net, lv, *env),
                pf == first_pair_fails(old(net), lv, *env),
                !pf,
                !(lists@.len() > 0 && lists@[0]@.len() > 0 && matches_none(old(net), lists@[0]@[0].name, *env)),
            decreases ps@.len() - q,
        {
            let (i, j) = ps[q];
            let a = left[i].0;
            let b = right[j].0;
            let la = match leg_label(&left[i].1, pos) {
                Ok(l) => l,
                Err(e) => return Err(e),
            };
            let lb = match leg_label(&right[j].1, pos) {
                Ok(l) => l,
                Err(e) => return Err(e),
            };
            let ghost n0 = *net;
            proof {
                if ok {
                    let tl = targets(lv[w as int], *env);
                    let tr = targets(lv[w + 1], *env);
                    assert(resolved_as(net, left@, lv[w as int], *env));
                    assert(resolved_as(net, right@, lv[w + 1], *env));
                    assert(tl[i as int].2 is None);
                    assert(tr[j as int].2 is None);
                    crate::model::lemma_links_fresh_free(net);
                }
            }
            let index = match net.connect(a, &la, b, &lb) {
                Ok(index) => index,
                Err(e) => {
                    proof {
                        lemma_grows_trans(old(net), &n0, net);
                    }
                    return Err(e);
                },
            };
            proof {
                lemma_lowered_grow(&n0, net);
                if plain {
                    lemma_lists_named_keep(old(net), &n0, net, lv, *env);
                }
                lemma_grows_trans(old(net), &n0, net);
                assert forall|jj: int| 0 <= jj < resolved@.len() implies ends_in(#[trigger] resolved@[jj]@, net.tensors_view().len()) by {
                    assert(ends_in(resolved@[jj]@, n0.tensors_view().len()));
                }
                assert(joined(net, a, b));
                if plain {
                    assert forall|jj: int| 0 <= jj < resolved@.len() implies resolved_as(net, #[trigger] resolved@[jj]@, lv[jj], *env) by {
                        lemma_resolved_as_grows(&n0, net, resolved@[jj]@, lv[jj], *env);
                    }
                    assert forall|jj: int| 0 <= jj < w implies #[trigger] linked_step(net, lv, jj, *env) by {
                        lemma_linked_step_grows(&n0, net, lv, jj, *env);
                    }
                    let tl = targets(lv[w as int], *env);
                    let tr = targets(lv[w + 1], *env);
                    assert forall|m: int| 0 <= m < q implies #[trigger] names_joined(net, tl[pp[m].0], tr[pp[m].1]) by {
                        lemma_names_joined_grows(&n0, net, tl[pp[m].0], tr[pp[m].1]);
                    }
                    assert(tensor_is(net, a, tl[i as int].0, tl[i as int].1)) by {
                        assert(tensor_is(&n0, a, tl[i as int].0, tl[i as int].1));
                    }
                    assert(tensor_is(net, b, tr[j as int].0, tr[j as int].1)) by {
                        assert(tensor_is(&n0, b, tr[j as int].0, tr[j as int].1));
                    }
                    assert(names_joined(net, tl[pp[q as int].0], tr[pp[q as int].1]));
                }
            }
            let ghost n1 = *net;
            rule(net, Selector::Index(index), attrs.as_slice());
            proof {
                lemma_rules_added_rule(
                    old(net).rules_view(),
                    n1.rules_view(),
                    net.rules_view(),
                    attrs_view(attrs@),
                    index_sel(),
                    Selector::Index(index),
                );
                lemma_grows_trans(old(net), &n1, net);
                if plain {
                    lemma_lists_named_keep(old(net), &n1, net, lv, *env);
                }
                lemma_links_fresh_same(&n1, net);
                if plain {
                    assert forall|jj: int| 0 <= jj < resolved@.len() implies resolved_as(net, #[trigger] resolved@[jj]@, lv[jj], *env) by {
                        lemma_resolved_as_grows(&n1, net, resolved@[jj]@, lv[jj], *env);
                    }
                    assert forall|jj: int| 0 <= jj < w implies #[trigger] linked_step(net, lv, jj, *env) by {
                        lemma_linked_step_grows(&n1, net, lv, jj, *env);
                    }
                    let tl = targets(lv[w as int], *env);
                    let tr = targets(lv[w + 1], *env);
                    assert forall|m: int| 0 <= m < q + 1 implies #[trigger] names_joined(net, tl[pp[m].0], tr[pp[m].1]) by {
                        lemma_names_joined_grows(&n1, net, tl[pp[m].0], tr[pp[m].1]);
                    }
                }
            }
            q = q + 1;
        }
        proof {
            if plain {
                assert(linked_step(net, lv, w as int, *env));
            }
        }
        w = w + 1;
        proof {
            if ok {
                assert(lv.len() > 0);
            }
        }
    }
    proof {
        if plain {
            assert forall|j: int| 0 <= j < lv.len() - 1 implies #[trigger] linked_step(net, lv, j, *env) by {}
        }
        if lv.len() > 0 {
            assert(lv.take(w + 1) =~= lv);
        }
    }
    Ok(())
}

/// The tensors of a resolved list, without their legs.
fn ids_of(v: &Vec<(TensorId, Option<LegRef>)>, Ghost(nt): Ghost<nat>) -> (r: Vec<TensorId>)
    requires
        ends_in(v@, nt),
    ensures
        r@.len() == v@.len(),
        forall|k: int| 0 <= k < r@.len() ==> (#[trigger] r@[k]).0 < nt && r@[k] == v@[k].0,
{
    let mut r: Vec<TensorId> = Vec::new();
    let mut k: usize = 0;
    while k < v.len()
        invariant
            k <= v@.len(),
            ends_in(v@, nt),
            r@.len() == k,
            forall|j: int| 0 <= j < k ==> (#[trigger] r@[j]).0 < nt && r@[j] == v@[j].0,
        decreases v@.len() - k,
    {
        r.push(v[k].0);
        k = k + 1;
    }
    r
}

fn copy_ids(v: &Vec<TensorId>) -> (r: Vec<TensorId>)
    ensures
        r@ == v@,
{
    let mut r: Vec<TensorId> = Vec::new();
    let mut k: usize = 0;
    while k < v.len()
        invariant
            k <= v@.len(),
            r@ == v@.take(k as int),
        decreases v@.len() - k,
    {
        r.push(v[k]);
        k = k + 1;
        assert(r@ =~= v@.take(k as int));
    }
    assert(v@.take(v@.len() as int) =~= v@);
    r
}

/// Add a group whose members exist.
/// A group may take this name: no group has it, and no tensor has it
/// without subscripts.
pub open spec fn group_name_free(n: &Network, name: Seq<char>) -> bool {
    crate::model::group_pos(n.groups_view(), name) < 0 && !(exists|t: int|
        0 <= t < n.tensors_view().len() && crate::model::is_plain(#[trigger] n.tensors_view()[t].name, name))
}

#[verifier::spinoff_prover]
fn group_of(net: &mut Network, name: &String, members: Vec<TensorId>) -> (r: Result<(), Error>)
    requires
        lowered(old(net)),
        forall|k: int| 0 <= k < members@.len() ==> (#[trigger] members@[k]).0 < old(net).tensors_view().len(),
    ensures
        lowered(final(net)),
        final(net).tensors_view() == old(net).tensors_view(),
        final(net).indices_view() == old(net).indices_view(),
        final(net).layout_view() == old(net).layout_view(),
        final(net).rules_view() == old(net).rules_view(),
        final(net).scene_view() == old(net).scene_view(),
        r is Ok ==> final(net).groups_view().len() == old(net).groups_view().len() + 1
            && final(net).groups_view().drop_last() == old(net).groups_view()
            && final(net).groups_view().last().name@ == name@
            && final(net).groups_view().last().members@ == members@,
        r is Err ==> final(net).groups_view() == old(net).groups_view(),
        r is Ok <==> group_name_free(old(net), name@),
{
    let ghost n0 = *net;
    let ghost ms = members@;
    let r = net.add_group(name, members);
    proof {
        if r is Ok {
            assert forall|g: int, k: int|
                0 <= g < net.groups_view().len() && 0 <= k < net.groups_view()[g].members@.len() implies (
                #[trigger] net.groups_view()[g].members@[k]).0 < net.tensors_view().len() by {
                if g < n0.groups_view().len() {
                    assert(net.groups_view()[g] == n0.groups_view()[g]);
                }
            }
        }
    }
    r
}

/// Append a layout statement whose references and values are in order.
fn layout(net: &mut Network, l: LayoutStmt)
    requires
        lowered(old(net)),
        layout_refs_ok(l, old(net).tensors_view().len()),
        layout_values_ok(l),
    ensures
        lowered(final(net)),
        final(net).tensors_view() == old(net).tensors_view(),
        final(net).indices_view() == old(net).indices_view(),
        final(net).groups_view() == old(net).groups_view(),
        final(net).rules_view() == old(net).rules_view(),
        final(net).scene_view() == old(net).scene_view(),
        final(net).layout_view() == old(net).layout_view().push(l),
        final(net).links_made() == old(net).links_made(),
        final(net).sites_made() == old(net).sites_made(),
{
    net.push_layout(l);
}

/// `chain [group:] A, B, C [attrs]`.
/// Tensor `t` of `n` has the name of this target.
pub open spec fn named_as(n: &Network, t: int, x: (Seq<char>, Seq<i64>, Option<crate::ast::LegRefV>)) -> bool {
    n.tensors_view()[t].name.base@ == x.0 && n.tensors_view()[t].name.subscripts@ == x.1
}

/// Tensor `t` of `n` has the name of one of the targets.
pub open spec fn target_named(n: &Network, t: int, ts: Seq<(Seq<char>, Seq<i64>, Option<crate::ast::LegRefV>)>) -> bool {
    exists|k: int| 0 <= k < ts.len() && #[trigger] named_as(n, t, ts[k])
}

/// Every tensor of `b` beyond those of `a` is one the list names.
pub open spec fn new_tensors_named(a: &Network, b: &Network, list: Seq<EndRef>, env: Option<(String, i64)>) -> bool {
    forall|t: int|
        a.tensors_view().len() <= t < b.tensors_view().len() ==> #[trigger] target_named(b, t, targets(list, env))
}

proof fn lemma_new_tensors_resolved(
    a: &Network,
    b: &Network,
    v: Seq<(TensorId, Option<LegRef>)>,
    list: Seq<EndRef>,
    env: Option<(String, i64)>,
)
    requires
        covers_new(a, b, v),
        resolved_as(b, v, list, env),
    ensures
        new_tensors_named(a, b, list, env),
{
    let ts = targets(list, env);
    assert forall|t: int| a.tensors_view().len() <= t < b.tensors_view().len() implies #[trigger] target_named(b, t, ts) by {
        assert(resolves_to(v, t));
        let k = choose|k: int| 0 <= k < v.len() && (#[trigger] v[k]).0.0 == t;
        assert(tensor_is(b, v[k].0, ts[k].0, ts[k].1));
        assert(named_as(b, t, ts[k]));
        assert(0 <= k < ts.len());
    }
}

proof fn lemma_new_tensors_keep(a: &Network, b: &Network, c: &Network, list: Seq<EndRef>, env: Option<(String, i64)>)
    requires
        new_tensors_named(a, b, list, env),
        grows(b, c),
        c.tensors_view().len() == b.tensors_view().len(),
    ensures
        new_tensors_named(a, c, list, env),
{
    let ts = targets(list, env);
    assert forall|t: int| a.tensors_view().len() <= t < c.tensors_view().len() implies #[trigger] target_named(c, t, ts) by {
        assert(target_named(b, t, ts));
        let k = choose|k: int| 0 <= k < ts.len() && #[trigger] named_as(b, t, ts[k]);
        assert(c.tensors_view()[t].name == b.tensors_view()[t].name);
        assert(named_as(c, t, ts[k]));
    }
}

/// Tensor `t` of `n` has the name of a target of one of the lists.
pub open spec fn lists_named(n: &Network, t: int, lists: Seq<Seq<EndRef>>, env: Option<(String, i64)>) -> bool {
    exists|w: int| 0 <= w < lists.len() && #[trigger] target_named(n, t, targets(lists[w], env))
}

/// Every tensor of `b` beyond those of `a` is one the lists name.
pub open spec fn new_tensors_in_lists(a: &Network, b: &Network, lists: Seq<Seq<EndRef>>, env: Option<(String, i64)>) -> bool {
    forall|t: int| a.tensors_view().len() <= t < b.tensors_view().len() ==> #[trigger] lists_named(b, t, lists, env)
}

proof fn lemma_lists_named_keep(a: &Network, b: &Network, c: &Network, lists: Seq<Seq<EndRef>>, env: Option<(String, i64)>)
    requires
        new_tensors_in_lists(a, b, lists, env),
        grows(b, c),
        c.tensors_view().len() == b.tensors_view().len(),
    ensures
        new_tensors_in_lists(a, c, lists, env),
{
    assert forall|t: int| a.tensors_view().len() <= t < c.tensors_view().len() implies #[trigger] lists_named(c, t, lists, env) by {
        assert(lists_named(b, t, lists, env));
        let w = choose|w: int| 0 <= w < lists.len() && #[trigger] target_named(b, t, targets(lists[w], env));
        let ts = targets(lists[w], env);
        let k = choose|k: int| 0 <= k < ts.len() && #[trigger] named_as(b, t, ts[k]);
        assert(c.tensors_view()[t].name == b.tensors_view()[t].name);
        assert(named_as(c, t, ts[k]));
        assert(target_named(c, t, ts));
    }
}

proof fn lemma_lists_named_add(
    a: &Network,
    b: &Network,
    c: &Network,
    lists: Seq<Seq<EndRef>>,
    w: int,
    env: Option<(String, i64)>,
)
    requires
        new_tensors_in_lists(a, b, lists, env),
        new_tensors_named(b, c, lists[w], env),
        0 <= w < lists.len(),
        grows(b, c),
    ensures
        new_tensors_in_lists(a, c, lists, env),
{
    assert forall|t: int| a.tensors_view().len() <= t < c.tensors_view().len() implies #[trigger] lists_named(c, t, lists, env) by {
        if t < b.tensors_view().len() {
            assert(lists_named(b, t, lists, env));
            let w2 = choose|w2: int| 0 <= w2 < lists.len() && #[trigger] target_named(b, t, targets(lists[w2], env));
            let ts = targets(lists[w2], env);
            let k = choose|k: int| 0 <= k < ts.len() && #[trigger] named_as(b, t, ts[k]);
            assert(c.tensors_view()[t].name == b.tensors_view()[t].name);
            assert(named_as(c, t, ts[k]));
            assert(target_named(c, t, ts));
        } else {
            assert(target_named(c, t, targets(lists[w], env)));
        }
    }
}

/// `cannot pair 2 tensors with 3`.
pub open spec fn pair_text(na: nat, nb: nat) -> Seq<char> {
    "cannot pair "@ + crate::text::nat_text(na) + " tensors with "@ + crate::text::nat_text(nb)
}

/// Every list names single tensors, and the first two lists cannot be
/// paired: a connection refuses them before it makes any bond.
pub open spec fn first_pair_fails(n: &Network, lists: Seq<Seq<EndRef>>, env: Option<(String, i64)>) -> bool {
    &&& plain_lists(n, lists, env)
    &&& lists.len() >= 2
    &&& pairing(targets(lists[0], env).len(), targets(lists[1], env).len()) is None
}

/// The bonds a row of `n` tensors makes: one between each two neighbours.
pub open spec fn links_in_row(n: int) -> int {
    if n > 0 {
        n - 1
    } else {
        0
    }
}

fn chain_stmt(net: &mut Network, group: &Option<String>, list: &Vec<EndRef>, attrs: &Vec<Attr>) -> (r:
    Result<(), Error>)
    requires
        lowered(old(net)),
        attrs_wf(attrs_view(attrs@)),
    ensures
        lowered(final(net)),
        grows(old(net), final(net)),
        final(net).scene_view() == old(net).scene_view(),
        r is Ok ==> final(net).layout_view().len() == old(net).layout_view().len() + 1
            && final(net).layout_view().drop_last() == old(net).layout_view()
            && final(net).layout_view().last() is Row,
        r is Ok && group is None ==> final(net).groups_view() == old(net).groups_view(),
        r is Ok && group is Some ==> final(net).groups_view().drop_last() == old(net).groups_view()
            && final(net).groups_view().len() == old(net).groups_view().len() + 1
            && final(net).groups_view().last().name@ == group->Some_0@,
        chain_ok(old(net), *group, list@) ==> r is Ok,
        list@.len() > 0 && matches_none(old(net), list@[0].name, None) ==> (r matches Err(e) && no_match_err(
            list@[0].name,
            None,
            e,
        )),
        r is Ok && plain_list(old(net), list@, None) ==> chained(final(net), targets(list@, None)),
        rules_added(old(net).rules_view(), final(net).rules_view(), attrs_view(attrs@), index_sel()),
        r is Ok && plain_list(old(net), list@, None) ==> new_tensors_named(old(net), final(net), list@, None),
        r is Ok && plain_list(old(net), list@, None) ==> final(net).rules_view().len() == old(net).rules_view().len()
            + per(attrs_view(attrs@), links_in_row(targets(list@, None).len() as int)),
{
    let ghost n00 = *net;
    let ghost plain = plain_list(old(net), list@, None);
    let ghost ok = chain_ok(old(net), *group, list@);
    let ghost l0 = old(net).links_made();
    let ghost tg = targets(list@, None);
    proof {
        lemma_rules_added_refl(net.rules_view(), attrs_view(attrs@), index_sel());
    }
    let resolved = match resolve_list(net, list, &None) {
        Ok(v) => v,
        Err(e) => return Err(e),
    };
    let ghost n1 = *net;
    proof {
        lemma_links_fresh_same(old(net), &n1);
    }
    let tensors = ids_of(&resolved, Ghost(net.tensors_view().len()));
    let mut w: usize = 0;
    while tensors.len() > 0 && w < tensors.len() - 1
        invariant
            lowered(net),
            attrs_wf(attrs_view(attrs@)),
            forall|k: int| 0 <= k < tensors@.len() ==> (#[trigger] tensors@[k]).0 < net.tensors_view().len(),
            grows(old(net), net),
            net.groups_view() == old(net).groups_view(),
            net.layout_view() == old(net).layout_view(),
            net.scene_view() == old(net).scene_view(),
            ok == chain_ok(old(net), *group, list@),
            tg == targets(list@, None),
            l0 == old(net).links_made(),
            grows(&n1, net),
            net.tensors_view().len() == n1.tensors_view().len(),
            ok ==> tensors@.len() == tg.len(),
            ok ==> links_fresh(net) && net.links_made() <= l0 + w,
            tensors@.len() > 0 ==> w <= tensors@.len() - 1,
            plain == plain_list(old(net), list@, None),
            tensors@.len() == resolved@.len(),
            forall|k: int| 0 <= k < tensors@.len() ==> #[trigger] tensors@[k] == resolved@[k].0,
            plain ==> resolved_as(net, resolved@, list@, None),
            plain ==> forall|k: int| 0 <= k < w ==> #[trigger] names_joined(net, tg[k], tg[k + 1]),
            rules_added(old(net).rules_view(), net.rules_view(), attrs_view(attrs@), index_sel()),
            net.rules_view().len() == old(net).rules_view().len() + per(attrs_view(attrs@), w as int),
            tensors@.len() == 0 ==> w == 0,
            !(list@.len() > 0 && matches_none(old(net), list@[0].name, None)),
        decreases tensors@.len() - w,
    {
        let ghost n0 = *net;
        proof {
            if ok {
                crate::model::lemma_links_fresh_free(net);
            }
        }
        let index = match net.connect(tensors[w], &None, tensors[w + 1], &None) {
            Ok(i) => i,
            Err(e) => return Err(e),
        };
        proof {
            lemma_lowered_grow(&n0, net);
            lemma_grows_trans(old(net), &n0, net);
            assert forall|k: int| 0 <= k < tensors@.len() implies (#[trigger] tensors@[k]).0 < net.tensors_view().len() by {
                assert(tensors@[k].0 < n0.tensors_view().len());
            }
            if plain {
                lemma_resolved_as_grows(&n0, net, resolved@, list@, None);
                assert forall|k: int| 0 <= k < w implies #[trigger] names_joined(net, tg[k], tg[k + 1]) by {
                    lemma_names_joined_grows(&n0, net, tg[k], tg[k + 1]);
                }
                let x = tensors@[w as int];
                let y = tensors@[w + 1];
                assert(joined(net, x, y));
                assert(tensor_is(net, resolved@[w as int].0, tg[w as int].0, tg[w as int].1));
                assert(tensor_is(net, resolved@[w + 1].0, tg[w + 1].0, tg[w + 1].1));
                assert(names_joined(net, tg[w as int], tg[w + 1]));
            }
        }
        let ghost n4 = *net;
        rule(net, Selector::Index(index), attrs.as_slice());
        proof {
            lemma_rules_added_rule(
                old(net).rules_view(),
                n4.rules_view(),
                net.rules_view(),
                attrs_view(attrs@),
                index_sel(),
                Selector::Index(index),
            );
            lemma_grows_trans(old(net), &n4, net);
            lemma_grows_trans(&n1, &n4, net);
            lemma_links_fresh_same(&n4, net);
            if plain {
                lemma_resolved_as_grows(&n4, net, resolved@, list@, None);
                assert forall|k: int| 0 <= k < w + 1 implies #[trigger] names_joined(net, tg[k], tg[k + 1]) by {
                    lemma_names_joined_grows(&n4, net, tg[k], tg[k + 1]);
                }
            }
        }
        w = w + 1;
    }
    assert(w as int == links_in_row(tensors@.len() as int));
    let ghost n2 = *net;
    proof {
        if ok && group is Some {
            let g = group->Some_0@;
            assert(group_name_free(&n2, g)) by {
                assert(crate::model::group_pos(n2.groups_view(), g) == crate::model::group_pos(old(net).groups_view(), g));
                assert forall|t: int| 0 <= t < n2.tensors_view().len() implies !crate::model::is_plain(
                    #[trigger] n2.tensors_view()[t].name,
                    g,
                ) by {
                    if t < old(net).tensors_view().len() {
                        assert(n2.tensors_view()[t].name == old(net).tensors_view()[t].name);
                        assert(!crate::model::is_plain(old(net).tensors_view()[t].name, g));
                    } else {
                        assert(resolves_to(resolved@, t));
                        let k = choose|k: int| 0 <= k < resolved@.len() && (#[trigger] resolved@[k]).0.0 == t;
                        assert(tensor_is(&n1, resolved@[k].0, tg[k].0, tg[k].1));
                        assert(n2.tensors_view()[t].name == n1.tensors_view()[t].name);
                    }
                }
            }
        }
    }
    match group {
        Some(g) => match group_of(net, g, copy_ids(&tensors)) {
            Ok(()) => {},
            Err(e) => return Err(e),
        },
        None => {},
    }
    let ghost n3 = *net;
    layout(net, LayoutStmt::Row { tensors });
    proof {
        assert(grows(&n2, &n3));
        lemma_grows_trans(old(net), &n2, &n3);
        assert(grows(&n3, net));
        lemma_grows_trans(old(net), &n3, net);
        lemma_grows_trans(&n2, &n3, net);
        if plain {
            assert(resolved_as(&n1, resolved@, list@, None));
            lemma_new_tensors_resolved(old(net), &n1, resolved@, list@, None);
            lemma_new_tensors_keep(old(net), &n1, net, list@, None);
            assert(tensors@.len() == tg.len());
            assert(w as int == links_in_row(tg.len() as int));
            assert(n2.rules_view().len() == old(net).rules_view().len() + per(attrs_view(attrs@), w as int));
            assert(net.rules_view() == n2.rules_view());
        }
        if plain {
            assert forall|k: int| 0 <= k < tg.len() - 1 implies #[trigger] names_joined(net, tg[k], tg[k + 1]) by {
                if tensors@.len() > 0 {
                    assert(names_joined(&n2, tg[k], tg[k + 1]));
                }
                lemma_names_joined_grows(&n2, net, tg[k], tg[k + 1]);
            }
        }
    }
    Ok(())
}

/// Tensor `t` of `n` is `base[i,j]`.
pub open spec fn is_grid_cell(n: &Network, t: int, base: Seq<char>, i: int, j: int) -> bool {
    n.tensors_view()[t].name.base@ == base && n.tensors_view()[t].name.subscripts@ == seq![i as i64, j as i64]
}

/// Tensor `t` of `n` is a cell of the grid.
pub open spec fn in_grid(n: &Network, t: int, base: Seq<char>, rows: int, cols: int) -> bool {
    exists|i: int, j: int| 1 <= i <= rows && 1 <= j <= cols && #[trigger] is_grid_cell(n, t, base, i, j)
}

/// Every tensor of `b` beyond those of `a` is a cell of the grid.
pub open spec fn new_tensors_in_grid(a: &Network, b: &Network, base: Seq<char>, rows: int, cols: int) -> bool {
    forall|t: int| a.tensors_view().len() <= t < b.tensors_view().len() ==> #[trigger] in_grid(b, t, base, rows, cols)
}

proof fn lemma_grid_cells_keep(a: &Network, b: &Network, c: &Network, base: Seq<char>, rows: int, cols: int)
    requires
        new_tensors_in_grid(a, b, base, rows, cols),
        grows(b, c),
        c.tensors_view().len() == b.tensors_view().len(),
    ensures
        new_tensors_in_grid(a, c, base, rows, cols),
{
    assert forall|t: int| a.tensors_view().len() <= t < c.tensors_view().len() implies #[trigger] in_grid(c, t, base, rows, cols) by {
        assert(in_grid(b, t, base, rows, cols));
        let (i, j) = choose|i: int, j: int| 1 <= i <= rows && 1 <= j <= cols && #[trigger] is_grid_cell(b, t, base, i, j);
        assert(c.tensors_view()[t].name == b.tensors_view()[t].name);
        assert(is_grid_cell(c, t, base, i, j));
    }
}

proof fn lemma_grid_cells_add(a: &Network, b: &Network, c: &Network, base: Seq<char>, rows: int, cols: int, i: int, j: int)
    requires
        new_tensors_in_grid(a, b, base, rows, cols),
        a.tensors_view().len() <= b.tensors_view().len(),
        b.tensors_view().len() <= c.tensors_view().len() <= b.tensors_view().len() + 1,
        c.tensors_view().take(b.tensors_view().len() as int) == b.tensors_view(),
        c.tensors_view().len() > b.tensors_view().len() ==> is_grid_cell(c, b.tensors_view().len() as int, base, i, j),
        1 <= i <= rows,
        1 <= j <= cols,
    ensures
        new_tensors_in_grid(a, c, base, rows, cols),
{
    assert forall|t: int| a.tensors_view().len() <= t < c.tensors_view().len() implies #[trigger] in_grid(c, t, base, rows, cols) by {
        if t < b.tensors_view().len() {
            assert(in_grid(b, t, base, rows, cols));
            let (i2, j2) = choose|i2: int, j2: int| 1 <= i2 <= rows && 1 <= j2 <= cols && #[trigger] is_grid_cell(b, t, base, i2, j2);
            assert(c.tensors_view().take(b.tensors_view().len() as int)[t] == c.tensors_view()[t]);
            assert(is_grid_cell(c, t, base, i2, j2));
        } else {
            assert(is_grid_cell(c, t, base, i, j));
        }
    }
}

/// `n` has the tensor `base[i,j]`.
pub open spec fn grid_has(n: &Network, base: Seq<char>, i: int, j: int) -> bool {
    exists|t: int|
        0 <= t < n.tensors_view().len() && (#[trigger] n.tensors_view()[t]).name.base@ == base
            && n.tensors_view()[t].name.subscripts@ == seq![i as i64, j as i64]
}

proof fn lemma_grid_has_grows(a: &Network, b: &Network, base: Seq<char>)
    requires
        grows(a, b),
    ensures
        forall|i: int, j: int| grid_has(a, base, i, j) ==> #[trigger] grid_has(b, base, i, j),
{
    assert forall|i: int, j: int| grid_has(a, base, i, j) implies #[trigger] grid_has(b, base, i, j) by {
        let t = choose|t: int|
            0 <= t < a.tensors_view().len() && (#[trigger] a.tensors_view()[t]).name.base@ == base
                && a.tensors_view()[t].name.subscripts@ == seq![i as i64, j as i64];
        assert(b.tensors_view()[t].name == a.tensors_view()[t].name);
    }
}

/// Tensors `base[i,j]` and `base[i2,j2]` of `n` share an index.
pub open spec fn grid_bond(n: &Network, base: Seq<char>, i: int, j: int, i2: int, j2: int) -> bool {
    exists|a: TensorId, b: TensorId|
        tensor_is(n, a, base, seq![i as i64, j as i64]) && tensor_is(n, b, base, seq![i2 as i64, j2 as i64])
            && #[trigger] joined(n, a, b)
}

/// `base[i,j]` is joined to its right neighbour.
pub open spec fn grid_right(n: &Network, base: Seq<char>, i: int, j: int) -> bool {
    grid_bond(n, base, i, j, i, j + 1)
}

/// `base[i,j]` is joined to its lower neighbour.
pub open spec fn grid_down(n: &Network, base: Seq<char>, i: int, j: int) -> bool {
    grid_bond(n, base, i, j, i + 1, j)
}

/// Every tensor of a `rows` × `cols` grid is joined to its right and lower
/// neighbours.
pub open spec fn grid_linked(n: &Network, base: Seq<char>, rows: int, cols: int) -> bool {
    &&& forall|i: int, j: int| 1 <= i <= rows && 1 <= j < cols ==> #[trigger] grid_right(n, base, i, j)
    &&& forall|i: int, j: int| 1 <= i < rows && 1 <= j <= cols ==> #[trigger] grid_down(n, base, i, j)
}

proof fn lemma_grid_bonds_grow(a: &Network, b: &Network, base: Seq<char>)
    requires
        grows(a, b),
    ensures
        forall|i: int, j: int| grid_right(a, base, i, j) ==> #[trigger] grid_right(b, base, i, j),
        forall|i: int, j: int| grid_down(a, base, i, j) ==> #[trigger] grid_down(b, base, i, j),
{
    assert forall|i: int, j: int, i2: int, j2: int| grid_bond(a, base, i, j, i2, j2) implies #[trigger] grid_bond(
        b,
        base,
        i,
        j,
        i2,
        j2,
    ) by {
        let (x, y) = choose|x: TensorId, y: TensorId|
            tensor_is(a, x, base, seq![i as i64, j as i64]) && tensor_is(a, y, base, seq![i2 as i64, j2 as i64])
                && #[trigger] joined(a, x, y);
        lemma_joined_grows(a, b, x, y);
        assert(b.tensors_view()[x.0 as int].name == a.tensors_view()[x.0 as int].name);
        assert(b.tensors_view()[y.0 as int].name == a.tensors_view()[y.0 as int].name);
        assert(tensor_is(b, x, base, seq![i as i64, j as i64]));
        assert(tensor_is(b, y, base, seq![i2 as i64, j2 as i64]));
    }
    assert forall|i: int, j: int| grid_right(a, base, i, j) implies #[trigger] grid_right(b, base, i, j) by {
        assert(grid_bond(a, base, i, j, i, j + 1));
    }
    assert forall|i: int, j: int| grid_down(a, base, i, j) implies #[trigger] grid_down(b, base, i, j) by {
        assert(grid_bond(a, base, i, j, i + 1, j));
    }
}

/// A grid of this size can be made: its subscripts fit.
pub open spec fn grid_fits(rows: int, cols: int) -> bool {
    rows < 9223372036854775807 && cols < 9223372036854775807 && rows < usize::MAX && cols < usize::MAX
}

/// A grid of this size is made in `n`: it fits, the next links are free, and
/// enough links are left for two bonds per tensor.
pub open spec fn grid_ok(n: &Network, rows: int, cols: int) -> bool {
    grid_fits(rows, cols) && crate::model::links_fresh(n) && n.links_made() + 2 * (rows * cols)
        <= 9223372036854775807
}

proof fn lemma_grid_count(r: int, c: int, rows: int, cols: int)
    requires
        1 <= r <= rows,
        0 <= c <= cols,
    ensures
        (r - 1) * cols + c <= rows * cols,
        (r - 1) * cols + cols == r * cols,
        0 <= (r - 1) * cols,
{
    assert((r - 1) * cols + c <= rows * cols) by (nonlinear_arith)
        requires
            1 <= r <= rows,
            0 <= c <= cols,
    ;
    assert((r - 1) * cols + cols == r * cols) by (nonlinear_arith);
    assert(0 <= (r - 1) * cols) by (nonlinear_arith)
        requires
            1 <= r,
            0 <= c <= cols,
    ;
}

/// Each tensor of a list shares an index with the next.
pub open spec fn chained(n: &Network, names: Seq<(Seq<char>, Seq<i64>, Option<crate::ast::LegRefV>)>) -> bool {
    forall|k: int| 0 <= k < names.len() - 1 ==> #[trigger] names_joined(n, names[k], names[k + 1])
}

/// A chain is made in `n`: every reference names tensors, the next links are
/// free and enough are left, and a group name, if any, is free and names
/// none of the chained tensors.
pub open spec fn chain_ok(n: &Network, group: Option<String>, list: Seq<EndRef>) -> bool {
    let tg = targets(list, None);
    &&& plain_list(n, list, None)
    &&& links_fresh(n)
    &&& n.links_made() + tg.len() <= 9223372036854775807
    &&& (group matches Some(g) ==> group_name_free(n, g@) && forall|k: int|
        0 <= k < tg.len() ==> !((#[trigger] tg[k]).0 == g@ && tg[k].1.len() == 0))
}

/// When a `group` statement succeeds: every member names one tensor, the
/// group name is free, and no member is a tensor of that plain name.
pub open spec fn group_ok(n: &Network, name: Seq<char>, list: Seq<EndRef>) -> bool {
    let tg = targets(list, None);
    &&& plain_list(n, list, None)
    &&& group_name_free(n, name)
    &&& forall|k: int| 0 <= k < tg.len() ==> !((#[trigger] tg[k]).0 == name && tg[k].1.len() == 0)
}

/// The members are, in order, the tensors the targets name.
pub open spec fn members_are(n: &Network, members: Seq<TensorId>, tg: Seq<(Seq<char>, Seq<i64>, Option<crate::ast::LegRefV>)>) -> bool {
    &&& members.len() == tg.len()
    &&& forall|k: int| 0 <= k < members.len() ==> tensor_is(n, #[trigger] members[k], tg[k].0, tg[k].1)
}

/// `grid T 3x3 [attrs]`: tensors `T[r,c]` joined to their right and lower
/// neighbours.
fn grid_stmt(net: &mut Network, base: &String, rows: usize, cols: usize, attrs: &Vec<Attr>) -> (r: Result<
    (),
    Error,
>)
    requires
        lowered(old(net)),
        attrs_wf(attrs_view(attrs@)),
    ensures
        lowered(final(net)),
        grows(old(net), final(net)),
        final(net).groups_view() == old(net).groups_view(),
        final(net).scene_view() == old(net).scene_view(),
        r is Ok ==> final(net).layout_view().len() == old(net).layout_view().len() + 1
            && final(net).layout_view().drop_last() == old(net).layout_view()
            && (final(net).layout_view().last() matches LayoutStmt::Grid { base: b, rows: nr, cols: nc }
            && b@ == base@ && nr == rows && nc == cols),
        r is Ok ==> forall|i: int, j: int|
            1 <= i <= rows && 1 <= j <= cols ==> #[trigger] grid_has(final(net), base@, i, j),
        !grid_fits(rows as int, cols as int) ==> (r matches Err(e) && e.pos is None && e.message@
            == "the grid is too large"@),
        grid_ok(old(net), rows as int, cols as int) ==> r is Ok,
        r is Ok ==> grid_linked(final(net), base@, rows as int, cols as int),
        rules_added(old(net).rules_view(), final(net).rules_view(), attrs_view(attrs@), tensor_sel()),
        r is Ok ==> new_tensors_in_grid(old(net), final(net), base@, rows as int, cols as int),
        r is Ok ==> final(net).rules_view().len() == old(net).rules_view().len() + per(
            attrs_view(attrs@),
            rows * cols,
        ),
{
    let ghost ok = grid_ok(old(net), rows as int, cols as int);
    let ghost l0 = old(net).links_made();
    proof {
        lemma_rules_added_refl(net.rules_view(), attrs_view(attrs@), tensor_sel());
        assert(new_tensors_in_grid(old(net), net, base@, rows as int, cols as int));
    }
    if rows as u64 >= 9223372036854775807u64 || cols as u64 >= 9223372036854775807u64 || rows == usize::MAX
        || cols == usize::MAX {
        return Err(error_new(chars_of("the grid is too large").as_slice()));
    }
    let mut r: usize = 1;
    while r <= rows
        invariant
            1 <= r <= rows + 1,
            rows < 9223372036854775807,
            cols < 9223372036854775807,
            rows < usize::MAX,
            cols < usize::MAX,
            lowered(net),
            attrs_wf(attrs_view(attrs@)),
            grows(old(net), net),
            net.groups_view() == old(net).groups_view(),
            net.layout_view() == old(net).layout_view(),
            net.scene_view() == old(net).scene_view(),
            forall|i: int, j: int| 1 <= i < r && 1 <= j <= cols ==> #[trigger] grid_has(net, base@, i, j),
            ok == grid_ok(old(net), rows as int, cols as int),
            l0 == old(net).links_made(),
            ok ==> links_fresh(net) && l0 <= net.links_made() <= l0 + 2 * ((r - 1) * cols),
            forall|i: int, j: int| 1 <= i < r && 1 <= j < cols ==> #[trigger] grid_right(net, base@, i, j),
            forall|i: int, j: int| 1 <= i < r && i < rows && 1 <= j <= cols ==> #[trigger] grid_down(net, base@, i, j),
            rules_added(old(net).rules_view(), net.rules_view(), attrs_view(attrs@), tensor_sel()),
            net.rules_view().len() == old(net).rules_view().len() + per(attrs_view(attrs@), (r - 1) * cols),
            new_tensors_in_grid(old(net), net, base@, rows as int, cols as int),
        decreases rows + 1 - r,
    {
        let mut c: usize = 1;
        while c <= cols
            invariant
                1 <= r <= rows,
                1 <= c <= cols + 1,
                rows < 9223372036854775807,
                cols < 9223372036854775807,
                rows < usize::MAX,
                cols < usize::MAX,
                lowered(net),
                attrs_wf(attrs_view(attrs@)),
                grows(old(net), net),
                net.groups_view() == old(net).groups_view(),
                net.layout_view() == old(net).layout_view(),
                net.scene_view() == old(net).scene_view(),
                forall|i: int, j: int|
                    (1 <= i < r && 1 <= j <= cols) || (i == r && 1 <= j < c) ==> #[trigger] grid_has(net, base@, i, j),
                ok == grid_ok(old(net), rows as int, cols as int),
                l0 == old(net).links_made(),
                ok ==> links_fresh(net) && l0 <= net.links_made() <= l0 + 2 * ((r - 1) * cols + (c - 1)),
                forall|i: int, j: int|
                    ((1 <= i < r && 1 <= j <= cols) || (i == r && 1 <= j < c)) && j < cols ==> #[trigger] grid_right(
                        net,
                        base@,
                        i,
                        j,
                    ),
                forall|i: int, j: int|
                    ((1 <= i < r && 1 <= j <= cols) || (i == r && 1 <= j < c)) && i < rows ==> #[trigger] grid_down(
                        net,
                        base@,
                        i,
                        j,
                    ),
                rules_added(old(net).rules_view(), net.rules_view(), attrs_view(attrs@), tensor_sel()),
                net.rules_view().len() == old(net).rules_view().len() + per(attrs_view(attrs@), (r - 1) * cols + (c - 1)),
                new_tensors_in_grid(old(net), net, base@, rows as int, cols as int),
            decreases cols + 1 - c,
        {
            let ghost n_start = *net;
            let t = tensor_of(net, &grid_name(base, r, c));
            proof {
                lemma_grid_cells_add(old(net), &n_start, net, base@, rows as int, cols as int, r as int, c as int);
                lemma_grid_bonds_grow(&n_start, net, base@);
                lemma_grid_count(r as int, c as int, rows as int, cols as int);
                lemma_links_fresh_same(&n_start, net);
                lemma_grows_trans(old(net), &n_start, net);
                lemma_grid_has_grows(&n_start, net, base@);
                assert(grid_has(net, base@, r as int, c as int)) by {
                    assert(net.tensors_view()[t.0 as int].name.subscripts@ == seq![r as i64, c as i64]);
                }
            }
            let ghost lc = net.links_made();
            assert(ok ==> lc + 2 <= l0 + 2 * (rows * cols));
            if c < cols {
                let ghost m0 = *net;
                let right = tensor_of(net, &grid_name(base, r, c + 1));
                let ghost n0 = *net;
                proof {
                    lemma_grid_cells_add(old(net), &m0, net, base@, rows as int, cols as int, r as int, c + 1);
                    lemma_links_fresh_same(&m0, &n0);
                    if ok {
                        crate::model::lemma_links_fresh_free(&n0);
                    }
                }
                match net.connect(t, &None, right, &None) {
                    Ok(_) => {},
                    Err(e) => {
                        proof {
                            lemma_grows_trans(old(net), &m0, &n0);
                            lemma_grows_trans(old(net), &n0, net);
                        }
                        return Err(e);
                    },
                }
                proof {
                    lemma_lowered_grow(&n0, net);
                    lemma_grid_cells_keep(old(net), &n0, net, base@, rows as int, cols as int);
                    lemma_grows_trans(&m0, &n0, net);
                    lemma_grows_trans(old(net), &m0, net);
                    lemma_grid_has_grows(&m0, net, base@);
                    lemma_grid_bonds_grow(&m0, net, base@);
                    assert(joined(net, t, right));
                    assert(net.tensors_view()[t.0 as int].name == m0.tensors_view()[t.0 as int].name);
                    assert(net.tensors_view()[right.0 as int].name == n0.tensors_view()[right.0 as int].name);
                    assert(tensor_is(net, t, base@, seq![r as i64, c as i64]));
                    assert(tensor_is(net, right, base@, seq![r as i64, (c + 1) as i64]));
                    assert(grid_bond(net, base@, r as int, c as int, r as int, c + 1));
                    assert(grid_right(net, base@, r as int, c as int));
                }
            }
            if r < rows {
                let ghost m0 = *net;
                let below = tensor_of(net, &grid_name(base, r + 1, c));
                let ghost n0 = *net;
                proof {
                    lemma_grid_cells_add(old(net), &m0, net, base@, rows as int, cols as int, r + 1, c as int);
                    lemma_links_fresh_same(&m0, &n0);
                    if ok {
                        crate::model::lemma_links_fresh_free(&n0);
                    }
                }
                match net.connect(t, &None, below, &None) {
                    Ok(_) => {},
                    Err(e) => {
                        proof {
                            lemma_grows_trans(old(net), &m0, &n0);
                            lemma_grows_trans(old(net), &n0, net);
                        }
                        return Err(e);
                    },
                }
                proof {
                    lemma_lowered_grow(&n0, net);
                    lemma_grid_cells_keep(old(net), &n0, net, base@, rows as int, cols as int);
                    lemma_grows_trans(&m0, &n0, net);
                    lemma_grows_trans(old(net), &m0, net);
                    lemma_grid_has_grows(&m0, net, base@);
                    lemma_grid_bonds_grow(&m0, net, base@);
                    assert(joined(net, t, below));
                    assert(net.tensors_view()[t.0 as int].name == m0.tensors_view()[t.0 as int].name);
                    assert(net.tensors_view()[below.0 as int].name == n0.tensors_view()[below.0 as int].name);
                    assert(tensor_is(net, t, base@, seq![r as i64, c as i64]));
                    assert(tensor_is(net, below, base@, seq![(r + 1) as i64, c as i64]));
                    assert(grid_bond(net, base@, r as int, c as int, r + 1, c as int));
                    assert(grid_down(net, base@, r as int, c as int));
                }
            }
            let ghost m1 = *net;
            rule(net, Selector::Tensor(t), attrs.as_slice());
            proof {
                lemma_rules_added_rule(
                    old(net).rules_view(),
                    m1.rules_view(),
                    net.rules_view(),
                    attrs_view(attrs@),
                    tensor_sel(),
                    Selector::Tensor(t),
                );
                lemma_grows_trans(old(net), &m1, net);
                lemma_grid_cells_keep(old(net), &m1, net, base@, rows as int, cols as int);
                lemma_grid_has_grows(&m1, net, base@);
                lemma_grid_bonds_grow(&m1, net, base@);
                lemma_links_fresh_same(&m1, net);
            }
            c = c + 1;
        }
        proof {
            lemma_grid_count(r as int, cols as int, rows as int, cols as int);
        }
        r = r + 1;
    }
    let ghost m2 = *net;
    layout(net, LayoutStmt::Grid { base: string_copy(base), rows, cols });
    proof {
        lemma_grid_cells_keep(old(net), &m2, net, base@, rows as int, cols as int);
        lemma_grows_trans(old(net), &m2, net);
        lemma_grid_has_grows(&m2, net, base@);
        lemma_grid_bonds_grow(&m2, net, base@);
    }
    Ok(())
}

/// The name `T[r,c]`.
fn grid_name(base: &String, r: usize, c: usize) -> (n: Name)
    requires
        r < 9223372036854775807,
        c < 9223372036854775807,
    ensures
        n.base@ == base@,
        n.subscripts@ == seq![r as i64, c as i64],
{
    let mut subs: Vec<i64> = Vec::new();
    subs.push(r as i64);
    subs.push(c as i64);
    assert(subs@ =~= seq![r as i64, c as i64]);
    Name::new(string_copy(base), subs)
}

/// Open legs are added in `n`: every target names tensors, every leg is
/// unlabelled, the next legs are free and enough are left.
pub open spec fn legs_ok(n: &Network, list: Seq<EndRef>, legs: Seq<crate::ast::LegSpec>) -> bool {
    &&& plain_list(n, list, None)
    &&& forall|q: int| 0 <= q < legs.len() ==> (#[trigger] legs[q]).label is None
    &&& sites_fresh(n)
    &&& n.sites_made() + targets(list, None).len() * legs.len() <= 9223372036854775807
}

proof fn lemma_leg_count(k: int, m: int, n: int, l: int)
    requires
        0 <= k,
        0 <= m,
        0 <= l,
    ensures
        k * l + l == (k + 1) * l,
        k < n && m < l ==> k * l + m < n * l,
        k * l >= 0,
        0 * l == 0,
{
    assert(k * l + l == (k + 1) * l) by (nonlinear_arith);
    assert(k < n && m < l ==> k * l + m < n * l) by (nonlinear_arith)
        requires
            0 <= k,
            0 <= m,
    ;
    assert(k * l >= 0) by (nonlinear_arith)
        requires
            0 <= k,
            0 <= l,
    ;
}

/// `A[*]: leg p down, q`: new open legs, with their directions as styles.
/// How many of the legs have a direction.
pub open spec fn with_dir(legs: Seq<crate::ast::LegSpec>) -> int
    decreases legs.len(),
{
    if legs.len() == 0 {
        0
    } else {
        with_dir(legs.drop_last()) + if legs.last().dir is Some {
            1int
        } else {
            0int
        }
    }
}

proof fn lemma_with_dir_bounds(legs: Seq<crate::ast::LegSpec>)
    ensures
        0 <= with_dir(legs) <= legs.len(),
    decreases legs.len(),
{
    if legs.len() > 0 {
        lemma_with_dir_bounds(legs.drop_last());
    }
}

/// `after` is `before` with rules appended, each for one slot and holding
/// only `leg-dir`, set to the direction of one of the legs.
pub open spec fn leg_rules(before: Seq<Rule>, after: Seq<Rule>, legs: Seq<crate::ast::LegSpec>) -> bool {
    &&& before.len() <= after.len()
    &&& after.take(before.len() as int) == before
    &&& forall|j: int|
        before.len() <= j < after.len() ==> (#[trigger] after[j]).selector is Slot && exists|q: int|
            0 <= q < legs.len() && leg_dir_rule(after[j], #[trigger] legs[q])
}

/// The rule holds only `leg-dir`, set to the leg's direction.
pub open spec fn leg_dir_rule(x: Rule, leg: crate::ast::LegSpec) -> bool {
    leg.dir matches Some(d) && attrs_view(x.attrs@) == seq![("leg-dir"@, crate::model::direction_value(d))]
}

proof fn lemma_leg_rules_push(r0: Seq<Rule>, r1: Seq<Rule>, legs: Seq<crate::ast::LegSpec>, x: Rule, q: int)
    requires
        leg_rules(r0, r1, legs),
        x.selector is Slot,
        0 <= q < legs.len(),
        leg_dir_rule(x, legs[q]),
    ensures
        leg_rules(r0, r1.push(x), legs),
{
    let r2 = r1.push(x);
    assert(r2.take(r0.len() as int) =~= r1.take(r0.len() as int));
    assert forall|j: int| r0.len() <= j < r2.len() implies (#[trigger] r2[j]).selector is Slot && exists|q2: int|
        0 <= q2 < legs.len() && leg_dir_rule(r2[j], #[trigger] legs[q2]) by {
        if j < r1.len() {
            assert(r2[j] == r1[j]);
        } else {
            assert(r2[j] == x);
            assert(legs[q] == legs[q]);
        }
    }
}

fn legs_stmt(net: &mut Network, targets: &Vec<EndRef>, legs: &Vec<crate::ast::LegSpec>) -> (r: Result<
    (),
    Error,
>)
    requires
        lowered(old(net)),
        forall|i: int| 0 <= i < legs@.len() ==> ((#[trigger] legs@[i]).dir matches Some(d) ==> direction_wf(d)),
    ensures
        lowered(final(net)),
        grows(old(net), final(net)),
        final(net).groups_view() == old(net).groups_view(),
        final(net).layout_view() == old(net).layout_view(),
        final(net).scene_view() == old(net).scene_view(),
        r is Ok && plain_list(old(net), targets@, None) ==> final(net).sites_made() == old(net).sites_made()
            + self::targets(targets@, None).len() * legs@.len(),
        legs_ok(old(net), targets@, legs@) ==> r is Ok,
        targets@.len() > 0 && matches_none(old(net), targets@[0].name, None) ==> (r matches Err(e) && no_match_err(
            targets@[0].name,
            None,
            e,
        )),
        leg_rules(old(net).rules_view(), final(net).rules_view(), legs@),
        r is Ok && plain_list(old(net), targets@, None) ==> new_tensors_named(old(net), final(net), targets@, None),
        r is Ok && plain_list(old(net), targets@, None) ==> final(net).rules_view().len() == old(net).rules_view().len()
            + self::targets(targets@, None).len() * with_dir(legs@),
{
    let ghost plain = plain_list(old(net), targets@, None);
    let ghost ok = legs_ok(old(net), targets@, legs@);
    let ghost s0 = old(net).sites_made();
    let ghost nl = legs@.len() as int;
    let ghost nt = self::targets(targets@, None).len() as int;
    let ghost nd = with_dir(legs@);
    let ghost r0 = old(net).rules_view();
    proof {
        assert(r0.take(r0.len() as int) =~= r0);
        lemma_with_dir_bounds(legs@);
    }
    let resolved = match resolve_list(net, targets, &None) {
        Ok(v) => v,
        Err(e) => return Err(e),
    };
    let ghost n1 = *net;
    proof {
        lemma_sites_fresh_same(old(net), net);
        if plain {
            lemma_new_tensors_resolved(old(net), net, resolved@, targets@, None);
        }
        lemma_grows_refl(net);
    }
    let tensors = ids_of(&resolved, Ghost(net.tensors_view().len()));
    let mut k: usize = 0;
    while k < tensors.len()
        invariant
            k <= tensors@.len(),
            lowered(net),
            forall|i: int| 0 <= i < legs@.len() ==> ((#[trigger] legs@[i]).dir matches Some(d) ==> direction_wf(d)),
            forall|j: int| 0 <= j < tensors@.len() ==> (#[trigger] tensors@[j]).0 < net.tensors_view().len(),
            grows(old(net), net),
            net.groups_view() == old(net).groups_view(),
            net.layout_view() == old(net).layout_view(),
            net.scene_view() == old(net).scene_view(),
            plain == plain_list(old(net), targets@, None),
            ok == legs_ok(old(net), targets@, legs@),
            s0 == old(net).sites_made(),
            nl == legs@.len(),
            nt == self::targets(targets@, None).len(),
            plain ==> tensors@.len() == nt,
            plain ==> net.sites_made() == s0 + k * nl,
            grows(&n1, net),
            net.tensors_view().len() == n1.tensors_view().len(),
            plain ==> new_tensors_named(old(net), &n1, targets@, None),
            !(targets@.len() > 0 && matches_none(old(net), targets@[0].name, None)),
            r0 == old(net).rules_view(),
            nd == with_dir(legs@),
            nd >= 0,
            leg_rules(r0, net.rules_view(), legs@),
            plain ==> net.rules_view().len() == r0.len() + k * nd,
            ok ==> plain && sites_fresh(net) && s0 + nt * nl <= 9223372036854775807 && forall|q: int|
                0 <= q < legs@.len() ==> (#[trigger] legs@[q]).label is None,
        decreases tensors@.len() - k,
    {
        let t = tensors[k];
        let mut m: usize = 0;
        while m < legs.len()
            invariant
                m <= legs@.len(),
                lowered(net),
                t.0 < net.tensors_view().len(),
                forall|i: int| 0 <= i < legs@.len() ==> ((#[trigger] legs@[i]).dir matches Some(d) ==> direction_wf(d)),
                forall|j: int| 0 <= j < tensors@.len() ==> (#[trigger] tensors@[j]).0 < net.tensors_view().len(),
                grows(old(net), net),
                net.groups_view() == old(net).groups_view(),
                net.layout_view() == old(net).layout_view(),
                net.scene_view() == old(net).scene_view(),
                plain == plain_list(old(net), targets@, None),
                ok == legs_ok(old(net), targets@, legs@),
                s0 == old(net).sites_made(),
                nl == legs@.len(),
                nt == self::targets(targets@, None).len(),
                k < tensors@.len(),
                plain ==> tensors@.len() == nt,
                plain ==> net.sites_made() == s0 + k * nl + m,
                grows(&n1, net),
                net.tensors_view().len() == n1.tensors_view().len(),
                plain ==> new_tensors_named(old(net), &n1, targets@, None),
            !(targets@.len() > 0 && matches_none(old(net), targets@[0].name, None)),
                r0 == old(net).rules_view(),
                nd == with_dir(legs@),
                nd >= 0,
                leg_rules(r0, net.rules_view(), legs@),
                plain ==> net.rules_view().len() == r0.len() + k * nd + with_dir(legs@.take(m as int)),
                ok ==> plain && sites_fresh(net) && s0 + nt * nl <= 9223372036854775807 && forall|q: int|
                    0 <= q < legs@.len() ==> (#[trigger] legs@[q]).label is None,
            decreases legs@.len() - m,
        {
            let spec = &legs[m];
            proof {
                assert(legs@.take(m + 1).drop_last() =~= legs@.take(m as int));
                assert(legs@.take(m + 1).last() == legs@[m as int]);
            }
            let label = match &spec.label {
                Some(l) => Some(string_copy(l)),
                None => None,
            };
            let ghost n0 = *net;
            proof {
                if plain {
                    lemma_leg_count(k as int, m as int, nt, nl);
                }
                if ok {
                    crate::model::lemma_sites_fresh_free(net);
                }
            }
            let slot = match net.add_open_leg(t, label) {
                Ok(s) => s,
                Err(e) => {
                    proof {
                        lemma_grows_trans(old(net), &n0, net);
                    }
                    return Err(e);
                },
            };
            proof {
                lemma_lowered_grow(&n0, net);
                lemma_grows_trans(old(net), &n0, net);
                lemma_grows_trans(&n1, &n0, net);
                assert forall|j: int| 0 <= j < tensors@.len() implies (#[trigger] tensors@[j]).0 < net.tensors_view().len() by {
                    assert(tensors@[j].0 < n0.tensors_view().len());
                }
            }
            match &spec.dir {
                Some(dir) => {
                    let v = dir.to_value();
                    let mut a: Vec<Attr> = Vec::new();
                    let attr = Attr::new(string_of(chars_of("leg-dir").as_slice()), v);
                    a.push(attr);
                    proof {
                        assert(direction_wf(*dir));
                        if let Direction::Vector(p) = dir {
                            assert(crate::value::points_wf(seq![p@]));
                        }
                        assert(crate::value::value_wf(attr@.1));
                        assert(attrs_view(a@) =~= seq![attr@]);
                    }
                    let ghost n1_rule = *net;
                    rule(net, Selector::Slot(t, slot), a.as_slice());
                    proof {
                        lemma_grows_trans(&n1, &n1_rule, net);
                        assert(net.rules_view() =~= n1_rule.rules_view().push(net.rules_view().last()));
                        assert(attr@ == ("leg-dir"@, crate::model::direction_value(*dir))) by {
                            reveal_strlit("leg-dir");
                        }
                        assert(attrs_view(net.rules_view().last().attrs@) == seq![
                            ("leg-dir"@, crate::model::direction_value(*dir)),
                        ]);
                        lemma_leg_rules_push(r0, n1_rule.rules_view(), legs@, net.rules_view().last(), m as int);
                        lemma_grows_trans(old(net), &n1_rule, net);
                        lemma_sites_fresh_same(&n1_rule, net);
                    }
                },
                None => {},
            }
            m = m + 1;
        }
        proof {
            if plain {
                lemma_leg_count(k as int, 0, nt, nl);
                lemma_leg_count(k as int, 0, nt, nd);
                assert(legs@.take(legs@.len() as int) =~= legs@);
            }
        }
        k = k + 1;
    }
    proof {
        if plain {
            lemma_leg_count(0, 0, nt, nl);
            lemma_leg_count(0, 0, nt, nd);
            lemma_new_tensors_keep(old(net), &n1, net, targets@, None);
        }
    }
    Ok(())
}

/// The selector of a style statement.
/// A name pattern is the pattern a written name stands for.
pub open spec fn pattern_of(p: NamePattern, n: NameAst) -> bool {
    p.base@ == n.base@ && p.prime == n.prime && subs_of(n.subs@, None) == Some(p.subscripts@)
}

/// The selector a written selector stands for.
pub open spec fn selects(s: Selector, sel: SelectorAst) -> bool {
    match sel {
        SelectorAst::Tensors => s is Tensors,
        SelectorAst::Bonds => s is Bonds,
        SelectorAst::Legs => s is Legs,
        SelectorAst::OpenLegs => s is OpenLegs,
        SelectorAst::Tag(t) => s matches Selector::Tag(x) && x@ == t@,
        SelectorAst::Name(n) => s matches Selector::Name(p) && pattern_of(p, n),
        SelectorAst::LegOf(n, leg) => s matches Selector::LegOf(p, k) && pattern_of(p, n) && match leg {
            LegRef::Label(l) => k matches LegKey::Label(x) && x@ == l@,
            LegRef::Position(q) => k == LegKey::Position(q),
        },
    }
}

/// Whether the subscripts of a written selector's name can be read.
pub open spec fn selector_resolves(sel: SelectorAst) -> bool {
    match sel {
        SelectorAst::Name(n) => subs_of(n.subs@, None) is Some,
        SelectorAst::LegOf(n, _) => subs_of(n.subs@, None) is Some,
        _ => true,
    }
}

fn selector_of(sel: &SelectorAst) -> (r: Result<Selector, Error>)
    ensures
        r matches Ok(s) ==> !(s is Tensor) && !(s is Index) && !(s is Slot),
        r matches Err(e) ==> e.pos is Some,
        r is Ok <==> selector_resolves(*sel),
        r matches Ok(s) ==> selects(s, *sel),
{
    match sel {
        SelectorAst::Tensors => Ok(Selector::Tensors),
        SelectorAst::Bonds => Ok(Selector::Bonds),
        SelectorAst::Legs => Ok(Selector::Legs),
        SelectorAst::OpenLegs => Ok(Selector::OpenLegs),
        SelectorAst::Tag(t) => Ok(Selector::Tag(string_copy(t))),
        SelectorAst::Name(n) => match pattern(n, &None) {
            Ok(p) => Ok(Selector::Name(p)),
            Err(e) => Err(e),
        },
        SelectorAst::LegOf(n, leg) => match pattern(n, &None) {
            Ok(p) => Ok(
                Selector::LegOf(
                    p,
                    match leg {
                        LegRef::Label(l) => LegKey::Label(string_copy(l)),
                        LegRef::Position(k) => LegKey::Position(*k),
                    },
                ),
            ),
            Err(e) => Err(e),
        },
    }
}

/// Whether every name is a group of the network.
pub open spec fn all_groups(n: &Network, names: Seq<String>) -> bool {
    forall|k: int| 0 <= k < names.len() ==> crate::model::group_pos(n.groups_view(), #[trigger] names[k]@) >= 0
}

proof fn lemma_direction_copy_wf(a: Direction, b: Direction)
    requires
        crate::model::direction_value(a) == crate::model::direction_value(b),
        direction_wf(b),
    ensures
        direction_wf(a),
{
    match a {
        Direction::Angle(x) => {
            match b {
                Direction::Angle(y) => {},
                Direction::Vector(v) => {},
                _ => {},
            }
        },
        Direction::Vector(v) => {
            match b {
                Direction::Vector(w) => {
                    assert(seq![v@][0] == seq![w@][0]);
                },
                _ => {},
            }
        },
        _ => {},
    }
}

/// Whether tensor `t` of a network is the one a name stands for.
pub open spec fn names_tensor(n: &Network, t: TensorId, name: NameAst) -> bool {
    &&& t.0 < n.tensors_view().len()
    &&& n.tensors_view()[t.0 as int].name.base@ == name.base@
    &&& single_name_of(name, None) == Some(n.tensors_view()[t.0 as int].name.subscripts@)
}

/// `after` has the layout of `before` and a statement pinning the tensor a
/// name stands for at a position.
pub open spec fn placed_at(before: &Network, after: &Network, target: NameAst, pos: Seq<Number>) -> bool {
    &&& after.layout_view().len() == before.layout_view().len() + 1
    &&& after.layout_view().drop_last() == before.layout_view()
    &&& match after.layout_view().last() {
        LayoutStmt::At { tensor, pos: q } => q@ == pos && names_tensor(after, tensor, target),
        _ => false,
    }
}

/// `after` has the layout of `before` and a statement placing the tensor a
/// name stands for relative to the tensor another name stands for.
pub open spec fn placed_relative(
    before: &Network,
    after: &Network,
    target: NameAst,
    relation: Relation,
    anchor: NameAst,
    distance: Option<Number>,
) -> bool {
    &&& after.layout_view().len() == before.layout_view().len() + 1
    &&& after.layout_view().drop_last() == before.layout_view()
    &&& match after.layout_view().last() {
        LayoutStmt::Relative { tensor, relation: rel, anchor: a, distance: d } => rel == relation && d
            == distance && names_tensor(after, tensor, target) && names_tensor(after, a, anchor),
        _ => false,
    }
}

/// `after` has the layout of `before` and a statement laying out a tree
/// from the tensor a name stands for.
pub open spec fn placed_tree(before: &Network, after: &Network, root: NameAst) -> bool {
    &&& after.layout_view().len() == before.layout_view().len() + 1
    &&& after.layout_view().drop_last() == before.layout_view()
    &&& match after.layout_view().last() {
        LayoutStmt::Tree { root: t, .. } => names_tensor(after, t, root),
        _ => false,
    }
}

/// A camera statement's effect on the camera: angles replace the old ones
/// when given, and attributes follow the old ones.
pub open spec fn camera_added(
    before: Option<crate::model::Camera>,
    after: Option<crate::model::Camera>,
    angles: Option<(Number, Number)>,
    attrs: Seq<Attr>,
) -> bool {
    let had = match before {
        Some(c) => (c.angles, attrs_view(c.attrs@)),
        None => (None, Seq::empty()),
    };
    after matches Some(c) && c.angles == (if angles is Some {
        angles
    } else {
        had.0
    }) && attrs_view(c.attrs@) == had.1 + attrs_view(attrs)
}

/// How many times a statement with this `for` clause runs.
pub open spec fn rounds(clause: Option<ForClause>) -> int {
    match clause {
        None => 1,
        Some(c) => if c.from <= c.to {
            c.to - c.from + 1
        } else {
            0
        },
    }
}

/// The environment of round `k` of a statement with this `for` clause.
pub open spec fn env_of(clause: Option<ForClause>, k: int, env: Option<(String, i64)>) -> bool {
    match clause {
        None => env is None,
        Some(c) => binds(env, c.var@, c.from + k),
    }
}

/// `after` is `before` after a `tensor` statement, round by round.
pub open spec fn tensor_rounds(
    before: &Network,
    after: &Network,
    name: NameAst,
    written: Seq<crate::ast::SlotAst>,
    attrs: Seq<Attr>,
    clause: Option<ForClause>,
) -> bool {
    exists|nets: Seq<Network>, envs: Seq<Option<(String, i64)>>|
        #![trigger nets.len(), envs.len()]
        {
            &&& nets.len() == rounds(clause) + 1
            &&& envs.len() == rounds(clause)
            &&& nets[0] == *before
            &&& nets.last() == *after
            &&& forall|k: int|
                0 <= k < rounds(clause) ==> env_of(clause, k, #[trigger] envs[k]) && tensor_made(
                    &nets[k],
                    &nets[k + 1],
                    name,
                    written,
                    attrs,
                    envs[k],
                )
        }
}

/// Every round of a `tensor` statement with this `for` clause declares a
/// new tensor on new indices of `n`, as [`new_tensor_ok`] asks, and no two
/// rounds name the same tensor or the same index.
pub open spec fn tensor_rounds_ok(
    n: &Network,
    name: NameAst,
    slots: Seq<crate::ast::SlotAst>,
    clause: Option<ForClause>,
) -> bool {
    &&& forall|k: int, e: Option<(String, i64)>|
        0 <= k < rounds(clause) && #[trigger] env_of(clause, k, e) ==> new_tensor_ok(n, name, slots, e)
    &&& forall|k1: int, k2: int, e1: Option<(String, i64)>, e2: Option<(String, i64)>|
        0 <= k1 < k2 < rounds(clause) && #[trigger] env_of(clause, k1, e1) && #[trigger] env_of(clause, k2, e2)
            ==> rounds_apart(name, slots, e1, e2)
}

/// Two rounds name different tensors and different indices.
pub open spec fn rounds_apart(
    name: NameAst,
    slots: Seq<crate::ast::SlotAst>,
    e1: Option<(String, i64)>,
    e2: Option<(String, i64)>,
) -> bool {
    &&& single_name_of(name, e1) != single_name_of(name, e2)
    &&& forall|m1: int, m2: int|
        0 <= m1 < slots.len() && 0 <= m2 < slots.len() ==> slot_key(#[trigger] slots[m1], e1) != slot_key(
            #[trigger] slots[m2],
            e2,
        )
}

/// Tensor `t` of `n` is the one an earlier round, before `k`, declared.
pub open spec fn made_before(n: &Network, t: int, name: NameAst, envs: Seq<Option<(String, i64)>>, k: int) -> bool {
    exists|j: int|
        0 <= j < k && n.tensors_view()[t].name.base@ == name.base@ && single_name_of(name, #[trigger] envs[j]) == Some(
            n.tensors_view()[t].name.subscripts@,
        )
}

/// Index `i` of `n` is one an earlier round, before `k`, named.
pub open spec fn keyed_before(n: &Network, i: int, slots: Seq<crate::ast::SlotAst>, envs: Seq<Option<(String, i64)>>, k: int) -> bool {
    exists|j: int| 0 <= j < k && index_keyed(n.indices_view()[i], slots, #[trigger] envs[j])
}

proof fn lemma_tensor_round_ok(
    a: &Network,
    n: &Network,
    name: NameAst,
    slots: Seq<crate::ast::SlotAst>,
    clause: Option<ForClause>,
    envs: Seq<Option<(String, i64)>>,
    k: int,
)
    requires
        tensor_rounds_ok(a, name, slots, clause),
        grows(a, n),
        0 <= k < rounds(clause),
        envs.len() == rounds(clause),
        forall|j: int| 0 <= j < envs.len() ==> env_of(clause, j, #[trigger] envs[j]),
        forall|t: int| a.tensors_view().len() <= t < n.tensors_view().len() ==> #[trigger] made_before(n, t, name, envs, k),
        forall|i: int| a.indices_view().len() <= i < n.indices_view().len() ==> #[trigger] keyed_before(n, i, slots, envs, k),
    ensures
        new_tensor_ok(n, name, slots, envs[k]),
{
    let e = envs[k];
    assert(env_of(clause, k, e));
    assert(new_tensor_ok(a, name, slots, e));
    let subs = single_name_of(name, e)->Some_0;
    assert forall|u: int| 0 <= u < n.tensors_view().len() implies !((#[trigger] n.tensors_view()[u]).name.base@ == name.base@
        && n.tensors_view()[u].name.subscripts@ == subs) by {
        if u < a.tensors_view().len() {
            assert(n.tensors_view()[u].name == a.tensors_view()[u].name);
            assert(a.tensors_view()[u] == a.tensors_view()[u]);
        } else {
            assert(made_before(n, u, name, envs, k));
            let j = choose|j: int|
                0 <= j < k && n.tensors_view()[u].name.base@ == name.base@ && single_name_of(name, #[trigger] envs[j])
                    == Some(n.tensors_view()[u].name.subscripts@);
            assert(env_of(clause, j, envs[j]));
            assert(rounds_apart(name, slots, envs[j], e));
        }
    }
    assert forall|m: int| 0 <= m < slots.len() implies no_index(n.indices_view(), slot_key(#[trigger] slots[m], e)) by {
        let key = slot_key(slots[m], e);
        assert(no_index(a.indices_view(), key));
        assert forall|i: int| 0 <= i < n.indices_view().len() implies !((#[trigger] n.indices_view()[i]).name.base@
            == key.0 && n.indices_view()[i].name.subscripts@ == key.1 && n.indices_view()[i].prime == key.2) by {
            if i < a.indices_view().len() {
                assert(n.indices_view()[i].name == a.indices_view()[i].name);
                assert(n.indices_view()[i].prime == a.indices_view()[i].prime);
                assert(a.indices_view()[i] == a.indices_view()[i]);
            } else {
                assert(keyed_before(n, i, slots, envs, k));
                let j = choose|j: int| 0 <= j < k && index_keyed(n.indices_view()[i], slots, #[trigger] envs[j]);
                let m2 = choose|m2: int|
                    0 <= m2 < slots.len() && (n.indices_view()[i].name.base@, n.indices_view()[i].name.subscripts@,
                    n.indices_view()[i].prime) == slot_key(#[trigger] slots[m2], envs[j]);
                assert(env_of(clause, j, envs[j]));
                assert(rounds_apart(name, slots, envs[j], e));
                assert(slot_key(slots[m2], envs[j]) != slot_key(slots[m], e));
            }
        }
    }
}

proof fn lemma_tensor_round_step(
    a: &Network,
    n0: &Network,
    n1: &Network,
    name: NameAst,
    slots: Seq<crate::ast::SlotAst>,
    attrs: Seq<Attr>,
    envs: Seq<Option<(String, i64)>>,
    k: int,
)
    requires
        0 <= k < envs.len(),
        grows(a, n0),
        grows(n0, n1),
        forall|t: int| a.tensors_view().len() <= t < n0.tensors_view().len() ==> #[trigger] made_before(n0, t, name, envs, k),
        forall|i: int| a.indices_view().len() <= i < n0.indices_view().len() ==> #[trigger] keyed_before(n0, i, slots, envs, k),
        tensor_made(n0, n1, name, slots, attrs, envs[k]),
        new_indices_keyed(n0, n1, slots, envs[k]),
    ensures
        forall|t: int| a.tensors_view().len() <= t < n1.tensors_view().len() ==> #[trigger] made_before(n1, t, name, envs, k + 1),
        forall|i: int| a.indices_view().len() <= i < n1.indices_view().len() ==> #[trigger] keyed_before(n1, i, slots, envs, k + 1),
{
    let e = envs[k];
    assert(tensor_made(n0, n1, name, slots, attrs, e));
    assert forall|t: int| a.tensors_view().len() <= t < n1.tensors_view().len() implies #[trigger] made_before(n1, t, name, envs, k + 1) by {
        if n1.tensors_view()[t].name.base@ == name.base@ && single_name_of(name, e) == Some(
            n1.tensors_view()[t].name.subscripts@,
        ) {
            assert(single_name_of(name, envs[k]) == Some(n1.tensors_view()[t].name.subscripts@));
        } else {
            assert(t < n0.tensors_view().len());
            assert(made_before(n0, t, name, envs, k));
            let j = choose|j: int|
                0 <= j < k && n0.tensors_view()[t].name.base@ == name.base@ && single_name_of(name, #[trigger] envs[j])
                    == Some(n0.tensors_view()[t].name.subscripts@);
            assert(n1.tensors_view()[t] == n0.tensors_view()[t]);
            assert(single_name_of(name, envs[j]) == Some(n1.tensors_view()[t].name.subscripts@));
        }
    }
    assert forall|i: int| a.indices_view().len() <= i < n1.indices_view().len() implies #[trigger] keyed_before(n1, i, slots, envs, k + 1) by {
        if i < n0.indices_view().len() {
            assert(keyed_before(n0, i, slots, envs, k));
            let j = choose|j: int| 0 <= j < k && index_keyed(n0.indices_view()[i], slots, #[trigger] envs[j]);
            let m = choose|m: int|
                0 <= m < slots.len() && (n0.indices_view()[i].name.base@, n0.indices_view()[i].name.subscripts@,
                n0.indices_view()[i].prime) == slot_key(#[trigger] slots[m], envs[j]);
            assert(n1.indices_view()[i].name == n0.indices_view()[i].name);
            assert(n1.indices_view()[i].prime == n0.indices_view()[i].prime);
            assert(index_keyed(n1.indices_view()[i], slots, envs[j]));
        } else {
            assert(index_keyed(n1.indices_view()[i], slots, envs[k]));
        }
    }
}

/// What running a statement does to a network: `ok` says whether it
/// succeeded.
pub open spec fn stmt_step(a: &Network, stmt: Stmt, b: &Network, ok: bool) -> bool {
    &&& (lowered(b))
    &&& (stmt.kind matches StmtKind::Version(v) ==> (ok <==> known_version(v@)) && *b
            == *a)
    &&& (stmt.kind is Index ==> keeps_structure(a, b))
    &&& (stmt.kind matches StmtKind::Index { name, tags, each, .. } ==> tags_grow(a, b) && (ok ==> forall|k: int|
        0 <= k < rounds(each) ==> #[trigger] index_round(b, name, tags@, each, k)))
    &&& (stmt.kind matches StmtKind::Index { name, attrs, each, .. } ==> rules_added(
        a.rules_view(),
        b.rules_view(),
        no_dims(attrs_view(attrs@)),
        index_sel(),
    ) && (each is None && ok ==> (subs_of(name.subs@, None) matches Some(ps) && b.rules_view().len()
        == a.rules_view().len() + per(no_dims(attrs_view(attrs@)), product(ps).len() as int) && forall|q: int|
        0 <= q < product(ps).len() ==> #[trigger] dim_set(b, name.base@, product(ps)[q], name.prime, last_dim(
        attrs_view(attrs@),
    )))))
    &&& (stmt.kind matches StmtKind::Index { name, attrs, each, .. } ==> ((forall|k: int, e: Option<(String, i64)>|
        0 <= k < rounds(each) && #[trigger] env_of(each, k, e) ==> index_once_ok(name, attrs_view(attrs@), e))
        ==> ok) && (each is None ==> (ok <==> index_once_ok(name, attrs_view(attrs@), None))))
    &&& (stmt.kind matches StmtKind::At { target, pos } ==> (ok <==> single_name_of(target, None) is Some)
            && (ok ==> placed_at(a, b, target, pos@)))
    &&& (stmt.kind matches StmtKind::Relative { target, relation, anchor, distance } ==> (ok <==> (
        single_name_of(target, None) is Some && single_name_of(anchor, None) is Some)) && (ok
            ==> placed_relative(a, b, target, relation, anchor, distance)))
    &&& (stmt.kind matches StmtKind::Tree { root, .. } ==> (ok <==> single_name_of(root, None) is Some)
            && (ok ==> placed_tree(a, b, root)))
    &&& (stmt.kind matches StmtKind::Group { name, members } ==> (group_ok(a, name@, members@) ==> ok) && (ok
        ==> group_name_free(a, name@)) && (ok && plain_list(a, members@, None) ==> members_are(
        b,
        b.groups_view().last().members@,
        targets(members@, None),
    )))
    &&& (stmt.kind matches StmtKind::Group { name, .. } ==> (ok ==> b.groups_view().drop_last()
            == a.groups_view() && b.groups_view().len() == a.groups_view().len() + 1
            && b.groups_view().last().name@ == name@) && b.indices_view() == a.indices_view()
            && b.layout_view() == a.layout_view() && b.rules_view() == a.rules_view() && b.scene_view()
            == a.scene_view())
    &&& (first_unmatched(a, stmt) ==> !ok)
    &&& (stmt.kind is Declare ==> only_adds_tensors(a, b))
    &&& (stmt.kind matches StmtKind::Declare(list) ==> (plain_list(a, list@, None) ==> ok && has_all(
        b,
        targets(list@, None),
    ) && new_tensors_named(a, b, list@, None)))
    &&& (stmt.kind matches StmtKind::Chain { list, .. } ==> (ok && plain_list(a, list@, None) ==> new_tensors_named(
        a,
        b,
        list@,
        None,
    )))
    &&& (stmt.kind matches StmtKind::Legs { targets, .. } ==> (ok && plain_list(a, targets@, None) ==> new_tensors_named(
        a,
        b,
        targets@,
        None,
    )))
    &&& (stmt.kind matches StmtKind::Camera { angles, attrs } ==> ok && b.tensors_view() == a.tensors_view()
        && b.indices_view() == a.indices_view() && b.groups_view() == a.groups_view() && b.layout_view()
        == a.layout_view() && b.rules_view() == a.rules_view() && b.scene_view().dim == a.scene_view().dim
        && b.scene_view().spacing == a.scene_view().spacing && b.scene_view().light == a.scene_view().light
        && camera_added(a.scene_view().camera, b.scene_view().camera, angles, attrs@))
    &&& (stmt.kind matches StmtKind::Chain { group, .. } ==> grows(a, b) && b.scene_view() == a.scene_view()
        && (ok ==> b.layout_view().len() == a.layout_view().len() + 1 && b.layout_view().drop_last()
        == a.layout_view() && b.layout_view().last() is Row) && (ok && group is None ==> b.groups_view()
        == a.groups_view()) && (ok && group is Some ==> b.groups_view().drop_last() == a.groups_view()
        && b.groups_view().len() == a.groups_view().len() + 1 && b.groups_view().last().name@
        == group->Some_0@))
    &&& (stmt.kind matches StmtKind::Grid { base, rows, cols, .. } ==> grows(a, b) && b.groups_view()
        == a.groups_view() && b.scene_view() == a.scene_view() && (ok ==> b.layout_view().len()
        == a.layout_view().len() + 1 && b.layout_view().drop_last() == a.layout_view() && (
    b.layout_view().last() matches LayoutStmt::Grid { base: g, rows: nr, cols: nc } && g@ == base@ && nr
        == rows && nc == cols)) && (ok ==> forall|i: int, j: int|
        1 <= i <= rows && 1 <= j <= cols ==> #[trigger] grid_has(b, base@, i, j)))
    &&& (stmt.kind is Legs ==> grows(a, b) && b.groups_view() == a.groups_view() && b.layout_view()
        == a.layout_view() && b.scene_view() == a.scene_view())
    &&& (stmt.kind matches StmtKind::Legs { targets, legs } ==> leg_rules(a.rules_view(), b.rules_view(), legs@) && (ok
        && plain_list(a, targets@, None) ==> b.rules_view().len() == a.rules_view().len() + self::targets(targets@, None).len()
        * with_dir(legs@)))
    &&& (stmt.kind matches StmtKind::Legs { targets, legs } ==> (legs_ok(a, targets@, legs@) ==> ok) && (ok
        && plain_list(a, targets@, None) ==> b.sites_made() == a.sites_made() + self::targets(targets@, None).len()
        * legs@.len()))
    &&& (stmt.kind matches StmtKind::Chain { list, attrs, .. } ==> rules_added(
        a.rules_view(),
        b.rules_view(),
        attrs_view(attrs@),
        index_sel(),
    ) && (ok && plain_list(a, list@, None) ==> b.rules_view().len() == a.rules_view().len() + per(
        attrs_view(attrs@),
        links_in_row(targets(list@, None).len() as int),
    )))
    &&& (stmt.kind matches StmtKind::Chain { group, list, .. } ==> (chain_ok(a, group, list@) ==> ok) && (ok
        && plain_list(a, list@, None) ==> chained(b, targets(list@, None))))
    &&& (stmt.kind matches StmtKind::Grid { base, rows, cols, .. } ==> (ok ==> new_tensors_in_grid(
        a,
        b,
        base@,
        rows as int,
        cols as int,
    )))
    &&& (stmt.kind matches StmtKind::Grid { rows, cols, attrs, .. } ==> rules_added(
        a.rules_view(),
        b.rules_view(),
        attrs_view(attrs@),
        tensor_sel(),
    ) && (ok ==> b.rules_view().len() == a.rules_view().len() + per(attrs_view(attrs@), rows * cols)))
    &&& (stmt.kind matches StmtKind::Grid { base, rows, cols, .. } ==> (grid_ok(a, rows as int, cols as int) ==> ok)
        && (!grid_fits(rows as int, cols as int) ==> !ok) && (ok ==> grid_linked(b, base@, rows as int, cols as int)))
    &&& (stmt.kind matches StmtKind::Connect { lists, each, .. } ==> (each is None && connect_lists_ok(
        a,
        lists_v(lists@),
        None,
    ) ==> ok))
    &&& (stmt.kind matches StmtKind::Connect { lists, attrs, each } ==> rules_added(
        a.rules_view(),
        b.rules_view(),
        attrs_view(attrs@),
        index_sel(),
    ) && (each is None && ok && connect_lists_ok(a, lists_v(lists@), None) ==> b.rules_view().len()
        == a.rules_view().len() + per(attrs_view(attrs@), links_needed(lists_v(lists@), None))) && (each is None && ok
        && plain_lists(a, lists_v(lists@), None) ==> new_tensors_in_lists(a, b, lists_v(lists@), None)))
    &&& (stmt.kind matches StmtKind::Connect { lists, each, .. } ==> (each is None && first_pair_fails(
        a,
        lists_v(lists@),
        None,
    ) ==> !ok))
    &&& (stmt.kind matches StmtKind::Connect { lists, each, .. } ==> ((exists|bound: int| connect_rounds_ok(
        a,
        lists_v(lists@),
        each,
        bound,
    )) ==> ok))
    &&& (stmt.kind matches StmtKind::Connect { lists, each, .. } ==> (ok ==> forall|k: int|
        0 <= k < rounds(each) ==> #[trigger] connect_round(a, b, lists, each, k)))
    &&& (stmt.kind is Tensor || stmt.kind is Connect ==> grows(a, b) && b.groups_view() == a.groups_view()
        && b.layout_view() == a.layout_view() && b.scene_view() == a.scene_view())
    &&& (stmt.kind matches StmtKind::Tensor { name, slots, each, .. } ==> (slots@.len() == 0 ==> ((forall|k: int, e: Option<
        (String, i64),
    >| 0 <= k < rounds(each) && #[trigger] env_of(each, k, e) ==> single_name_of(name, e) is Some) ==> ok) && (each is None
        ==> (ok <==> single_name_of(name, None) is Some))) && (each is None && new_tensor_ok(a, name, slots@, None) ==> ok))
    &&& (stmt.kind matches StmtKind::Tensor { name, slots, each, .. } ==> (tensor_rounds_ok(a, name, slots@, each) ==> ok))
    &&& (stmt.kind matches StmtKind::Tensor { name, slots, each, .. } ==> (each is None && first_slot_full(
        a,
        name,
        slots@,
        None,
    ) ==> !ok))
    &&& (stmt.kind matches StmtKind::Tensor { name, slots, attrs, each } ==> (ok ==> tensor_rounds(
        a,
        b,
        name,
        slots@,
        attrs@,
        each,
    )))
    &&& (stmt.kind matches StmtKind::Scene(d) ==> ok && b.scene_view() == (Scene {
            dim: d,
            ..a.scene_view()
        }) && b.tensors_view() == a.tensors_view() && b.rules_view()
            == a.rules_view() && b.layout_view() == a.layout_view())
    &&& (stmt.kind is Scene || stmt.kind is Spacing || stmt.kind is Light || stmt.kind is Stack ==> b.tensors_view()
        == a.tensors_view() && b.indices_view() == a.indices_view() && b.groups_view() == a.groups_view()
        && b.rules_view() == a.rules_view())
    &&& (stmt.kind is Scene || stmt.kind is Spacing || stmt.kind is Light ==> b.layout_view() == a.layout_view())
    &&& (stmt.kind is Stack ==> b.scene_view() == a.scene_view())
    &&& (stmt.kind matches StmtKind::Light(_) ==> b.scene_view() == (Scene {
            light: b.scene_view().light,
            ..a.scene_view()
        }))
    &&& (stmt.kind is At || stmt.kind is Relative || stmt.kind is Tree ==> b.indices_view() == a.indices_view()
        && b.groups_view() == a.groups_view() && b.rules_view() == a.rules_view() && b.scene_view()
        == a.scene_view() && a.tensors_view().len() <= b.tensors_view().len() && b.tensors_view().take(
        a.tensors_view().len() as int,
    ) == a.tensors_view())
    &&& (stmt.kind matches StmtKind::Spacing(x) ==> ok && b.scene_view() == (Scene {
            spacing: Some(x),
            ..a.scene_view()
        }))
    &&& (stmt.kind matches StmtKind::Light(v) ==> ok && b.scene_view().dim == a.scene_view().dim && (
    b.scene_view().light matches Some(l) && l@ == v@))
    &&& (stmt.kind matches StmtKind::Stack(gs) ==> (ok <==> all_groups(a, gs@)) && (ok
            ==> b.layout_view().len() == a.layout_view().len() + 1))
    &&& (stmt.kind matches StmtKind::Style { selector, attrs } ==> (ok <==> selector_resolves(selector)) && (ok
        ==> b.tensors_view() == a.tensors_view() && b.indices_view() == a.indices_view() && b.groups_view()
        == a.groups_view() && b.layout_view() == a.layout_view() && b.scene_view() == a.scene_view() && (attrs@.len()
        == 0 ==> b.rules_view() == a.rules_view()) && (attrs@.len() > 0 ==> b.rules_view().drop_last()
        == a.rules_view() && selects(b.rules_view().last().selector, selector) && attrs_view(
        b.rules_view().last().attrs@,
    ) == attrs_view(attrs@))))
}

/// The first of the names, from position `k` on, that is no group of `n`;
/// the length when every one is.
pub open spec fn first_missing(n: &Network, names: Seq<String>, k: int) -> int
    decreases names.len() - k,
{
    if k >= names.len() || k < 0 {
        names.len() as int
    } else if crate::model::group_pos(n.groups_view(), names[k]@) < 0 {
        k
    } else {
        first_missing(n, names, k + 1)
    }
}

proof fn lemma_first_missing(n: &Network, names: Seq<String>, i: int, j: int)
    requires
        0 <= i <= j < names.len(),
        forall|q: int| i <= q < j ==> crate::model::group_pos(n.groups_view(), #[trigger] names[q]@) >= 0,
        crate::model::group_pos(n.groups_view(), names[j]@) < 0,
    ensures
        first_missing(n, names, i) == j,
    decreases j - i,
{
    if i < j {
        lemma_first_missing(n, names, i + 1, j);
    }
}

/// The list of references a statement resolves first, when it resolves
/// one before anything else.
pub open spec fn first_list(stmt: Stmt) -> Option<Seq<EndRef>> {
    match stmt.kind {
        StmtKind::Declare(list) => Some(list@),
        StmtKind::Group { members, .. } => Some(members@),
        StmtKind::Chain { list, .. } => Some(list@),
        StmtKind::Legs { targets, .. } => Some(targets@),
        StmtKind::Connect { lists, each: None, .. } => if lists@.len() > 0 {
            Some(lists@[0]@)
        } else {
            None
        },
        _ => None,
    }
}

/// The first reference a statement resolves has `*` among its subscripts
/// and matches no tensor of `n`.
pub open spec fn first_unmatched(n: &Network, stmt: Stmt) -> bool {
    match first_list(stmt) {
        Some(l) => l.len() > 0 && matches_none(n, l[0].name, None),
        None => false,
    }
}

/// What the error of a failed statement says, where it is stated: a version
/// this crate does not read, and the first name of a `stack` that is no
/// group.
pub open spec fn stmt_err(n: &Network, stmt: Stmt, e: Error) -> bool {
    &&& (stmt.kind matches StmtKind::Version(v) ==> e.pos == Some(stmt.pos) && e.message@ == "this is tnv "@
        + VERSION@ + "; the file asks for "@ + v@)
    &&& (stmt.kind matches StmtKind::Connect { lists, each, .. } ==> (each is None && first_pair_fails(
        n,
        lists_v(lists@),
        None,
    ) ==> e.pos == Some(stmt.pos) && e.message@ == pair_text(
        targets(lists_v(lists@)[0], None).len(),
        targets(lists_v(lists@)[1], None).len(),
    )))
    &&& (stmt.kind matches StmtKind::Tensor { name, slots, each, .. } ==> (each is None && first_slot_full(
        n,
        name,
        slots@,
        None,
    ) ==> e.pos == Some(slots@[0].index.pos) && e.message@ == joins_two_key(slot_key(slots@[0], None))))
    &&& (first_unmatched(n, stmt) ==> no_match_err(first_list(stmt)->Some_0[0].name, None, e))
    &&& (stmt.kind matches StmtKind::Index { name, attrs, each, .. } ==> (each is None && index_has_any(name, None)
        ==> index_any_err(name, None, e)) && (each is None && index_bad_dim(name, attrs_view(attrs@), None) ==> e.pos
        == Some(name.pos) && e.message@ == "dim must be a positive integer"@))
    &&& (stmt.kind matches StmtKind::Grid { rows, cols, .. } ==> (!grid_fits(rows as int, cols as int) ==> e.pos is None
        && e.message@ == "the grid is too large"@))
    &&& (stmt.kind matches StmtKind::Stack(gs) ==> e.pos == Some(stmt.pos) && e.message@ == "`"@ + gs@[first_missing(
        n,
        gs@,
        0,
    )]@ + "` is not a group"@)
}

/// Run one statement.
#[verifier::rlimit(100)]
#[verifier::spinoff_prover]
pub fn statement(net: &mut Network, stmt: &Stmt) -> (r: Result<(), Error>)
    requires
        lowered(old(net)),
        stmt_wf(*stmt),
    ensures
        stmt_step(old(net), *stmt, final(net), r is Ok),
        r matches Err(e) ==> stmt_err(old(net), *stmt, e),
{
    proof {
        assert(old(net).tensors_view().take(old(net).tensors_view().len() as int) =~= old(net).tensors_view());
    }
    let pos = stmt.pos;
    match &stmt.kind {
        StmtKind::Version(v) => {
            let c = chars_of(v.as_str());
            if !(str_is("0.2", c.as_slice()) || str_is("0.3", c.as_slice())) {
                let mut m: Vec<char> = Vec::new();
                push_str(&mut m, "this is tnv ");
                push_str(&mut m, VERSION);
                push_str(&mut m, "; the file asks for ");
                push_chars(&mut m, c.as_slice());
                return Err(error_at(pos, m.as_slice()));
            }
            Ok(())
        },
        StmtKind::Scene(dim) => {
            net.set_scene_dim(*dim);
            Ok(())
        },
        StmtKind::Spacing(x) => {
            net.set_spacing(*x);
            Ok(())
        },
        StmtKind::Light(v) => {
            net.set_light(crate::value::copy_numbers(v));
            Ok(())
        },
        StmtKind::Camera { angles, attrs } => {
            net.add_camera(*angles, attrs.as_slice());
            Ok(())
        },
        StmtKind::Index { name, tags, attrs, each } => {
            let envs = self::each(each);
            let mut k: usize = 0;
            assert(envs@.len() == rounds(*each));
            proof {
                lemma_rules_added_refl(net.rules_view(), no_dims(attrs_view(attrs@)), index_sel());
            }
            while k < envs.len()
                invariant
                    k <= envs@.len(),
                    envs@.len() == rounds(*each),
                    forall|j: int| 0 <= j < envs@.len() ==> env_of(*each, j, #[trigger] envs@[j]),
                    lowered(net),
                    stmt_wf(*stmt),
                    stmt.kind == (StmtKind::Index { name: *name, tags: *tags, attrs: *attrs, each: *each }),
                    keeps_structure(old(net), net),
                    tags_grow(old(net), net),
                    forall|j: int| 0 <= j < k ==> index_round_done(net, *name, tags@, #[trigger] envs@[j]),
                    forall|j: int| 0 <= j < k ==> index_once_ok(*name, attrs_view(attrs@), #[trigger] envs@[j]),
                    rules_added(old(net).rules_view(), net.rules_view(), no_dims(attrs_view(attrs@)), index_sel()),
                    k > 0 && each is None ==> (subs_of(name.subs@, None) matches Some(ps) && net.rules_view().len()
                        == old(net).rules_view().len() + per(no_dims(attrs_view(attrs@)), product(ps).len() as int)
                        && forall|q: int| 0 <= q < product(ps).len() ==> #[trigger] dim_set(
                        net,
                        name.base@,
                        product(ps)[q],
                        name.prime,
                        last_dim(attrs_view(attrs@)),
                    )),
                    k == 0 ==> *net == *old(net),
                    k > 0 && each is None ==> !index_has_any(*name, None) && !index_bad_dim(*name, attrs_view(attrs@), None),
                decreases envs@.len() - k,
            {
                let ghost n0 = *net;
                let res = index_once(net, name, tags, attrs, &envs[k]);
                proof {
                    lemma_rules_added_trans(
                        old(net).rules_view(),
                        n0.rules_view(),
                        net.rules_view(),
                        no_dims(attrs_view(attrs@)),
                        index_sel(),
                    );
                    if each.is_none() {
                        assert(env_of(*each, k as int, envs@[k as int]));
                    }
                    lemma_keeps_structure_trans(old(net), &n0, net);
                    lemma_tags_grow_trans(old(net), &n0, net);
                    assert forall|j: int| 0 <= j < k implies index_round_done(net, *name, tags@, #[trigger] envs@[j]) by {
                        lemma_index_round_keep(&n0, net, *name, tags@, envs@[j]);
                    }
                }
                match res {
                    Ok(()) => {},
                    Err(e) => {
                        assert(env_of(*each, k as int, envs@[k as int]));
                        assert(!index_once_ok(*name, attrs_view(attrs@), envs@[k as int]));
                        return Err(e);
                    },
                }
                assert(index_round_done(net, *name, tags@, envs@[k as int]));
                k = k + 1;
            }
            assert forall|j: int| 0 <= j < rounds(*each) implies #[trigger] index_round(net, *name, tags@, *each, j) by {
                assert(env_of(*each, j, envs@[j]));
                assert(index_round_done(net, *name, tags@, envs@[j]));
            }
            Ok(())
        },
        StmtKind::Tensor { name, slots, attrs, each } => {
            let envs = self::each(each);
            let ghost tr = tensor_rounds_ok(old(net), *name, slots@, *each);
            let ghost mut nets: Seq<Network> = seq![*net];
            let mut k: usize = 0;
            assert(envs@.len() == rounds(*each));
            while k < envs.len()
                invariant
                    k <= envs@.len(),
                    envs@.len() == rounds(*each),
                    forall|j: int| 0 <= j < envs@.len() ==> env_of(*each, j, #[trigger] envs@[j]),
                    lowered(net),
                    stmt_wf(*stmt),
                    stmt.kind == (StmtKind::Tensor { name: *name, slots: *slots, attrs: *attrs, each: *each }),
                    nets.len() == k + 1,
                    nets[0] == *old(net),
                    nets.last() == *net,
                    grows(old(net), net),
                    net.groups_view() == old(net).groups_view(),
                    net.layout_view() == old(net).layout_view(),
                    net.scene_view() == old(net).scene_view(),
                    forall|j: int|
                        0 <= j < k ==> tensor_made(&nets[j], &nets[j + 1], *name, slots@, attrs@, #[trigger] envs@[j]),
                    forall|j: int| 0 <= j < k ==> single_name_of(*name, #[trigger] envs@[j]) is Some,
                    k > 0 && each is None ==> !first_slot_full(old(net), *name, slots@, None),
                    tr == tensor_rounds_ok(old(net), *name, slots@, *each),
                    tr ==> forall|t: int|
                        old(net).tensors_view().len() <= t < net.tensors_view().len() ==> #[trigger] made_before(
                            net,
                            t,
                            *name,
                            envs@,
                            k as int,
                        ),
                    tr ==> forall|i: int|
                        old(net).indices_view().len() <= i < net.indices_view().len() ==> #[trigger] keyed_before(
                            net,
                            i,
                            slots@,
                            envs@,
                            k as int,
                        ),
                decreases envs@.len() - k,
            {
                let ghost n0 = *net;
                proof {
                    if tr {
                        lemma_tensor_round_ok(old(net), net, *name, slots@, *each, envs@, k as int);
                    }
                }
                let res = tensor_once(net, name, slots, attrs, &envs[k]);
                proof {
                    lemma_grows_trans(old(net), &n0, net);
                }
                match res {
                    Ok(()) => {},
                    Err(e) => {
                        assert(env_of(*each, k as int, envs@[k as int]));
                        return Err(e);
                    },
                }
                proof {
                    if tr {
                        lemma_tensor_round_step(old(net), &n0, net, *name, slots@, attrs@, envs@, k as int);
                    }
                    let prev = nets;
                    nets = nets.push(*net);
                    assert forall|j: int| 0 <= j < k + 1 implies tensor_made(&nets[j], &nets[j + 1], *name, slots@,
                        attrs@, #[trigger] envs@[j]) by {
                        if j < k {
                            assert(nets[j] == prev[j]);
                            assert(nets[j + 1] == prev[j + 1]);
                        }
                    }
                }
                k = k + 1;
            }
            assert(tensor_rounds(old(net), net, *name, slots@, attrs@, *each)) by {
                assert(forall|j: int| 0 <= j < rounds(*each) ==> env_of(*each, j, #[trigger] envs@[j]));
            }
            Ok(())
        },
        StmtKind::Declare(list) => match resolve_list(net, list, &None) {
            Ok(v) => {
                proof {
                    if plain_list(old(net), list@, None) {
                        lemma_resolved_has_all(net, v@, list@, None);
                        lemma_new_tensors_resolved(old(net), net, v@, list@, None);
                    }
                }
                Ok(())
            },
            Err(e) => Err(e),
        },
        StmtKind::Connect { lists, attrs, each } => {
            let envs = self::each(each);
            let mut k: usize = 0;
            assert(envs@.len() == rounds(*each));
            let ghost lv = lists_v(lists@);
            let ghost cr = exists|bound: int| connect_rounds_ok(old(net), lv, *each, bound);
            let ghost bound = choose|bound: int| connect_rounds_ok(old(net), lv, *each, bound);
            proof {
                lemma_rules_added_refl(net.rules_view(), attrs_view(attrs@), index_sel());
            }
            while k < envs.len()
                invariant
                    k <= envs@.len(),
                    envs@.len() == rounds(*each),
                    forall|j: int| 0 <= j < envs@.len() ==> env_of(*each, j, #[trigger] envs@[j]),
                    lowered(net),
                    stmt_wf(*stmt),
                    stmt.kind == (StmtKind::Connect { lists: *lists, attrs: *attrs, each: *each }),
                    k == 0 ==> *net == *old(net),
                    grows(old(net), net),
                    net.groups_view() == old(net).groups_view(),
                    net.layout_view() == old(net).layout_view(),
                    net.scene_view() == old(net).scene_view(),
                    forall|j: int| 0 <= j < k ==> round_linked(old(net), net, lists_v(lists@), #[trigger] envs@[j]),
                    rules_added(old(net).rules_view(), net.rules_view(), attrs_view(attrs@), index_sel()),
                    k > 0 && each is None && connect_lists_ok(old(net), lists_v(lists@), None) ==> net.rules_view().len()
                        == old(net).rules_view().len() + per(attrs_view(attrs@), links_needed(lists_v(lists@), None)),
                    pos == stmt.pos,
                    lv == lists_v(lists@),
                    cr == exists|bound: int| connect_rounds_ok(old(net), lv, *each, bound),
                    cr ==> connect_rounds_ok(old(net), lv, *each, bound),
                    cr ==> links_fresh(net) && net.links_made() <= old(net).links_made() + k * bound && 0 <= k * bound,
                    k > 0 && each is None ==> !first_pair_fails(old(net), lists_v(lists@), None),
                    k > 0 && each is None ==> !first_unmatched(old(net), *stmt),
                    k > 0 && each is None && plain_lists(old(net), lists_v(lists@), None) ==> new_tensors_in_lists(
                        old(net),
                        net,
                        lists_v(lists@),
                        None,
                    ),
                decreases envs@.len() - k,
            {
                let ghost n0 = *net;
                proof {
                    if cr {
                        let e = envs@[k as int];
                        assert(env_of(*each, k as int, e));
                        assert(lists_shape_ok(old(net), lv, e));
                        lemma_plain_lists_groups(old(net), net, lv, e);
                        lemma_round_budget(k as int, rounds(*each), bound);
                        assert(links_needed(lv, e) <= bound);
                        assert(connect_lists_ok(net, lv, e));
                    }
                }
                let res = connect_once(net, lists, attrs, &envs[k], pos);
                proof {
                    lemma_rules_added_trans(old(net).rules_view(), n0.rules_view(), net.rules_view(), attrs_view(attrs@), index_sel());
                    if each.is_none() {
                        assert(env_of(*each, k as int, envs@[k as int]));
                    }
                    lemma_grows_trans(old(net), &n0, net);
                    assert forall|j: int| 0 <= j < k implies round_linked(old(net), net, lists_v(lists@), #[trigger] envs@[j]) by {
                        lemma_round_linked_grows(old(net), &n0, net, lists_v(lists@), envs@[j]);
                    }
                }
                match res {
                    Ok(()) => {},
                    Err(e) => return Err(e),
                }
                proof {
                    lemma_plain_lists_groups(old(net), &n0, lists_v(lists@), envs@[k as int]);
                }
                k = k + 1;
            }
            assert forall|j: int| 0 <= j < rounds(*each) implies #[trigger] connect_round(old(net), net, *lists, *each, j) by {
                assert(env_of(*each, j, envs@[j]));
                assert(round_linked(old(net), net, lists_v(lists@), envs@[j]));
            }
            Ok(())
        },
        StmtKind::Chain { group, list, attrs } => chain_stmt(net, group, list, attrs),
        StmtKind::Grid { base, rows, cols, attrs } => grid_stmt(net, base, *rows, *cols, attrs),
        StmtKind::Legs { targets, legs } => legs_stmt(net, targets, legs),
        StmtKind::Group { name, members } => {
            let resolved = match resolve_list(net, members, &None) {
                Ok(v) => v,
                Err(e) => return Err(e),
            };
            let ghost n1 = *net;
            let ids = ids_of(&resolved, Ghost(net.tensors_view().len()));
            let ghost tg = targets(members@, None);
            proof {
                if group_ok(old(net), name@, members@) {
                    assert(group_name_free(&n1, name@)) by {
                        assert forall|t: int| 0 <= t < n1.tensors_view().len() implies !crate::model::is_plain(
                            #[trigger] n1.tensors_view()[t].name,
                            name@,
                        ) by {
                            if t < old(net).tensors_view().len() {
                                assert(n1.tensors_view().take(old(net).tensors_view().len() as int)[t] == n1.tensors_view()[t]);
                                assert(!crate::model::is_plain(old(net).tensors_view()[t].name, name@));
                            } else {
                                assert(resolves_to(resolved@, t));
                                let k = choose|k: int| 0 <= k < resolved@.len() && (#[trigger] resolved@[k]).0.0 == t;
                                assert(tensor_is(&n1, resolved@[k].0, tg[k].0, tg[k].1));
                            }
                        }
                    }
                }
                if !group_name_free(old(net), name@) {
                    if crate::model::group_pos(old(net).groups_view(), name@) >= 0 {
                        assert(n1.groups_view() == old(net).groups_view());
                    } else {
                        let t = choose|t: int|
                            0 <= t < old(net).tensors_view().len() && crate::model::is_plain(
                                #[trigger] old(net).tensors_view()[t].name,
                                name@,
                            );
                        assert(n1.tensors_view().take(old(net).tensors_view().len() as int)[t] == n1.tensors_view()[t]);
                        assert(crate::model::is_plain(n1.tensors_view()[t].name, name@));
                    }
                    assert(!group_name_free(&n1, name@));
                }
            }
            let r = group_of(net, name, ids);
            proof {
                if r is Ok && plain_list(old(net), members@, None) {
                    assert(resolved_as(&n1, resolved@, members@, None));
                    assert forall|k: int| 0 <= k < ids@.len() implies tensor_is(net, #[trigger] ids@[k], tg[k].0, tg[k].1) by {
                        assert(resolved@[k] == resolved@[k]);
                        assert(tensor_is(&n1, resolved@[k].0, tg[k].0, tg[k].1));
                    }
                    assert(members_are(net, net.groups_view().last().members@, tg));
                }
            }
            r
        },
        StmtKind::At { target, pos: p } => {
            let n = match single_name(target, &None) {
                Ok(n) => n,
                Err(e) => return Err(e),
            };
            let tensor = tensor_of(net, &n);
            let ghost n1 = *net;
            let q = crate::value::copy_numbers(p);
            let ghost l = LayoutStmt::At { tensor, pos: q };
            layout(net, LayoutStmt::At { tensor, pos: q });
            assert(net.tensors_view() == n1.tensors_view());
            assert(names_tensor(net, tensor, *target));
            assert(net.layout_view().last() == l);
            assert(net.layout_view().drop_last() =~= old(net).layout_view());
            assert(placed_at(old(net), net, *target, p@));
            Ok(())
        },
        StmtKind::Relative { target, relation, anchor, distance } => {
            let n = match single_name(target, &None) {
                Ok(n) => n,
                Err(e) => return Err(e),
            };
            let tensor = tensor_of(net, &n);
            let a = match single_name(anchor, &None) {
                Ok(n) => n,
                Err(e) => return Err(e),
            };
            let ghost n0 = *net;
            let anchor_id = tensor_of(net, &a);
            proof {
                assert(net.tensors_view()[tensor.0 as int].name == n0.tensors_view()[tensor.0 as int].name);
                let la = old(net).tensors_view().len() as int;
                assert(net.tensors_view().take(la) =~= n0.tensors_view().take(n0.tensors_view().len() as int).take(la));
                assert(n0.tensors_view().take(n0.tensors_view().len() as int) =~= n0.tensors_view());
            }
            let ghost n1 = *net;
            layout(net, LayoutStmt::Relative { tensor, relation: *relation, anchor: anchor_id, distance: *distance });
            assert(net.tensors_view() == n1.tensors_view());
            assert(names_tensor(net, tensor, *target));
            assert(names_tensor(net, anchor_id, *anchor));
            assert(net.layout_view().drop_last() =~= old(net).layout_view());
            assert(placed_relative(old(net), net, *target, *relation, *anchor, *distance));
            Ok(())
        },
        StmtKind::Stack(groups) => {
            let mut k: usize = 0;
            while k < groups.len()
                invariant
                    k <= groups@.len(),
                    lowered(net),
                    *net == *old(net),
                    stmt.kind == StmtKind::Stack(*groups),
                    pos == stmt.pos,
                    forall|j: int| 0 <= j < k ==> crate::model::group_pos(net.groups_view(), #[trigger] groups@[j]@) >= 0,
                decreases groups@.len() - k,
            {
                if net.group(groups[k].as_str()).is_none() {
                    proof {
                        lemma_first_missing(net, groups@, 0, k as int);
                    }
                    let mut m: Vec<char> = Vec::new();
                    push_str(&mut m, "`");
                    push_str(&mut m, groups[k].as_str());
                    push_str(&mut m, "` is not a group");
                    return Err(error_at(pos, m.as_slice()));
                }
                k = k + 1;
            }
            layout(net, LayoutStmt::Stack { groups: copy_strings(groups) });
            Ok(())
        },
        StmtKind::Tree { root, dir } => {
            let n = match single_name(root, &None) {
                Ok(n) => n,
                Err(e) => return Err(e),
            };
            let root_id = tensor_of(net, &n);
            let d = dir.copy();
            proof {
                lemma_direction_copy_wf(d, *dir);
            }
            let ghost n1 = *net;
            layout(net, LayoutStmt::Tree { root: root_id, direction: d });
            assert(net.tensors_view() == n1.tensors_view());
            assert(names_tensor(net, root_id, *root));
            assert(net.layout_view().drop_last() =~= old(net).layout_view());
            assert(placed_tree(old(net), net, *root));
            Ok(())
        },
        StmtKind::Style { selector, attrs } => {
            let selector = match selector_of(selector) {
                Ok(s) => s,
                Err(e) => return Err(e),
            };
            rule(net, selector, attrs.as_slice());
            Ok(())
        },
    }
}

/// A network with nothing in it, as `Network::new` makes it.
pub open spec fn empty_network(n: &Network) -> bool {
    &&& n.tensors_view().len() == 0
    &&& n.indices_view().len() == 0
    &&& n.groups_view().len() == 0
    &&& n.layout_view().len() == 0
    &&& n.rules_view().len() == 0
    &&& n.scene_view().dim == Dim::Two
    &&& n.scene_view().spacing.is_none()
    &&& n.scene_view().light.is_none()
    &&& n.scene_view().camera.is_none()
}

/// The networks after each statement, from an empty one, every statement
/// succeeding.
pub open spec fn runs(stmts: Seq<Stmt>, nets: Seq<Network>) -> bool {
    &&& nets.len() == stmts.len() + 1
    &&& empty_network(&nets[0])
    &&& forall|k: int| 0 <= k < stmts.len() ==> stmt_step(&nets[k], #[trigger] stmts[k], &nets[k + 1], true)
}

/// What running statements gives: on success the network after every
/// statement has run; on failure a statement that failed after those before
/// it ran.
pub open spec fn lowers_to(stmts: Seq<Stmt>, r: Result<Network, Error>) -> bool {
    &&& (r matches Ok(n) ==> exists|nets: Seq<Network>| runs(stmts, nets) && nets.last() == n)
    &&& (r matches Err(e) ==> exists|k: int, nets: Seq<Network>, after: Network, e0: Error|
        #![trigger runs(stmts.take(k), nets), stmt_step(&nets.last(), stmts[k], &after, false), stmt_err(&nets.last(), stmts[k], e0)]
        0 <= k < stmts.len() && runs(stmts.take(k), nets) && stmt_step(&nets.last(), stmts[k], &after, false)
            && stmt_err(&nets.last(), stmts[k], e0) && e.message@ == e0.message@ && e.pos == (match e0.pos {
            Some(p) => Some(p),
            None => Some(stmts[k].pos),
        }))
}

/// Run the statements, in order, on an empty network.  An error without a
/// position takes the position of its statement.
pub fn lower(stmts: &[Stmt]) -> (r: Result<Network, Error>)
    requires
        forall|k: int| 0 <= k < stmts@.len() ==> stmt_wf(#[trigger] stmts@[k]),
    ensures
        r matches Ok(n) ==> lowered(&n),
        lowers_to(stmts@, r),
        r matches Err(e) ==> e.pos is Some,
{
    let mut net = Network::new();
    let ghost mut nets: Seq<Network> = seq![net];
    let mut k: usize = 0;
    assert(stmts@.take(0) =~= Seq::<Stmt>::empty());
    while k < stmts.len()
        invariant
            k <= stmts@.len(),
            lowered(&net),
            forall|j: int| 0 <= j < stmts@.len() ==> stmt_wf(#[trigger] stmts@[j]),
            runs(stmts@.take(k as int), nets),
            nets.last() == net,
        decreases stmts@.len() - k,
    {
        let ghost before = net;
        let res = statement(&mut net, &stmts[k]);
        match res {
            Ok(()) => {},
            Err(e) => {
                assert(stmt_step(&before, stmts@[k as int], &net, false));
                assert(runs(stmts@.take(k as int), nets));
                assert(stmt_step(&nets.last(), stmts@[k as int], &net, false));
                assert(stmt_err(&nets.last(), stmts@[k as int], e));
                let e2 = e.or_at(stmts[k].pos);
                assert(stmt_err(&nets.last(), stmts@[k as int], e) && e2.message@ == e.message@);
                return Err(e2);
            },
        }
        proof {
            let old_nets = nets;
            nets = nets.push(net);
            let t = stmts@.take(k + 1);
            assert(t.drop_last() =~= stmts@.take(k as int));
            assert forall|j: int| 0 <= j < t.len() implies stmt_step(&nets[j], #[trigger] t[j], &nets[j + 1], true) by {
                if j < k {
                    assert(t[j] == stmts@.take(k as int)[j]);
                    assert(nets[j] == old_nets[j]);
                    assert(nets[j + 1] == old_nets[j + 1]);
                } else {
                    assert(t[j] == stmts@[k as int]);
                    assert(nets[j] == before);
                }
            }
        }
        k = k + 1;
    }
    assert(stmts@.take(k as int) =~= stmts@);
    Ok(net)
}

/// Read tnv source into a network.
pub fn parse(src: &str) -> (r: Result<Network, Error>)
    ensures
        r matches Ok(n) ==> lowered(&n),
        r matches Err(e) ==> e.pos is Some,
        crate::lexer::lex_spec(src@) matches Err((p, m)) ==> r matches Err(e) && e.pos == Some(p)
            && e.message@ == m,
        match crate::grammar::parse_spec(src@) {
            Err(p) => r matches Err(e) && e.pos == Some(p),
            Ok(v) => exists|stmts: Seq<Stmt>|
                #![trigger crate::ast::stmts_v(stmts)]
                crate::ast::stmts_v(stmts) == v && lowers_to(stmts, r),
        },
{
    match crate::parser::parse(src) {
        Ok(stmts) => {
            lower(stmts.as_slice())
        },
        Err(e) => Err(e),
    }
}

/// `A - B` twice is one bond: once [`Network::connect`] without labels has
/// returned bond `i` between `a` and `b`, `i` is the bond found between them
/// (in both orders, where that call made it), so connecting them again
/// without labels reuses `i`: it returns `i` and leaves the network as it is.
pub proof fn lemma_connect_twice_is_one_bond(n: &Network, a: TensorId, b: TensorId, i: crate::model::IndexId)
    requires
        crate::model::bond_between_spec(n.tensors_view(), n.indices_view(), a, b) == Some(i),
    ensures
        crate::model::reuses(n, a, &None, b, &None),
        crate::model::bond_between_spec(n.tensors_view(), n.indices_view(), a, b)->Some_0 == i,
{
}

} // verus!
