//! Print a network in canonical tnv: index syntax for the structure, then
//! groups, layout, and style rules.

use vstd::prelude::*;

use crate::ast::{direction_wf, numbers_wf};
use crate::lower::{VERSION, layout_values_ok, lowered, values_ok};
use crate::model::{
    Dim, Direction, Group, Index, IndexId, LayoutStmt, LegKey, Network, Relation, Rule, Scene, Selector,
    Slot, Tensor, TensorId, layout_refs_ok, refs_ok, selector_ok,
};
use crate::name::{index_text, join, lemma_join_step, name_text, pattern_text, push_index_text};
use crate::number::{number_text, number_wf};
use crate::text::{chars_of, nat_text, push_chars, push_nat, push_str, string_of};
use crate::value::{attrs_text, attrs_view, attrs_wf, point_text, push_attrs, push_point};

verus! {

/// The texts of the items of a sequence, one after another.
pub open spec fn concat_map<A>(s: Seq<A>, f: spec_fn(A) -> Seq<char>) -> Seq<char>
    decreases s.len(),
{
    if s.len() == 0 {
        Seq::empty()
    } else {
        concat_map(s.drop_last(), f) + f(s.last())
    }
}

pub proof fn lemma_concat_map_step<A>(s: Seq<A>, f: spec_fn(A) -> Seq<char>, k: int)
    requires
        0 <= k < s.len(),
    ensures
        concat_map(s.take(k + 1), f) == concat_map(s.take(k), f) + f(s[k]),
{
    assert(s.take(k + 1).drop_last() =~= s.take(k));
}

pub open spec fn nl() -> Seq<char> {
    seq!['\n']
}

/// The scene statements.
pub open spec fn scene_text(sc: Scene) -> Seq<char> {
    dim_text(sc.dim) + spacing_text(sc.spacing) + light_text(sc.light) + camera_text(sc.camera)
}

/// An index is declared when it has tags or a dimension.
pub open spec fn index_shown(i: Index) -> bool {
    i.tags@.len() > 0 || i.dim is Some
}

/// `index l[1] : Link [dim=8]`.
pub open spec fn index_line(i: Index) -> Seq<char> {
    if !index_shown(i) {
        Seq::empty()
    } else {
        "index "@ + index_text(i.name.base@, i.name.subscripts@, i.prime as nat) + (if i.tags@.len() > 0 {
            " : "@ + join(i.tags@, |t: String| t@, ", "@)
        } else {
            Seq::empty()
        }) + (match i.dim {
            Some(d) => " [dim="@ + nat_text(d as nat) + "]"@,
            None => Seq::empty(),
        }) + nl()
    }
}

pub open spec fn any_index_shown(ix: Seq<Index>) -> bool {
    exists|k: int| 0 <= k < ix.len() && index_shown(#[trigger] ix[k])
}

/// The name of an index by id.
pub open spec fn index_name(ix: Seq<Index>, i: IndexId) -> Seq<char> {
    index_text(ix[i.0 as int].name.base@, ix[i.0 as int].name.subscripts@, ix[i.0 as int].prime as nat)
}

/// The name of a tensor by id.
pub open spec fn tensor_name(ts: Seq<Tensor>, t: TensorId) -> Seq<char> {
    name_text(ts[t.0 as int].name.base@, ts[t.0 as int].name.subscripts@)
}

/// `label=index`, or the index alone.
pub open spec fn slot_text(s: Slot, ix: Seq<Index>) -> Seq<char> {
    (match s.label {
        Some(l) => l@ + "="@,
        None => Seq::empty(),
    }) + index_name(ix, s.index)
}

/// `tensor A (r=l[1], s[1])`.
pub open spec fn tensor_line(t: Tensor, ix: Seq<Index>) -> Seq<char> {
    "tensor "@ + name_text(t.name.base@, t.name.subscripts@) + " ("@ + join(
        t.slots@,
        |s: Slot| slot_text(s, ix),
        ", "@,
    ) + ")\n"@
}

/// `g: A, B`.
pub open spec fn group_line(g: Group, ts: Seq<Tensor>) -> Seq<char> {
    g.name@ + ": "@ + join(g.members@, |t: TensorId| tensor_name(ts, t), ", "@) + nl()
}

pub open spec fn relation_text(r: Relation) -> Seq<char> {
    match r {
        Relation::RightOf => "right of"@,
        Relation::LeftOf => "left of"@,
        Relation::Above => "above"@,
        Relation::Below => "below"@,
    }
}

/// How a relation is printed reads back as that relation: split at its
/// space into words, and each word a name token, the placement reader takes
/// the words as the same relation and goes on after them.
pub proof fn lemma_relation_reads_back(
    r: Relation,
    ts: crate::grammar::Toks,
    i: int,
    words: Seq<Seq<char>>,
)
    requires
        0 <= i,
        i + words.len() < ts.len(),
        words.len() == 1 ==> relation_text(r) == words[0],
        words.len() == 2 ==> relation_text(r) == words[0] + " "@ + words[1],
        1 <= words.len() <= 2,
        forall|k: int| 0 <= k < words.len() ==> !(#[trigger] words[k]).contains(' '),
        forall|k: int| 0 <= k < words.len() ==> ts[i + k].0 == crate::lexer::TokV::Ident(#[trigger] words[k]),
    ensures
        crate::grammar::relation(ts, i) == Some(Ok::<(Relation, int), crate::error::Pos>((r, i + words.len()))),
{
    reveal_strlit("right of");
    reveal_strlit("left of");
    reveal_strlit("above");
    reveal_strlit("below");
    reveal_strlit("right");
    reveal_strlit("left");
    reveal_strlit("of");
    reveal_strlit(" ");
    let t = relation_text(r);
    assert(ts[i].0 == crate::lexer::TokV::Ident(words[0]));
    if words.len() == 2 {
        let w0 = words[0];
        let w1 = words[1];
        assert(ts[i + 1].0 == crate::lexer::TokV::Ident(words[1]));
        assert(t[w0.len() as int] == ' ');
        assert(r is RightOf || r is LeftOf) by {
            if r is Above || r is Below {
                assert(t.contains(' ') ==> false);
                assert(t.contains(' '));
            }
        }
        let sp: int = if r is RightOf { 5 } else { 4 };
        if w0.len() < sp {
            assert(!w0.contains(' ') ==> w0.len() >= sp) by {
                assert(t[w0.len() as int] == ' ');
            }
        }
        if w0.len() > sp {
            assert(w0[sp] == t[sp]);
            assert(w0.contains(' '));
        }
        assert(w0.len() == sp);
        assert forall|m: int| 0 <= m < w0.len() implies w0[m] == t[m] by {}
        assert(t.len() == w0.len() + 1 + w1.len());
        assert(w1.len() == 2);
        assert forall|m: int| 0 <= m < w1.len() implies w1[m] == t[sp + 1 + m] by {}
        if r is RightOf {
            assert(w0 =~= "right"@);
            assert(w1 =~= "of"@);
            assert(crate::grammar::is_word(ts, i, "right"@));
        } else {
            assert(w0 =~= "left"@);
            assert(w1 =~= "of"@);
            assert(!crate::grammar::is_word(ts, i, "right"@)) by {
                assert(w0.len() != "right"@.len());
            }
            assert(crate::grammar::is_word(ts, i, "left"@));
        }
        assert(crate::grammar::is_word(ts, i + 1, "of"@));
    } else {
        let w0 = words[0];
        if r is RightOf {
            assert(w0[5] == ' ');
        } else if r is LeftOf {
            assert(w0[4] == ' ');
        } else if r is Above {
            assert(w0 =~= "above"@);
            assert(!crate::grammar::is_word(ts, i, "right"@)) by {
                assert(w0[0] != "right"@[0]);
            }
            assert(!crate::grammar::is_word(ts, i, "left"@)) by {
                assert(w0.len() != "left"@.len());
            }
            assert(crate::grammar::is_word(ts, i, "above"@));
        } else {
            assert(w0 =~= "below"@);
            assert(!crate::grammar::is_word(ts, i, "right"@)) by {
                assert(w0[0] != "right"@[0]);
            }
            assert(!crate::grammar::is_word(ts, i, "left"@)) by {
                assert(w0.len() != "left"@.len());
            }
            assert(!crate::grammar::is_word(ts, i, "above"@)) by {
                assert(w0[0] != "above"@[0]);
            }
            assert(crate::grammar::is_word(ts, i, "below"@));
        }
    }
}

pub open spec fn direction_text(d: Direction) -> Seq<char> {
    match d {
        Direction::Word(w) => w@,
        Direction::Axis(w) => w@,
        Direction::Angle(a) => number_text(a),
        Direction::Vector(v) => point_text(v@),
    }
}

/// A layout statement.
pub open spec fn layout_line(l: LayoutStmt, ts: Seq<Tensor>) -> Seq<char> {
    layout_body(l, ts) + nl()
}

/// A layout statement, without its newline.
pub open spec fn layout_body(l: LayoutStmt, ts: Seq<Tensor>) -> Seq<char> {
    match l {
        LayoutStmt::At { tensor, pos } => tensor_name(ts, tensor) + " at "@ + point_text(pos@),
        LayoutStmt::Relative { tensor, relation, anchor, distance } => tensor_name(ts, tensor) + " "@
            + relation_text(relation) + " "@ + tensor_name(ts, anchor) + (match distance {
            Some(d) => ", "@ + number_text(d),
            None => Seq::empty(),
        }),
        LayoutStmt::Row { tensors } => "chain "@ + join(tensors@, |t: TensorId| tensor_name(ts, t), ", "@),
        LayoutStmt::Grid { base, rows, cols } => "grid "@ + base@ + " "@ + nat_text(rows as nat) + "x"@
            + nat_text(cols as nat),
        LayoutStmt::Stack { groups } => "stack "@ + join(groups@, |g: String| g@, ", "@),
        LayoutStmt::Tree { root, direction } => "tree "@ + tensor_name(ts, root) + " "@ + direction_text(
            direction,
        ),
    }
}

pub open spec fn leg_key_text(k: LegKey) -> Seq<char> {
    match k {
        LegKey::Label(l) => l@,
        LegKey::Position(p) => "#"@ + nat_text(p as nat),
    }
}

/// A rule's selector.
pub open spec fn selector_text(s: Selector, ts: Seq<Tensor>, ix: Seq<Index>) -> Seq<char> {
    match s {
        Selector::Tensors => "*"@,
        Selector::Bonds => "-"@,
        Selector::Legs => "leg"@,
        Selector::OpenLegs => "leg.open"@,
        Selector::Tag(t) => "tag:"@ + t@,
        Selector::Name(p) => pattern_text(p),
        Selector::LegOf(p, key) => pattern_text(p) + "."@ + leg_key_text(key),
        Selector::Tensor(t) => tensor_name(ts, t),
        Selector::Index(i) => index_name(ix, i),
        Selector::Slot(t, k) => tensor_name(ts, t) + "."@ + match ts[t.0 as int].slots@[k as int].label {
            Some(l) => l@,
            None => "#"@ + nat_text((k + 1) as nat),
        },
    }
}

/// `selector [attrs]`.
pub open spec fn rule_line(r: Rule, ts: Seq<Tensor>, ix: Seq<Index>) -> Seq<char> {
    selector_text(r.selector, ts, ix) + " "@ + attrs_text(attrs_view(r.attrs@)) + nl()
}

/// A section: a blank line before its lines, when it has any.
pub open spec fn section(nonempty: bool, body: Seq<char>) -> Seq<char> {
    if nonempty {
        nl() + body
    } else {
        body
    }
}

pub open spec fn indices_section(ix: Seq<Index>) -> Seq<char> {
    section(any_index_shown(ix), concat_map(ix, |i: Index| index_line(i)))
}

pub open spec fn tensors_section(ts: Seq<Tensor>, ix: Seq<Index>) -> Seq<char> {
    section(ts.len() > 0, concat_map(ts, |t: Tensor| tensor_line(t, ix)))
}

pub open spec fn groups_section(gs: Seq<Group>, ts: Seq<Tensor>) -> Seq<char> {
    section(gs.len() > 0, concat_map(gs, |g: Group| group_line(g, ts)))
}

pub open spec fn layout_section(ls: Seq<LayoutStmt>, ts: Seq<Tensor>) -> Seq<char> {
    section(ls.len() > 0, concat_map(ls, |l: LayoutStmt| layout_line(l, ts)))
}

pub open spec fn rules_section(rs: Seq<Rule>, ts: Seq<Tensor>, ix: Seq<Index>) -> Seq<char> {
    section(rs.len() > 0, concat_map(rs, |r: Rule| rule_line(r, ts, ix)))
}

/// The canonical text of a network.
pub open spec fn tnv_text(n: &Network) -> Seq<char> {
    let ts = n.tensors_view();
    let ix = n.indices_view();
    "tnv "@ + VERSION@ + nl() + scene_text(n.scene_view()) + indices_section(ix) + tensors_section(ts, ix)
        + groups_section(n.groups_view(), ts) + layout_section(n.layout_view(), ts) + rules_section(
        n.rules_view(),
        ts,
        ix,
    )
}

fn push_tensor_name(out: &mut Vec<char>, net: &Network, t: TensorId)
    requires
        t.0 < net.tensors_view().len(),
    ensures
        final(out)@ == old(out)@ + tensor_name(net.tensors_view(), t),
{
    net.tensor(t).name.push_text(out);
}

fn push_index_name(out: &mut Vec<char>, net: &Network, i: IndexId)
    requires
        i.0 < net.indices_view().len(),
    ensures
        final(out)@ == old(out)@ + index_name(net.indices_view(), i),
{
    let index = net.index(i);
    push_index_text(out, &index.name, index.prime);
}

/// `A, B, C`.
fn push_tensor_names(out: &mut Vec<char>, net: &Network, ids: &Vec<TensorId>)
    requires
        forall|k: int| 0 <= k < ids@.len() ==> (#[trigger] ids@[k]).0 < net.tensors_view().len(),
    ensures
        final(out)@ == old(out)@ + join(ids@, |t: TensorId| tensor_name(net.tensors_view(), t), ", "@),
{
    let ghost start = out@;
    let ghost f = |t: TensorId| tensor_name(net.tensors_view(), t);
    let mut k: usize = 0;
    while k < ids.len()
        invariant
            k <= ids@.len(),
            forall|j: int| 0 <= j < ids@.len() ==> (#[trigger] ids@[j]).0 < net.tensors_view().len(),
            f == (|t: TensorId| tensor_name(net.tensors_view(), t)),
            out@ == start + join(ids@.take(k as int), f, ", "@),
        decreases ids@.len() - k,
    {
        proof {
            lemma_join_step(ids@, f, ", "@, k as int);
            assert(join(ids@.take(0), f, ", "@) == Seq::<char>::empty());
        }
        if k > 0 {
            push_str(out, ", ");
        }
        push_tensor_name(out, net, ids[k]);
        k = k + 1;
    }
    assert(ids@.take(ids@.len() as int) =~= ids@);
}

/// `a, b, c`.
fn push_words(out: &mut Vec<char>, words: &Vec<String>)
    ensures
        final(out)@ == old(out)@ + join(words@, |g: String| g@, ", "@),
{
    let ghost start = out@;
    let ghost f = |g: String| g@;
    let mut k: usize = 0;
    while k < words.len()
        invariant
            k <= words@.len(),
            f == (|g: String| g@),
            out@ == start + join(words@.take(k as int), f, ", "@),
        decreases words@.len() - k,
    {
        proof {
            lemma_join_step(words@, f, ", "@, k as int);
            assert(join(words@.take(0), f, ", "@) == Seq::<char>::empty());
        }
        if k > 0 {
            push_str(out, ", ");
        }
        push_str(out, words[k].as_str());
        k = k + 1;
    }
    assert(words@.take(words@.len() as int) =~= words@);
}

fn push_direction(out: &mut Vec<char>, d: &Direction)
    requires
        direction_wf(*d),
    ensures
        final(out)@ == old(out)@ + direction_text(*d),
{
    match d {
        Direction::Word(w) | Direction::Axis(w) => push_str(out, w.as_str()),
        Direction::Angle(a) => a.push_text(out),
        Direction::Vector(v) => push_point(out, v),
    }
}

fn write_leg_key(out: &mut Vec<char>, key: &LegKey)
    ensures
        final(out)@ == old(out)@ + leg_key_text(*key),
{
    match key {
        LegKey::Label(l) => {
            let t = l.as_str();
            push_str(out, t);
        },
        LegKey::Position(k) => {
            push_str(out, "#");
            push_nat(out, *k as u64);
        },
    }
}

fn push_relation(out: &mut Vec<char>, r: Relation)
    ensures
        final(out)@ == old(out)@ + relation_text(r),
{
    match r {
        Relation::RightOf => push_str(out, "right of"),
        Relation::LeftOf => push_str(out, "left of"),
        Relation::Above => push_str(out, "above"),
        Relation::Below => push_str(out, "below"),
    }
}

pub open spec fn dim_text(d: Dim) -> Seq<char> {
    if d == Dim::Three {
        "3d\n"@
    } else {
        Seq::empty()
    }
}

pub open spec fn spacing_text(s: Option<crate::number::Number>) -> Seq<char> {
    match s {
        Some(d) => "spacing "@ + number_text(d) + nl(),
        None => Seq::empty(),
    }
}

pub open spec fn light_text(l: Option<Vec<crate::number::Number>>) -> Seq<char> {
    match l {
        Some(v) => if v@.len() == 1 {
            "light "@ + number_text(v@[0]) + nl()
        } else {
            "light "@ + point_text(v@) + nl()
        },
        None => Seq::empty(),
    }
}

pub open spec fn camera_text(c: Option<crate::model::Camera>) -> Seq<char> {
    match c {
        Some(c) => "camera"@ + (match c.angles {
            Some((az, el)) => " "@ + number_text(az) + " "@ + number_text(el),
            None => Seq::empty(),
        }) + (if c.attrs@.len() > 0 {
            " "@ + attrs_text(attrs_view(c.attrs@))
        } else {
            Seq::empty()
        }) + nl(),
        None => Seq::empty(),
    }
}

fn push_spacing(out: &mut Vec<char>, s: &Option<crate::number::Number>)
    requires
        *s matches Some(x) ==> number_wf(x),
    ensures
        final(out)@ == old(out)@ + spacing_text(*s),
{
    let ghost start = out@;
    match s {
        Some(d) => {
            push_str(out, "spacing ");
            d.push_text(out);
            out.push('\n');
        },
        None => {},
    }
    assert(out@ =~= start + spacing_text(*s));
}

fn push_light(out: &mut Vec<char>, l: &Option<Vec<crate::number::Number>>)
    requires
        l matches Some(v) ==> numbers_wf(v@),
    ensures
        final(out)@ == old(out)@ + light_text(*l),
{
    let ghost start = out@;
    match l {
        Some(v) => {
            push_str(out, "light ");
            if v.len() == 1 {
                v[0].push_text(out);
            } else {
                push_point(out, v);
            }
            out.push('\n');
        },
        None => {},
    }
    assert(out@ =~= start + light_text(*l));
}

fn push_camera(out: &mut Vec<char>, c: &Option<crate::model::Camera>)
    requires
        c matches Some(c) ==> (c.angles matches Some((a, b)) ==> number_wf(a) && number_wf(b)) && attrs_wf(
            attrs_view(c.attrs@),
        ),
    ensures
        final(out)@ == old(out)@ + camera_text(*c),
{
    let ghost start = out@;
    match c {
        Some(cam) => {
            push_str(out, "camera");
            match &cam.angles {
                Some((az, el)) => {
                    push_str(out, " ");
                    az.push_text(out);
                    push_str(out, " ");
                    el.push_text(out);
                },
                None => {},
            }
            if cam.attrs.len() > 0 {
                push_str(out, " ");
                push_attrs(out, cam.attrs.as_slice());
            }
            out.push('\n');
        },
        None => {},
    }
    assert(out@ =~= start + camera_text(*c));
}

fn push_scene(out: &mut Vec<char>, sc: &Scene)
    requires
        sc.spacing matches Some(x) ==> number_wf(x),
        sc.light matches Some(v) ==> numbers_wf(v@),
        sc.camera matches Some(c) ==> (c.angles matches Some((a, b)) ==> number_wf(a) && number_wf(b))
            && attrs_wf(attrs_view(c.attrs@)),
    ensures
        final(out)@ == old(out)@ + scene_text(*sc),
{
    let ghost start = out@;
    if sc.dim == Dim::Three {
        push_str(out, "3d\n");
    }
    let ghost a = out@;
    assert(a =~= start + dim_text(sc.dim));
    push_spacing(out, &sc.spacing);
    let ghost b = out@;
    push_light(out, &sc.light);
    let ghost c = out@;
    push_camera(out, &sc.camera);
    assert(out@ =~= start + scene_text(*sc));
}

fn push_index_line(out: &mut Vec<char>, i: &Index)
    ensures
        final(out)@ == old(out)@ + index_line(*i),
{
    let ghost start = out@;
    if i.tags.len() == 0 && i.dim.is_none() {
        assert(out@ =~= start + index_line(*i));
        return;
    }
    push_str(out, "index ");
    push_index_text(out, &i.name, i.prime);
    let ghost a = out@;
    if i.tags.len() > 0 {
        push_str(out, " : ");
        push_words(out, &i.tags);
    }
    let ghost b = out@;
    match i.dim {
        Some(d) => {
            push_str(out, " [dim=");
            push_nat(out, d);
            push_str(out, "]");
        },
        None => {},
    }
    out.push('\n');
    assert(out@ =~= start + index_line(*i));
}

fn push_slot(out: &mut Vec<char>, net: &Network, s: &Slot)
    requires
        s.index.0 < net.indices_view().len(),
    ensures
        final(out)@ == old(out)@ + slot_text(*s, net.indices_view()),
{
    let ghost start = out@;
    match &s.label {
        Some(l) => {
            push_str(out, l.as_str());
            push_str(out, "=");
        },
        None => {},
    }
    push_index_name(out, net, s.index);
    assert(out@ =~= start + slot_text(*s, net.indices_view()));
}

fn push_tensor_line(out: &mut Vec<char>, net: &Network, t: TensorId)
    requires
        net.wf(),
        t.0 < net.tensors_view().len(),
    ensures
        final(out)@ == old(out)@ + tensor_line(net.tensors_view()[t.0 as int], net.indices_view()),
{
    let ghost start = out@;
    let tensor = net.tensor(t);
    push_str(out, "tensor ");
    tensor.name.push_text(out);
    push_str(out, " (");
    let ghost mid = out@;
    let ghost ix = net.indices_view();
    let ghost f = |s: Slot| slot_text(s, ix);
    let mut k: usize = 0;
    while k < tensor.slots.len()
        invariant
            k <= tensor.slots@.len(),
            net.wf(),
            t.0 < net.tensors_view().len(),
            *tensor == net.tensors_view()[t.0 as int],
            ix == net.indices_view(),
            f == (|s: Slot| slot_text(s, ix)),
            out@ == mid + join(tensor.slots@.take(k as int), f, ", "@),
        decreases tensor.slots@.len() - k,
    {
        proof {
            lemma_join_step(tensor.slots@, f, ", "@, k as int);
            assert(join(tensor.slots@.take(0), f, ", "@) == Seq::<char>::empty());
            net.lemma_slot_index(t, k as int);
        }
        if k > 0 {
            push_str(out, ", ");
        }
        push_slot(out, net, &tensor.slots[k]);
        k = k + 1;
    }
    assert(tensor.slots@.take(tensor.slots@.len() as int) =~= tensor.slots@);
    push_str(out, ")\n");
    assert(out@ =~= start + tensor_line(net.tensors_view()[t.0 as int], net.indices_view()));
}

fn push_group_line(out: &mut Vec<char>, net: &Network, g: &Group)
    requires
        forall|k: int| 0 <= k < g.members@.len() ==> (#[trigger] g.members@[k]).0 < net.tensors_view().len(),
    ensures
        final(out)@ == old(out)@ + group_line(*g, net.tensors_view()),
{
    let ghost start = out@;
    push_str(out, g.name.as_str());
    push_str(out, ": ");
    push_tensor_names(out, net, &g.members);
    out.push('\n');
    assert(out@ =~= start + group_line(*g, net.tensors_view()));
}

#[verifier::rlimit(80)]
fn push_layout_line(out: &mut Vec<char>, net: &Network, l: &LayoutStmt)
    requires
        layout_refs_ok(*l, net.tensors_view().len()),
        layout_values_ok(*l),
    ensures
        final(out)@ == old(out)@ + layout_line(*l, net.tensors_view()),
{
    let ghost start = out@;
    match l {
        LayoutStmt::At { tensor, pos } => {
            push_tensor_name(out, net, *tensor);
            push_str(out, " at ");
            push_point(out, pos);
            assert(out@ =~= start + layout_body(*l, net.tensors_view()));
        },
        LayoutStmt::Relative { tensor, relation, anchor, distance } => {
            push_tensor_name(out, net, *tensor);
            push_str(out, " ");
            push_relation(out, *relation);
            push_str(out, " ");
            push_tensor_name(out, net, *anchor);
            match distance {
                Some(d) => {
                    push_str(out, ", ");
                    d.push_text(out);
                },
                None => {},
            }
            assert(out@ =~= start + layout_body(*l, net.tensors_view()));
        },
        LayoutStmt::Row { tensors } => {
            push_str(out, "chain ");
            push_tensor_names(out, net, tensors);
            assert(out@ =~= start + layout_body(*l, net.tensors_view()));
        },
        LayoutStmt::Grid { base, rows, cols } => {
            push_str(out, "grid ");
            push_str(out, base.as_str());
            push_str(out, " ");
            push_nat(out, *rows as u64);
            push_str(out, "x");
            push_nat(out, *cols as u64);
            assert(out@ =~= start + layout_body(*l, net.tensors_view()));
        },
        LayoutStmt::Stack { groups } => {
            push_str(out, "stack ");
            push_words(out, groups);
            assert(out@ =~= start + layout_body(*l, net.tensors_view()));
        },
        LayoutStmt::Tree { root, direction } => {
            push_str(out, "tree ");
            push_tensor_name(out, net, *root);
            push_str(out, " ");
            push_direction(out, direction);
            assert(out@ =~= start + layout_body(*l, net.tensors_view()));
        },
    }
    let ghost body = out@;
    out.push('\n');
    assert(out@ =~= body + nl());
}

fn push_selector(out: &mut Vec<char>, net: &Network, sel: &Selector)
    requires
        selector_ok(*sel, net.tensors_view(), net.indices_view().len()),
    ensures
        final(out)@ == old(out)@ + selector_text(*sel, net.tensors_view(), net.indices_view()),
{
    let ghost start = out@;
    match sel {
        Selector::Tensors => push_str(out, "*"),
        Selector::Bonds => push_str(out, "-"),
        Selector::Legs => push_str(out, "leg"),
        Selector::OpenLegs => push_str(out, "leg.open"),
        Selector::Tag(t) => {
            push_str(out, "tag:");
            push_str(out, t.as_str());
        },
        Selector::Name(p) => p.push_text(out),
        Selector::LegOf(p, key) => {
            p.push_text(out);
            push_str(out, ".");
            write_leg_key(out, key);
        },
        Selector::Tensor(t) => push_tensor_name(out, net, *t),
        Selector::Index(i) => push_index_name(out, net, *i),
        Selector::Slot(t, k) => {
            push_tensor_name(out, net, *t);
            push_str(out, ".");
            let n = net.tensor(*t).slots.len();
            match &net.tensor(*t).slots[*k].label {
                Some(l) => push_str(out, l.as_str()),
                None => {
                    push_str(out, "#");
                    push_nat(out, *k as u64 + 1);
                },
            }
        },
    }
    assert(out@ =~= start + selector_text(*sel, net.tensors_view(), net.indices_view()));
}

fn push_rule_line(out: &mut Vec<char>, net: &Network, r: &Rule)
    requires
        selector_ok(r.selector, net.tensors_view(), net.indices_view().len()),
        attrs_wf(attrs_view(r.attrs@)),
    ensures
        final(out)@ == old(out)@ + rule_line(*r, net.tensors_view(), net.indices_view()),
{
    let ghost start = out@;
    push_selector(out, net, &r.selector);
    push_str(out, " ");
    push_attrs(out, r.attrs.as_slice());
    out.push('\n');
    assert(out@ =~= start + rule_line(*r, net.tensors_view(), net.indices_view()));
}

fn push_indices(out: &mut Vec<char>, net: &Network)
    ensures
        final(out)@ == old(out)@ + indices_section(net.indices_view()),
{
    let ix = net.indices();
    let mut shown = false;
    let mut k: usize = 0;
    while k < ix.len()
        invariant
            k <= ix@.len(),
            ix@ == net.indices_view(),
            shown <==> exists|j: int| 0 <= j < k && index_shown(#[trigger] ix@[j]),
        decreases ix@.len() - k,
    {
        if ix[k].tags.len() > 0 || ix[k].dim.is_some() {
            shown = true;
        }
        k = k + 1;
    }
    if shown {
        out.push('\n');
    }
    let ghost start = out@;
    let ghost f = |i: Index| index_line(i);
    let mut k: usize = 0;
    while k < ix.len()
        invariant
            k <= ix@.len(),
            ix@ == net.indices_view(),
            f == (|i: Index| index_line(i)),
            out@ == start + concat_map(ix@.take(k as int), f),
        decreases ix@.len() - k,
    {
        proof {
            lemma_concat_map_step(ix@, f, k as int);
        }
        push_index_line(out, &ix[k]);
        k = k + 1;
    }
    assert(ix@.take(ix@.len() as int) =~= ix@);
}

fn push_tensors(out: &mut Vec<char>, net: &Network)
    requires
        net.wf(),
    ensures
        final(out)@ == old(out)@ + tensors_section(net.tensors_view(), net.indices_view()),
{
    let n = net.tensors().len();
    if n > 0 {
        out.push('\n');
    }
    let ghost start = out@;
    let ghost ts = net.tensors_view();
    let ghost f = |t: Tensor| tensor_line(t, net.indices_view());
    let mut k: usize = 0;
    while k < n
        invariant
            k <= n,
            n == ts.len(),
            net.wf(),
            ts == net.tensors_view(),
            f == (|t: Tensor| tensor_line(t, net.indices_view())),
            out@ == start + concat_map(ts.take(k as int), f),
        decreases n - k,
    {
        proof {
            lemma_concat_map_step(ts, f, k as int);
        }
        push_tensor_line(out, net, TensorId(k));
        k = k + 1;
    }
    assert(ts.take(ts.len() as int) =~= ts);
}

fn push_groups(out: &mut Vec<char>, net: &Network)
    requires
        refs_ok(net),
    ensures
        final(out)@ == old(out)@ + groups_section(net.groups_view(), net.tensors_view()),
{
    let gs = net.groups();
    if gs.len() > 0 {
        out.push('\n');
    }
    let ghost start = out@;
    let ghost f = |g: Group| group_line(g, net.tensors_view());
    let mut k: usize = 0;
    while k < gs.len()
        invariant
            k <= gs@.len(),
            gs@ == net.groups_view(),
            refs_ok(net),
            f == (|g: Group| group_line(g, net.tensors_view())),
            out@ == start + concat_map(gs@.take(k as int), f),
        decreases gs@.len() - k,
    {
        proof {
            lemma_concat_map_step(gs@, f, k as int);
            assert forall|m: int| 0 <= m < gs@[k as int].members@.len() implies (
            #[trigger] gs@[k as int].members@[m]).0 < net.tensors_view().len() by {
                assert(net.groups_view()[k as int].members@[m] == gs@[k as int].members@[m]);
            }
        }
        push_group_line(out, net, &gs[k]);
        k = k + 1;
    }
    assert(gs@.take(gs@.len() as int) =~= gs@);
}

fn push_layouts(out: &mut Vec<char>, net: &Network)
    requires
        refs_ok(net),
        values_ok(net),
    ensures
        final(out)@ == old(out)@ + layout_section(net.layout_view(), net.tensors_view()),
{
    let ls = net.layout_statements();
    if ls.len() > 0 {
        out.push('\n');
    }
    let ghost start = out@;
    let ghost f = |l: LayoutStmt| layout_line(l, net.tensors_view());
    let mut k: usize = 0;
    while k < ls.len()
        invariant
            k <= ls@.len(),
            ls@ == net.layout_view(),
            refs_ok(net),
            values_ok(net),
            f == (|l: LayoutStmt| layout_line(l, net.tensors_view())),
            out@ == start + concat_map(ls@.take(k as int), f),
        decreases ls@.len() - k,
    {
        proof {
            lemma_concat_map_step(ls@, f, k as int);
            assert(layout_refs_ok(net.layout_view()[k as int], net.tensors_view().len()));
            assert(layout_values_ok(net.layout_view()[k as int]));
        }
        push_layout_line(out, net, &ls[k]);
        k = k + 1;
    }
    assert(ls@.take(ls@.len() as int) =~= ls@);
}

fn push_rules(out: &mut Vec<char>, net: &Network)
    requires
        refs_ok(net),
        values_ok(net),
    ensures
        final(out)@ == old(out)@ + rules_section(net.rules_view(), net.tensors_view(), net.indices_view()),
{
    let rs = net.rules();
    if rs.len() > 0 {
        out.push('\n');
    }
    let ghost start = out@;
    let ghost f = |r: Rule| rule_line(r, net.tensors_view(), net.indices_view());
    let mut k: usize = 0;
    while k < rs.len()
        invariant
            k <= rs@.len(),
            rs@ == net.rules_view(),
            refs_ok(net),
            values_ok(net),
            f == (|r: Rule| rule_line(r, net.tensors_view(), net.indices_view())),
            out@ == start + concat_map(rs@.take(k as int), f),
        decreases rs@.len() - k,
    {
        proof {
            lemma_concat_map_step(rs@, f, k as int);
            assert(selector_ok(net.rules_view()[k as int].selector, net.tensors_view(), net.indices_view().len()));
            assert(attrs_wf(attrs_view(net.rules_view()[k as int].attrs@)));
        }
        push_rule_line(out, net, &rs[k]);
        k = k + 1;
    }
    assert(rs@.take(rs@.len() as int) =~= rs@);
}

/// The network in canonical tnv: the version, the scene, the declared
/// indices, the tensors with their slots, then groups, layout, and rules,
/// each section after a blank line.
pub fn to_tnv(net: &Network) -> (s: String)
    requires
        lowered(net),
    ensures
        s@ == tnv_text(net),
{
    let mut out: Vec<char> = Vec::new();
    push_str(&mut out, "tnv ");
    push_str(&mut out, VERSION);
    out.push('\n');
    let ghost a = out@;
    push_scene(&mut out, net.scene());
    let ghost b = out@;
    push_indices(&mut out, net);
    let ghost c = out@;
    push_tensors(&mut out, net);
    let ghost d = out@;
    push_groups(&mut out, net);
    let ghost e = out@;
    push_layouts(&mut out, net);
    let ghost f = out@;
    push_rules(&mut out, net);
    assert(out@ =~= tnv_text(net));
    string_of(out.as_slice())
}

} // verus!
