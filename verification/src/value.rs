//! Attribute values and attribute lists: `[key=value, flag, ...]`.

use vstd::prelude::*;

use crate::name::join;
use crate::number::{Number, number_text, number_wf};
use crate::text::{chars_of, push_chars, string_copy, string_of, strings_equal};

verus! {

/// The value of one attribute.  Values are kept as written; their meaning is
/// decided by whoever reads the attribute.
#[derive(Clone, Debug, PartialEq)]
pub enum Value {
    /// A key without a value, such as `tube` in `[tube]`.
    Flag,
    Number(Number),
    Length(Number, String),
    Str(String),
    /// Inline math, dollar signs included, such as `$\chi$`.
    Math(String),
    /// Any other bare word, such as `blue!64!black` or `down-left`.
    Word(String),
    /// One or more coordinates, such as `(2, 1), (3, 1)`.
    Points(Vec<Vec<Number>>),
}

/// A value seen as mathematical data.
pub enum ValueView {
    Flag,
    Number(Number),
    Length(Number, Seq<char>),
    Str(Seq<char>),
    Math(Seq<char>),
    Word(Seq<char>),
    Points(Seq<Seq<Number>>),
}

impl View for Value {
    type V = ValueView;

    open spec fn view(&self) -> ValueView {
        match self {
            Value::Flag => ValueView::Flag,
            Value::Number(x) => ValueView::Number(*x),
            Value::Length(x, u) => ValueView::Length(*x, u@),
            Value::Str(s) => ValueView::Str(s@),
            Value::Math(s) => ValueView::Math(s@),
            Value::Word(s) => ValueView::Word(s@),
            Value::Points(p) => ValueView::Points(p@.map_values(|q: Vec<Number>| q@)),
        }
    }
}

#[derive(Clone, Debug, PartialEq)]
pub struct Attr {
    pub key: String,
    pub value: Value,
}

impl View for Attr {
    type V = (Seq<char>, ValueView);

    open spec fn view(&self) -> (Seq<char>, ValueView) {
        (self.key@, self.value@)
    }
}

/// Every number in a point list is in lowest terms.
pub open spec fn points_wf(p: Seq<Seq<Number>>) -> bool {
    forall|i: int, j: int| 0 <= i < p.len() && 0 <= j < p[i].len() ==> number_wf(#[trigger] p[i][j])
}

/// Every number in a value is in lowest terms.
pub open spec fn value_wf(v: ValueView) -> bool {
    match v {
        ValueView::Number(x) => number_wf(x),
        ValueView::Length(x, _) => number_wf(x),
        ValueView::Points(p) => points_wf(p),
        _ => true,
    }
}

pub open spec fn attrs_wf(a: Seq<(Seq<char>, ValueView)>) -> bool {
    forall|i: int| 0 <= i < a.len() ==> value_wf(#[trigger] a[i].1)
}

/// The views of a list of attributes.
pub open spec fn attrs_view(a: Seq<Attr>) -> Seq<(Seq<char>, ValueView)> {
    a.map_values(|x: Attr| x@)
}

/// Whether a string holds a double quote.
pub open spec fn has_quote(s: Seq<char>) -> bool {
    exists|i: int| 0 <= i < s.len() && s[i] == '"'
}

/// `(2, 1)`.
pub open spec fn point_text(p: Seq<Number>) -> Seq<char> {
    seq!['('] + join(p, |x: Number| number_text(x), seq![',', ' ']) + seq![')']
}

/// A value as the language writes it.
pub open spec fn value_text(v: ValueView) -> Seq<char> {
    match v {
        ValueView::Flag => Seq::empty(),
        ValueView::Number(x) => number_text(x),
        ValueView::Length(x, u) => number_text(x) + u,
        ValueView::Str(s) => if has_quote(s) {
            seq!['#', '"'] + s + seq!['"', '#']
        } else {
            seq!['"'] + s + seq!['"']
        },
        ValueView::Math(s) => s,
        ValueView::Word(s) => s,
        ValueView::Points(p) => join(p, |q: Seq<Number>| point_text(q), seq![',', ' ']),
    }
}

/// `key=value`, or the key alone for a flag.
pub open spec fn attr_text(a: (Seq<char>, ValueView)) -> Seq<char> {
    match a.1 {
        ValueView::Flag => a.0,
        _ => a.0 + seq!['='] + value_text(a.1),
    }
}

/// `[a=1, b]`.
pub open spec fn attrs_text(a: Seq<(Seq<char>, ValueView)>) -> Seq<char> {
    seq!['['] + join(a, |x: (Seq<char>, ValueView)| attr_text(x), seq![',', ' ']) + seq![']']
}

/// A copy of a list of numbers.
pub fn copy_numbers(p: &Vec<Number>) -> (r: Vec<Number>)
    ensures
        r@ == p@,
{
    let mut r: Vec<Number> = Vec::new();
    let mut k: usize = 0;
    while k < p.len()
        invariant
            k <= p@.len(),
            r@ == p@.take(k as int),
        decreases p@.len() - k,
    {
        r.push(p[k]);
        k = k + 1;
        assert(r@ =~= p@.take(k as int));
    }
    assert(p@.take(p@.len() as int) =~= p@);
    r
}

/// A copy of a list of points.
pub fn copy_points(p: &Vec<Vec<Number>>) -> (r: Vec<Vec<Number>>)
    ensures
        r@.map_values(|q: Vec<Number>| q@) == p@.map_values(|q: Vec<Number>| q@),
{
    let mut r: Vec<Vec<Number>> = Vec::new();
    let mut k: usize = 0;
    while k < p.len()
        invariant
            k <= p@.len(),
            r@.len() == k,
            forall|j: int| 0 <= j < k ==> #[trigger] r@[j]@ == p@[j]@,
        decreases p@.len() - k,
    {
        r.push(copy_numbers(&p[k]));
        k = k + 1;
    }
    assert(r@.map_values(|q: Vec<Number>| q@) =~= p@.map_values(|q: Vec<Number>| q@));
    r
}

impl Value {
    /// A copy of the value.
    pub fn copy(&self) -> (r: Value)
        ensures
            r@ == self@,
    {
        match self {
            Value::Flag => Value::Flag,
            Value::Number(x) => Value::Number(*x),
            Value::Length(x, u) => Value::Length(*x, string_copy(u)),
            Value::Str(s) => Value::Str(string_copy(s)),
            Value::Math(s) => Value::Math(string_copy(s)),
            Value::Word(s) => Value::Word(string_copy(s)),
            Value::Points(p) => Value::Points(copy_points(p)),
        }
    }

    /// Whether the value is the word `w`.
    pub fn is_word(&self, w: &str) -> (r: bool)
        ensures
            r == (self@ == ValueView::Word(w@)),
    {
        match self {
            Value::Word(s) => {
                let a = chars_of(s.as_str());
                crate::text::str_is(w, a.as_slice())
            },
            _ => false,
        }
    }

    /// Append the value as the language writes it.
    pub fn push_text(&self, out: &mut Vec<char>)
        requires
            value_wf(self@),
        ensures
            final(out)@ == old(out)@ + value_text(self@),
    {
        match self {
            Value::Flag => {},
            Value::Number(x) => x.push_text(out),
            Value::Length(x, u) => {
                x.push_text(out);
                let c = chars_of(u.as_str());
                push_chars(out, c.as_slice());
            },
            Value::Str(s) => {
                let c = chars_of(s.as_str());
                let q = contains_char(c.as_slice(), '"');
                if q {
                    out.push('#');
                    out.push('"');
                    push_chars(out, c.as_slice());
                    out.push('"');
                    out.push('#');
                } else {
                    out.push('"');
                    push_chars(out, c.as_slice());
                    out.push('"');
                }
            },
            Value::Math(s) | Value::Word(s) => {
                let c = chars_of(s.as_str());
                push_chars(out, c.as_slice());
            },
            Value::Points(p) => {
                let ghost start = out@;
                let ghost f = |q: Seq<Number>| point_text(q);
                let ghost pv = p@.map_values(|q: Vec<Number>| q@);
                let mut k: usize = 0;
                while k < p.len()
                    invariant
                        k <= p@.len(),
                        pv == p@.map_values(|q: Vec<Number>| q@),
                        points_wf(pv),
                        f == (|q: Seq<Number>| point_text(q)),
                        out@ == start + join(pv.take(k as int), f, seq![',', ' ']),
                    decreases p@.len() - k,
                {
                    proof {
                        crate::name::lemma_join_step(pv, f, seq![',', ' '], k as int);
                        assert(join(pv.take(0), f, seq![',', ' ']) == Seq::<char>::empty());
                    }
                    if k > 0 {
                        out.push(',');
                        out.push(' ');
                    }
                    assert(pv[k as int] == p@[k as int]@);
                    push_point(out, &p[k]);
                    k = k + 1;
                }
                assert(pv.take(p@.len() as int) =~= pv);
            },
        }
    }
}

/// Whether `c` occurs in `s`.
pub fn contains_char(s: &[char], c: char) -> (r: bool)
    ensures
        r == exists|i: int| 0 <= i < s@.len() && s@[i] == c,
{
    let mut k: usize = 0;
    while k < s.len()
        invariant
            k <= s@.len(),
            forall|j: int| 0 <= j < k ==> s@[j] != c,
        decreases s@.len() - k,
    {
        if s[k] == c {
            return true;
        }
        k = k + 1;
    }
    false
}

/// Append a point, `(2, 1)`.
pub fn push_point(out: &mut Vec<char>, p: &Vec<Number>)
    requires
        forall|j: int| 0 <= j < p@.len() ==> number_wf(#[trigger] p@[j]),
    ensures
        final(out)@ == old(out)@ + point_text(p@),
{
    out.push('(');
    let ghost start = out@;
    let ghost f = |x: Number| number_text(x);
    let mut k: usize = 0;
    while k < p.len()
        invariant
            k <= p@.len(),
            forall|j: int| 0 <= j < p@.len() ==> number_wf(#[trigger] p@[j]),
            f == (|x: Number| number_text(x)),
            out@ == start + join(p@.take(k as int), f, seq![',', ' ']),
        decreases p@.len() - k,
    {
        proof {
            crate::name::lemma_join_step(p@, f, seq![',', ' '], k as int);
            assert(join(p@.take(0), f, seq![',', ' ']) == Seq::<char>::empty());
        }
        if k > 0 {
            out.push(',');
            out.push(' ');
        }
        p[k].push_text(out);
        k = k + 1;
    }
    assert(p@.take(p@.len() as int) =~= p@);
    out.push(')');
}

impl Attr {
    pub fn new(key: String, value: Value) -> (a: Self)
        ensures
            a.key@ == key@,
            a.value@ == value@,
    {
        Attr { key, value }
    }

    /// A copy of the attribute.
    pub fn copy(&self) -> (a: Self)
        ensures
            a@ == self@,
    {
        Attr { key: string_copy(&self.key), value: self.value.copy() }
    }

    /// Append `key=value`, or the key alone for a flag.
    pub fn push_text(&self, out: &mut Vec<char>)
        requires
            value_wf(self.value@),
        ensures
            final(out)@ == old(out)@ + attr_text(self@),
    {
        let k = chars_of(self.key.as_str());
        push_chars(out, k.as_slice());
        match self.value {
            Value::Flag => {},
            _ => {
                out.push('=');
                self.value.push_text(out);
            },
        }
    }
}

/// Append `[a=1, b]`.
pub fn push_attrs(out: &mut Vec<char>, attrs: &[Attr])
    requires
        attrs_wf(attrs_view(attrs@)),
    ensures
        final(out)@ == old(out)@ + attrs_text(attrs_view(attrs@)),
{
    out.push('[');
    let ghost start = out@;
    let ghost av = attrs_view(attrs@);
    let ghost f = |x: (Seq<char>, ValueView)| attr_text(x);
    let mut k: usize = 0;
    while k < attrs.len()
        invariant
            k <= attrs@.len(),
            av == attrs_view(attrs@),
            attrs_wf(av),
            f == (|x: (Seq<char>, ValueView)| attr_text(x)),
            out@ == start + join(av.take(k as int), f, seq![',', ' ']),
        decreases attrs@.len() - k,
    {
        proof {
            crate::name::lemma_join_step(av, f, seq![',', ' '], k as int);
            assert(join(av.take(0), f, seq![',', ' ']) == Seq::<char>::empty());
        }
        if k > 0 {
            out.push(',');
            out.push(' ');
        }
        assert(value_wf(av[k as int].1));
        attrs[k].push_text(out);
        k = k + 1;
    }
    assert(av.take(attrs@.len() as int) =~= av);
    out.push(']');
}

/// The attribute list as text, `[a=1, b]`.
pub fn attrs_to_text(attrs: &[Attr]) -> (s: String)
    requires
        attrs_wf(attrs_view(attrs@)),
    ensures
        s@ == attrs_text(attrs_view(attrs@)),
{
    let mut out: Vec<char> = Vec::new();
    push_attrs(&mut out, attrs);
    string_of(out.as_slice())
}

// ---- Merging -----------------------------------------------------------------

/// The position of the first attribute with the key, or -1.
pub open spec fn key_pos(a: Seq<(Seq<char>, ValueView)>, key: Seq<char>) -> int
    decreases a.len(),
{
    if a.len() == 0 {
        -1
    } else {
        let k = key_pos(a.drop_last(), key);
        if k >= 0 {
            k
        } else if a.last().0 == key {
            a.len() - 1
        } else {
            -1
        }
    }
}

/// One attribute merged in: it replaces the value of an attribute with the
/// same key, in place, or is appended.
pub open spec fn merge_step(out: Seq<(Seq<char>, ValueView)>, a: (Seq<char>, ValueView)) -> Seq<
    (Seq<char>, ValueView),
> {
    let k = key_pos(out, a.0);
    if k >= 0 {
        out.update(k, a)
    } else {
        out.push(a)
    }
}

/// Attributes merged in order.
pub open spec fn merge_seq(s: Seq<(Seq<char>, ValueView)>) -> Seq<(Seq<char>, ValueView)>
    decreases s.len(),
{
    if s.len() == 0 {
        Seq::empty()
    } else {
        merge_step(merge_seq(s.drop_last()), s.last())
    }
}

/// Several attribute lists, one after another.
pub open spec fn flatten(lists: Seq<Seq<(Seq<char>, ValueView)>>) -> Seq<(Seq<char>, ValueView)>
    decreases lists.len(),
{
    if lists.len() == 0 {
        Seq::empty()
    } else {
        flatten(lists.drop_last()) + lists.last()
    }
}

pub proof fn lemma_key_pos(a: Seq<(Seq<char>, ValueView)>, key: Seq<char>)
    ensures
        -1 <= key_pos(a, key) < a.len(),
        key_pos(a, key) >= 0 ==> a[key_pos(a, key)].0 == key,
        key_pos(a, key) >= 0 ==> forall|j: int| 0 <= j < key_pos(a, key) ==> a[j].0 != key,
        key_pos(a, key) < 0 ==> forall|j: int| 0 <= j < a.len() ==> a[j].0 != key,
    decreases a.len(),
{
    if a.len() > 0 {
        lemma_key_pos(a.drop_last(), key);
        assert(forall|j: int| 0 <= j < a.len() - 1 ==> a.drop_last()[j] == a[j]);
    }
}

/// Find the first attribute with a key.
fn find_key(out: &Vec<Attr>, key: &String) -> (r: Option<usize>)
    ensures
        match r {
            Some(k) => key_pos(attrs_view(out@), key@) == k,
            None => key_pos(attrs_view(out@), key@) == -1,
        },
{
    let ghost v = attrs_view(out@);
    proof {
        lemma_key_pos(v, key@);
    }
    let mut k: usize = 0;
    while k < out.len()
        invariant
            k <= out@.len(),
            v == attrs_view(out@),
            -1 <= key_pos(v, key@) < v.len(),
            key_pos(v, key@) >= 0 ==> v[key_pos(v, key@)].0 == key@,
            key_pos(v, key@) >= 0 ==> forall|j: int| 0 <= j < key_pos(v, key@) ==> v[j].0 != key@,
            key_pos(v, key@) < 0 ==> forall|j: int| 0 <= j < v.len() ==> v[j].0 != key@,
            forall|j: int| 0 <= j < k ==> v[j].0 != key@,
        decreases out@.len() - k,
    {
        if strings_equal(&out[k].key, key) {
            assert(v[k as int].0 == key@);
            return Some(k);
        }
        k = k + 1;
    }
    None
}

/// Merge one attribute list into another in order: a later value for the
/// same key replaces an earlier one, in its original position.
pub fn merge_into(out: &mut Vec<Attr>, list: &[Attr])
    ensures
        attrs_view(final(out)@) == merge_seq_from(attrs_view(old(out)@), attrs_view(list@)),
{
    let ghost start = attrs_view(out@);
    let ghost lv = attrs_view(list@);
    let mut k: usize = 0;
    while k < list.len()
        invariant
            k <= list@.len(),
            lv == attrs_view(list@),
            attrs_view(out@) == merge_seq_from(start, lv.take(k as int)),
        decreases list@.len() - k,
    {
        let a = list[k].copy();
        let ghost before = attrs_view(out@);
        match find_key(out, &a.key) {
            Some(i) => {
                proof {
                    lemma_key_pos(before, a.key@);
                }
                out.set(i, a);
                assert(attrs_view(out@) =~= before.update(i as int, lv[k as int]));
            },
            None => {
                out.push(a);
                assert(attrs_view(out@) =~= before.push(lv[k as int]));
            },
        }
        assert(lv.take(k + 1).drop_last() =~= lv.take(k as int));
        k = k + 1;
    }
    assert(lv.take(list@.len() as int) =~= lv);
}

/// `s` merged into `start`.
pub open spec fn merge_seq_from(start: Seq<(Seq<char>, ValueView)>, s: Seq<(Seq<char>, ValueView)>) -> Seq<
    (Seq<char>, ValueView),
>
    decreases s.len(),
{
    if s.len() == 0 {
        start
    } else {
        merge_step(merge_seq_from(start, s.drop_last()), s.last())
    }
}

pub proof fn lemma_merge_concat(
    start: Seq<(Seq<char>, ValueView)>,
    a: Seq<(Seq<char>, ValueView)>,
    b: Seq<(Seq<char>, ValueView)>,
)
    ensures
        merge_seq_from(merge_seq_from(start, a), b) == merge_seq_from(start, a + b),
    decreases b.len(),
{
    if b.len() == 0 {
        assert(a + b =~= a);
    } else {
        lemma_merge_concat(start, a, b.drop_last());
        assert((a + b).drop_last() =~= a + b.drop_last());
        assert((a + b).last() == b.last());
    }
}

pub proof fn lemma_merge_from_empty(s: Seq<(Seq<char>, ValueView)>)
    ensures
        merge_seq_from(Seq::empty(), s) == merge_seq(s),
    decreases s.len(),
{
    if s.len() > 0 {
        lemma_merge_from_empty(s.drop_last());
    }
}

/// Merge attribute lists in order: a later value for the same key replaces
/// an earlier one, in its original position.
pub fn merge_attrs(lists: &[Vec<Attr>]) -> (r: Vec<Attr>)
    ensures
        attrs_view(r@) == merge_seq(flatten(lists@.map_values(|l: Vec<Attr>| attrs_view(l@)))),
{
    let ghost lv = lists@.map_values(|l: Vec<Attr>| attrs_view(l@));
    let mut out: Vec<Attr> = Vec::new();
    let mut k: usize = 0;
    while k < lists.len()
        invariant
            k <= lists@.len(),
            lv == lists@.map_values(|l: Vec<Attr>| attrs_view(l@)),
            attrs_view(out@) == merge_seq_from(Seq::empty(), flatten(lv.take(k as int))),
        decreases lists@.len() - k,
    {
        let ghost before = attrs_view(out@);
        merge_into(&mut out, lists[k].as_slice());
        proof {
            assert(lv.take(k + 1).drop_last() =~= lv.take(k as int));
            assert(lv.take(k + 1).last() == lv[k as int]);
            lemma_merge_concat(Seq::empty(), flatten(lv.take(k as int)), lv[k as int]);
        }
        k = k + 1;
    }
    proof {
        assert(lv.take(lists@.len() as int) =~= lv);
        lemma_merge_from_empty(flatten(lv));
    }
    out
}

/// The value of the last attribute with the key, if any.
pub open spec fn last_value(s: Seq<(Seq<char>, ValueView)>, key: Seq<char>) -> Option<ValueView>
    decreases s.len(),
{
    if s.len() == 0 {
        None
    } else if s.last().0 == key {
        Some(s.last().1)
    } else {
        last_value(s.drop_last(), key)
    }
}

/// No key occurs twice.
pub open spec fn keys_unique(s: Seq<(Seq<char>, ValueView)>) -> bool {
    forall|i: int, j: int| 0 <= i < j < s.len() ==> s[i].0 != s[j].0
}

/// Merging keeps one attribute per key, holding the value of the key's last
/// occurrence; every merged key occurs in the input, and every key of the
/// input is kept.
pub proof fn lemma_merge_last_wins(s: Seq<(Seq<char>, ValueView)>)
    ensures
        keys_unique(merge_seq(s)),
        forall|i: int|
            0 <= i < merge_seq(s).len() ==> last_value(s, #[trigger] merge_seq(s)[i].0) == Some(
                merge_seq(s)[i].1,
            ),
        forall|key: Seq<char>|
            (exists|j: int| 0 <= j < s.len() && s[j].0 == key) <==> key_pos(merge_seq(s), key) >= 0,
    decreases s.len(),
{
    if s.len() > 0 {
        let prev = merge_seq(s.drop_last());
        let a = s.last();
        lemma_merge_last_wins(s.drop_last());
        lemma_key_pos(prev, a.0);
        let m = merge_seq(s);
        assert forall|key: Seq<char>|
            (exists|j: int| 0 <= j < s.len() && s[j].0 == key) <==> key_pos(m, key) >= 0 by {
            lemma_key_pos(m, key);
            lemma_key_pos(prev, key);
            if exists|j: int| 0 <= j < s.len() && s[j].0 == key {
                let j = choose|j: int| 0 <= j < s.len() && s[j].0 == key;
                if j < s.len() - 1 {
                    assert(s.drop_last()[j].0 == key);
                    let p = key_pos(prev, key);
                    assert(m[p].0 == key);
                } else {
                    let p = key_pos(prev, a.0);
                    if p >= 0 {
                        assert(m[p].0 == key);
                    } else {
                        assert(m[m.len() - 1].0 == key);
                    }
                }
            }
            if key_pos(m, key) >= 0 {
                let p = key_pos(m, key);
                if m[p].0 == a.0 {
                    assert(s[s.len() - 1].0 == key);
                } else {
                    assert(p < prev.len());
                    assert(prev[p].0 == key);
                    assert(key_pos(prev, key) >= 0);
                    let j = choose|j: int| 0 <= j < s.drop_last().len() && s.drop_last()[j].0 == key;
                    assert(s[j].0 == key);
                }
            }
        }
        assert forall|i: int| 0 <= i < m.len() implies last_value(s, #[trigger] m[i].0) == Some(
            m[i].1,
        ) by {
            if m[i].0 != a.0 {
                assert(i < prev.len());
                assert(m[i] == prev[i]);
                assert(last_value(s.drop_last(), prev[i].0) == Some(prev[i].1));
            }
        }
    }
}

/// Merging keeps the keys in the order of their first occurrence in the
/// input: of two merged attributes, the one whose key occurs first in the
/// input comes first.
pub proof fn lemma_merge_first_order(s: Seq<(Seq<char>, ValueView)>)
    ensures
        forall|i: int, j: int|
            0 <= i < j < merge_seq(s).len() ==> key_pos(s, #[trigger] merge_seq(s)[i].0) < key_pos(
                s,
                #[trigger] merge_seq(s)[j].0,
            ),
        forall|i: int| 0 <= i < merge_seq(s).len() ==> key_pos(s, #[trigger] merge_seq(s)[i].0) >= 0,
    decreases s.len(),
{
    if s.len() > 0 {
        let d = s.drop_last();
        let prev = merge_seq(d);
        let a = s.last();
        let m = merge_seq(s);
        lemma_merge_first_order(d);
        lemma_merge_last_wins(d);
        lemma_key_pos(prev, a.0);
        assert forall|i: int| 0 <= i < prev.len() implies key_pos(s, #[trigger] prev[i].0) == key_pos(d, prev[i].0)
            && key_pos(d, prev[i].0) >= 0 by {
            lemma_key_pos(d, prev[i].0);
        }
        if key_pos(prev, a.0) >= 0 {
            let p = key_pos(prev, a.0);
            assert forall|i: int| 0 <= i < m.len() implies #[trigger] m[i].0 == prev[i].0 by {}
        } else {
            assert(forall|j: int| 0 <= j < d.len() ==> d[j].0 != a.0) by {
                if exists|j: int| 0 <= j < d.len() && d[j].0 == a.0 {
                    assert(key_pos(prev, a.0) >= 0);
                }
            }
            lemma_key_pos(d, a.0);
            assert(key_pos(s, a.0) == s.len() - 1);
            assert forall|i: int| 0 <= i < m.len() - 1 implies #[trigger] m[i] == prev[i] by {}
            assert forall|i: int| 0 <= i < m.len() - 1 implies key_pos(s, #[trigger] m[i].0) < s.len() - 1 by {
                assert(m[i] == prev[i]);
                lemma_key_pos(d, prev[i].0);
            }
        }
    }
}

/// A list with no key twice merges to itself.
proof fn lemma_merge_unique(s: Seq<(Seq<char>, ValueView)>)
    requires
        keys_unique(s),
    ensures
        merge_seq(s) == s,
    decreases s.len(),
{
    if s.len() > 0 {
        let d = s.drop_last();
        assert(keys_unique(d));
        lemma_merge_unique(d);
        lemma_key_pos(d, s.last().0);
        if key_pos(d, s.last().0) >= 0 {
            let p = key_pos(d, s.last().0);
            assert(s[p].0 == s[s.len() - 1].0);
        }
        assert(d.push(s.last()) =~= s);
    }
}

/// Merging is idempotent: merging a merged list again gives it back.
pub proof fn lemma_merge_idempotent(s: Seq<(Seq<char>, ValueView)>)
    ensures
        merge_seq(merge_seq(s)) == merge_seq(s),
{
    lemma_merge_last_wins(s);
    lemma_merge_unique(merge_seq(s));
}

} // verus!
