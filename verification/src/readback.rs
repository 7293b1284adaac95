//! Printed attribute values read back as themselves: the text `print`
//! writes for a value is read by `parse_attrs` as the same value.

use vstd::prelude::*;

use crate::attrs::{
    Scanner, alpha_index, attrs_from, attrs_of, coords_from, comma_from, comma_pieces, find_from, fresh,
    has_space, is_number_char, is_unit, key_syntax, number_value, plain_number, point_of, scan_step, split_from,
    split_items, top_level, unescape, value_of,
};
use crate::name::join;
use crate::number::{Number, decimal_of, lemma_number_text_chars, lemma_number_text_reads_back, number_text, number_wf};
use crate::text::{is_alnum, is_alpha, is_digit, is_space, trim, trim_end, trim_start};
use crate::value::{ValueView, attr_text, attrs_text, has_quote, point_text, value_text};

verus! {

/// A word that prints as itself and reads back as a word: not empty, not
/// starting as a string, math, or a coordinate does, not a number, and
/// without spaces.
pub open spec fn plain_word(w: Seq<char>) -> bool {
    &&& w.len() > 0
    &&& w[0] != '"' && w[0] != '$' && w[0] != '('
    &&& !(w.len() >= 4 && w[0] == '#' && w[1] == '"' && w[w.len() - 2] == '"' && w[w.len() - 1] == '#')
    &&& number_value(w) is None
    &&& !has_space(w)
}

/// The coordinates of a point: two or three numbers in lowest terms.
pub open spec fn coords_ok(p: Seq<Number>) -> bool {
    &&& p.len() == 2 || p.len() == 3
    &&& forall|i: int| 0 <= i < p.len() ==> number_wf(#[trigger] p[i])
}

/// A value whose text reads back as one value: every value but a flag,
/// which has no text, and a list of several points, whose text is read
/// point by point as a list continues.
pub open spec fn readable(v: ValueView) -> bool {
    match v {
        ValueView::Flag => false,
        ValueView::Number(x) => number_wf(x),
        ValueView::Length(x, u) => number_wf(x) && is_unit(u),
        ValueView::Str(_) => true,
        ValueView::Math(m) => m.len() >= 2 && m[0] == '$' && m[m.len() - 1] == '$',
        ValueView::Word(w) => plain_word(w),
        ValueView::Points(p) => p.len() == 1 && coords_ok(p[0]),
    }
}

proof fn lemma_alpha_index_all(s: Seq<char>)
    requires
        forall|i: int| 0 <= i < s.len() ==> !is_alpha(#[trigger] s[i]),
    ensures
        alpha_index(s) == s.len(),
    decreases s.len(),
{
    if s.len() > 0 {
        assert(!is_alpha(s[0]));
        lemma_alpha_index_all(s.drop_first());
    }
}

proof fn lemma_alpha_index_concat(a: Seq<char>, b: Seq<char>)
    requires
        forall|i: int| 0 <= i < a.len() ==> !is_alpha(#[trigger] a[i]),
        b.len() > 0,
        is_alpha(b[0]),
    ensures
        alpha_index(a + b) == a.len(),
    decreases a.len(),
{
    if a.len() > 0 {
        assert(!is_alpha(a[0]));
        assert((a + b)[0] == a[0]);
        assert((a + b).drop_first() =~= a.drop_first() + b);
        lemma_alpha_index_concat(a.drop_first(), b);
    } else {
        assert(a + b =~= b);
    }
}

/// Text without a double quote has no escaped quote to read.
proof fn lemma_unescape_plain(s: Seq<char>)
    requires
        !has_quote(s),
    ensures
        unescape(s) == s,
    decreases s.len(),
{
    if s.len() >= 2 && s[0] == '\\' && s[1] == '"' {
        assert(has_quote(s));
    } else if s.len() > 0 {
        assert(!has_quote(s.drop_first())) by {
            if has_quote(s.drop_first()) {
                let i = choose|i: int| 0 <= i < s.drop_first().len() && s.drop_first()[i] == '"';
                assert(s[i + 1] == '"');
            }
        }
        lemma_unescape_plain(s.drop_first());
        assert(seq![s[0]] + s.drop_first() =~= s);
    }
}

/// Text that starts and ends with no space is its own trim, also after a
/// space.
proof fn lemma_trim_tight(t: Seq<char>)
    requires
        t.len() > 0,
        !is_space(t[0]),
        !is_space(t[t.len() - 1]),
    ensures
        trim(t) == t,
        trim(seq![' '] + t) == t,
{
    assert(trim_start(t) == t);
    assert(trim_end(t) == t);
    let u = seq![' '] + t;
    assert(is_space(u[0]));
    assert(u.drop_first() =~= t);
    assert(trim_start(u) == trim_start(t));
}

/// What the characters of a number's text are not.
proof fn lemma_number_text_plain(x: Number)
    requires
        number_wf(x),
    ensures
        ({
            let t = number_text(x);
            &&& t.len() > 0
            &&& !is_space(t[0]) && !is_space(t[t.len() - 1])
            &&& t[0] != '"' && t[0] != '$' && t[0] != '(' && t[0] != '#'
            &&& forall|i: int|
                0 <= i < t.len() ==> is_number_char(#[trigger] t[i]) && !is_alpha(t[i]) && t[i] != ','
                    && !is_space(t[i])
        }),
{
    lemma_number_text_chars(x);
    let t = number_text(x);
    assert forall|i: int| 0 <= i < t.len() implies is_number_char(#[trigger] t[i]) && !is_alpha(t[i]) && t[i]
        != ',' && !is_space(t[i]) by {
        assert(is_digit(t[i]) || t[i] == '.' || t[i] == '-');
    }
    assert(is_number_char(t[0]));
    assert(is_number_char(t[t.len() - 1]));
}

/// A number's text reads as the number, as a coordinate does.
proof fn lemma_plain_number_reads_back(x: Number)
    requires
        number_wf(x),
    ensures
        plain_number(number_text(x)) == Some(x),
{
    lemma_number_text_plain(x);
    lemma_number_text_reads_back(x);
}

/// The pieces between commas of text whose first `k` pieces end at `i`.
proof fn lemma_comma_run(s: Seq<char>, i: int, j: int, start: int, acc: Seq<Seq<char>>)
    requires
        0 <= start <= i <= j <= s.len(),
        forall|m: int| i <= m < j ==> #[trigger] s[m] != ',',
        j < s.len() ==> s[j] == ',',
    ensures
        comma_from(s, i, start, acc) == if j == s.len() {
            acc.push(s.subrange(start, j))
        } else {
            comma_from(s, j + 1, j + 1, acc.push(s.subrange(start, j)))
        },
    decreases j - i,
{
    if i < j {
        lemma_comma_run(s, i + 1, j, start, acc);
    }
}

/// The coordinates of a point's text, between its parentheses, split at
/// commas and trimmed, are the numbers' texts.
proof fn lemma_coords_read_back(p: Seq<Number>)
    requires
        coords_ok(p),
    ensures
        coords_from(comma_pieces(join(p, |x: Number| number_text(x), seq![',', ' '])), 0, Seq::empty())
            == Ok::<Seq<Number>, Seq<char>>(p),
{
    let f = |x: Number| number_text(x);
    let sep = seq![',', ' '];
    let t0 = number_text(p[0]);
    let t1 = number_text(p[1]);
    lemma_number_text_plain(p[0]);
    lemma_number_text_plain(p[1]);
    lemma_plain_number_reads_back(p[0]);
    lemma_plain_number_reads_back(p[1]);
    lemma_trim_tight(t0);
    lemma_trim_tight(t1);
    let e = Seq::<Seq<char>>::empty();
    if p.len() == 2 {
        assert(p.drop_last().len() == 1);
        assert(join(p.drop_last(), f, sep) == t0);
        let s = t0 + sep + t1;
        assert(join(p, f, sep) == s);
        assert(s.subrange(0, t0.len() as int) =~= t0);
        assert(s.subrange(t0.len() as int + 1, s.len() as int) =~= seq![' '] + t1);
        assert forall|m: int| 0 <= m < t0.len() implies #[trigger] s[m] != ',' by {
            assert(s[m] == t0[m]);
        }
        lemma_comma_run(s, 0, t0.len() as int, 0, e);
        assert forall|m: int| t0.len() + 1 <= m < s.len() implies #[trigger] s[m] != ',' by {
            if m > t0.len() + 1 {
                assert(s[m] == t1[m - t0.len() - 2]);
            }
        }
        lemma_comma_run(s, t0.len() as int + 1, s.len() as int, t0.len() as int + 1, e.push(t0));
        let pieces = e.push(t0).push(seq![' '] + t1);
        assert(comma_pieces(s) == pieces);
        let c0 = Seq::<Number>::empty();
        let c1 = c0.push(p[0]);
        let c2 = c1.push(p[1]);
        assert(c2 =~= p);
        assert(trim(pieces[0]) == t0);
        assert(trim(pieces[1]) == t1);
        assert(coords_from(pieces, 2, c2) == Ok::<Seq<Number>, Seq<char>>(c2));
        assert(coords_from(pieces, 1, c1) == coords_from(pieces, 2, c2));
        assert(coords_from(pieces, 0, c0) == coords_from(pieces, 1, c1));
    } else {
        let t2 = number_text(p[2]);
        lemma_number_text_plain(p[2]);
        lemma_plain_number_reads_back(p[2]);
        lemma_trim_tight(t2);
        assert(p.drop_last().drop_last().len() == 1);
        assert(join(p.drop_last().drop_last(), f, sep) == t0);
        assert(join(p.drop_last(), f, sep) == t0 + sep + t1);
        let s = t0 + sep + t1 + sep + t2;
        assert(join(p, f, sep) == s);
        let a = t0.len() as int;
        let b = a + 2 + t1.len() as int;
        assert(s.subrange(0, a) =~= t0);
        assert(s.subrange(a + 1, b) =~= seq![' '] + t1);
        assert(s.subrange(b + 1, s.len() as int) =~= seq![' '] + t2);
        assert forall|m: int| 0 <= m < a implies #[trigger] s[m] != ',' by {
            assert(s[m] == t0[m]);
        }
        lemma_comma_run(s, 0, a, 0, e);
        assert forall|m: int| a + 1 <= m < b implies #[trigger] s[m] != ',' by {
            if m > a + 1 {
                assert(s[m] == t1[m - a - 2]);
            }
        }
        lemma_comma_run(s, a + 1, b, a + 1, e.push(t0));
        assert forall|m: int| b + 1 <= m < s.len() implies #[trigger] s[m] != ',' by {
            if m > b + 1 {
                assert(s[m] == t2[m - b - 2]);
            }
        }
        lemma_comma_run(s, b + 1, s.len() as int, b + 1, e.push(t0).push(seq![' '] + t1));
        let pieces = e.push(t0).push(seq![' '] + t1).push(seq![' '] + t2);
        assert(comma_pieces(s) == pieces);
        let c0 = Seq::<Number>::empty();
        let c1 = c0.push(p[0]);
        let c2 = c1.push(p[1]);
        let c3 = c2.push(p[2]);
        assert(c3 =~= p);
        assert(trim(pieces[0]) == t0);
        assert(trim(pieces[1]) == t1);
        assert(trim(pieces[2]) == t2);
        assert(coords_from(pieces, 3, c3) == Ok::<Seq<Number>, Seq<char>>(c3));
        assert(coords_from(pieces, 2, c2) == coords_from(pieces, 3, c3));
        assert(coords_from(pieces, 1, c1) == coords_from(pieces, 2, c2));
        assert(coords_from(pieces, 0, c0) == coords_from(pieces, 1, c1));
    }
}

/// A point's text reads back as the point.
pub proof fn lemma_point_reads_back(p: Seq<Number>)
    requires
        coords_ok(p),
    ensures
        point_of(point_text(p)) == Ok::<Seq<Number>, Seq<char>>(p),
{
    let inner = join(p, |x: Number| number_text(x), seq![',', ' ']);
    let t = point_text(p);
    assert(t.subrange(1, t.len() - 1) =~= inner);
    lemma_coords_read_back(p);
}

/// A value read back from its text is the value.
pub proof fn lemma_value_reads_back(v: ValueView)
    requires
        readable(v),
    ensures
        value_of(value_text(v)) == Ok::<ValueView, Seq<char>>(v),
{
    match v {
        ValueView::Number(x) => {
            let t = number_text(x);
            lemma_number_text_plain(x);
            lemma_number_text_reads_back(x);
            lemma_alpha_index_all(t);
            assert(t.take(t.len() as int) =~= t);
            assert(t.skip(t.len() as int) =~= Seq::<char>::empty());
            assert(forall|i: int| 0 <= i < t.len() ==> #[trigger] is_number_char(t[i]));
            assert(number_value(t) == Some(ValueView::Number(x)));
        },
        ValueView::Length(x, u) => {
            let nt = number_text(x);
            let t = nt + u;
            lemma_number_text_plain(x);
            lemma_number_text_reads_back(x);
            assert(u.len() > 0 && is_alpha(u[0])) by {
                reveal_strlit("mm");
                reveal_strlit("cm");
                reveal_strlit("pt");
                reveal_strlit("bp");
                reveal_strlit("in");
                reveal_strlit("em");
                reveal_strlit("px");
            }
            lemma_alpha_index_concat(nt, u);
            assert(t.take(nt.len() as int) =~= nt);
            assert(t.skip(nt.len() as int) =~= u);
            assert(t[0] == nt[0]);
            assert(forall|i: int| 0 <= i < nt.len() ==> #[trigger] is_number_char(nt[i]));
            assert(number_value(t) == Some(ValueView::Length(x, u)));
        },
        ValueView::Str(s) => {
            if has_quote(s) {
                let t = seq!['#', '"'] + s + seq!['"', '#'];
                assert(t.subrange(2, t.len() - 2) =~= s);
            } else {
                let t = seq!['"'] + s + seq!['"'];
                assert(t.drop_first().drop_last() =~= s);
                lemma_unescape_plain(s);
            }
        },
        ValueView::Math(m) => {},
        ValueView::Word(w) => {},
        ValueView::Points(ps) => {
            let p = ps[0];
            assert(value_text(v) == point_text(p));
            lemma_point_reads_back(p);
            assert(seq![p] =~= ps);
        },
        ValueView::Flag => {},
    }
}

// ---- Text joined at commas -----------------------------------------------------

/// Pieces written one after another with a comma between them.
pub open spec fn commas(ps: Seq<Seq<char>>) -> Seq<char>
    decreases ps.len(),
{
    if ps.len() == 0 {
        Seq::empty()
    } else if ps.len() == 1 {
        ps[0]
    } else {
        ps[0] + seq![','] + commas(ps.drop_first())
    }
}

proof fn lemma_commas_push(ps: Seq<Seq<char>>, q: Seq<char>)
    requires
        ps.len() >= 1,
    ensures
        commas(ps.push(q)) == commas(ps) + seq![','] + q,
    decreases ps.len(),
{
    if ps.len() == 1 {
        assert(ps.push(q).drop_first() =~= seq![q]);
        assert(commas(seq![q]) == q);
    } else {
        lemma_commas_push(ps.drop_first(), q);
        assert(ps.push(q).drop_first() =~= ps.drop_first().push(q));
    }
}

proof fn lemma_commas_concat(ps: Seq<Seq<char>>, qs: Seq<Seq<char>>)
    requires
        ps.len() >= 1,
        qs.len() >= 1,
    ensures
        commas(ps + qs) == commas(ps) + seq![','] + commas(qs),
    decreases ps.len(),
{
    if ps.len() == 1 {
        assert((ps + qs)[0] == ps[0]);
        assert((ps + qs).drop_first() =~= qs);
    } else {
        lemma_commas_concat(ps.drop_first(), qs);
        assert((ps + qs).drop_first() =~= ps.drop_first() + qs);
        assert((ps + qs)[0] == ps[0]);
    }
}

/// Text written in front of the first piece.
proof fn lemma_commas_prefix(pre: Seq<char>, ps: Seq<Seq<char>>)
    requires
        ps.len() >= 1,
    ensures
        pre + commas(ps) == commas(ps.update(0, pre + ps[0])),
{
    if ps.len() == 1 {
        assert(ps.update(0, pre + ps[0]) =~= seq![pre + ps[0]]);
    } else {
        assert(ps.update(0, pre + ps[0]).drop_first() =~= ps.drop_first());
    }
}

/// The elements' texts after the first, each after a space.
pub open spec fn spaced<A>(s: Seq<A>, f: spec_fn(A) -> Seq<char>) -> Seq<Seq<char>> {
    Seq::new(s.len(), |k: int| if k == 0 { f(s[0]) } else { seq![' '] + f(s[k]) })
}

/// Writing with `, ` between elements is writing with `,` between the
/// elements' texts, each but the first after a space.
proof fn lemma_join_commas<A>(s: Seq<A>, f: spec_fn(A) -> Seq<char>)
    requires
        s.len() >= 1,
    ensures
        join(s, f, seq![',', ' ']) == commas(spaced(s, f)),
    decreases s.len(),
{
    if s.len() == 1 {
        assert(spaced(s, f) =~= seq![f(s[0])]);
    } else {
        let t = s.drop_last();
        lemma_join_commas(t, f);
        assert(spaced(s, f) =~= spaced(t, f).push(seq![' '] + f(s.last())));
        lemma_commas_push(spaced(t, f), seq![' '] + f(s.last()));
        assert(join(s, f, seq![',', ' ']) =~= join(t, f, seq![',', ' ']) + seq![',', ' '] + f(s.last()));
        assert(commas(spaced(t, f)) + seq![','] + (seq![' '] + f(s.last())) =~= commas(spaced(t, f))
            + seq![',', ' '] + f(s.last()));
    }
}

// ---- Scanning ------------------------------------------------------------------

/// The scanner after characters `i` to `j` of `s`, from `st`; `None` where
/// it reports an error or meets a comma at the top level.
pub open spec fn scan_run(s: Seq<char>, i: int, j: int, st: Scanner) -> Option<Scanner>
    decreases j - i,
{
    if i >= j {
        Some(st)
    } else if top_level(st) && s[i] == ',' {
        None
    } else {
        match scan_step(st, s, i) {
            Ok(next) => scan_run(s, i + 1, j, next),
            Err(_) => None,
        }
    }
}

/// Text that scans from the top level back to it, after a `=` and before a
/// `,`, with no comma at the top level between: it stays one item of an
/// attribute list.
pub open spec fn balanced(t: Seq<char>) -> bool {
    scan_run(seq!['='] + t + seq![','], 1, t.len() as int + 1, fresh()) == Some(fresh())
}

/// A piece that stays one item when a comma follows it.
pub open spec fn clean(p: Seq<char>) -> bool {
    scan_run(p + seq![','], 0, p.len() as int, fresh()) == Some(fresh())
}

/// Characters the scanner steps over without a change.
pub open spec fn plain(c: char) -> bool {
    c != '#' && c != '"' && c != '$' && c != '(' && c != ')' && c != '{' && c != '}'
}

/// A character after a run that no character of the run looks ahead to.
pub open spec fn next_ok(s: Seq<char>, j: int) -> bool {
    j >= s.len() || (s[j] != '#' && s[j] != '"')
}

proof fn lemma_plain_step(st: Scanner, s: Seq<char>, i: int)
    requires
        0 <= i < s.len(),
        plain(s[i]),
    ensures
        scan_step(st, s, i) == Ok::<Scanner, Seq<char>>(st),
{
}

/// Plain characters, and commas inside brackets, leave the scanner as it is.
proof fn lemma_plain_run(s: Seq<char>, i: int, j: int, st: Scanner)
    requires
        0 <= i <= j <= s.len(),
        forall|m: int| i <= m < j ==> plain(#[trigger] s[m]),
        forall|m: int| i <= m < j ==> top_level(st) ==> #[trigger] s[m] != ',',
    ensures
        scan_run(s, i, j, st) == Some(st),
    decreases j - i,
{
    if i < j {
        lemma_plain_step(st, s, i);
        lemma_plain_run(s, i + 1, j, st);
    }
}

/// Runs compose.
proof fn lemma_run_concat(s: Seq<char>, i: int, m: int, j: int, st: Scanner)
    requires
        i <= m <= j,
    ensures
        scan_run(s, i, j, st) == match scan_run(s, i, m, st) {
            Some(mid) => scan_run(s, m, j, mid),
            None => None::<Scanner>,
        },
    decreases m - i,
{
    if i < m {
        if !(top_level(st) && s[i] == ',') {
            match scan_step(st, s, i) {
                Ok(next) => lemma_run_concat(s, i + 1, m, j, next),
                Err(_) => {},
            }
        }
    }
}

/// A run sees only its own characters, the one before it, and whether the
/// one after it is looked ahead to.
proof fn lemma_run_window(s1: Seq<char>, i1: int, s2: Seq<char>, i2: int, n: int, st: Scanner)
    requires
        0 <= n,
        0 <= i1,
        0 <= i2,
        i1 + n <= s1.len(),
        i2 + n <= s2.len(),
        (i1 == 0 && i2 == 0) || (i1 > 0 && i2 > 0 && s1[i1 - 1] == s2[i2 - 1]),
        forall|d: int| 0 <= d < n ==> #[trigger] s1[i1 + d] == s2[i2 + d],
        next_ok(s1, i1 + n),
        next_ok(s2, i2 + n),
    ensures
        scan_run(s1, i1, i1 + n, st) == scan_run(s2, i2, i2 + n, st),
    decreases n,
{
    if n > 0 {
        assert(s1[i1 + 0] == s2[i2 + 0]);
        if n > 1 {
            assert(s1[i1 + 1] == s2[i2 + 1]);
        }
        assert(scan_step(st, s1, i1) == scan_step(st, s2, i2));
        match scan_step(st, s1, i1) {
            Ok(next) => {
                assert forall|d: int| 0 <= d < n - 1 implies #[trigger] s1[i1 + 1 + d] == s2[i2 + 1 + d] by {
                    assert(s1[i1 + (d + 1)] == s2[i2 + (d + 1)]);
                }
                lemma_run_window(s1, i1 + 1, s2, i2 + 1, n - 1, next);
            },
            Err(_) => {},
        }
    }
}

/// Splitting at commas across a clean run.
proof fn lemma_split_run(s: Seq<char>, i: int, j: int, st: Scanner, start: int, items: Seq<Seq<char>>)
    requires
        0 <= start <= i <= j <= s.len(),
        scan_run(s, i, j, st) == Some(fresh()),
        j < s.len() ==> s[j] == ',',
    ensures
        split_from(s, i, st, start, items) == if j == s.len() {
            Ok::<Seq<Seq<char>>, Seq<char>>(items.push(s.subrange(start, j)))
        } else {
            split_from(s, j + 1, fresh(), j + 1, items.push(s.subrange(start, j)))
        },
    decreases j - i,
{
    if i < j {
        match scan_step(st, s, i) {
            Ok(next) => lemma_split_run(s, i + 1, j, next, start, items),
            Err(_) => {},
        }
    }
}

/// Splitting the text after a prefix is splitting the rest, when the rest
/// does not start with a double quote, the one character that looks back.
proof fn lemma_split_shift(x: Seq<char>, y: Seq<char>, i: int, st: Scanner, start: int, items: Seq<Seq<char>>)
    requires
        0 <= start <= i <= y.len(),
        i == 0 && y.len() > 0 ==> y[0] != '"',
    ensures
        split_from(x + y, x.len() + i, st, x.len() + start, items) == split_from(y, i, st, start, items),
    decreases y.len() - i,
{
    let s = x + y;
    let k = x.len() + i;
    if i >= y.len() {
        assert(s.subrange(x.len() + start, s.len() as int) =~= y.subrange(start, y.len() as int));
    } else {
        assert(s[k] == y[i]);
        if k + 1 < s.len() {
            assert(s[k + 1] == y[i + 1]);
        }
        if i > 0 {
            assert(s[k - 1] == y[i - 1]);
        }
        if top_level(st) && y[i] == ',' {
            assert(s.subrange(x.len() + start, k) =~= y.subrange(start, i));
            assert(x.len() + (i + 1) == k + 1);
            lemma_split_shift(x, y, i + 1, fresh(), i + 1, items.push(y.subrange(start, i)));
        } else {
            assert(scan_step(st, s, k) == scan_step(st, y, i));
            match scan_step(st, y, i) {
                Ok(next) => lemma_split_shift(x, y, i + 1, next, start, items),
                Err(_) => {},
            }
        }
    }
}

/// Clean pieces joined at commas split back into the pieces.
proof fn lemma_split_commas(ps: Seq<Seq<char>>, items: Seq<Seq<char>>)
    requires
        ps.len() >= 1,
        forall|k: int| 0 <= k < ps.len() ==> clean(#[trigger] ps[k]),
        forall|k: int| 1 <= k < ps.len() ==> (#[trigger] ps[k]).len() > 0 && ps[k][0] != '"',
    ensures
        split_from(commas(ps), 0, fresh(), 0, items) == Ok::<Seq<Seq<char>>, Seq<char>>(items + ps),
    decreases ps.len(),
{
    let p = ps[0];
    let pc = p + seq![','];
    assert(clean(ps[0]));
    if ps.len() == 1 {
        let t = commas(ps);
        assert(t == p);
        assert forall|d: int| 0 <= d < p.len() implies #[trigger] t[0 + d] == pc[0 + d] by {}
        lemma_run_window(t, 0, pc, 0, p.len() as int, fresh());
        lemma_split_run(t, 0, p.len() as int, fresh(), 0, items);
        assert(t.subrange(0, p.len() as int) =~= p);
        assert(items.push(p) =~= items + ps);
    } else {
        let rest = ps.drop_first();
        let y = commas(rest);
        let t = commas(ps);
        assert(t == pc + y);
        assert forall|d: int| 0 <= d < p.len() implies #[trigger] t[0 + d] == pc[0 + d] by {}
        assert(t[p.len() as int] == ',');
        lemma_run_window(t, 0, pc, 0, p.len() as int, fresh());
        lemma_split_run(t, 0, p.len() as int, fresh(), 0, items);
        assert(t.subrange(0, p.len() as int) =~= p);
        assert forall|k: int| 0 <= k < rest.len() implies clean(#[trigger] rest[k]) by {
            assert(rest[k] == ps[k + 1]);
        }
        assert forall|k: int| 1 <= k < rest.len() implies (#[trigger] rest[k]).len() > 0 && rest[k][0] != '"' by {
            assert(rest[k] == ps[k + 1]);
        }
        assert(rest[0] == ps[1]);
        if rest.len() == 1 {
            assert(y == rest[0]);
        } else {
            assert(y[0] == rest[0][0]);
        }
        lemma_split_shift(pc, y, 0, fresh(), 0, items.push(p));
        assert(pc.len() + 0 == p.len() + 1);
        lemma_split_commas(rest, items.push(p));
        assert(items.push(p) + rest =~= items + ps);
    }
}

// ---- Attributes ----------------------------------------------------------------

/// An attribute whose text reads back as the attribute: a valid key, and a
/// value that reads back, every point of a list with two or three
/// coordinates; strings, words, and math must also leave the scanner where
/// they found it, so that the list splits where it was joined.
pub open spec fn attr_readable(x: (Seq<char>, ValueView)) -> bool {
    &&& key_syntax(x.0)
    &&& match x.1 {
        ValueView::Flag => true,
        ValueView::Points(ps) => ps.len() >= 1 && forall|k: int| 0 <= k < ps.len() ==> coords_ok(#[trigger] ps[k]),
        ValueView::Str(_) => balanced(value_text(x.1)),
        ValueView::Word(w) => plain_word(w) && balanced(w),
        ValueView::Math(m) => readable(x.1) && balanced(m),
        _ => readable(x.1),
    }
}

/// The pieces between top-level commas that an attribute's text is made
/// of: the whole text, or for a list of points, `key=(…)` and each further
/// point after a space.
pub open spec fn attr_pieces(x: (Seq<char>, ValueView)) -> Seq<Seq<char>> {
    match x.1 {
        ValueView::Points(ps) => seq![x.0 + seq!['='] + point_text(ps[0])] + spaced(
            ps,
            |q: Seq<Number>| point_text(q),
        ).drop_first(),
        _ => seq![attr_text(x)],
    }
}

/// The first piece after a space, when `space` says so.
pub open spec fn lead(ps: Seq<Seq<char>>, space: bool) -> Seq<Seq<char>> {
    if space {
        ps.update(0, seq![' '] + ps[0])
    } else {
        ps
    }
}

/// The pieces of the text of a list: each attribute's, the first piece of
/// each attribute but the first after a space.
pub open spec fn list_pieces(a: Seq<(Seq<char>, ValueView)>) -> Seq<Seq<char>>
    decreases a.len(),
{
    if a.len() == 0 {
        Seq::empty()
    } else {
        list_pieces(a.drop_last()) + lead(attr_pieces(a.last()), a.len() > 1)
    }
}

/// The text of a list between its brackets.
pub open spec fn list_text(a: Seq<(Seq<char>, ValueView)>) -> Seq<char> {
    join(a, |x: (Seq<char>, ValueView)| attr_text(x), seq![',', ' '])
}

proof fn lemma_attr_pieces(x: (Seq<char>, ValueView))
    requires
        attr_readable(x),
    ensures
        attr_pieces(x).len() >= 1,
        commas(attr_pieces(x)) == attr_text(x),
{
    match x.1 {
        ValueView::Points(ps) => {
            let f = |q: Seq<Number>| point_text(q);
            let sp = spaced(ps, f);
            let head = x.0 + seq!['='];
            lemma_join_commas(ps, f);
            lemma_commas_prefix(head, sp);
            assert(attr_pieces(x) =~= sp.update(0, head + sp[0]));
            assert(attr_text(x) =~= head + value_text(x.1));
        },
        ValueView::Flag => {},
        _ => {},
    }
}

proof fn lemma_list_pieces(a: Seq<(Seq<char>, ValueView)>)
    requires
        a.len() >= 1,
        forall|k: int| 0 <= k < a.len() ==> attr_readable(#[trigger] a[k]),
    ensures
        list_pieces(a).len() >= 1,
        commas(list_pieces(a)) == list_text(a),
    decreases a.len(),
{
    let f = |x: (Seq<char>, ValueView)| attr_text(x);
    assert(attr_readable(a[a.len() - 1]));
    lemma_attr_pieces(a.last());
    if a.len() == 1 {
        assert(list_pieces(a.drop_last()) =~= Seq::<Seq<char>>::empty());
        assert(list_pieces(a) =~= attr_pieces(a.last()));
        assert(list_text(a) == attr_text(a[0]));
    } else {
        let b = a.drop_last();
        assert forall|k: int| 0 <= k < b.len() implies attr_readable(#[trigger] b[k]) by {
            assert(b[k] == a[k]);
        }
        lemma_list_pieces(b);
        let ps = attr_pieces(a.last());
        lemma_commas_prefix(seq![' '], ps);
        lemma_commas_concat(list_pieces(b), lead(ps, true));
        assert(list_text(a) =~= list_text(b) + seq![',', ' '] + attr_text(a.last()));
        assert(commas(list_pieces(b)) + seq![','] + (seq![' '] + attr_text(a.last())) =~= list_text(b)
            + seq![',', ' '] + attr_text(a.last()));
    }
}

// ---- The characters of pieces -----------------------------------------------------

/// Text with no space at either end, as `trim` leaves it.
pub open spec fn tight(t: Seq<char>) -> bool {
    t.len() > 0 && !is_space(t[0]) && !is_space(t[t.len() - 1])
}

proof fn lemma_key_chars(key: Seq<char>)
    requires
        key_syntax(key),
    ensures
        tight(key),
        key[0] != '(',
        forall|i: int| 0 <= i < key.len() ==> plain(#[trigger] key[i]) && key[i] != ',' && key[i] != '=',
{
    assert forall|i: int| 0 <= i < key.len() implies plain(#[trigger] key[i]) && key[i] != ',' && key[i] != '=' by {
        if i > 0 {
            assert(is_alnum(key[i]) || key[i] == '-' || key[i] == '_');
        }
    }
    let l = key.len() - 1;
    if l > 0 {
        assert(is_alnum(key[l]) || key[l] == '-' || key[l] == '_');
    }
}

/// The first top-level `=` of `key=…` is the one after the key.
proof fn lemma_find_key(t: Seq<char>, key: Seq<char>, i: int)
    requires
        key_syntax(key),
        t.len() > key.len(),
        forall|d: int| 0 <= d < key.len() ==> #[trigger] t[d] == key[d],
        t[key.len() as int] == '=',
        0 <= i <= key.len(),
    ensures
        find_from(t, '=', i, fresh()) == Some(key.len() as int),
    decreases key.len() - i,
{
    lemma_key_chars(key);
    if i < key.len() {
        assert(t[i] == key[i]);
        lemma_plain_step(fresh(), t, i);
        lemma_find_key(t, key, i + 1);
    }
}

/// A key alone has no `=`.
proof fn lemma_find_none(key: Seq<char>, i: int)
    requires
        key_syntax(key),
        0 <= i <= key.len(),
    ensures
        find_from(key, '=', i, fresh()) is None,
    decreases key.len() - i,
{
    lemma_key_chars(key);
    if i < key.len() {
        lemma_plain_step(fresh(), key, i);
        lemma_find_none(key, i + 1);
    }
}

/// A point is written between parentheses with plain characters inside.
proof fn lemma_point_text_chars(q: Seq<Number>)
    requires
        coords_ok(q),
    ensures
        ({
            let t = point_text(q);
            &&& t.len() >= 2
            &&& t[0] == '('
            &&& t[t.len() - 1] == ')'
            &&& forall|i: int| 1 <= i < t.len() - 1 ==> plain(#[trigger] t[i])
        }),
{
    let f = |x: Number| number_text(x);
    let sep = seq![',', ' '];
    let t0 = number_text(q[0]);
    let t1 = number_text(q[1]);
    lemma_number_text_plain(q[0]);
    lemma_number_text_plain(q[1]);
    let t = point_text(q);
    if q.len() == 2 {
        assert(q.drop_last().len() == 1);
        assert(join(q.drop_last(), f, sep) == t0);
        assert(t =~= seq!['('] + t0 + sep + t1 + seq![')']);
        assert forall|i: int| 1 <= i < t.len() - 1 implies plain(#[trigger] t[i]) by {
            if i <= t0.len() {
                assert(t[i] == t0[i - 1]);
                assert(is_number_char(t0[i - 1]));
            } else if i >= t0.len() + 3 {
                assert(t[i] == t1[i - t0.len() - 3]);
                assert(is_number_char(t1[i - t0.len() - 3]));
            }
        }
    } else {
        let t2 = number_text(q[2]);
        lemma_number_text_plain(q[2]);
        assert(q.drop_last().drop_last().len() == 1);
        assert(join(q.drop_last().drop_last(), f, sep) == t0);
        assert(join(q.drop_last(), f, sep) == t0 + sep + t1);
        assert(t =~= seq!['('] + t0 + sep + t1 + sep + t2 + seq![')']);
        let b = t0.len() + 3 + t1.len();
        assert forall|i: int| 1 <= i < t.len() - 1 implies plain(#[trigger] t[i]) by {
            if i <= t0.len() {
                assert(t[i] == t0[i - 1]);
                assert(is_number_char(t0[i - 1]));
            } else if t0.len() + 3 <= i < b {
                assert(t[i] == t1[i - t0.len() - 3]);
                assert(is_number_char(t1[i - t0.len() - 3]));
            } else if i >= b + 2 {
                assert(t[i] == t2[i - b - 2]);
                assert(is_number_char(t2[i - b - 2]));
            }
        }
    }
}

/// The text of a value has no space at either end.
proof fn lemma_value_text_tight(v: ValueView)
    requires
        readable(v),
    ensures
        tight(value_text(v)),
{
    match v {
        ValueView::Number(x) => {
            lemma_number_text_plain(x);
        },
        ValueView::Length(x, u) => {
            lemma_number_text_plain(x);
            let nt = number_text(x);
            assert(u.len() > 0 && is_alpha(u[u.len() - 1])) by {
                reveal_strlit("mm");
                reveal_strlit("cm");
                reveal_strlit("pt");
                reveal_strlit("bp");
                reveal_strlit("in");
                reveal_strlit("em");
                reveal_strlit("px");
            }
            let t = nt + u;
            assert(t[0] == nt[0]);
            assert(t[t.len() - 1] == u[u.len() - 1]);
        },
        ValueView::Str(s) => {},
        ValueView::Math(m) => {},
        ValueView::Word(w) => {
            assert(!is_space(w[0]));
            assert(!is_space(w[w.len() - 1]));
        },
        ValueView::Points(ps) => {
            lemma_point_text_chars(ps[0]);
            assert(value_text(v) == point_text(ps[0]));
        },
        ValueView::Flag => {},
    }
}

/// `pre` and `key=` followed by a value's text, trimmed, is `key=` and the
/// value's text.
proof fn lemma_trim_piece(pre: Seq<char>, key: Seq<char>, t: Seq<char>)
    requires
        pre == Seq::<char>::empty() || pre == seq![' '],
        key_syntax(key),
        tight(t),
    ensures
        trim(pre + (key + seq!['='] + t)) == key + seq!['='] + t,
{
    lemma_key_chars(key);
    let u = key + seq!['='] + t;
    assert(u[0] == key[0]);
    assert(u[u.len() - 1] == t[t.len() - 1]);
    lemma_trim_tight(u);
    if pre.len() == 0 {
        assert(pre + u =~= u);
    }
}

// ---- Clean pieces ---------------------------------------------------------------

/// A run of plain characters followed by a run that leaves the scanner at
/// the top level.
proof fn lemma_clean_after_plain(p: Seq<char>, m: int)
    requires
        0 <= m <= p.len(),
        forall|i: int| 0 <= i < m ==> plain(#[trigger] p[i]) && p[i] != ',',
        scan_run(p + seq![','], m, p.len() as int, fresh()) == Some(fresh()),
    ensures
        clean(p),
{
    let pc = p + seq![','];
    assert forall|i: int| 0 <= i < m implies plain(#[trigger] pc[i]) by {
        assert(pc[i] == p[i]);
    }
    assert forall|i: int| 0 <= i < m implies top_level(fresh()) ==> #[trigger] pc[i] != ',' by {
        assert(pc[i] == p[i]);
    }
    lemma_plain_run(pc, 0, m, fresh());
    lemma_run_concat(pc, 0, m, p.len() as int, fresh());
}

/// A point's text, after `m` characters, scans from the top level back to
/// it.
proof fn lemma_point_run(p: Seq<char>, m: int, q: Seq<Number>)
    requires
        coords_ok(q),
        0 <= m,
        m + point_text(q).len() == p.len(),
        forall|d: int| 0 <= d < point_text(q).len() ==> #[trigger] p[m + d] == point_text(q)[d],
    ensures
        scan_run(p + seq![','], m, p.len() as int, fresh()) == Some(fresh()),
{
    let t = point_text(q);
    let pc = p + seq![','];
    lemma_point_text_chars(q);
    let inner = Scanner { depth: 1, ..fresh() };
    let a = m + 1;
    let b = p.len() - 1;
    assert(pc[m] == p[m + 0]);
    assert(pc[m] == '(');
    assert(scan_step(fresh(), pc, m) == Ok::<Scanner, Seq<char>>(inner));
    assert forall|i: int| a <= i < b implies plain(#[trigger] pc[i]) by {
        assert(pc[i] == p[m + (i - m)]);
        assert(pc[i] == t[i - m]);
    }
    lemma_plain_run(pc, a, b, inner);
    assert(pc[b] == p[m + (t.len() - 1)]);
    assert(pc[b] == ')');
    assert(scan_step(inner, pc, b) == Ok::<Scanner, Seq<char>>(fresh()));
    assert(scan_run(pc, b + 1, b + 1, fresh()) == Some(fresh()));
    assert(scan_run(pc, b, b + 1, inner) == Some(fresh()));
    assert(scan_run(pc, a, a, inner) == Some(inner));
    assert(scan_run(pc, m, a, fresh()) == Some(inner));
    lemma_run_concat(pc, a, b, b + 1, inner);
    lemma_run_concat(pc, m, a, b + 1, fresh());
}

/// A value's text at the end of a piece, after `=`, scans from the top
/// level back to it.
proof fn lemma_value_run(p: Seq<char>, m: int, v: ValueView)
    requires
        1 <= m <= p.len(),
        p[m - 1] == '=',
        m + value_text(v).len() == p.len(),
        forall|d: int| 0 <= d < value_text(v).len() ==> #[trigger] p[m + d] == value_text(v)[d],
        readable(v),
        !(v is Points),
        v is Str || v is Word || v is Math ==> balanced(value_text(v)),
    ensures
        scan_run(p + seq![','], m, p.len() as int, fresh()) == Some(fresh()),
{
    let t = value_text(v);
    let pc = p + seq![','];
    match v {
        ValueView::Number(x) => {
            lemma_number_text_plain(x);
            assert forall|i: int| m <= i < p.len() implies plain(#[trigger] pc[i]) && pc[i] != ',' by {
                assert(pc[i] == p[m + (i - m)]);
                assert(is_number_char(t[i - m]));
            }
            lemma_plain_run(pc, m, p.len() as int, fresh());
        },
        ValueView::Length(x, u) => {
            lemma_number_text_plain(x);
            let nt = number_text(x);
            assert(forall|i: int| 0 <= i < u.len() ==> is_alpha(#[trigger] u[i])) by {
                reveal_strlit("mm");
                reveal_strlit("cm");
                reveal_strlit("pt");
                reveal_strlit("bp");
                reveal_strlit("in");
                reveal_strlit("em");
                reveal_strlit("px");
            }
            assert forall|i: int| m <= i < p.len() implies plain(#[trigger] pc[i]) && pc[i] != ',' by {
                assert(pc[i] == p[m + (i - m)]);
                if i - m < nt.len() {
                    assert(t[i - m] == nt[i - m]);
                    assert(is_number_char(nt[i - m]));
                } else {
                    assert(t[i - m] == u[i - m - nt.len()]);
                }
            }
            lemma_plain_run(pc, m, p.len() as int, fresh());
        },
        _ => {
            let w = seq!['='] + t + seq![','];
            assert forall|d: int| 0 <= d < t.len() implies #[trigger] pc[m + d] == w[1 + d] by {
                assert(pc[m + d] == p[m + d]);
            }
            assert(pc[m - 1] == '=');
            lemma_run_window(pc, m, w, 1, t.len() as int, fresh());
        },
    }
}

/// The piece of an attribute that is not a flag or points: `key=` and the
/// value's text, perhaps after a space.
proof fn lemma_value_piece_clean(pre: Seq<char>, x: (Seq<char>, ValueView))
    requires
        pre == Seq::<char>::empty() || pre == seq![' '],
        attr_readable(x),
        !(x.1 is Flag),
        !(x.1 is Points),
    ensures
        clean(pre + attr_text(x)),
{
    let key = x.0;
    let t = value_text(x.1);
    let p = pre + attr_text(x);
    let m: int = pre.len() as int + key.len() + 1;
    lemma_key_chars(key);
    assert(p =~= pre + key + seq!['='] + t);
    assert forall|i: int| 0 <= i < m implies plain(#[trigger] p[i]) && p[i] != ',' by {
        if pre.len() <= i < pre.len() + key.len() {
            assert(p[i] == key[i - pre.len()]);
        }
    }
    assert(readable(x.1));
    assert forall|d: int| 0 <= d < t.len() implies #[trigger] p[m + d] == t[d] by {}
    lemma_value_run(p, m, x.1);
    lemma_clean_after_plain(p, m);
}

/// A flag's piece: the key, perhaps after a space.
proof fn lemma_flag_piece_clean(pre: Seq<char>, key: Seq<char>)
    requires
        pre == Seq::<char>::empty() || pre == seq![' '],
        key_syntax(key),
    ensures
        clean(pre + key),
{
    let p = pre + key;
    lemma_key_chars(key);
    assert forall|i: int| 0 <= i < p.len() implies plain(#[trigger] p[i]) && p[i] != ',' by {
        if i >= pre.len() {
            assert(p[i] == key[i - pre.len()]);
        }
    }
    lemma_clean_after_plain(p, p.len() as int);
}

/// A piece with a point: after a space or `key=`, perhaps after a space.
proof fn lemma_point_piece_clean(pre: Seq<char>, q: Seq<Number>)
    requires
        forall|i: int| 0 <= i < pre.len() ==> plain(#[trigger] pre[i]) && pre[i] != ',',
        coords_ok(q),
    ensures
        clean(pre + point_text(q)),
{
    let t = point_text(q);
    let p = pre + t;
    assert forall|i: int| 0 <= i < pre.len() implies plain(#[trigger] p[i]) && p[i] != ',' by {
        assert(p[i] == pre[i]);
    }
    assert forall|d: int| 0 <= d < t.len() implies #[trigger] p[pre.len() + d] == t[d] by {}
    lemma_point_run(p, pre.len() as int, q);
    lemma_clean_after_plain(p, pre.len() as int);
}

// ---- Reading the pieces back ------------------------------------------------------

proof fn lemma_step_value(
    items: Seq<Seq<char>>,
    k: int,
    acc: Seq<(Seq<char>, ValueView)>,
    x: (Seq<char>, ValueView),
    pre: Seq<char>,
)
    requires
        pre == Seq::<char>::empty() || pre == seq![' '],
        attr_readable(x),
        !(x.1 is Flag),
        !(x.1 is Points),
        0 <= k < items.len(),
        items[k] == pre + attr_text(x),
    ensures
        attrs_from(items, k, acc) == attrs_from(items, k + 1, acc.push(x)),
{
    let key = x.0;
    let t = value_text(x.1);
    assert(readable(x.1));
    lemma_value_text_tight(x.1);
    lemma_trim_piece(pre, key, t);
    let item = key + seq!['='] + t;
    assert(attr_text(x) == item);
    assert(trim(items[k]) == item);
    lemma_key_chars(key);
    assert(item[0] == key[0]);
    assert forall|d: int| 0 <= d < key.len() implies #[trigger] item[d] == key[d] by {}
    assert(item[key.len() as int] == '=');
    lemma_find_key(item, key, 0);
    assert(item.skip(key.len() as int + 1) =~= t);
    lemma_trim_tight(t);
    lemma_value_reads_back(x.1);
    assert(item.take(key.len() as int) =~= key);
    lemma_trim_tight(key);
}

proof fn lemma_step_flag(
    items: Seq<Seq<char>>,
    k: int,
    acc: Seq<(Seq<char>, ValueView)>,
    x: (Seq<char>, ValueView),
    pre: Seq<char>,
)
    requires
        pre == Seq::<char>::empty() || pre == seq![' '],
        attr_readable(x),
        x.1 is Flag,
        0 <= k < items.len(),
        items[k] == pre + x.0,
    ensures
        attrs_from(items, k, acc) == attrs_from(items, k + 1, acc.push(x)),
{
    let key = x.0;
    lemma_key_chars(key);
    lemma_trim_tight(key);
    if pre.len() == 0 {
        assert(pre + key =~= key);
    }
    assert(trim(items[k]) == key);
    lemma_find_none(key, 0);
    assert((key, ValueView::Flag) == x);
}

proof fn lemma_step_first_point(
    items: Seq<Seq<char>>,
    k: int,
    acc: Seq<(Seq<char>, ValueView)>,
    key: Seq<char>,
    q: Seq<Number>,
    pre: Seq<char>,
)
    requires
        pre == Seq::<char>::empty() || pre == seq![' '],
        key_syntax(key),
        coords_ok(q),
        0 <= k < items.len(),
        items[k] == pre + (key + seq!['='] + point_text(q)),
    ensures
        attrs_from(items, k, acc) == attrs_from(items, k + 1, acc.push((key, ValueView::Points(seq![q])))),
{
    let v = ValueView::Points(seq![q]);
    assert(readable(v));
    let t = value_text(v);
    assert(t == point_text(q));
    lemma_value_text_tight(v);
    lemma_trim_piece(pre, key, t);
    let item = key + seq!['='] + t;
    assert(trim(items[k]) == item);
    lemma_key_chars(key);
    assert(item[0] == key[0]);
    assert forall|d: int| 0 <= d < key.len() implies #[trigger] item[d] == key[d] by {}
    assert(item[key.len() as int] == '=');
    lemma_find_key(item, key, 0);
    assert(item.skip(key.len() as int + 1) =~= t);
    lemma_trim_tight(t);
    lemma_value_reads_back(v);
    assert(item.take(key.len() as int) =~= key);
    lemma_trim_tight(key);
}

/// The further points of a list each extend the list read so far.
proof fn lemma_step_more_points(
    items: Seq<Seq<char>>,
    k: int,
    acc: Seq<(Seq<char>, ValueView)>,
    key: Seq<char>,
    ps: Seq<Seq<Number>>,
    j: int,
)
    requires
        1 <= j <= ps.len(),
        forall|i: int| 0 <= i < ps.len() ==> coords_ok(#[trigger] ps[i]),
        acc.len() >= 1,
        acc.last() == (key, ValueView::Points(ps.take(j))),
        0 <= k,
        k + (ps.len() - j) <= items.len(),
        forall|d: int| 0 <= d < ps.len() - j ==> #[trigger] items[k + d] == seq![' '] + point_text(ps[j + d]),
    ensures
        attrs_from(items, k, acc) == attrs_from(
            items,
            k + (ps.len() - j),
            acc.drop_last().push((key, ValueView::Points(ps))),
        ),
    decreases ps.len() - j,
{
    if j == ps.len() {
        assert(ps.take(j) =~= ps);
        assert(acc.drop_last().push((key, ValueView::Points(ps))) =~= acc);
    } else {
        let q = ps[j];
        let t = point_text(q);
        assert(items[k + 0] == seq![' '] + t);
        lemma_point_text_chars(q);
        lemma_trim_tight(t);
        assert(trim(items[k]) == t);
        lemma_point_reads_back(q);
        let last = acc.last();
        let acc2 = acc.update(acc.len() - 1, (last.0, ValueView::Points(last.1->Points_0.push(q))));
        assert(ps.take(j).push(q) =~= ps.take(j + 1));
        assert(attrs_from(items, k, acc) == attrs_from(items, k + 1, acc2));
        assert(acc2.last() == (key, ValueView::Points(ps.take(j + 1))));
        assert forall|d: int| 0 <= d < ps.len() - (j + 1) implies #[trigger] items[(k + 1) + d] == seq![' ']
            + point_text(ps[(j + 1) + d]) by {
            assert(items[k + (d + 1)] == seq![' '] + point_text(ps[j + (d + 1)]));
        }
        lemma_step_more_points(items, k + 1, acc2, key, ps, j + 1);
        assert(acc2.drop_last() =~= acc.drop_last());
    }
}

/// Reading an attribute's pieces adds the attribute.
proof fn lemma_attr_step(
    items: Seq<Seq<char>>,
    k: int,
    acc: Seq<(Seq<char>, ValueView)>,
    x: (Seq<char>, ValueView),
    space: bool,
)
    requires
        attr_readable(x),
        0 <= k,
        k + attr_pieces(x).len() <= items.len(),
        forall|d: int| 0 <= d < attr_pieces(x).len() ==> #[trigger] items[k + d] == lead(attr_pieces(x), space)[d],
    ensures
        attrs_from(items, k, acc) == attrs_from(items, k + attr_pieces(x).len(), acc.push(x)),
{
    let pre: Seq<char> = if space {
        seq![' ']
    } else {
        Seq::empty()
    };
    let ps = attr_pieces(x);
    assert(items[k + 0] == lead(ps, space)[0]);
    assert(lead(ps, space)[0] == pre + ps[0]) by {
        if !space {
            assert(pre + ps[0] =~= ps[0]);
        }
    }
    match x.1 {
        ValueView::Points(pts) => {
            let key = x.0;
            assert(ps[0] == key + seq!['='] + point_text(pts[0]));
            lemma_step_first_point(items, k, acc, key, pts[0], pre);
            let acc1 = acc.push((key, ValueView::Points(seq![pts[0]])));
            assert(pts.take(1) =~= seq![pts[0]]);
            let f = |q: Seq<Number>| point_text(q);
            assert forall|d: int| 0 <= d < pts.len() - 1 implies #[trigger] items[(k + 1) + d] == seq![' ']
                + point_text(pts[1 + d]) by {
                assert(items[k + (d + 1)] == lead(ps, space)[d + 1]);
                assert(lead(ps, space)[d + 1] == ps[d + 1]);
                assert(ps[d + 1] == spaced(pts, f).drop_first()[d]);
                assert(spaced(pts, f)[d + 1] == seq![' '] + f(pts[d + 1]));
            }
            lemma_step_more_points(items, k + 1, acc1, key, pts, 1);
            assert(acc1.drop_last() =~= acc);
            assert((key, ValueView::Points(pts)) == x);
        },
        ValueView::Flag => {
            assert(ps[0] == x.0);
            lemma_step_flag(items, k, acc, x, pre);
        },
        _ => {
            assert(ps[0] == attr_text(x));
            lemma_step_value(items, k, acc, x, pre);
        },
    }
}

// ---- Lists -------------------------------------------------------------------

/// Every piece of an attribute is clean, and every piece after the first
/// starts with a space, as does the first when led by one.
proof fn lemma_attr_pieces_shape(x: (Seq<char>, ValueView), space: bool)
    requires
        attr_readable(x),
    ensures
        ({
            let ps = lead(attr_pieces(x), space);
            &&& ps.len() == attr_pieces(x).len()
            &&& forall|d: int| 0 <= d < ps.len() ==> clean(#[trigger] ps[d])
            &&& forall|d: int|
                0 <= d < ps.len() && (d > 0 || space) ==> (#[trigger] ps[d]).len() > 0 && ps[d][0] == ' '
        }),
{
    let pre: Seq<char> = if space {
        seq![' ']
    } else {
        Seq::empty()
    };
    let ps0 = attr_pieces(x);
    let ps = lead(ps0, space);
    lemma_key_chars(x.0);
    assert(ps[0] == pre + ps0[0]) by {
        if !space {
            assert(pre + ps0[0] =~= ps0[0]);
        }
    }
    match x.1 {
        ValueView::Points(pts) => {
            let f = |q: Seq<Number>| point_text(q);
            let head = pre + (x.0 + seq!['=']);
            assert forall|i: int| 0 <= i < head.len() implies plain(#[trigger] head[i]) && head[i] != ',' by {
                if pre.len() <= i < pre.len() + x.0.len() {
                    assert(head[i] == x.0[i - pre.len()]);
                }
            }
            assert(ps[0] =~= head + point_text(pts[0]));
            lemma_point_piece_clean(head, pts[0]);
            assert forall|d: int| 0 <= d < ps.len() implies clean(#[trigger] ps[d]) by {
                if d > 0 {
                    assert(ps[d] == spaced(pts, f).drop_first()[d - 1]);
                    assert(ps[d] == seq![' '] + point_text(pts[d]));
                    let sp = seq![' '];
                    assert forall|i: int| 0 <= i < sp.len() implies plain(#[trigger] sp[i]) && sp[i] != ',' by {}
                    lemma_point_piece_clean(sp, pts[d]);
                }
            }
            assert forall|d: int| 0 <= d < ps.len() && (d > 0 || space) implies (#[trigger] ps[d]).len() > 0
                && ps[d][0] == ' ' by {
                if d > 0 {
                    assert(ps[d] == spaced(pts, f).drop_first()[d - 1]);
                    assert(ps[d] == seq![' '] + point_text(pts[d]));
                }
            }
        },
        ValueView::Flag => {
            assert(ps0[0] == x.0);
            lemma_flag_piece_clean(pre, x.0);
        },
        _ => {
            assert(ps0[0] == attr_text(x));
            lemma_value_piece_clean(pre, x);
        },
    }
}

/// The pieces of a list are clean, and all but the first start with a
/// space.
proof fn lemma_list_pieces_shape(a: Seq<(Seq<char>, ValueView)>)
    requires
        forall|k: int| 0 <= k < a.len() ==> attr_readable(#[trigger] a[k]),
    ensures
        forall|d: int| 0 <= d < list_pieces(a).len() ==> clean(#[trigger] list_pieces(a)[d]),
        forall|d: int| 1 <= d < list_pieces(a).len() ==> (#[trigger] list_pieces(a)[d]).len() > 0 && list_pieces(
            a,
        )[d][0] == ' ',
        a.len() >= 1 ==> list_pieces(a).len() >= 1,
    decreases a.len(),
{
    if a.len() > 0 {
        let b = a.drop_last();
        assert forall|k: int| 0 <= k < b.len() implies attr_readable(#[trigger] b[k]) by {
            assert(b[k] == a[k]);
        }
        lemma_list_pieces_shape(b);
        assert(attr_readable(a[a.len() - 1]));
        lemma_attr_pieces_shape(a.last(), a.len() > 1);
        lemma_attr_pieces(a.last());
        let lp = list_pieces(b);
        let ps = lead(attr_pieces(a.last()), a.len() > 1);
        let all = list_pieces(a);
        assert(all == lp + ps);
        if a.len() == 1 {
            assert(lp.len() == 0);
        }
        assert forall|d: int| 0 <= d < all.len() implies clean(#[trigger] all[d]) by {
            if d < lp.len() {
                assert(all[d] == lp[d]);
            } else {
                assert(all[d] == ps[d - lp.len()]);
            }
        }
        assert forall|d: int| 1 <= d < all.len() implies (#[trigger] all[d]).len() > 0 && all[d][0] == ' ' by {
            if d < lp.len() {
                assert(all[d] == lp[d]);
            } else {
                assert(all[d] == ps[d - lp.len()]);
                if d - lp.len() == 0 {
                    assert(lp.len() >= 1);
                }
            }
        }
    }
}

/// Reading the pieces of a list adds its attributes.
proof fn lemma_list_attrs(items: Seq<Seq<char>>, a: Seq<(Seq<char>, ValueView)>)
    requires
        forall|k: int| 0 <= k < a.len() ==> attr_readable(#[trigger] a[k]),
        list_pieces(a).len() <= items.len(),
        forall|d: int| 0 <= d < list_pieces(a).len() ==> #[trigger] items[d] == list_pieces(a)[d],
    ensures
        attrs_from(items, 0, Seq::empty()) == attrs_from(items, list_pieces(a).len() as int, a),
    decreases a.len(),
{
    if a.len() == 0 {
        assert(a =~= Seq::<(Seq<char>, ValueView)>::empty());
    } else {
        let b = a.drop_last();
        assert forall|k: int| 0 <= k < b.len() implies attr_readable(#[trigger] b[k]) by {
            assert(b[k] == a[k]);
        }
        let lp = list_pieces(b);
        let x = a.last();
        let ps = lead(attr_pieces(x), a.len() > 1);
        assert(list_pieces(a) == lp + ps);
        assert(attr_readable(a[a.len() - 1]));
        lemma_attr_pieces_shape(x, a.len() > 1);
        assert forall|d: int| 0 <= d < lp.len() implies #[trigger] items[d] == lp[d] by {
            assert(items[d] == list_pieces(a)[d]);
        }
        lemma_list_attrs(items, b);
        assert forall|d: int| 0 <= d < attr_pieces(x).len() implies #[trigger] items[lp.len() + d] == lead(
            attr_pieces(x),
            a.len() > 1,
        )[d] by {
            assert(items[lp.len() + d] == list_pieces(a)[lp.len() + d]);
        }
        lemma_attr_step(items, lp.len() as int, b, x, a.len() > 1);
        assert(b.push(x) =~= a);
    }
}

/// An attribute list read back from the text it prints as, between its
/// brackets, is the same list: for every list that is not empty and whose
/// keys are valid, whose numbers are in lowest terms, whose lengths have
/// units, whose points have two or three coordinates, whose words read as
/// words and math as math, and whose strings, words, and math leave the
/// scanner at the top level where they end.
pub proof fn lemma_attrs_read_back(a: Seq<(Seq<char>, ValueView)>)
    requires
        a.len() >= 1,
        forall|k: int| 0 <= k < a.len() ==> attr_readable(#[trigger] a[k]),
    ensures
        attrs_text(a) == seq!['['] + list_text(a) + seq![']'],
        attrs_of(list_text(a)) == Ok::<Seq<(Seq<char>, ValueView)>, Seq<char>>(a),
{
    let ps = list_pieces(a);
    lemma_list_pieces(a);
    lemma_list_pieces_shape(a);
    lemma_split_commas(ps, Seq::empty());
    assert(Seq::<Seq<char>>::empty() + ps =~= ps);
    assert(split_items(list_text(a)) == Ok::<Seq<Seq<char>>, Seq<char>>(ps));
    lemma_list_attrs(ps, a);
}

} // verus!
