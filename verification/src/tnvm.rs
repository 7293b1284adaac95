//! The `.tnvm` file that LaTeX writes: the figures of a document and the
//! typeset size of their labels.  One record per line, fields separated by
//! spaces, lengths in TeX points as decimal numbers, `%` lines comments.
use vstd::prelude::*;

use crate::error::{Error, Pos, error_at, error_new};
use crate::number::{Number, decimal_of, parse_decimal};
use crate::text::{
    chars_of, is_alnum, is_digit, is_space, nat_text, push_chars, push_nat, push_str, same_chars, string_of, trim,
    trimmed,
};

verus! {

/// The `.tnvm` format version this crate reads.
pub const TNVM_VERSION: u32 = 1;

/// The typeset box of one label: its id, width, height and depth.
#[derive(Clone, Debug, PartialEq)]
pub struct TnvmLabel {
    pub id: String,
    pub width: Number,
    pub height: Number,
    pub depth: Number,
}

impl View for TnvmLabel {
    type V = (Seq<char>, Number, Number, Number);

    open spec fn view(&self) -> (Seq<char>, Number, Number, Number) {
        (self.id@, self.width, self.height, self.depth)
    }
}

/// One figure of the document.
#[derive(Clone, Debug, PartialEq)]
pub struct TnvmFigure {
    /// The figure's name, part of its `.tikz` file name.
    pub name: String,
    /// TeX points per layout unit.
    pub unit_pt: Number,
    /// TeX points per em of the figure's surrounding font.
    pub em_pt: Number,
    /// The tnv source file, as LaTeX named it.
    pub source: String,
    /// Measured label sizes, in TeX points, each id once.
    pub labels: Vec<TnvmLabel>,
}

/// A figure as plain values.
pub struct FigureView {
    pub name: Seq<char>,
    pub unit_pt: Number,
    pub em_pt: Number,
    pub source: Seq<char>,
    pub labels: Seq<(Seq<char>, Number, Number, Number)>,
}

impl View for TnvmFigure {
    type V = FigureView;

    open spec fn view(&self) -> FigureView {
        FigureView {
            name: self.name@,
            unit_pt: self.unit_pt,
            em_pt: self.em_pt,
            source: self.source@,
            labels: self.labels@.map_values(|l: TnvmLabel| l@),
        }
    }
}

pub open spec fn figures_view(f: Seq<TnvmFigure>) -> Seq<FigureView> {
    f.map_values(|x: TnvmFigure| x@)
}

// ---- Scanning ---------------------------------------------------------------

/// The first position at or after `i` holding `c`, or the length.
pub open spec fn first_at(s: Seq<char>, c: char, i: int) -> int
    decreases s.len() - i,
{
    if i >= s.len() {
        s.len() as int
    } else if s[i] == c {
        i
    } else {
        first_at(s, c, i + 1)
    }
}

proof fn lemma_first_at(s: Seq<char>, c: char, i: int, j: int)
    requires
        0 <= i <= j <= s.len(),
        forall|k: int| i <= k < j ==> s[k] != c,
        j == s.len() || s[j] == c,
    ensures
        first_at(s, c, i) == j,
    decreases j - i,
{
    if i < j {
        lemma_first_at(s, c, i + 1, j);
    }
}

fn find_char(s: &[char], c: char, i: usize) -> (j: usize)
    requires
        i <= s@.len(),
    ensures
        i <= j <= s@.len(),
        j == first_at(s@, c, i as int),
{
    let mut j = i;
    while j < s.len() && s[j] != c
        invariant
            i <= j <= s@.len(),
            forall|k: int| i <= k < j ==> s@[k] != c,
        decreases s@.len() - j,
    {
        j = j + 1;
    }
    proof {
        lemma_first_at(s@, c, i as int, j as int);
    }
    j
}

/// The first position at or after `i` where `p` starts, or the length.
pub open spec fn find_sub(s: Seq<char>, p: Seq<char>, i: int) -> int
    decreases s.len() - i,
{
    if i + p.len() > s.len() || i >= s.len() {
        s.len() as int
    } else if s.subrange(i, i + p.len()) == p {
        i
    } else {
        find_sub(s, p, i + 1)
    }
}

proof fn lemma_find_sub(s: Seq<char>, p: Seq<char>, i: int, j: int)
    requires
        0 <= i <= j <= s.len(),
        forall|k: int| i <= k < j ==> !(k + p.len() <= s.len() && #[trigger] s.subrange(k, k + p.len()) == p),
        j == s.len() || (j + p.len() <= s.len() && s.subrange(j, j + p.len()) == p) || j + p.len() > s.len(),
        p.len() > 0,
    ensures
        find_sub(s, p, i) == (if j + p.len() > s.len() { s.len() as int } else { j }),
    decreases j - i,
{
    if i < j {
        lemma_find_sub(s, p, i + 1, j);
    }
}

fn find_pattern(s: &[char], p: &[char]) -> (j: usize)
    requires
        p@.len() > 0,
    ensures
        j == find_sub(s@, p@, 0),
        j <= s@.len(),
        j < s@.len() ==> j + p@.len() <= s@.len(),
{
    let mut j: usize = 0;
    while j < s.len() && p.len() <= s.len() - j
        invariant
            j <= s@.len(),
            p@.len() > 0,
            forall|k: int| 0 <= k < j ==> !(k + p@.len() <= s@.len() && #[trigger] s@.subrange(k, k + p@.len()) == p@),
        decreases s@.len() - j,
    {
        if same_chars(&s[j..j + p.len()], p) {
            proof {
                lemma_find_sub(s@, p@, 0, j as int);
            }
            return j;
        }
        j = j + 1;
    }
    proof {
        lemma_find_sub(s@, p@, 0, j as int);
    }
    s.len()
}

/// The first position at or after `i` that is not whitespace, or the length.
pub open spec fn skip_spaces(s: Seq<char>, i: int) -> int
    decreases s.len() - i,
{
    if i >= s.len() {
        s.len() as int
    } else if is_space(s[i]) {
        skip_spaces(s, i + 1)
    } else {
        i
    }
}

/// The first whitespace at or after `i`, or the length.
pub open spec fn word_end(s: Seq<char>, i: int) -> int
    decreases s.len() - i,
{
    if i >= s.len() {
        s.len() as int
    } else if is_space(s[i]) {
        i
    } else {
        word_end(s, i + 1)
    }
}

/// The whitespace-separated words of `s` from `i` on.
pub open spec fn words_from(s: Seq<char>, i: int) -> Seq<Seq<char>>
    decreases s.len() - i,
{
    let a = skip_spaces(s, i);
    let b = word_end(s, a);
    if a >= s.len() || b <= i || b > s.len() {
        Seq::empty()
    } else {
        seq![s.subrange(a, b)] + words_from(s, b)
    }
}

proof fn lemma_skip_spaces(s: Seq<char>, i: int, j: int)
    requires
        0 <= i <= j <= s.len(),
        forall|k: int| i <= k < j ==> is_space(#[trigger] s[k]),
        j == s.len() || !is_space(s[j]),
    ensures
        skip_spaces(s, i) == j,
    decreases j - i,
{
    if i < j {
        lemma_skip_spaces(s, i + 1, j);
    }
}

proof fn lemma_word_end(s: Seq<char>, i: int, j: int)
    requires
        0 <= i <= j <= s.len(),
        forall|k: int| i <= k < j ==> !is_space(#[trigger] s[k]),
        j == s.len() || is_space(s[j]),
    ensures
        word_end(s, i) == j,
    decreases j - i,
{
    if i < j {
        lemma_word_end(s, i + 1, j);
    }
}

pub open spec fn views(w: Seq<Vec<char>>) -> Seq<Seq<char>> {
    w.map_values(|v: Vec<char>| v@)
}

/// The whitespace-separated words of `s`.
fn words(s: &[char]) -> (w: Vec<Vec<char>>)
    ensures
        views(w@) == words_from(s@, 0),
{
    let mut w: Vec<Vec<char>> = Vec::new();
    let mut i: usize = 0;
    while i < s.len()
        invariant
            i <= s@.len(),
            views(w@) + words_from(s@, i as int) == words_from(s@, 0),
        decreases s@.len() - i,
    {
        let mut a = i;
        while a < s.len() && crate::text::space(s[a])
            invariant
                i <= a <= s@.len(),
                forall|k: int| i <= k < a ==> is_space(#[trigger] s@[k]),
            decreases s@.len() - a,
        {
            a = a + 1;
        }
        proof {
            lemma_skip_spaces(s@, i as int, a as int);
        }
        if a >= s.len() {
            proof {
                assert(words_from(s@, i as int) =~= Seq::<Seq<char>>::empty());
            }
            i = a;
            proof {
                assert(words_from(s@, i as int) =~= Seq::<Seq<char>>::empty());
                assert(views(w@) + words_from(s@, i as int) =~= views(w@));
            }
        } else {
            let mut b = a;
            while b < s.len() && !crate::text::space(s[b])
                invariant
                    a <= b <= s@.len(),
                    forall|k: int| a <= k < b ==> !is_space(#[trigger] s@[k]),
                decreases s@.len() - b,
            {
                b = b + 1;
            }
            proof {
                lemma_word_end(s@, a as int, b as int);
                assert(b > a);
            }
            let ghost old_w = views(w@);
            let word: Vec<char> = crate::text::copy_chars(&s[a..b]);
            w.push(word);
            proof {
                assert(views(w@) =~= old_w.push(s@.subrange(a as int, b as int)));
                assert(words_from(s@, i as int) == seq![s@.subrange(a as int, b as int)] + words_from(s@, b as int));
                assert(views(w@) + words_from(s@, b as int) =~= old_w + words_from(s@, i as int));
            }
            i = b;
        }
    }
    proof {
        assert(words_from(s@, i as int) =~= Seq::<Seq<char>>::empty());
        assert(views(w@) + words_from(s@, i as int) =~= views(w@));
    }
    w
}

// ---- Fields -----------------------------------------------------------------

/// The unsigned 32-bit number the text stands for, as Rust reads one: an
/// optional `+`, then one or more digits.
pub open spec fn u32_of(s: Seq<char>) -> Option<nat> {
    let d = if s.len() > 0 && s[0] == '+' {
        s.drop_first()
    } else {
        s
    };
    if d.len() > 0 && crate::number::all_digits(d) && crate::number::digits_value(d) <= u32::MAX {
        Some(crate::number::digits_value(d))
    } else {
        None
    }
}

fn read_u32(s: &[char]) -> (r: Option<u32>)
    ensures
        match u32_of(s@) {
            Some(v) => r == Some(v as u32),
            None => r is None,
        },
{
    let start: usize = if s.len() > 0 && s[0] == '+' {
        1
    } else {
        0
    };
    let ghost d = s@.subrange(start as int, s@.len() as int);
    proof {
        if s@.len() > 0 && s@[0] == '+' {
            assert(d =~= s@.drop_first());
        } else {
            assert(d =~= s@);
        }
    }
    if start >= s.len() {
        return None;
    }
    let mut acc: u64 = 0;
    let mut i: usize = start;
    while i < s.len()
        invariant
            start <= i <= s@.len(),
            d == s@.subrange(start as int, s@.len() as int),
            d == (if s@.len() > 0 && s@[0] == '+' {
                s@.drop_first()
            } else {
                s@
            }),
            acc == crate::number::digits_value(d.take(i - start)),
            acc <= u32::MAX,
            crate::number::all_digits(d.take(i - start)),
        decreases s@.len() - i,
    {
        if !crate::text::digit(s[i]) {
            proof {
                assert(d[i - start] == s@[i as int]);
                assert(!is_digit(d[i - start]));
                assert(!crate::number::all_digits(d));
            }
            return None;
        }
        proof {
            assert(d.take(i - start + 1).drop_last() =~= d.take(i - start));
            assert(d.take(i - start + 1).last() == s@[i as int]);
        }
        let v: u64 = acc * 10 + (s[i] as u64 - '0' as u64);
        if v > 4294967295u64 {
            proof {
                assert(v == crate::number::digits_value(d.take(i - start + 1)));
                crate::number::lemma_digits_value_prefix(d, i - start + 1);
            }
            return None;
        }
        acc = v;
        i = i + 1;
        proof {
            assert forall|k: int| 0 <= k < d.take(i - start).len() implies #[trigger] is_digit(d.take(i - start)[k]) by {
                if k < i - start - 1 {
                    assert(d.take(i - start)[k] == d.take(i - start - 1)[k]);
                }
            }
        }
    }
    proof {
        assert(d.take(i - start) =~= d);
    }
    Some(acc as u32)
}

/// A letter, digit, `-`, `_` or `.`.
pub open spec fn name_char(c: char) -> bool {
    is_alnum(c) || c == '-' || c == '_' || c == '.'
}

/// A figure name: one or more name characters.
pub open spec fn name_ok(s: Seq<char>) -> bool {
    s.len() > 0 && forall|k: int| 0 <= k < s.len() ==> name_char(#[trigger] s[k])
}

fn is_name(s: &[char]) -> (r: bool)
    ensures
        r == name_ok(s@),
{
    if s.len() == 0 {
        return false;
    }
    let mut i: usize = 0;
    while i < s.len()
        invariant
            i <= s@.len(),
            forall|k: int| 0 <= k < i ==> name_char(#[trigger] s@[k]),
        decreases s@.len() - i,
    {
        let c = s[i];
        if !(crate::text::alnum(c) || c == '-' || c == '_' || c == '.') {
            return false;
        }
        i = i + 1;
    }
    true
}

pub open spec fn figure_usage() -> Seq<char> {
    "expected `figure <figure> unit=<pt> em=<pt> source=<file>`"@
}

pub open spec fn label_usage() -> Seq<char> {
    "expected `label <figure> <id> <width> <height> <depth>`"@
}

/// `` bad length `x` ``.
pub open spec fn bad_length(x: Seq<char>) -> Seq<char> {
    "bad length `"@ + x + "`"@
}

/// The `key=value` fields of a figure, from the `i`-th on, given the unit
/// and em read so far.
pub open spec fn fields_of(fields: Seq<Seq<char>>, i: int, unit: Option<Number>, em: Option<Number>) -> Result<
    (Option<Number>, Option<Number>),
    Seq<char>,
>
    decreases fields.len() - i,
{
    if i >= fields.len() || i < 0 {
        Ok((unit, em))
    } else {
        let f = fields[i];
        let e = first_at(f, '=', 0);
        if e >= f.len() {
            Err(figure_usage())
        } else {
            let key = f.take(e);
            let val = f.skip(e + 1);
            match decimal_of(val) {
                None => Err(bad_length(val)),
                Some(v) => if key == "unit"@ {
                    fields_of(fields, i + 1, Some(v), em)
                } else if key == "em"@ {
                    fields_of(fields, i + 1, unit, Some(v))
                } else {
                    Err("unknown field `"@ + key + "`"@)
                },
            }
        }
    }
}

/// `source=` as characters.
pub open spec fn source_key() -> Seq<char> {
    seq!['s', 'o', 'u', 'r', 'c', 'e', '=']
}

/// `<figure> unit=<pt> em=<pt> source=<file>`; the file name is the rest of
/// the line, so it may contain spaces.
pub open spec fn figure_of(rest: Seq<char>) -> Result<FigureView, Seq<char>> {
    let k = first_at(rest, ' ', 0);
    if k >= rest.len() {
        Err(figure_usage())
    } else {
        let name = rest.take(k);
        let r2 = rest.skip(k + 1);
        if !name_ok(name) {
            Err("figure name `"@ + name + "` is not a letter, digit, `-`, `_`, or `.` sequence"@)
        } else {
            let q = find_sub(r2, source_key(), 0);
            if q >= r2.len() {
                Err(figure_usage())
            } else {
                match fields_of(words_from(r2.take(q), 0), 0, None, None) {
                    Err(m) => Err(m),
                    Ok((Some(u), Some(e))) => if u.mantissa > 0 && e.mantissa > 0 {
                        Ok(
                            FigureView {
                                name,
                                unit_pt: u,
                                em_pt: e,
                                source: trim(r2.skip(q + 7)),
                                labels: Seq::empty(),
                            },
                        )
                    } else {
                        Err("unit and em must be positive"@)
                    },
                    Ok(_) => Err(figure_usage()),
                }
            }
        }
    }
}

fn read_fields(fields: &Vec<Vec<char>>) -> (r: Result<(Option<Number>, Option<Number>), Vec<char>>)
    ensures
        match fields_of(views(fields@), 0, None, None) {
            Ok(x) => r matches Ok(y) && y == x,
            Err(m) => r matches Err(e) && e@ == m,
        },
{
    let ghost fv = views(fields@);
    let mut unit: Option<Number> = None;
    let mut em: Option<Number> = None;
    let mut i: usize = 0;
    while i < fields.len()
        invariant
            i <= fields@.len(),
            fv == views(fields@),
            fv.len() == fields@.len(),
            fields_of(fv, 0, None, None) == fields_of(fv, i as int, unit, em),
        decreases fields@.len() - i,
    {
        let f = &fields[i];
        assert(fv[i as int] == f@);
        let e = find_char(f.as_slice(), '=', 0);
        if e >= f.len() {
            return Err(chars_of("expected `figure <figure> unit=<pt> em=<pt> source=<file>`"));
        }
        let key = &f[0..e];
        let val = &f[e + 1..f.len()];
        proof {
            assert(key@ =~= f@.take(e as int));
            assert(val@ =~= f@.skip(e + 1));
        }
        let v = match parse_decimal(val) {
            Some(v) => v,
            None => {
                let mut m: Vec<char> = Vec::new();
                push_str(&mut m, "bad length `");
                push_chars(&mut m, val);
                push_str(&mut m, "`");
                return Err(m);
            },
        };
        if crate::text::str_is("unit", key) {
            unit = Some(v);
        } else if crate::text::str_is("em", key) {
            em = Some(v);
        } else {
            let mut m: Vec<char> = Vec::new();
            push_str(&mut m, "unknown field `");
            push_chars(&mut m, key);
            push_str(&mut m, "`");
            return Err(m);
        }
        i = i + 1;
    }
    Ok((unit, em))
}

fn read_figure(rest: &[char]) -> (r: Result<TnvmFigure, Vec<char>>)
    ensures
        match figure_of(rest@) {
            Ok(f) => r matches Ok(g) && g@ == f,
            Err(m) => r matches Err(e) && e@ == m,
        },
{
    let k = find_char(rest, ' ', 0);
    if k >= rest.len() {
        return Err(chars_of("expected `figure <figure> unit=<pt> em=<pt> source=<file>`"));
    }
    let name = &rest[0..k];
    let r2 = &rest[k + 1..rest.len()];
    proof {
        assert(name@ =~= rest@.take(k as int));
        assert(r2@ =~= rest@.skip(k + 1));
    }
    if !is_name(name) {
        let mut m: Vec<char> = Vec::new();
        push_str(&mut m, "figure name `");
        push_chars(&mut m, name);
        push_str(&mut m, "` is not a letter, digit, `-`, `_`, or `.` sequence");
        return Err(m);
    }
    let pat = chars_of("source=");
    proof {
        reveal_strlit("source=");
        assert(pat@ =~= source_key());
    }
    let q = find_pattern(r2, pat.as_slice());
    if q >= r2.len() {
        return Err(chars_of("expected `figure <figure> unit=<pt> em=<pt> source=<file>`"));
    }
    let before = &r2[0..q];
    proof {
        assert(before@ =~= r2@.take(q as int));
    }
    let fields = words(before);
    let (u, e) = match read_fields(&fields) {
        Ok(x) => x,
        Err(m) => return Err(m),
    };
    match (u, e) {
        (Some(u), Some(e)) => {
            if u.mantissa > 0 && e.mantissa > 0 {
                let after = &r2[q + 7..r2.len()];
                proof {
                    assert(after@ =~= r2@.skip(q + 7));
                }
                let source = trimmed(after);
                let fig = TnvmFigure {
                    name: string_of(name),
                    unit_pt: u,
                    em_pt: e,
                    source: string_of(source),
                    labels: Vec::new(),
                };
                proof {
                    assert(fig@.labels =~= Seq::<(Seq<char>, Number, Number, Number)>::empty());
                    assert(views(fields@) == words_from(r2@.take(q as int), 0));
                }
                Ok(fig)
            } else {
                Err(chars_of("unit and em must be positive"))
            }
        },
        _ => Err(chars_of("expected `figure <figure> unit=<pt> em=<pt> source=<file>`")),
    }
}

// ---- Records ----------------------------------------------------------------

/// The first figure at or after `i` with the name, or -1.
pub open spec fn fig_from(figs: Seq<FigureView>, name: Seq<char>, i: int) -> int
    decreases figs.len() - i,
{
    if i >= figs.len() || i < 0 {
        -1
    } else if figs[i].name == name {
        i
    } else {
        fig_from(figs, name, i + 1)
    }
}

/// The first label at or after `i` with the id, or -1.
pub open spec fn label_from(labels: Seq<(Seq<char>, Number, Number, Number)>, id: Seq<char>, i: int) -> int
    decreases labels.len() - i,
{
    if i >= labels.len() || i < 0 {
        -1
    } else if labels[i].0 == id {
        i
    } else {
        label_from(labels, id, i + 1)
    }
}

/// The labels with the size of `id` set: replaced where it was measured
/// before, added at the end otherwise.
pub open spec fn label_put(
    labels: Seq<(Seq<char>, Number, Number, Number)>,
    id: Seq<char>,
    w: Number,
    h: Number,
    d: Number,
) -> Seq<(Seq<char>, Number, Number, Number)> {
    let k = label_from(labels, id, 0);
    if k >= 0 {
        labels.update(k, (id, w, h, d))
    } else {
        labels.push((id, w, h, d))
    }
}

/// The position of a line's record.
pub open spec fn line_pos(ln: int) -> Pos {
    Pos { line: ln as usize, col: 1 }
}

/// One line of the file, trimmed, with its line number: whether the
/// version has been read and the figures so far, after it.
pub open spec fn tnvm_step(line: Seq<char>, ln: int, version: bool, figs: Seq<FigureView>) -> Result<
    (bool, Seq<FigureView>),
    (Option<Pos>, Seq<char>),
> {
    let pos = Some(line_pos(ln));
    if line.len() == 0 || line[0] == '%' {
        Ok((version, figs))
    } else {
        let k = first_at(line, ' ', 0);
        let record = if k < line.len() {
            line.take(k)
        } else {
            line
        };
        let rest = if k < line.len() {
            trim(line.skip(k + 1))
        } else {
            Seq::empty()
        };
        if !version {
            if record == "tnvm"@ {
                match u32_of(rest) {
                    None => Err((pos, "bad version `"@ + rest + "`"@)),
                    Some(v) => if v != 1 {
                        Err((pos, "this is .tnvm version "@ + nat_text(v) + "; tnviz reads version 1"@))
                    } else {
                        Ok((true, figs))
                    },
                }
            } else {
                Err((pos, "a .tnvm file starts with `tnvm <version>`"@))
            }
        } else if record == "figure"@ {
            match figure_of(rest) {
                Err(m) => Err((pos, m)),
                Ok(f) => if fig_from(figs, f.name, 0) >= 0 {
                    Err((pos, "figure `"@ + f.name + "` appears twice"@))
                } else {
                    Ok((true, figs.push(f)))
                },
            }
        } else if record == "label"@ {
            let fs = words_from(rest, 0);
            if fs.len() != 5 {
                Err((pos, label_usage()))
            } else if decimal_of(fs[2]) is None {
                Err((pos, bad_length(fs[2])))
            } else if decimal_of(fs[3]) is None {
                Err((pos, bad_length(fs[3])))
            } else if decimal_of(fs[4]) is None {
                Err((pos, bad_length(fs[4])))
            } else {
                let j = fig_from(figs, fs[0], 0);
                if j < 0 {
                    Err((pos, "label of unknown figure `"@ + fs[0] + "`"@))
                } else {
                    let f = figs[j];
                    Ok(
                        (
                            true,
                            figs.update(
                                j,
                                FigureView {
                                    labels: label_put(
                                        f.labels,
                                        fs[1],
                                        decimal_of(fs[2])->Some_0,
                                        decimal_of(fs[3])->Some_0,
                                        decimal_of(fs[4])->Some_0,
                                    ),
                                    ..f
                                },
                            ),
                        ),
                    )
                }
            }
        } else {
            Err((pos, "unknown record `"@ + record + "`"@))
        }
    }
}

/// The end of the file, after the lines.
pub open spec fn tnvm_end(version: bool, figs: Seq<FigureView>) -> Result<Seq<FigureView>, (Option<Pos>, Seq<char>)> {
    if version {
        Ok(figs)
    } else {
        Err((None, "empty .tnvm file"@))
    }
}

/// The lines of `src` from position `i` on, the first of them numbered
/// `ln`.
pub open spec fn tnvm_from(src: Seq<char>, i: int, ln: int, version: bool, figs: Seq<FigureView>) -> Result<
    Seq<FigureView>,
    (Option<Pos>, Seq<char>),
>
    decreases src.len() - i,
{
    if i >= src.len() || i < 0 {
        tnvm_end(version, figs)
    } else {
        let e = first_at(src, '\n', i);
        match tnvm_step(trim(src.subrange(i, e)), ln, version, figs) {
            Err(x) => Err(x),
            Ok((v2, f2)) => if e < i || e >= src.len() {
                tnvm_end(v2, f2)
            } else {
                tnvm_from(src, e + 1, ln + 1, v2, f2)
            },
        }
    }
}

/// What reading a `.tnvm` file gives: its figures, or the first error with
/// its line.
pub open spec fn tnvm_spec(src: Seq<char>) -> Result<Seq<FigureView>, (Option<Pos>, Seq<char>)> {
    tnvm_from(src, 0, 1, false, Seq::empty())
}

fn find_figure(figs: &Vec<TnvmFigure>, name: &[char]) -> (r: Option<usize>)
    ensures
        match r {
            Some(j) => fig_from(figures_view(figs@), name@, 0) == j as int && j < figs@.len(),
            None => fig_from(figures_view(figs@), name@, 0) == -1,
        },
{
    let ghost fv = figures_view(figs@);
    let mut j: usize = 0;
    while j < figs.len()
        invariant
            j <= figs@.len(),
            fv == figures_view(figs@),
            fig_from(fv, name@, 0) == fig_from(fv, name@, j as int),
        decreases figs@.len() - j,
    {
        assert(fv[j as int] == figs@[j as int]@);
        let c = chars_of(figs[j].name.as_str());
        if same_chars(c.as_slice(), name) {
            return Some(j);
        }
        j = j + 1;
    }
    None
}

fn copy_label(l: &TnvmLabel) -> (r: TnvmLabel)
    ensures
        r@ == l@,
{
    TnvmLabel { id: crate::text::string_copy(&l.id), width: l.width, height: l.height, depth: l.depth }
}

/// The labels with the size of `id` set.
fn put_label(labels: &Vec<TnvmLabel>, id: &[char], w: Number, h: Number, d: Number) -> (r: Vec<TnvmLabel>)
    ensures
        r@.map_values(|l: TnvmLabel| l@) == label_put(labels@.map_values(|l: TnvmLabel| l@), id@, w, h, d),
{
    let ghost lv = labels@.map_values(|l: TnvmLabel| l@);
    let mut out: Vec<TnvmLabel> = Vec::new();
    let mut found: Option<usize> = None;
    let mut k: usize = 0;
    while k < labels.len()
        invariant
            k <= labels@.len(),
            lv == labels@.map_values(|l: TnvmLabel| l@),
            out@.map_values(|l: TnvmLabel| l@) == lv.take(k as int),
            match found {
                Some(j) => j < k && label_from(lv, id@, 0) == j as int,
                None => label_from(lv, id@, 0) == label_from(lv, id@, k as int),
            },
        decreases labels@.len() - k,
    {
        let ghost before = out@.map_values(|l: TnvmLabel| l@);
        let l = copy_label(&labels[k]);
        if found.is_none() {
            let c = chars_of(labels[k].id.as_str());
            if same_chars(c.as_slice(), id) {
                found = Some(k);
            }
        }
        out.push(l);
        proof {
            assert(out@.map_values(|l: TnvmLabel| l@) =~= before.push(lv[k as int]));
            assert(lv.take(k + 1) =~= lv.take(k as int).push(lv[k as int]));
        }
        k = k + 1;
    }
    proof {
        assert(lv.take(k as int) =~= lv);
    }
    let new_label = TnvmLabel { id: string_of(id), width: w, height: h, depth: d };
    match found {
        Some(j) => {
            let ghost before = out@;
            out.set(j, new_label);
            proof {
                assert(out@.map_values(|l: TnvmLabel| l@) =~= lv.update(j as int, (id@, w, h, d)));
            }
        },
        None => {
            let ghost before = out@;
            out.push(new_label);
            proof {
                assert(out@.map_values(|l: TnvmLabel| l@) =~= lv.push((id@, w, h, d)));
            }
        },
    }
    out
}

fn bad_length_at(pos: Pos, x: &[char]) -> (e: Error)
    ensures
        e.pos == Some(pos),
        e.message@ == bad_length(x@),
{
    let mut m: Vec<char> = Vec::new();
    push_str(&mut m, "bad length `");
    push_chars(&mut m, x);
    push_str(&mut m, "`");
    error_at(pos, m.as_slice())
}

/// Read one trimmed line, numbered `ln`.
fn step(line: &[char], ln: usize, version: bool, figs: &mut Vec<TnvmFigure>) -> (r: Result<bool, Error>)
    ensures
        match tnvm_step(line@, ln as int, version, figures_view(old(figs)@)) {
            Ok((v, f)) => r matches Ok(b) && b == v && figures_view(final(figs)@) == f,
            Err((p, m)) => r matches Err(e) && e.pos == p && e.message@ == m,
        },
{
    let pos = Pos { line: ln, col: 1 };
    if line.len() == 0 || line[0] == '%' {
        return Ok(version);
    }
    let k = find_char(line, ' ', 0);
    let (record, rest): (&[char], &[char]) = if k < line.len() {
        (&line[0..k], trimmed(&line[k + 1..line.len()]))
    } else {
        (line, &line[0..0])
    };
    proof {
        if k < line@.len() {
            assert(record@ =~= line@.take(k as int));
            assert(line@.subrange(k + 1, line@.len() as int) =~= line@.skip(k + 1));
        } else {
            assert(record@ =~= line@);
            assert(rest@ =~= Seq::<char>::empty());
        }
    }
    if !version {
        if crate::text::str_is("tnvm", record) {
            match read_u32(rest) {
                None => {
                    let mut m: Vec<char> = Vec::new();
                    push_str(&mut m, "bad version `");
                    push_chars(&mut m, rest);
                    push_str(&mut m, "`");
                    return Err(error_at(pos, m.as_slice()));
                },
                Some(v) => {
                    if v != TNVM_VERSION {
                        let mut m: Vec<char> = Vec::new();
                        push_str(&mut m, "this is .tnvm version ");
                        push_nat(&mut m, v as u64);
                        push_str(&mut m, "; tnviz reads version 1");
                        return Err(error_at(pos, m.as_slice()));
                    }
                    return Ok(true);
                },
            }
        } else {
            return Err(error_at(pos, chars_of("a .tnvm file starts with `tnvm <version>`").as_slice()));
        }
    }
    if crate::text::str_is("figure", record) {
        let f = match read_figure(rest) {
            Ok(f) => f,
            Err(m) => return Err(error_at(pos, m.as_slice())),
        };
        let fname = chars_of(f.name.as_str());
        if find_figure(figs, fname.as_slice()).is_some() {
            let mut m: Vec<char> = Vec::new();
            push_str(&mut m, "figure `");
            push_chars(&mut m, fname.as_slice());
            push_str(&mut m, "` appears twice");
            return Err(error_at(pos, m.as_slice()));
        }
        let ghost before = figures_view(figs@);
        figs.push(f);
        proof {
            assert(figures_view(figs@) =~= before.push(f@));
        }
        return Ok(true);
    }
    if crate::text::str_is("label", record) {
        let fs = words(rest);
        assert(views(fs@).len() == fs@.len());
        if fs.len() != 5 {
            return Err(error_at(pos, chars_of("expected `label <figure> <id> <width> <height> <depth>`").as_slice()));
        }
        proof {
            assert(views(fs@)[2] == fs@[2]@);
            assert(views(fs@)[3] == fs@[3]@);
            assert(views(fs@)[4] == fs@[4]@);
            assert(views(fs@)[0] == fs@[0]@);
            assert(views(fs@)[1] == fs@[1]@);
        }
        let w = match parse_decimal(fs[2].as_slice()) {
            Some(x) => x,
            None => return Err(bad_length_at(pos, fs[2].as_slice())),
        };
        let h = match parse_decimal(fs[3].as_slice()) {
            Some(x) => x,
            None => return Err(bad_length_at(pos, fs[3].as_slice())),
        };
        let d = match parse_decimal(fs[4].as_slice()) {
            Some(x) => x,
            None => return Err(bad_length_at(pos, fs[4].as_slice())),
        };
        let j = match find_figure(figs, fs[0].as_slice()) {
            Some(j) => j,
            None => {
                let mut m: Vec<char> = Vec::new();
                push_str(&mut m, "label of unknown figure `");
                push_chars(&mut m, fs[0].as_slice());
                push_str(&mut m, "`");
                return Err(error_at(pos, m.as_slice()));
            },
        };
        let ghost before = figures_view(figs@);
        assert(before[j as int] == figs@[j as int]@);
        let labels = put_label(&figs[j].labels, fs[1].as_slice(), w, h, d);
        let nf = TnvmFigure {
            name: crate::text::string_copy(&figs[j].name),
            unit_pt: figs[j].unit_pt,
            em_pt: figs[j].em_pt,
            source: crate::text::string_copy(&figs[j].source),
            labels,
        };
        figs.set(j, nf);
        proof {
            assert(figures_view(figs@) =~= before.update(
                j as int,
                FigureView {
                    labels: label_put(
                        before[j as int].labels,
                        fs@[1]@,
                        decimal_of(fs@[2]@)->Some_0,
                        decimal_of(fs@[3]@)->Some_0,
                        decimal_of(fs@[4]@)->Some_0,
                    ),
                    ..before[j as int]
                },
            ));
        }
        return Ok(true);
    }
    let mut m: Vec<char> = Vec::new();
    push_str(&mut m, "unknown record `");
    push_chars(&mut m, record);
    push_str(&mut m, "`");
    Err(error_at(pos, m.as_slice()))
}

/// Read a `.tnvm` file.
pub fn parse_tnvm(src: &str) -> (r: Result<Vec<TnvmFigure>, Error>)
    requires
        src@.len() < usize::MAX,
    ensures
        match tnvm_spec(src@) {
            Ok(v) => r matches Ok(f) && figures_view(f@) == v,
            Err((p, m)) => r matches Err(e) && e.pos == p && e.message@ == m,
        },
{
    let s = chars_of(src);
    let mut figs: Vec<TnvmFigure> = Vec::new();
    let mut version = false;
    let mut i: usize = 0;
    let mut ln: usize = 1;
    proof {
        assert(figures_view(figs@) =~= Seq::<FigureView>::empty());
    }
    while i < s.len()
        invariant
            i <= s@.len(),
            1 <= ln <= i + 1,
            s@ == src@,
            s@.len() < usize::MAX,
            tnvm_spec(src@) == tnvm_from(s@, i as int, ln as int, version, figures_view(figs@)),
        decreases s@.len() - i,
    {
        let e = find_char(s.as_slice(), '\n', i);
        let sub = &s[i..e];
        let line = trimmed(sub);
        let ghost f0 = figures_view(figs@);
        let ghost v0 = version;
        match step(line, ln, version, &mut figs) {
            Ok(v) => version = v,
            Err(err) => return Err(err),
        }
        if e >= s.len() {
            proof {
                assert(tnvm_from(s@, i as int, ln as int, v0, f0) == tnvm_end(version, figures_view(figs@)));
            }
            i = s.len();
            proof {
                assert(tnvm_from(s@, i as int, ln as int, version, figures_view(figs@)) == tnvm_end(version, figures_view(figs@)));
            }
        } else {
            i = e + 1;
            ln = ln + 1;
        }
    }
    if !version {
        return Err(error_new(chars_of("empty .tnvm file").as_slice()));
    }
    Ok(figs)
}

} // verus!
