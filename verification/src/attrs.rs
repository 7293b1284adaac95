//! Reading attribute lists: the text between the brackets of `[...]`, with
//! `let` variables substituted.

use vstd::prelude::*;

use crate::error::{Error, Pos, error_at};
use crate::number::{Number, decimal_of, number_wf, parse_decimal};
use crate::text::{
    alnum, alpha, chars_of, copy_chars, has_prefix, is_alnum, is_alpha, is_space, push_chars, push_str,
    same_chars, space, starts_with, string_of, trim, trimmed,
};
use crate::value::{Attr, Value, ValueView, attrs_view, attrs_wf, value_wf};

verus! {

// ---- Variables -----------------------------------------------------------------

/// A character that may follow `@` in a variable name.
pub open spec fn is_var_char(c: char) -> bool {
    is_alnum(c) || c == '_'
}

/// The length of the run of variable-name characters starting at `i`.
pub open spec fn var_run(s: Seq<char>, i: int) -> nat
    decreases s.len() - i,
{
    if i < 0 || i >= s.len() || !is_var_char(s[i]) {
        0
    } else {
        var_run(s, i + 1) + 1
    }
}

/// The value of the first variable with the name.
pub open spec fn lookup(vars: Seq<(Seq<char>, Seq<char>)>, name: Seq<char>) -> Option<Seq<char>>
    decreases vars.len(),
{
    if vars.len() == 0 {
        None
    } else if vars[0].0 == name {
        Some(vars[0].1)
    } else {
        lookup(vars.drop_first(), name)
    }
}

pub open spec fn unknown_variable(name: Seq<char>) -> Seq<char> {
    "unknown variable `@"@ + name + "`; declare it first with `let "@ + name + " = …`"@
}

/// Substitution from position `i`, inside a string and inside math as
/// given, after writing `acc`.
pub open spec fn subst_from(
    raw: Seq<char>,
    vars: Seq<(Seq<char>, Seq<char>)>,
    i: int,
    quote: bool,
    math: bool,
    acc: Seq<char>,
) -> Result<Seq<char>, Seq<char>>
    decreases raw.len() - i,
{
    if i < 0 || i >= raw.len() {
        Ok(acc)
    } else {
        let c = raw[i];
        if c == '"' && !math {
            subst_from(raw, vars, i + 1, !quote, math, acc.push(c))
        } else if c == '$' && !quote {
            subst_from(raw, vars, i + 1, quote, !math, acc.push(c))
        } else if c == '@' && !quote && !math {
            let n = var_run(raw, i + 1);
            let name = raw.subrange(i + 1, i + 1 + n);
            if n == 0 {
                Err("`@` must be followed by a variable name"@)
            } else {
                match lookup(vars, name) {
                    None => Err(unknown_variable(name)),
                    Some(v) => if i + 1 + n <= raw.len() {
                        subst_from(raw, vars, i + 1 + n, quote, math, acc + v)
                    } else {
                        Ok(acc)
                    },
                }
            }
        } else {
            subst_from(raw, vars, i + 1, quote, math, acc.push(c))
        }
    }
}

/// `raw` with every `@name` outside strings and math replaced by the value
/// of the variable `name`.
pub open spec fn substitution(raw: Seq<char>, vars: Seq<(Seq<char>, Seq<char>)>) -> Result<
    Seq<char>,
    Seq<char>,
> {
    subst_from(raw, vars, 0, false, false, Seq::empty())
}

/// No `@` of `raw` from position `i` on stands outside strings and math,
/// inside a string and inside math as given.
pub open spec fn no_var_from(raw: Seq<char>, i: int, quote: bool, math: bool) -> bool
    decreases raw.len() - i,
{
    if i < 0 || i >= raw.len() {
        true
    } else {
        let c = raw[i];
        if c == '"' && !math {
            no_var_from(raw, i + 1, !quote, math)
        } else if c == '$' && !quote {
            no_var_from(raw, i + 1, quote, !math)
        } else if c == '@' && !quote && !math {
            false
        } else {
            no_var_from(raw, i + 1, quote, math)
        }
    }
}

proof fn lemma_subst_identity_from(
    raw: Seq<char>,
    vars: Seq<(Seq<char>, Seq<char>)>,
    i: int,
    quote: bool,
    math: bool,
    acc: Seq<char>,
)
    requires
        0 <= i <= raw.len(),
        no_var_from(raw, i, quote, math),
    ensures
        subst_from(raw, vars, i, quote, math, acc) == Ok::<Seq<char>, Seq<char>>(acc + raw.subrange(i, raw.len() as int)),
    decreases raw.len() - i,
{
    if i < raw.len() {
        let c = raw[i];
        assert(acc.push(c) + raw.subrange(i + 1, raw.len() as int) =~= acc + raw.subrange(i, raw.len() as int));
        if c == '"' && !math {
            lemma_subst_identity_from(raw, vars, i + 1, !quote, math, acc.push(c));
        } else if c == '$' && !quote {
            lemma_subst_identity_from(raw, vars, i + 1, quote, !math, acc.push(c));
        } else {
            lemma_subst_identity_from(raw, vars, i + 1, quote, math, acc.push(c));
        }
    } else {
        assert(acc + raw.subrange(i, raw.len() as int) =~= acc);
    }
}

/// Text with no `@` outside strings and math is left as it is, whatever
/// the variables.
pub proof fn lemma_substitute_identity(raw: Seq<char>, vars: Seq<(Seq<char>, Seq<char>)>)
    requires
        no_var_from(raw, 0, false, false),
    ensures
        substitution(raw, vars) == Ok::<Seq<char>, Seq<char>>(raw),
{
    lemma_subst_identity_from(raw, vars, 0, false, false, Seq::empty());
    assert(Seq::<char>::empty() + raw.subrange(0, raw.len() as int) =~= raw);
}

/// No character of the text opens a variable, a string or math.
pub open spec fn plain_text(s: Seq<char>) -> bool {
    forall|k: int| 0 <= k < s.len() ==> #[trigger] s[k] != '@' && s[k] != '"' && s[k] != '$'
}

/// Plain text between `i` and `j` is copied as it is.
proof fn lemma_subst_plain(
    raw: Seq<char>,
    vars: Seq<(Seq<char>, Seq<char>)>,
    i: int,
    j: int,
    acc: Seq<char>,
)
    requires
        0 <= i <= j <= raw.len(),
        forall|k: int| i <= k < j ==> #[trigger] raw[k] != '@' && raw[k] != '"' && raw[k] != '$',
    ensures
        subst_from(raw, vars, i, false, false, acc) == subst_from(raw, vars, j, false, false, acc + raw.subrange(i, j)),
    decreases j - i,
{
    if i < j {
        lemma_subst_plain(raw, vars, i + 1, j, acc.push(raw[i]));
        assert(acc.push(raw[i]) + raw.subrange(i + 1, j) =~= acc + raw.subrange(i, j));
    } else {
        assert(acc + raw.subrange(i, j) =~= acc);
    }
}

/// The first binding of a name in the list is the one looked up.
proof fn lemma_lookup_first(vars: Seq<(Seq<char>, Seq<char>)>, k: int, name: Seq<char>)
    requires
        0 <= k < vars.len(),
        vars[k].0 == name,
        forall|j: int| 0 <= j < k ==> (#[trigger] vars[j]).0 != name,
    ensures
        lookup(vars, name) == Some(vars[k].1),
    decreases k,
{
    if k > 0 {
        assert(vars[0].0 != name);
        assert forall|j: int| 0 <= j < k - 1 implies (#[trigger] vars.drop_first()[j]).0 != name by {
            assert(vars.drop_first()[j] == vars[j + 1]);
        }
        lemma_lookup_first(vars.drop_first(), k - 1, name);
    }
}

/// Substituting a variable: in `p@name q`, with no variable, string or math
/// in `p` and `q` and `q` not going on with the name, the whole `@name` is
/// replaced by the value of the first binding of `name`, and nothing else
/// changes.
pub proof fn lemma_substitute_replaces(
    p: Seq<char>,
    name: Seq<char>,
    q: Seq<char>,
    vars: Seq<(Seq<char>, Seq<char>)>,
    k: int,
)
    requires
        plain_text(p),
        plain_text(q),
        name.len() > 0,
        forall|m: int| 0 <= m < name.len() ==> is_var_char(#[trigger] name[m]),
        q.len() > 0 ==> !is_var_char(q[0]),
        0 <= k < vars.len(),
        vars[k].0 == name,
        forall|j: int| 0 <= j < k ==> (#[trigger] vars[j]).0 != name,
    ensures
        substitution(p + seq!['@'] + name + q, vars) == Ok::<Seq<char>, Seq<char>>(p + vars[k].1 + q),
{
    let raw = p + seq!['@'] + name + q;
    let v = vars[k].1;
    let i0 = p.len() as int;
    let e = i0 + 1 + name.len();
    assert forall|m: int| 0 <= m < i0 implies #[trigger] raw[m] != '@' && raw[m] != '"' && raw[m] != '$' by {
        assert(raw[m] == p[m]);
    }
    lemma_subst_plain(raw, vars, 0, i0, Seq::empty());
    assert(Seq::<char>::empty() + raw.subrange(0, i0) =~= p);
    assert(raw[i0] == '@');
    lemma_var_run(raw, i0 + 1);
    let n = var_run(raw, i0 + 1);
    assert forall|m: int| 0 <= m < name.len() implies raw[i0 + 1 + m] == name[m] by {}
    if n < name.len() {
        assert(is_var_char(name[n as int]));
        assert(raw[i0 + 1 + n] == name[n as int]);
    }
    if n > name.len() {
        assert(raw[e] == q[0]);
        assert(is_var_char(raw[e]));
    }
    assert(n == name.len());
    assert(raw.subrange(i0 + 1, e) =~= name);
    lemma_lookup_first(vars, k, name);
    assert forall|m: int| e <= m < raw.len() implies #[trigger] raw[m] != '@' && raw[m] != '"' && raw[m] != '$' by {
        assert(raw[m] == q[m - e]);
    }
    lemma_subst_plain(raw, vars, e, raw.len() as int, p + v);
    assert(raw.subrange(e, raw.len() as int) =~= q);
    assert(subst_from(raw, vars, raw.len() as int, false, false, p + v + q) == Ok::<Seq<char>, Seq<char>>(p + v + q));
}

/// A run of name characters reads the same in a suffix of the text.
proof fn lemma_var_run_skip(raw: Seq<char>, off: int, j: int)
    requires
        0 <= off <= raw.len(),
        0 <= j,
    ensures
        var_run(raw, off + j) == var_run(raw.skip(off), j),
    decreases raw.len() - off - j,
{
    if off + j < raw.len() {
        assert(raw.skip(off)[j] == raw[off + j]);
        lemma_var_run_skip(raw, off, j + 1);
    }
}

/// Substitution from a point on depends only on the text from there: what
/// was written before is kept in front of the result.
proof fn lemma_subst_shift(
    raw: Seq<char>,
    vars: Seq<(Seq<char>, Seq<char>)>,
    off: int,
    i: int,
    quote: bool,
    math: bool,
    a: Seq<char>,
    b: Seq<char>,
)
    requires
        0 <= off <= raw.len(),
        0 <= i,
    ensures
        subst_from(raw, vars, off + i, quote, math, a + b) == match subst_from(raw.skip(off), vars, i, quote, math, b) {
            Ok(r) => Ok::<Seq<char>, Seq<char>>(a + r),
            Err(e) => Err(e),
        },
    decreases raw.len() - off - i,
{
    let t = raw.skip(off);
    if off + i < raw.len() {
        let c = raw[off + i];
        assert(t[i] == c);
        if c == '"' && !math {
            assert((a + b).push(c) =~= a + b.push(c));
            lemma_subst_shift(raw, vars, off, i + 1, !quote, math, a, b.push(c));
        } else if c == '$' && !quote {
            assert((a + b).push(c) =~= a + b.push(c));
            lemma_subst_shift(raw, vars, off, i + 1, quote, !math, a, b.push(c));
        } else if c == '@' && !quote && !math {
            lemma_var_run_skip(raw, off, i + 1);
            lemma_var_run(raw, off + i + 1);
            let n = var_run(raw, off + i + 1);
            assert(raw.subrange(off + i + 1, off + i + 1 + n) =~= t.subrange(i + 1, i + 1 + n));
            match lookup(vars, raw.subrange(off + i + 1, off + i + 1 + n)) {
                Some(v) => {
                    assert(a + b + v =~= a + (b + v));
                    lemma_subst_shift(raw, vars, off, i + 1 + n, quote, math, a, b + v);
                },
                None => {},
            }
        } else {
            assert((a + b).push(c) =~= a + b.push(c));
            lemma_subst_shift(raw, vars, off, i + 1, quote, math, a, b.push(c));
        }
    }
}

/// Substituting `p@name q`, with no variable, string or math in `p` and `q`
/// not going on with the name: the result is `p`, the value of the first
/// binding of `name`, and the substitution of `q` on its own; an error in
/// `q` is the error of the whole.
pub proof fn lemma_substitute_step(
    p: Seq<char>,
    name: Seq<char>,
    q: Seq<char>,
    vars: Seq<(Seq<char>, Seq<char>)>,
    k: int,
)
    requires
        plain_text(p),
        name.len() > 0,
        forall|m: int| 0 <= m < name.len() ==> is_var_char(#[trigger] name[m]),
        q.len() > 0 ==> !is_var_char(q[0]),
        0 <= k < vars.len(),
        vars[k].0 == name,
        forall|j: int| 0 <= j < k ==> (#[trigger] vars[j]).0 != name,
    ensures
        substitution(p + seq!['@'] + name + q, vars) == match substitution(q, vars) {
            Ok(r) => Ok::<Seq<char>, Seq<char>>(p + vars[k].1 + r),
            Err(e) => Err(e),
        },
{
    let raw = p + seq!['@'] + name + q;
    let v = vars[k].1;
    let i0 = p.len() as int;
    let e = i0 + 1 + name.len();
    assert forall|m: int| 0 <= m < i0 implies #[trigger] raw[m] != '@' && raw[m] != '"' && raw[m] != '$' by {
        assert(raw[m] == p[m]);
    }
    lemma_subst_plain(raw, vars, 0, i0, Seq::empty());
    assert(Seq::<char>::empty() + raw.subrange(0, i0) =~= p);
    assert(raw[i0] == '@');
    lemma_var_run(raw, i0 + 1);
    let n = var_run(raw, i0 + 1);
    assert forall|m: int| 0 <= m < name.len() implies raw[i0 + 1 + m] == name[m] by {}
    if n < name.len() {
        assert(is_var_char(name[n as int]));
        assert(raw[i0 + 1 + n] == name[n as int]);
    }
    if n > name.len() {
        assert(raw[e] == q[0]);
        assert(is_var_char(raw[e]));
    }
    assert(n == name.len());
    assert(raw.subrange(i0 + 1, e) =~= name);
    lemma_lookup_first(vars, k, name);
    lemma_subst_shift(raw, vars, e, 0, false, false, p + v, Seq::empty());
    assert(p + v + Seq::<char>::empty() =~= p + v);
    assert(raw.skip(e) =~= q);
}

/// A string is copied as it is, `@`, `$` and all: in `p"w"q`, with no
/// variable, string or math in `p` and no quote in `w`, the result is
/// `p"w"` and the substitution of `q` on its own.
pub proof fn lemma_substitute_keeps_strings(
    p: Seq<char>,
    w: Seq<char>,
    q: Seq<char>,
    vars: Seq<(Seq<char>, Seq<char>)>,
)
    requires
        plain_text(p),
        forall|m: int| 0 <= m < w.len() ==> #[trigger] w[m] != '"',
    ensures
        substitution(p + seq!['"'] + w + seq!['"'] + q, vars) == match substitution(q, vars) {
            Ok(r) => Ok::<Seq<char>, Seq<char>>(p + seq!['"'] + w + seq!['"'] + r),
            Err(e) => Err(e),
        },
{
    let raw = p + seq!['"'] + w + seq!['"'] + q;
    let i0 = p.len() as int;
    let e = i0 + 2 + w.len();
    assert forall|m: int| 0 <= m < i0 implies #[trigger] raw[m] != '@' && raw[m] != '"' && raw[m] != '$' by {
        assert(raw[m] == p[m]);
    }
    lemma_subst_plain(raw, vars, 0, i0, Seq::empty());
    assert(Seq::<char>::empty() + raw.subrange(0, i0) =~= p);
    assert(raw[i0] == '"');
    assert forall|m: int| i0 + 1 <= m < i0 + 1 + w.len() implies #[trigger] raw[m] != '"' by {
        assert(raw[m] == w[m - i0 - 1]);
    }
    lemma_subst_quoted(raw, vars, i0 + 1, i0 + 1 + w.len(), p.push('"'));
    assert(raw.subrange(i0 + 1, i0 + 1 + w.len()) =~= w);
    assert(raw[i0 + 1 + w.len()] == '"');
    lemma_subst_shift(raw, vars, e, 0, false, false, p + seq!['"'] + w + seq!['"'], Seq::empty());
    assert(p.push('"') + w =~= p + seq!['"'] + w);
    assert((p + seq!['"'] + w).push('"') =~= p + seq!['"'] + w + seq!['"']);
    assert(p + seq!['"'] + w + seq!['"'] + Seq::<char>::empty() =~= p + seq!['"'] + w + seq!['"']);
    assert(raw.skip(e) =~= q);
}

/// Inside a string, text without a quote is copied as it is.
proof fn lemma_subst_quoted(
    raw: Seq<char>,
    vars: Seq<(Seq<char>, Seq<char>)>,
    i: int,
    j: int,
    acc: Seq<char>,
)
    requires
        0 <= i <= j <= raw.len(),
        forall|k: int| i <= k < j ==> #[trigger] raw[k] != '"',
    ensures
        subst_from(raw, vars, i, true, false, acc) == subst_from(raw, vars, j, true, false, acc + raw.subrange(i, j)),
    decreases j - i,
{
    if i < j {
        lemma_subst_quoted(raw, vars, i + 1, j, acc.push(raw[i]));
        assert(acc.push(raw[i]) + raw.subrange(i + 1, j) =~= acc + raw.subrange(i, j));
    } else {
        assert(acc + raw.subrange(i, j) =~= acc);
    }
}

pub open spec fn vars_view(vars: Seq<(String, String)>) -> Seq<(Seq<char>, Seq<char>)> {
    vars.map_values(|v: (String, String)| (v.0@, v.1@))
}

proof fn lemma_var_run(s: Seq<char>, i: int)
    requires
        0 <= i <= s.len(),
    ensures
        i + var_run(s, i) <= s.len(),
        forall|j: int| i <= j < i + var_run(s, i) ==> is_var_char(s[j]),
        i + var_run(s, i) < s.len() ==> !is_var_char(s[i + var_run(s, i)]),
    decreases s.len() - i,
{
    if i < s.len() && is_var_char(s[i]) {
        lemma_var_run(s, i + 1);
    }
}

fn find_var(vars: &[(String, String)], name: &[char]) -> (r: Option<usize>)
    ensures
        match r {
            Some(k) => k < vars@.len() && lookup(vars_view(vars@), name@) == Some(vars@[k as int].1@),
            None => lookup(vars_view(vars@), name@).is_none(),
        },
{
    let ghost vv = vars_view(vars@);
    let mut k: usize = 0;
    assert(vv.skip(0) =~= vv);
    while k < vars.len()
        invariant
            k <= vars@.len(),
            vv == vars_view(vars@),
            lookup(vv, name@) == lookup(vv.skip(k as int), name@),
        decreases vars@.len() - k,
    {
        assert(vv.skip(k as int)[0] == vv[k as int]);
        assert(vv.skip(k as int).drop_first() =~= vv.skip(k + 1));
        let n = chars_of(vars[k].0.as_str());
        if same_chars(n.as_slice(), name) {
            return Some(k);
        }
        k = k + 1;
    }
    assert(vv.skip(k as int).len() == 0);
    None
}

/// Replace every `@name` outside strings and math by the value of the
/// variable `name`.
pub fn substitute(raw: &str, vars: &[(String, String)]) -> (r: Result<String, String>)
    ensures
        match r {
            Ok(s) => substitution(raw@, vars_view(vars@)) == Ok::<Seq<char>, Seq<char>>(s@),
            Err(m) => substitution(raw@, vars_view(vars@)) == Err::<Seq<char>, Seq<char>>(m@),
        },
{
    let s = chars_of(raw);
    let ghost vv = vars_view(vars@);
    let mut out: Vec<char> = Vec::new();
    let mut quote = false;
    let mut math = false;
    let mut i: usize = 0;
    while i < s.len()
        invariant
            i <= s@.len(),
            s@ == raw@,
            vv == vars_view(vars@),
            substitution(raw@, vv) == subst_from(s@, vv, i as int, quote, math, out@),
        decreases s@.len() - i,
    {
        let c = s[i];
        if c == '"' && !math {
            quote = !quote;
        } else if c == '$' && !quote {
            math = !math;
        } else if c == '@' && !quote && !math {
            proof {
                lemma_var_run(s@, i + 1);
            }
            let start = i + 1;
            let mut end = start;
            while end < s.len() && (alnum(s[end]) || s[end] == '_')
                invariant
                    start <= end <= s@.len(),
                    start == i + 1,
                    forall|j: int| start <= j < end ==> is_var_char(#[trigger] s@[j]),
                    var_run(s@, start as int) == (end - start) + var_run(s@, end as int),
                decreases s@.len() - end,
            {
                end = end + 1;
            }
            let name = &s[start..end];
            if end == start {
                return Err(string_of(chars_of("`@` must be followed by a variable name").as_slice()));
            }
            match find_var(vars, name) {
                None => {
                    let mut m: Vec<char> = Vec::new();
                    push_str(&mut m, "unknown variable `@");
                    push_chars(&mut m, name);
                    push_str(&mut m, "`; declare it first with `let ");
                    push_chars(&mut m, name);
                    push_str(&mut m, " = …`");
                    return Err(string_of(m.as_slice()));
                },
                Some(k) => {
                    let v = chars_of(vars[k].1.as_str());
                    push_chars(&mut out, v.as_slice());
                    i = end;
                    continue ;
                },
            }
        }
        out.push(c);
        i = i + 1;
    }
    Ok(string_of(out.as_slice()))
}

// ---- Nesting -------------------------------------------------------------------

/// Tracks nesting in attribute text: (), {}, "strings", #"raw strings"#,
/// and $math$.
#[derive(Clone, Copy, Debug, PartialEq, Eq, Structural)]
pub struct Scanner {
    pub depth: usize,
    pub quote: bool,
    pub raw: bool,
    pub math: bool,
}

pub open spec fn fresh() -> Scanner {
    Scanner { depth: 0, quote: false, raw: false, math: false }
}

pub open spec fn top_level(st: Scanner) -> bool {
    st.depth == 0 && !st.quote && !st.raw && !st.math
}

pub open spec fn unbalanced(c: char) -> Seq<char> {
    "unbalanced `"@ + seq![c] + "`"@
}

/// The scanner after character `i` of `s`, or the error it finds there.
pub open spec fn scan_step(st: Scanner, s: Seq<char>, i: int) -> Result<Scanner, Seq<char>> {
    let c = s[i];
    let next_hash = i + 1 < s.len() && s[i + 1] == '#';
    let next_quote = i + 1 < s.len() && s[i + 1] == '"';
    let prev_backslash = i > 0 && s[i - 1] == '\\';
    let prev_hash = i > 0 && s[i - 1] == '#';
    if st.raw {
        Ok(if c == '"' && next_hash { Scanner { raw: false, ..st } } else { st })
    } else if st.quote {
        Ok(if c == '"' && !prev_backslash { Scanner { quote: false, ..st } } else { st })
    } else if c == '#' && next_quote {
        Ok(Scanner { raw: true, ..st })
    } else if c == '"' && !prev_hash {
        Ok(Scanner { quote: true, ..st })
    } else if c == '$' {
        Ok(Scanner { math: !st.math, ..st })
    } else if c == '(' || c == '{' {
        Ok(Scanner { depth: (st.depth + 1) as usize, ..st })
    } else if c == ')' || c == '}' {
        if st.depth == 0 {
            Err(unbalanced(c))
        } else {
            Ok(Scanner { depth: (st.depth - 1) as usize, ..st })
        }
    } else {
        Ok(st)
    }
}

/// The error left at the end of the text, if any.
pub open spec fn scan_finish(st: Scanner) -> Option<Seq<char>> {
    if st.quote || st.raw {
        Some("unterminated string"@)
    } else if st.math {
        Some("unterminated math"@)
    } else if st.depth != 0 {
        Some("unbalanced parentheses"@)
    } else {
        None
    }
}

impl Scanner {
    pub fn new() -> (s: Scanner)
        ensures
            s == fresh(),
    {
        Scanner { depth: 0, quote: false, raw: false, math: false }
    }

    pub fn is_top_level(&self) -> (r: bool)
        ensures
            r == top_level(*self),
    {
        self.depth == 0 && !self.quote && !self.raw && !self.math
    }

    /// Take character `i` of `s` into account.
    pub fn step(&mut self, s: &[char], i: usize) -> (r: Result<(), String>)
        requires
            i < s@.len(),
            old(self).depth <= i,
        ensures
            match scan_step(*old(self), s@, i as int) {
                Ok(st) => r is Ok && *final(self) == st,
                Err(m) => r matches Err(e) && e@ == m,
            },
            final(self).depth <= i + 1,
    {
        let c = s[i];
        let next_hash = i + 1 < s.len() && s[i + 1] == '#';
        let next_quote = i + 1 < s.len() && s[i + 1] == '"';
        let prev_backslash = i > 0 && s[i - 1] == '\\';
        let prev_hash = i > 0 && s[i - 1] == '#';
        if self.raw {
            if c == '"' && next_hash {
                self.raw = false;
            }
            return Ok(());
        }
        if self.quote {
            if c == '"' && !prev_backslash {
                self.quote = false;
            }
            return Ok(());
        }
        if c == '#' && next_quote {
            self.raw = true;
        } else if c == '"' && !prev_hash {
            self.quote = true;
        } else if c == '$' {
            self.math = !self.math;
        } else if c == '(' || c == '{' {
            self.depth = self.depth + 1;
        } else if c == ')' || c == '}' {
            if self.depth == 0 {
                let mut m: Vec<char> = Vec::new();
                push_str(&mut m, "unbalanced `");
                m.push(c);
                push_str(&mut m, "`");
                return Err(string_of(m.as_slice()));
            }
            self.depth = self.depth - 1;
        }
        Ok(())
    }

    pub fn finish(&self) -> (r: Result<(), String>)
        ensures
            match scan_finish(*self) {
                Some(m) => r matches Err(e) && e@ == m,
                None => r is Ok,
            },
    {
        if self.quote || self.raw {
            Err(string_of(chars_of("unterminated string").as_slice()))
        } else if self.math {
            Err(string_of(chars_of("unterminated math").as_slice()))
        } else if self.depth != 0 {
            Err(string_of(chars_of("unbalanced parentheses").as_slice()))
        } else {
            Ok(())
        }
    }
}

/// The items of `s` between commas at the top level, from position `i`.
pub open spec fn split_from(s: Seq<char>, i: int, st: Scanner, start: int, items: Seq<Seq<char>>) -> Result<
    Seq<Seq<char>>,
    Seq<char>,
>
    decreases s.len() - i,
{
    if i < 0 || i >= s.len() {
        match scan_finish(st) {
            Some(m) => Err(m),
            None => Ok(items.push(s.subrange(start, s.len() as int))),
        }
    } else if top_level(st) && s[i] == ',' {
        split_from(s, i + 1, st, i + 1, items.push(s.subrange(start, i)))
    } else {
        match scan_step(st, s, i) {
            Err(m) => Err(m),
            Ok(next) => split_from(s, i + 1, next, start, items),
        }
    }
}

/// Split at commas outside parentheses, braces, quotes, and math.
pub open spec fn split_items(s: Seq<char>) -> Result<Seq<Seq<char>>, Seq<char>> {
    split_from(s, 0, fresh(), 0, Seq::empty())
}

/// Split at commas outside parentheses, braces, quotes, and math.
pub fn split_top_level(raw: &[char]) -> (r: Result<Vec<Vec<char>>, String>)
    ensures
        match split_items(raw@) {
            Ok(items) => r matches Ok(v) && v@.map_values(|x: Vec<char>| x@) == items,
            Err(m) => r matches Err(e) && e@ == m,
        },
{
    let mut items: Vec<Vec<char>> = Vec::new();
    let mut start: usize = 0;
    let mut scan = Scanner::new();
    let mut i: usize = 0;
    assert(items@.map_values(|x: Vec<char>| x@) =~= Seq::<Seq<char>>::empty());
    while i < raw.len()
        invariant
            i <= raw@.len(),
            start <= i,
            scan.depth <= i,
            split_items(raw@) == split_from(raw@, i as int, scan, start as int, items@.map_values(
                |x: Vec<char>| x@,
            )),
        decreases raw@.len() - i,
    {
        if scan.is_top_level() && raw[i] == ',' {
            let ghost before = items@.map_values(|x: Vec<char>| x@);
            let piece = copy_chars(&raw[start..i]);
            items.push(piece);
            assert(items@.map_values(|x: Vec<char>| x@) =~= before.push(raw@.subrange(start as int, i as int)));
            start = i + 1;
            i = i + 1;
            continue ;
        }
        match scan.step(raw, i) {
            Ok(()) => {},
            Err(e) => return Err(e),
        }
        i = i + 1;
    }
    match scan.finish() {
        Ok(()) => {},
        Err(e) => return Err(e),
    }
    let ghost before = items@.map_values(|x: Vec<char>| x@);
    let piece = copy_chars(&raw[start..raw.len()]);
    items.push(piece);
    assert(items@.map_values(|x: Vec<char>| x@) =~= before.push(raw@.subrange(start as int, raw@.len() as int)));
    Ok(items)
}

/// The first top-level occurrence of `target` from position `i`.
pub open spec fn find_from(s: Seq<char>, target: char, i: int, st: Scanner) -> Option<int>
    decreases s.len() - i,
{
    if i < 0 || i >= s.len() {
        None
    } else if top_level(st) && s[i] == target {
        Some(i)
    } else {
        match scan_step(st, s, i) {
            Err(_) => None,
            Ok(next) => find_from(s, target, i + 1, next),
        }
    }
}

/// The position of the first `target` outside parentheses, braces, quotes,
/// and math.
pub fn find_top_level(item: &[char], target: char) -> (r: Option<usize>)
    ensures
        match find_from(item@, target, 0, fresh()) {
            Some(k) => 0 <= k < item@.len() && r == Some(k as usize),
            None => r is None,
        },
        r matches Some(k) ==> k < item@.len(),
{
    let mut scan = Scanner::new();
    let mut i: usize = 0;
    while i < item.len()
        invariant
            i <= item@.len(),
            scan.depth <= i,
            find_from(item@, target, 0, fresh()) == find_from(item@, target, i as int, scan),
        decreases item@.len() - i,
    {
        if scan.is_top_level() && item[i] == target {
            return Some(i);
        }
        match scan.step(item, i) {
            Ok(()) => {},
            Err(_) => return None,
        }
        i = i + 1;
    }
    None
}

// ---- Values --------------------------------------------------------------------

/// An attribute name: a letter, then letters, digits, `-`, and `_`.
pub open spec fn key_syntax(key: Seq<char>) -> bool {
    &&& key.len() > 0
    &&& is_alpha(key[0])
    &&& forall|i: int| 1 <= i < key.len() ==> #[trigger] is_alnum(key[i]) || key[i] == '-' || key[i] == '_'
}

pub fn is_key(key: &[char]) -> (r: bool)
    ensures
        r == key_syntax(key@),
{
    if key.len() == 0 || !alpha(key[0]) {
        return false;
    }
    let mut i: usize = 1;
    while i < key.len()
        invariant
            1 <= i <= key@.len(),
            forall|j: int| 1 <= j < i ==> #[trigger] is_alnum(key@[j]) || key@[j] == '-' || key@[j] == '_',
        decreases key@.len() - i,
    {
        if !(alnum(key[i]) || key[i] == '-' || key[i] == '_') {
            return false;
        }
        i = i + 1;
    }
    true
}

/// The units a length may carry.  Unitless numbers are layout units.
pub open spec fn is_unit(u: Seq<char>) -> bool {
    u == "mm"@ || u == "cm"@ || u == "pt"@ || u == "bp"@ || u == "in"@ || u == "em"@ || u == "px"@
}

pub fn unit_known(u: &[char]) -> (r: bool)
    ensures
        r == is_unit(u@),
{
    crate::text::str_is("mm", u) || crate::text::str_is("cm", u) || crate::text::str_is("pt", u)
        || crate::text::str_is("bp", u) || crate::text::str_is("in", u) || crate::text::str_is("em", u)
        || crate::text::str_is("px", u)
}

/// The position of the first ASCII letter, or the length.
pub open spec fn alpha_index(s: Seq<char>) -> nat
    decreases s.len(),
{
    if s.len() == 0 {
        0
    } else if is_alpha(s[0]) {
        0
    } else {
        alpha_index(s.drop_first()) + 1
    }
}

pub open spec fn is_number_char(c: char) -> bool {
    crate::text::is_digit(c) || c == '.' || c == '-' || c == '+'
}

/// A number with an optional unit, such as `2`, `-.5`, `2mm`, or `.08em`.
pub open spec fn number_value(s: Seq<char>) -> Option<ValueView> {
    let k = alpha_index(s);
    let num = s.take(k as int);
    let unit = s.skip(k as int);
    if num.len() == 0 || !(forall|i: int| 0 <= i < num.len() ==> #[trigger] is_number_char(num[i])) {
        None
    } else {
        match decimal_of(num) {
            None => None,
            Some(x) => if unit.len() == 0 {
                Some(ValueView::Number(x))
            } else if is_unit(unit) {
                Some(ValueView::Length(x, unit))
            } else {
                None
            },
        }
    }
}

proof fn lemma_alpha_index(s: Seq<char>)
    ensures
        alpha_index(s) <= s.len(),
        forall|j: int| 0 <= j < alpha_index(s) ==> !is_alpha(#[trigger] s[j]),
    decreases s.len(),
{
    if s.len() > 0 && !is_alpha(s[0]) {
        lemma_alpha_index(s.drop_first());
        assert forall|j: int| 0 <= j < alpha_index(s) implies !is_alpha(#[trigger] s[j]) by {
            if j > 0 {
                assert(s[j] == s.drop_first()[j - 1]);
            }
        }
    }
}

/// The first letter of a number followed by a word is where the word starts.
proof fn lemma_alpha_index_concat(d: Seq<char>, u: Seq<char>)
    requires
        forall|i: int| 0 <= i < d.len() ==> !is_alpha(#[trigger] d[i]),
        u.len() > 0,
        is_alpha(u[0]),
    ensures
        alpha_index(d + u) == d.len(),
    decreases d.len(),
{
    if d.len() == 0 {
        assert(d + u =~= u);
    } else {
        assert((d + u).drop_first() =~= d.drop_first() + u);
        assert forall|i: int| 0 <= i < d.drop_first().len() implies !is_alpha(#[trigger] d.drop_first()[i]) by {
            assert(d.drop_first()[i] == d[i + 1]);
        }
        lemma_alpha_index_concat(d.drop_first(), u);
        assert((d + u)[0] == d[0]);
    }
}

/// Every documented unit is read as one: a decimal followed by `mm`, `cm`,
/// `pt`, `bp`, `in`, `em` or `px` is a length of that many units.
pub proof fn lemma_units_read(d: Seq<char>, u: Seq<char>, x: Number)
    requires
        d.len() > 0,
        forall|i: int| 0 <= i < d.len() ==> is_number_char(#[trigger] d[i]),
        decimal_of(d) == Some(x),
        u =~= seq!['m', 'm'] || u =~= seq!['c', 'm'] || u =~= seq!['p', 't'] || u =~= seq!['b', 'p']
            || u =~= seq!['i', 'n'] || u =~= seq!['e', 'm'] || u =~= seq!['p', 'x'],
    ensures
        value_of(d + u) == Ok::<ValueView, Seq<char>>(ValueView::Length(x, u)),
{
    reveal_strlit("mm");
    reveal_strlit("cm");
    reveal_strlit("pt");
    reveal_strlit("bp");
    reveal_strlit("in");
    reveal_strlit("em");
    reveal_strlit("px");
    assert("mm"@ =~= seq!['m', 'm']);
    assert("cm"@ =~= seq!['c', 'm']);
    assert("pt"@ =~= seq!['p', 't']);
    assert("bp"@ =~= seq!['b', 'p']);
    assert("in"@ =~= seq!['i', 'n']);
    assert("em"@ =~= seq!['e', 'm']);
    assert("px"@ =~= seq!['p', 'x']);
    let s = d + u;
    assert(u.len() == 2);
    assert(is_alpha(u[0]));
    assert forall|i: int| 0 <= i < d.len() implies !is_alpha(#[trigger] d[i]) by {
        assert(is_number_char(d[i]));
    }
    lemma_alpha_index_concat(d, u);
    assert(s.take(d.len() as int) =~= d);
    assert(s.skip(d.len() as int) =~= u);
    assert(s[0] == d[0]);
    assert(is_number_char(d[0]));
    assert(is_unit(u));
}

/// A number with an optional unit, such as `2`, `-.5`, `2mm`, or `.08em`.
pub fn parse_number(s: &[char]) -> (r: Option<Value>)
    ensures
        match number_value(s@) {
            Some(v) => r matches Some(x) && x@ == v && value_wf(v),
            None => r is None,
        },
{
    let mut k: usize = 0;
    assert(s@.skip(0) =~= s@);
    while k < s.len() && !alpha(s[k])
        invariant
            k <= s@.len(),
            alpha_index(s@) == k + alpha_index(s@.skip(k as int)),
        decreases s@.len() - k,
    {
        assert(s@.skip(k as int).drop_first() =~= s@.skip(k + 1));
        k = k + 1;
    }
    proof {
        assert(s@.skip(0) =~= s@);
        if k < s@.len() {
            assert(s@.skip(k as int)[0] == s@[k as int]);
        }
    }
    let num = &s[0..k];
    let unit = &s[k..s.len()];
    assert(num@ == s@.take(alpha_index(s@) as int));
    assert(unit@ == s@.skip(alpha_index(s@) as int));
    if num.len() == 0 {
        return None;
    }
    let mut i: usize = 0;
    while i < num.len()
        invariant
            i <= num@.len(),
            num@ == s@.take(alpha_index(s@) as int),
            unit@ == s@.skip(alpha_index(s@) as int),
            num@.len() > 0,
            forall|j: int| 0 <= j < i ==> #[trigger] is_number_char(num@[j]),
        decreases num@.len() - i,
    {
        let c = num[i];
        if !(crate::text::digit(c) || c == '.' || c == '-' || c == '+') {
            assert(!is_number_char(num@[i as int]));
            return None;
        }
        i = i + 1;
    }
    match parse_decimal(num) {
        None => None,
        Some(x) => {
            if unit.len() == 0 {
                Some(Value::Number(x))
            } else if unit_known(unit) {
                Some(Value::Length(x, string_of(unit)))
            } else {
                None
            }
        },
    }
}

/// The pieces of `s` between commas, without trimming.
pub open spec fn comma_pieces(s: Seq<char>) -> Seq<Seq<char>>
    decreases s.len(),
{
    comma_from(s, 0, 0, Seq::empty())
}

pub open spec fn comma_from(s: Seq<char>, i: int, start: int, acc: Seq<Seq<char>>) -> Seq<Seq<char>>
    decreases s.len() - i,
{
    if i < 0 || i >= s.len() {
        acc.push(s.subrange(start, s.len() as int))
    } else if s[i] == ',' {
        comma_from(s, i + 1, i + 1, acc.push(s.subrange(start, i)))
    } else {
        comma_from(s, i + 1, start, acc)
    }
}

/// Each piece trimmed and read as a plain number.
pub open spec fn coords_from(pieces: Seq<Seq<char>>, k: int, acc: Seq<Number>) -> Result<Seq<Number>, Seq<char>>
    decreases pieces.len() - k,
{
    if k < 0 || k >= pieces.len() {
        Ok(acc)
    } else {
        let c = trim(pieces[k]);
        match plain_number(c) {
            None => Err("`"@ + c + "` is not a number"@),
            Some(x) => coords_from(pieces, k + 1, acc.push(x)),
        }
    }
}

/// A plain number, as a coordinate is written: digits, a point, and a sign.
pub open spec fn plain_number(s: Seq<char>) -> Option<Number> {
    if forall|i: int| 0 <= i < s.len() ==> #[trigger] is_number_char(s[i]) {
        decimal_of(s)
    } else {
        None
    }
}

/// `(x, y)` or `(x, y, z)`.
pub open spec fn point_of(s: Seq<char>) -> Result<Seq<Number>, Seq<char>> {
    if s.len() < 2 || s[0] != '(' || s.last() != ')' {
        Err("`"@ + s + "` is not a coordinate"@)
    } else {
        match coords_from(comma_pieces(s.subrange(1, s.len() - 1)), 0, Seq::empty()) {
            Err(m) => Err(m),
            Ok(c) => if c.len() == 2 || c.len() == 3 {
                Ok(c)
            } else {
                Err("`"@ + s + "` must have 2 or 3 coordinates"@)
            },
        }
    }
}

/// A message `` `text` `` followed by a tail.
fn quoted(text: &[char], tail: &str) -> (m: String)
    ensures
        m@ == "`"@ + text@ + tail@,
{
    let mut v: Vec<char> = Vec::new();
    push_str(&mut v, "`");
    push_chars(&mut v, text);
    push_str(&mut v, tail);
    string_of(v.as_slice())
}

fn plain_number_exec(s: &[char]) -> (r: Option<Number>)
    ensures
        r == plain_number(s@),
        r matches Some(x) ==> number_wf(x),
{
    let mut i: usize = 0;
    while i < s.len()
        invariant
            i <= s@.len(),
            forall|j: int| 0 <= j < i ==> #[trigger] is_number_char(s@[j]),
        decreases s@.len() - i,
    {
        let c = s[i];
        if !(crate::text::digit(c) || c == '.' || c == '-' || c == '+') {
            assert(!is_number_char(s@[i as int]));
            return None;
        }
        i = i + 1;
    }
    parse_decimal(s)
}

/// Split at every comma.
fn split_commas(s: &[char]) -> (r: Vec<Vec<char>>)
    ensures
        r@.map_values(|x: Vec<char>| x@) == comma_pieces(s@),
{
    let mut items: Vec<Vec<char>> = Vec::new();
    let mut start: usize = 0;
    let mut i: usize = 0;
    assert(items@.map_values(|x: Vec<char>| x@) =~= Seq::<Seq<char>>::empty());
    while i < s.len()
        invariant
            i <= s@.len(),
            start <= i,
            comma_pieces(s@) == comma_from(s@, i as int, start as int, items@.map_values(
                |x: Vec<char>| x@,
            )),
        decreases s@.len() - i,
    {
        if s[i] == ',' {
            let ghost before = items@.map_values(|x: Vec<char>| x@);
            items.push(copy_chars(&s[start..i]));
            assert(items@.map_values(|x: Vec<char>| x@) =~= before.push(s@.subrange(start as int, i as int)));
            start = i + 1;
        }
        i = i + 1;
    }
    let ghost before = items@.map_values(|x: Vec<char>| x@);
    items.push(copy_chars(&s[start..s.len()]));
    assert(items@.map_values(|x: Vec<char>| x@) =~= before.push(s@.subrange(start as int, s@.len() as int)));
    items
}

/// A coordinate, `(2, 1)` or `(0, 0, 1)`.
pub fn parse_point(s: &[char]) -> (r: Result<Vec<Number>, String>)
    ensures
        match point_of(s@) {
            Ok(c) => r matches Ok(v) && v@ == c && forall|j: int|
                0 <= j < c.len() ==> number_wf(#[trigger] c[j]),
            Err(m) => r matches Err(e) && e@ == m,
        },
{
    if s.len() < 2 || s[0] != '(' || s[s.len() - 1] != ')' {
        return Err(quoted(s, "` is not a coordinate"));
    }
    let inner = &s[1..s.len() - 1];
    let pieces = split_commas(inner);
    let ghost pv = pieces@.map_values(|x: Vec<char>| x@);
    let mut coords: Vec<Number> = Vec::new();
    let mut k: usize = 0;
    while k < pieces.len()
        invariant
            k <= pieces@.len(),
            pv == pieces@.map_values(|x: Vec<char>| x@),
            pv == comma_pieces(inner@),
            s@.len() >= 2,
            s@[0] == '(',
            s@.last() == ')',
            inner@ == s@.subrange(1, s@.len() - 1),
            coords_from(pv, 0, Seq::empty()) == coords_from(pv, k as int, coords@),
            forall|j: int| 0 <= j < coords@.len() ==> number_wf(#[trigger] coords@[j]),
        decreases pieces@.len() - k,
    {
        let piece = trimmed(pieces[k].as_slice());
        assert(pv[k as int] == pieces@[k as int]@);
        match plain_number_exec(piece) {
            None => {
                assert(trim(pv[k as int]) == piece@);
                assert(coords_from(pv, k as int, coords@) == Err::<Seq<Number>, Seq<char>>(
                    "`"@ + piece@ + "` is not a number"@));
                return Err(quoted(piece, "` is not a number"));
            },
            Some(x) => {
                coords.push(x);
            },
        }
        k = k + 1;
    }
    if coords.len() == 2 || coords.len() == 3 {
        Ok(coords)
    } else {
        Err(quoted(s, "` must have 2 or 3 coordinates"))
    }
}

// ---- Attribute lists ---------------------------------------------------------

/// `\"` read as `"`.
pub open spec fn unescape(s: Seq<char>) -> Seq<char>
    decreases s.len(),
{
    if s.len() >= 2 && s[0] == '\\' && s[1] == '"' {
        seq!['"'] + unescape(s.skip(2))
    } else if s.len() == 0 {
        Seq::empty()
    } else {
        seq![s[0]] + unescape(s.drop_first())
    }
}

pub open spec fn has_space(s: Seq<char>) -> bool {
    exists|i: int| 0 <= i < s.len() && is_space(s[i])
}

/// The value written by `s`: a raw string `#"…"#`, a string `"…"`, math
/// `$…$`, a coordinate, a number with an optional unit, or a word.
pub open spec fn value_of(s: Seq<char>) -> Result<ValueView, Seq<char>> {
    if s.len() == 0 {
        Err("missing value"@)
    } else if s.len() >= 4 && s[0] == '#' && s[1] == '"' && s[s.len() - 2] == '"' && s[s.len() - 1] == '#' {
        Ok(ValueView::Str(s.subrange(2, s.len() - 2)))
    } else if s[0] == '"' {
        let inner = s.drop_first();
        if inner.len() == 0 || inner.last() != '"' {
            Err("unterminated string"@)
        } else {
            Ok(ValueView::Str(unescape(inner.drop_last())))
        }
    } else if s[0] == '$' {
        if s.len() < 2 || s.last() != '$' {
            Err("`"@ + s + "` is not closed by `$`"@)
        } else {
            Ok(ValueView::Math(s))
        }
    } else if s[0] == '(' {
        match point_of(s) {
            Ok(p) => Ok(ValueView::Points(seq![p])),
            Err(m) => Err(m),
        }
    } else {
        match number_value(s) {
            Some(v) => Ok(v),
            None => if has_space(s) {
                Err("`"@ + s + "` contains spaces; quote it"@)
            } else {
                Ok(ValueView::Word(s))
            },
        }
    }
}

fn unescape_exec(s: &[char]) -> (r: Vec<char>)
    ensures
        r@ == unescape(s@),
{
    let mut out: Vec<char> = Vec::new();
    let mut i: usize = 0;
    assert(s@.skip(0) =~= s@);
    while i < s.len()
        invariant
            i <= s@.len(),
            unescape(s@) == out@ + unescape(s@.skip(i as int)),
        decreases s@.len() - i,
    {
        let ghost t = s@.skip(i as int);
        if i + 1 < s.len() && s[i] == '\\' && s[i + 1] == '"' {
            assert(t.skip(2) =~= s@.skip(i + 2));
            out.push('"');
            i = i + 2;
        } else {
            assert(t.drop_first() =~= s@.skip(i + 1));
            out.push(s[i]);
            i = i + 1;
        }
    }
    assert(s@.skip(i as int).len() == 0);
    out
}

fn has_space_exec(s: &[char]) -> (r: bool)
    ensures
        r == has_space(s@),
{
    let mut i: usize = 0;
    while i < s.len()
        invariant
            i <= s@.len(),
            forall|j: int| 0 <= j < i ==> !is_space(s@[j]),
        decreases s@.len() - i,
    {
        if space(s[i]) {
            return true;
        }
        i = i + 1;
    }
    false
}

/// Read one attribute value.
pub fn parse_value(s: &[char]) -> (r: Result<Value, String>)
    ensures
        match value_of(s@) {
            Ok(v) => r matches Ok(x) && x@ == v && value_wf(v),
            Err(m) => r matches Err(e) && e@ == m,
        },
{
    let n = s.len();
    if n == 0 {
        return Err(string_of(chars_of("missing value").as_slice()));
    }
    if n >= 4 && s[0] == '#' && s[1] == '"' && s[n - 2] == '"' && s[n - 1] == '#' {
        return Ok(Value::Str(string_of(&s[2..n - 2])));
    }
    if s[0] == '"' {
        let inner = &s[1..n];
        if inner.len() == 0 || inner[inner.len() - 1] != '"' {
            return Err(string_of(chars_of("unterminated string").as_slice()));
        }
        let u = unescape_exec(&inner[0..inner.len() - 1]);
        assert(inner@.drop_last() == inner@.subrange(0, inner@.len() - 1));
        return Ok(Value::Str(string_of(u.as_slice())));
    }
    if s[0] == '$' {
        if n < 2 || s[n - 1] != '$' {
            return Err(quoted(s, "` is not closed by `$`"));
        }
        return Ok(Value::Math(string_of(s)));
    }
    if s[0] == '(' {
        match parse_point(s) {
            Ok(p) => {
                let mut pts: Vec<Vec<Number>> = Vec::new();
                pts.push(p);
                assert(pts@.map_values(|q: Vec<Number>| q@) =~= seq![p@]);
                return Ok(Value::Points(pts));
            },
            Err(e) => return Err(e),
        }
    }
    match parse_number(s) {
        Some(v) => Ok(v),
        None => {
            if has_space_exec(s) {
                Err(quoted(s, "` contains spaces; quote it"))
            } else {
                Ok(Value::Word(string_of(s)))
            }
        },
    }
}

/// The attributes of the items from `k` on, after those in `acc`.
pub open spec fn attrs_from(items: Seq<Seq<char>>, k: int, acc: Seq<(Seq<char>, ValueView)>) -> Result<
    Seq<(Seq<char>, ValueView)>,
    Seq<char>,
>
    decreases items.len() - k,
{
    if k < 0 || k >= items.len() {
        Ok(acc)
    } else {
        let item = trim(items[k]);
        if item.len() == 0 {
            Err("empty attribute"@)
        } else if item[0] == '(' {
            // `via=(2, 1), (3, 1)`: a bare coordinate continues the previous list.
            match point_of(item) {
                Err(m) => Err(m),
                Ok(p) => if acc.len() > 0 && acc.last().1 is Points {
                    let last = acc.last();
                    attrs_from(
                        items,
                        k + 1,
                        acc.update(acc.len() - 1, (last.0, ValueView::Points(last.1->Points_0.push(p)))),
                    )
                } else {
                    Err("`"@ + item + "` has no key"@)
                },
            }
        } else {
            match find_from(item, '=', 0, fresh()) {
                Some(i) => match value_of(trim(item.skip(i + 1))) {
                    Err(m) => Err(m),
                    Ok(v) => {
                        let key = trim(item.take(i));
                        if key_syntax(key) {
                            attrs_from(items, k + 1, acc.push((key, v)))
                        } else {
                            Err("`"@ + key + "` is not a valid attribute name"@)
                        }
                    },
                },
                None => if key_syntax(item) {
                    attrs_from(items, k + 1, acc.push((item, ValueView::Flag)))
                } else {
                    Err("`"@ + item + "` is not a valid attribute name"@)
                },
            }
        }
    }
}

/// The attributes written between the brackets of an attribute list.
pub open spec fn attrs_of(raw: Seq<char>) -> Result<Seq<(Seq<char>, ValueView)>, Seq<char>> {
    match split_items(raw) {
        Err(m) => Err(m),
        Ok(items) => attrs_from(items, 0, Seq::empty()),
    }
}

/// Parse the text between the brackets of an attribute list.  `pos` is the
/// position of the opening bracket, for error messages.
pub fn parse_attr_chars(raw: &[char], pos: Pos) -> (r: Result<Vec<Attr>, Error>)
    ensures
        match attrs_of(raw@) {
            Ok(a) => r matches Ok(v) && attrs_view(v@) == a && attrs_wf(a),
            Err(m) => r matches Err(e) && e.pos == Some(pos) && e.message@ == m,
        },
{
    let items = match split_top_level(raw) {
        Ok(items) => items,
        Err(m) => return Err(Error::at(pos, m)),
    };
    let ghost iv = items@.map_values(|x: Vec<char>| x@);
    let mut attrs: Vec<Attr> = Vec::new();
    let mut k: usize = 0;
    assert(attrs_view(attrs@) =~= Seq::<(Seq<char>, ValueView)>::empty());
    while k < items.len()
        invariant
            k <= items@.len(),
            iv == items@.map_values(|x: Vec<char>| x@),
            split_items(raw@) == Ok::<Seq<Seq<char>>, Seq<char>>(iv),
            attrs_of(raw@) == attrs_from(iv, k as int, attrs_view(attrs@)),
            attrs_wf(attrs_view(attrs@)),
        decreases items@.len() - k,
    {
        assert(iv[k as int] == items@[k as int]@);
        let item = trimmed(items[k].as_slice());
        let ghost before = attrs_view(attrs@);
        if item.len() == 0 {
            return Err(error_at(pos, chars_of("empty attribute").as_slice()));
        }
        if item[0] == '(' {
            let point = match parse_point(item) {
                Ok(p) => p,
                Err(m) => return Err(Error::at(pos, m)),
            };
            let n = attrs.len();
            if n == 0 {
                return Err(Error::at(pos, quoted(item, "` has no key")));
            }
            let mut last = attrs.pop().unwrap();
            assert(before.last() == last@);
            match last.value {
                Value::Points(ref mut pts) => {
                    let ghost old_pts = pts@.map_values(|q: Vec<Number>| q@);
                    pts.push(point);
                    assert(pts@.map_values(|q: Vec<Number>| q@) =~= old_pts.push(point@));
                },
                _ => return Err(Error::at(pos, quoted(item, "` has no key"))),
            }
            attrs.push(last);
            proof {
                let nv = attrs_view(attrs@);
                assert(nv =~= before.update(before.len() - 1, (before.last().0, ValueView::Points(
                    before.last().1->Points_0.push(point@),
                ))));
                assert forall|i: int| 0 <= i < nv.len() implies value_wf(#[trigger] nv[i].1) by {
                    if i < nv.len() - 1 {
                        assert(nv[i] == before[i]);
                    } else {
                        assert(value_wf(before[i].1));
                    }
                }
            }
            k = k + 1;
            continue ;
        }
        let (key, value) = match find_top_level(item, '=') {
            Some(i) => {
                assert(find_from(item@, '=', 0, fresh()) == Some(i as int));
                assert(item@.skip(i + 1) =~= item@.subrange(i + 1, item@.len() as int));
                assert(item@.take(i as int) =~= item@.subrange(0, i as int));
                let rest = trimmed(&item[i + 1..item.len()]);
                assert(rest@ == trim(item@.skip(i + 1)));
                let v = match parse_value(rest) {
                    Ok(v) => v,
                    Err(m) => return Err(Error::at(pos, m)),
                };
                let key = trimmed(&item[0..i]);
                assert(key@ == trim(item@.take(i as int)));
                (key, v)
            },
            None => (item, Value::Flag),
        };
        if !is_key(key) {
            return Err(Error::at(pos, quoted(key, "` is not a valid attribute name")));
        }
        attrs.push(Attr { key: string_of(key), value });
        proof {
            let nv = attrs_view(attrs@);
            assert(nv =~= before.push((key@, value@)));
            assert forall|i: int| 0 <= i < nv.len() implies value_wf(#[trigger] nv[i].1) by {
                if i < nv.len() - 1 {
                    assert(nv[i] == before[i]);
                }
            }
        }
        k = k + 1;
    }
    Ok(attrs)
}

/// Parse the text of an attribute list, without its brackets.  Errors are
/// reported at `pos`, the position of the list.
pub fn parse_attrs(raw: &str, pos: Pos) -> (r: Result<Vec<Attr>, Error>)
    ensures
        match attrs_of(raw@) {
            Ok(a) => r matches Ok(v) && attrs_view(v@) == a && attrs_wf(a),
            Err(m) => r matches Err(e) && e.pos == Some(pos) && e.message@ == m,
        },
{
    parse_attr_chars(chars_of(raw).as_slice(), pos)
}

} // verus!
