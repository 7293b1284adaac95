//! Text for TeX backends.

use vstd::prelude::*;

use crate::text::{chars_of, push_str, string_of};

verus! {

/// The TeX form of one character of plain text.
pub open spec fn tex_char(c: char) -> Seq<char> {
    if c == '\\' {
        "\\textbackslash{}"@
    } else if c == '~' {
        "\\textasciitilde{}"@
    } else if c == '^' {
        "\\textasciicircum{}"@
    } else if c == '{' || c == '}' || c == '$' || c == '&' || c == '#' || c == '_' || c == '%' {
        seq!['\\', c]
    } else {
        seq![c]
    }
}

/// Plain text with TeX's special characters escaped.
pub open spec fn escaped(s: Seq<char>) -> Seq<char>
    decreases s.len(),
{
    if s.len() == 0 {
        Seq::empty()
    } else {
        escaped(s.drop_last()) + tex_char(s.last())
    }
}

/// A character TeX reads as markup: `#`, `$`, `%`, `&`, `_`, and, where
/// asked, the braces.
pub open spec fn tex_special(c: char, braces: bool) -> bool {
    c == '#' || c == '$' || c == '%' || c == '&' || c == '_' || (braces && (c == '{' || c == '}'))
}

/// Every such character of the text stands right after a backslash.
pub open spec fn specials_guarded(t: Seq<char>, braces: bool) -> bool {
    forall|j: int| 0 <= j < t.len() && tex_special(#[trigger] t[j], braces) ==> j > 0 && t[j - 1] == '\\'
}

/// The text holds none of the characters written as TeX commands.
pub open spec fn no_command_chars(s: Seq<char>) -> bool {
    forall|k: int| 0 <= k < s.len() ==> #[trigger] s[k] != '\\' && s[k] != '~' && s[k] != '^'
}

/// Escaped text has no bare special character: each `#`, `$`, `%`, `&`
/// and `_` follows a backslash, and so does each brace when the text has no
/// backslash, tilde or circumflex (whose commands end in `{}`).
pub proof fn lemma_escape_guards(s: Seq<char>, braces: bool)
    requires
        braces ==> no_command_chars(s),
    ensures
        specials_guarded(escaped(s), braces),
    decreases s.len(),
{
    reveal_strlit("\\textbackslash{}");
    reveal_strlit("\\textasciitilde{}");
    reveal_strlit("\\textasciicircum{}");
    if s.len() > 0 {
        let init = s.drop_last();
        let c = s.last();
        if braces {
            assert forall|k: int| 0 <= k < init.len() implies #[trigger] init[k] != '\\' && init[k] != '~' && init[k] != '^' by {
                assert(init[k] == s[k]);
            }
            assert(s[s.len() - 1] == c);
        }
        lemma_escape_guards(init, braces);
        let e0 = escaped(init);
        let tc = tex_char(c);
        let t = escaped(s);
        assert(t == e0 + tc);
        assert forall|j: int| 0 <= j < t.len() && tex_special(#[trigger] t[j], braces) implies j > 0 && t[j - 1] == '\\' by {
            if j < e0.len() {
                assert(t[j] == e0[j]);
                assert(tex_special(e0[j], braces));
                assert(t[j - 1] == e0[j - 1]);
            } else {
                let m = j - e0.len();
                assert(t[j] == tc[m]);
                if m > 0 {
                    assert(t[j - 1] == tc[m - 1]);
                }
            }
        }
    }
}

/// Text with no character TeX treats specially is left as it is.
pub proof fn lemma_escape_plain(s: Seq<char>)
    requires
        no_command_chars(s),
        forall|k: int| 0 <= k < s.len() ==> !tex_special(#[trigger] s[k], true),
    ensures
        escaped(s) == s,
    decreases s.len(),
{
    if s.len() > 0 {
        let init = s.drop_last();
        assert forall|k: int| 0 <= k < init.len() implies #[trigger] init[k] != '\\' && init[k] != '~' && init[k] != '^' by {
            assert(init[k] == s[k]);
        }
        assert forall|k: int| 0 <= k < init.len() implies !tex_special(#[trigger] init[k], true) by {
            assert(init[k] == s[k]);
        }
        lemma_escape_plain(init);
        assert(s[s.len() - 1] == s.last());
        assert(!tex_special(s[s.len() - 1], true));
        assert(escaped(s) =~= s);
    }
}

/// Plain text with TeX's special characters escaped.
pub fn escape(text: &str) -> (s: String)
    ensures
        s@ == escaped(text@),
{
    let c = chars_of(text);
    let mut out: Vec<char> = Vec::new();
    let mut k: usize = 0;
    while k < c.len()
        invariant
            k <= c@.len(),
            c@ == text@,
            out@ == escaped(c@.take(k as int)),
        decreases c@.len() - k,
    {
        assert(c@.take(k + 1).drop_last() =~= c@.take(k as int));
        let x = c[k];
        if x == '\\' {
            push_str(&mut out, "\\textbackslash{}");
        } else if x == '~' {
            push_str(&mut out, "\\textasciitilde{}");
        } else if x == '^' {
            push_str(&mut out, "\\textasciicircum{}");
        } else if x == '{' || x == '}' || x == '$' || x == '&' || x == '#' || x == '_' || x == '%' {
            out.push('\\');
            out.push(x);
        } else {
            out.push(x);
        }
        k = k + 1;
    }
    assert(c@.take(c@.len() as int) =~= c@);
    string_of(out.as_slice())
}

} // verus!
