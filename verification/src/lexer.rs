//! Tokens of tnv source.
//!
//! Brackets have two roles, told apart by spacing: `A[3]` (no space before
//! the bracket) is a subscript, while `A [color=red]` is an attribute list.
//! An attribute list is returned as one raw token and parsed separately.

use vstd::prelude::*;

use crate::attrs::is_unit;
use crate::error::{Error, Pos, error_at};
use crate::number::{Number, decimal_of, number_wf, parse_decimal};
use crate::text::{
    alnum, alpha, chars_of, digit, is_alnum, is_alpha, is_digit, is_space, push_chars, push_str, space,
    str_is, string_of, trim, trimmed,
};

verus! {

/// The symbols of the language.
#[derive(Clone, Copy, Debug, PartialEq, Eq, Structural)]
pub enum Sym {
    DotDot,
    Dash,
    Colon,
    Semi,
    Comma,
    LParen,
    RParen,
    Star,
    Dot,
    Prime,
    LBracket,
    RBracket,
    Equals,
    Plus,
    Hash,
}

/// The symbols in the order they are tried: `..` before `.`.
pub open spec fn symbols() -> Seq<Sym> {
    seq![
        Sym::DotDot,
        Sym::Dash,
        Sym::Colon,
        Sym::Semi,
        Sym::Comma,
        Sym::LParen,
        Sym::RParen,
        Sym::Star,
        Sym::Dot,
        Sym::Prime,
        Sym::LBracket,
        Sym::RBracket,
        Sym::Equals,
        Sym::Plus,
        Sym::Hash,
    ]
}

pub open spec fn sym_text(s: Sym) -> Seq<char> {
    match s {
        Sym::DotDot => seq!['.', '.'],
        Sym::Dash => seq!['-'],
        Sym::Colon => seq![':'],
        Sym::Semi => seq![';'],
        Sym::Comma => seq![','],
        Sym::LParen => seq!['('],
        Sym::RParen => seq![')'],
        Sym::Star => seq!['*'],
        Sym::Dot => seq!['.'],
        Sym::Prime => seq!['\''],
        Sym::LBracket => seq!['['],
        Sym::RBracket => seq![']'],
        Sym::Equals => seq!['='],
        Sym::Plus => seq!['+'],
        Sym::Hash => seq!['#'],
    }
}

impl Sym {
    /// The symbol as written.
    pub fn push_text(self, out: &mut Vec<char>)
        ensures
            final(out)@ == old(out)@ + sym_text(self),
    {
        match self {
            Sym::DotDot => {
                out.push('.');
                out.push('.');
            },
            Sym::Dash => out.push('-'),
            Sym::Colon => out.push(':'),
            Sym::Semi => out.push(';'),
            Sym::Comma => out.push(','),
            Sym::LParen => out.push('('),
            Sym::RParen => out.push(')'),
            Sym::Star => out.push('*'),
            Sym::Dot => out.push('.'),
            Sym::Prime => out.push('\''),
            Sym::LBracket => out.push('['),
            Sym::RBracket => out.push(']'),
            Sym::Equals => out.push('='),
            Sym::Plus => out.push('+'),
            Sym::Hash => out.push('#'),
        }
    }
}

#[derive(Clone, Debug, PartialEq)]
pub enum Tok {
    Ident(String),
    Int(i64),
    Num(Number),
    Length(Number, String),
    /// `3x3`
    Dims(usize, usize),
    /// The raw text of an attribute list, without its brackets.
    Attrs(String),
    /// The raw value of a `let`, up to the end of its line or a `;`.
    Raw(String),
    Sym(Sym),
    Newline,
    Eof,
}

#[derive(Clone, Debug)]
pub struct Token {
    pub tok: Tok,
    pub pos: Pos,
    /// No whitespace between this token and the previous one.
    pub attached: bool,
}

pub open spec fn is_ident_start_spec(c: char) -> bool {
    is_alpha(c) || c == '_'
}

pub open spec fn is_ident_char_spec(c: char) -> bool {
    is_alnum(c) || c == '_'
}

pub fn is_ident_start(c: char) -> (r: bool)
    ensures
        r == is_ident_start_spec(c),
{
    alpha(c) || c == '_'
}

pub fn is_ident_char(c: char) -> (r: bool)
    ensures
        r == is_ident_char_spec(c),
{
    alnum(c) || c == '_'
}

/// A `[` right after a name or a subscript starts a subscript.
pub open spec fn attached_to_name_spec(prev: Option<char>) -> bool {
    prev matches Some(p) && (is_ident_char_spec(p) || p == ']')
}

/// A `[` right after a name or a subscript starts a subscript.
pub fn attached_to_name(prev: Option<char>) -> (r: bool)
    ensures
        r == attached_to_name_spec(prev),
{
    match prev {
        Some(p) => is_ident_char(p) || p == ']',
        None => false,
    }
}

/// A token as the lexer makes it: identifiers are runs of identifier
/// characters, numbers are in lowest terms, lengths have a known unit, and
/// a `let` value is trimmed and not empty.
pub open spec fn tok_wf(t: Tok) -> bool {
    match t {
        Tok::Ident(s) => s@.len() > 0 && forall|i: int| 0 <= i < s@.len() ==> is_ident_char_spec(
            #[trigger] s@[i],
        ),
        Tok::Int(n) => n > i64::MIN,
        Tok::Num(x) => number_wf(x),
        Tok::Length(x, u) => number_wf(x) && is_unit(u@),
        Tok::Raw(s) => s@.len() > 0 && trim(s@) == s@,
        _ => true,
    }
}

/// The number a digit string stands for, when it fits an `i64`.
pub open spec fn int_of(s: Seq<char>) -> Option<i64> {
    match decimal_of(s) {
        Some(n) => if n.scale == 0 {
            Some(n.mantissa)
        } else {
            None
        },
        None => None,
    }
}

/// What a number token is, as mathematical data.
pub enum NumTok {
    Int(i64),
    Num(Number),
    Length(Number, Seq<char>),
    Dims(usize, usize),
    Ident(Seq<char>),
}

/// A token's reading as a number token.
pub open spec fn num_view(t: Tok) -> NumTok {
    match t {
        Tok::Int(n) => NumTok::Int(n),
        Tok::Num(x) => NumTok::Num(x),
        Tok::Length(x, u) => NumTok::Length(x, u@),
        Tok::Dims(r, c) => NumTok::Dims(r, c),
        Tok::Ident(w) => NumTok::Ident(w@),
        _ => NumTok::Ident(Seq::empty()),
    }
}

/// The token a number with an optional suffix makes: an integer, a
/// decimal, a length, `2d` or `3d`, or a size such as `3x3`; otherwise the
/// message of the error.
pub open spec fn number_tok(num: Seq<char>, is_float: bool, suffix: Seq<char>) -> Result<
    NumTok,
    Seq<char>,
> {
    let bad = "bad number `"@ + num + "`"@;
    if suffix.len() == 0 {
        if is_float {
            match decimal_of(num) {
                Some(x) => Ok(NumTok::Num(x)),
                None => Err(bad),
            }
        } else {
            match int_of(num) {
                Some(n) => Ok(NumTok::Int(n)),
                None => Err(bad),
            }
        }
    } else if is_unit(suffix) {
        match decimal_of(num) {
            Some(x) => Ok(NumTok::Length(x, suffix)),
            None => Err(bad),
        }
    } else if num + suffix == "2d"@ || num + suffix == "3d"@ {
        Ok(NumTok::Ident(num + suffix))
    } else if !is_float && suffix[0] == 'x' && count_of(num) is Some && count_of(suffix.drop_first())
        is Some {
        Ok(NumTok::Dims(count_of(num)->0, count_of(suffix.drop_first())->0))
    } else {
        Err("`"@ + num + suffix + "` is not a number, a length, or a size like 3x3"@)
    }
}

/// The count a digit string stands for, when it fits a `usize`.
pub open spec fn count_of(s: Seq<char>) -> Option<usize> {
    match int_of(s) {
        Some(n) => if 0 <= n <= usize::MAX {
            Some(n as usize)
        } else {
            None
        },
        None => None,
    }
}

fn parse_int(s: &[char]) -> (r: Option<i64>)
    ensures
        r == int_of(s@),
        r matches Some(n) ==> n > i64::MIN,
{
    match parse_decimal(s) {
        Some(n) => if n.scale == 0 {
            Some(n.mantissa)
        } else {
            None
        },
        None => None,
    }
}

fn parse_count(s: &[char]) -> (r: Option<usize>)
    ensures
        r == count_of(s@),
{
    match parse_int(s) {
        Some(n) => if 0 <= n && (n as u64) <= (usize::MAX as u64) {
            Some(n as usize)
        } else {
            None
        },
        None => None,
    }
}

fn tok_is_sym(t: &Tok, s: Sym) -> (r: bool)
    ensures
        r == (*t == Tok::Sym(s)),
{
    match t {
        Tok::Sym(x) => *x == s,
        _ => false,
    }
}

fn tok_is_ident(t: &Tok, w: &str) -> (r: bool)
    ensures
        r == (t matches Tok::Ident(x) && x@ == w@),
{
    match t {
        Tok::Ident(x) => str_is(w, chars_of(x.as_str()).as_slice()),
        _ => false,
    }
}

/// The end of the run of digits in `s` from position `i`.
pub open spec fn digits_end(s: Seq<char>, i: int) -> int
    decreases s.len() - i,
{
    if 0 <= i < s.len() && is_digit(s[i]) {
        digits_end(s, i + 1)
    } else {
        i
    }
}

/// The end of the run of identifier characters in `s` from position `i`.
pub open spec fn ident_end(s: Seq<char>, i: int) -> int
    decreases s.len() - i,
{
    if 0 <= i < s.len() && is_ident_char_spec(s[i]) {
        ident_end(s, i + 1)
    } else {
        i
    }
}

/// The position of the first newline in `s` from position `i`, or the end.
pub open spec fn line_end(s: Seq<char>, i: int) -> int
    decreases s.len() - i,
{
    if 0 <= i < s.len() && s[i] != '\n' {
        line_end(s, i + 1)
    } else {
        i
    }
}

/// Where the digits of a number starting at `k` end, and whether they have
/// a decimal point: a `.` counts when a digit follows it.
pub open spec fn number_end(s: Seq<char>, k: int) -> (int, bool) {
    let d = digits_end(s, k);
    if d + 1 < s.len() && s[d] == '.' && is_digit(s[d + 1]) {
        (digits_end(s, d + 1), true)
    } else {
        (d, false)
    }
}

proof fn lemma_digits_end(s: Seq<char>, i: int, j: int)
    requires
        0 <= i <= j <= s.len(),
        forall|m: int| i <= m < j ==> is_digit(#[trigger] s[m]),
        j < s.len() ==> !is_digit(s[j]),
    ensures
        digits_end(s, i) == j,
    decreases j - i,
{
    if i < j {
        lemma_digits_end(s, i + 1, j);
    }
}

proof fn lemma_ident_end(s: Seq<char>, i: int, j: int)
    requires
        0 <= i <= j <= s.len(),
        forall|m: int| i <= m < j ==> is_ident_char_spec(#[trigger] s[m]),
        j < s.len() ==> !is_ident_char_spec(s[j]),
    ensures
        ident_end(s, i) == j,
    decreases j - i,
{
    if i < j {
        lemma_ident_end(s, i + 1, j);
    }
}

proof fn lemma_line_end(s: Seq<char>, i: int, j: int)
    requires
        0 <= i <= j <= s.len(),
        forall|m: int| i <= m < j ==> #[trigger] s[m] != '\n',
        j < s.len() ==> s[j] == '\n',
    ensures
        line_end(s, i) == j,
    decreases j - i,
{
    if i < j {
        lemma_line_end(s, i + 1, j);
    }
}

/// The ends of runs lie at or after where they start.
pub proof fn lemma_ends_bounded(s: Seq<char>, i: int)
    requires
        0 <= i <= s.len(),
    ensures
        i <= digits_end(s, i) <= s.len(),
        i <= ident_end(s, i) <= s.len(),
        i <= line_end(s, i) <= s.len(),
    decreases s.len() - i,
{
    if i < s.len() {
        lemma_ends_bounded(s, i + 1);
    }
}

/// The line and column after the first `k` characters of `s`, counting
/// from 1; both stop growing at `usize::MAX`.
pub open spec fn line_col(s: Seq<char>, k: int) -> (usize, usize)
    decreases k,
{
    if k <= 0 {
        (1, 1)
    } else {
        let (line, col) = line_col(s, k - 1);
        if s[k - 1] == '\n' {
            (if line < usize::MAX { (line + 1) as usize } else { line }, 1)
        } else {
            (line, if col < usize::MAX { (col + 1) as usize } else { col })
        }
    }
}

/// The position of character `k` of `s`.
pub open spec fn pos_at(s: Seq<char>, k: int) -> Pos {
    Pos { line: line_col(s, k).0, col: line_col(s, k).1 }
}

struct Lexer {
    chars: Vec<char>,
    k: usize,
    line: usize,
    col: usize,
    /// Nesting of `(` and subscript `[`, inside which newlines are ignored.
    depth: i128,
}

/// Whether a `[`, `]`, `(` or `)` nests.
fn depth_change(s: Sym) -> (r: i128)
    ensures
        -1 <= r <= 1,
        r == sym_depth(s),
{
    match s {
        Sym::LParen | Sym::LBracket => 1,
        Sym::RParen | Sym::RBracket => -1,
        _ => 0,
    }
}

/// Whether the scanner is outside strings, math, and brackets, where a
/// `let` value may end.
pub open spec fn raw_top(depth: int, quote: bool, math: bool) -> bool {
    depth == 0 && !quote && !math
}

/// The length of a `let` value at the start of `s`: up to a newline, or a
/// `;` or `//` outside strings, math, and parentheses.
pub open spec fn raw_len(s: Seq<char>, depth: int, quote: bool, math: bool) -> nat
    decreases s.len(),
{
    if s.len() == 0 {
        0
    } else {
        let c = s[0];
        if c == '\n' || (raw_top(depth, quote, math) && (c == ';' || (c == '/' && s.len() > 1 && s[1]
            == '/'))) {
            0
        } else {
            let (d, q, m) = if c == '"' && !math {
                (depth, !quote, math)
            } else if c == '$' && !quote {
                (depth, quote, !math)
            } else if c == '(' && !quote && !math {
                (depth + 1, quote, math)
            } else if c == ')' && !quote && !math {
                (depth - 1, quote, math)
            } else {
                (depth, quote, math)
            };
            1 + raw_len(s.drop_first(), d, q, m)
        }
    }
}

/// Whether the scanner of an attribute list is at its closing `]`.
/// Returns the length of the list's text, or `None` when it is not closed.
pub open spec fn attrs_len(s: Seq<char>, depth: nat, quote: bool, math: bool) -> Option<nat>
    decreases s.len(),
{
    if s.len() == 0 {
        None
    } else {
        let c = s[0];
        if c == ']' && !quote && !math && depth == 0 {
            Some(0)
        } else {
            let (d, q, m) = if c == '"' {
                (depth, !quote, math)
            } else if c == '$' && !quote {
                (depth, quote, !math)
            } else if c == '[' && !quote && !math {
                (depth + 1, quote, math)
            } else if c == ']' && !quote && !math {
                ((depth - 1) as nat, quote, math)
            } else {
                (depth, quote, math)
            };
            match attrs_len(s.drop_first(), d, q, m) {
                Some(n) => Some(n + 1),
                None => None,
            }
        }
    }
}

/// The symbol at the start of `s`: `..` is tried before `.`.
pub open spec fn sym_at(s: Seq<char>) -> Option<Sym> {
    if s.len() >= 2 && s[0] == '.' && s[1] == '.' {
        Some(Sym::DotDot)
    } else if s.len() == 0 {
        None
    } else if s[0] == '-' {
        Some(Sym::Dash)
    } else if s[0] == ':' {
        Some(Sym::Colon)
    } else if s[0] == ';' {
        Some(Sym::Semi)
    } else if s[0] == ',' {
        Some(Sym::Comma)
    } else if s[0] == '(' {
        Some(Sym::LParen)
    } else if s[0] == ')' {
        Some(Sym::RParen)
    } else if s[0] == '*' {
        Some(Sym::Star)
    } else if s[0] == '.' {
        Some(Sym::Dot)
    } else if s[0] == '\'' {
        Some(Sym::Prime)
    } else if s[0] == '[' {
        Some(Sym::LBracket)
    } else if s[0] == ']' {
        Some(Sym::RBracket)
    } else if s[0] == '=' {
        Some(Sym::Equals)
    } else if s[0] == '+' {
        Some(Sym::Plus)
    } else if s[0] == '#' {
        Some(Sym::Hash)
    } else {
        None
    }
}

/// A token of the lexer's output before its end.
pub open spec fn token_ok(t: Tok) -> bool {
    tok_wf(t) && !(t is Eof)
}

/// The lexer's output: well-formed tokens, and one `Eof` at the end.
pub open spec fn tokens_wf(toks: Seq<Token>) -> bool {
    &&& toks.len() >= 1
    &&& toks.last().tok is Eof
    &&& forall|i: int| 0 <= i < toks.len() - 1 ==> token_ok(#[trigger] toks[i].tok)
}

/// A token as mathematical data.
pub enum TokV {
    Ident(Seq<char>),
    Int(i64),
    Num(Number),
    Length(Number, Seq<char>),
    Dims(usize, usize),
    Attrs(Seq<char>),
    Raw(Seq<char>),
    Sym(Sym),
    Newline,
    Eof,
}

pub open spec fn tok_v(t: Tok) -> TokV {
    match t {
        Tok::Ident(w) => TokV::Ident(w@),
        Tok::Int(n) => TokV::Int(n),
        Tok::Num(x) => TokV::Num(x),
        Tok::Length(x, u) => TokV::Length(x, u@),
        Tok::Dims(r, c) => TokV::Dims(r, c),
        Tok::Attrs(a) => TokV::Attrs(a@),
        Tok::Raw(v) => TokV::Raw(v@),
        Tok::Sym(y) => TokV::Sym(y),
        Tok::Newline => TokV::Newline,
        Tok::Eof => TokV::Eof,
    }
}

/// A token with its position, and whether nothing separates it from the
/// token before.
pub open spec fn token_v(t: Token) -> (TokV, Pos, bool) {
    (tok_v(t.tok), t.pos, t.attached)
}

pub open spec fn tokens_v(ts: Seq<Token>) -> Seq<(TokV, Pos, bool)> {
    ts.map_values(|t: Token| token_v(t))
}

pub open spec fn num_tok_v(t: NumTok) -> TokV {
    match t {
        NumTok::Int(n) => TokV::Int(n),
        NumTok::Num(x) => TokV::Num(x),
        NumTok::Length(x, u) => TokV::Length(x, u),
        NumTok::Dims(r, c) => TokV::Dims(r, c),
        NumTok::Ident(w) => TokV::Ident(w),
    }
}

/// How a symbol changes the nesting of `(` and subscript `[`.
pub open spec fn sym_depth(s: Sym) -> int {
    match s {
        Sym::LParen | Sym::LBracket => 1,
        Sym::RParen | Sym::RBracket => -1,
        _ => 0,
    }
}

/// The number of characters a symbol takes.
pub open spec fn sym_len(s: Sym) -> int {
    if s == Sym::DotDot {
        2
    } else {
        1
    }
}

/// The message for a character that starts no token.
pub open spec fn stray_message(c: char) -> Seq<char> {
    if c == '"' || c == '$' {
        "text and math belong in an attribute list, as in [label=$\\chi$]"@
    } else {
        "unexpected character `"@ + seq![c] + "`"@
    }
}

/// The token that starts at character `k` of `s`, where no space, newline,
/// or comment starts: the token, where the text after it starts, and the
/// nesting after it; or the message of the error there.
pub open spec fn token_at(s: Seq<char>, k: int, depth: int) -> Result<(TokV, int, int), Seq<char>> {
    let c = s[k];
    let prev = if k > 0 {
        Some(s[k - 1])
    } else {
        None::<char>
    };
    let after_name = prev matches Some(p) && (is_ident_char_spec(p) || p == ']' || p == '.');
    let next_digit = k + 1 < s.len() && is_digit(s[k + 1]);
    if c == '[' && !attached_to_name_spec(prev) {
        match attrs_len(s.skip(k + 1), 0, false, false) {
            Some(n) => Ok((TokV::Attrs(s.subrange(k + 1, k + 1 + n)), k + n + 2, depth)),
            None => Err("attribute list is not closed by `]`"@),
        }
    } else if is_ident_start_spec(c) {
        Ok((TokV::Ident(s.subrange(k, ident_end(s, k))), ident_end(s, k), depth))
    } else if is_digit(c) || (c == '.' && next_digit && !after_name) {
        let (num_end, is_float) = number_end(s, k);
        let end = ident_end(s, num_end);
        match number_tok(s.subrange(k, num_end), is_float, s.subrange(num_end, end)) {
            Ok(t) => Ok((num_tok_v(t), end, depth)),
            Err(m) => Err(m),
        }
    } else {
        match sym_at(s.skip(k)) {
            Some(y) => Ok((TokV::Sym(y), k + sym_len(y), depth + sym_depth(y))),
            None => Err(stray_message(c)),
        }
    }
}

/// Whether a token `t` after the tokens `out` is the `=` of `let name =`,
/// at the start of a statement; the rest of the statement is then a raw
/// value.
pub open spec fn starts_let(out: Seq<(TokV, Pos, bool)>, t: TokV) -> bool {
    let n = out.len();
    &&& t == TokV::Sym(Sym::Equals)
    &&& n >= 2
    &&& out[n - 2].0 == TokV::Ident("let"@)
    &&& out[n - 1].0 is Ident
    &&& (n < 3 || out[n - 3].0 is Newline || out[n - 3].0 == TokV::Sym(Sym::Semi))
}

pub proof fn lemma_raw_len_bounded(s: Seq<char>, depth: int, quote: bool, math: bool)
    ensures
        raw_len(s, depth, quote, math) <= s.len(),
    decreases s.len(),
{
    if s.len() > 0 {
        let c = s[0];
        let (d, q, m) = if c == '"' && !math {
            (depth, !quote, math)
        } else if c == '$' && !quote {
            (depth, quote, !math)
        } else if c == '(' && !quote && !math {
            (depth + 1, quote, math)
        } else if c == ')' && !quote && !math {
            (depth - 1, quote, math)
        } else {
            (depth, quote, math)
        };
        lemma_raw_len_bounded(s.drop_first(), d, q, m);
    }
}

pub proof fn lemma_attrs_len_bounded(s: Seq<char>, depth: nat, quote: bool, math: bool)
    ensures
        attrs_len(s, depth, quote, math) matches Some(n) ==> n < s.len(),
    decreases s.len(),
{
    if s.len() > 0 {
        let c = s[0];
        let (d, q, m) = if c == '"' {
            (depth, !quote, math)
        } else if c == '$' && !quote {
            (depth, quote, !math)
        } else if c == '[' && !quote && !math {
            (depth + 1, quote, math)
        } else if c == ']' && !quote && !math {
            ((depth - 1) as nat, quote, math)
        } else {
            (depth, quote, math)
        };
        lemma_attrs_len_bounded(s.drop_first(), d, q, m);
    }
}

/// A token ends after it starts, and within the text.
pub proof fn lemma_token_advances(s: Seq<char>, k: int, depth: int)
    requires
        0 <= k < s.len(),
    ensures
        token_at(s, k, depth) matches Ok((_, end, _)) ==> k < end <= s.len(),
{
    lemma_ends_bounded(s, k + 1);
    lemma_attrs_len_bounded(s.skip(k + 1), 0, false, false);
    let (num_end, is_float) = number_end(s, k);
    lemma_ends_bounded(s, k);
    if digits_end(s, k) + 1 < s.len() {
        lemma_ends_bounded(s, digits_end(s, k) + 1);
    }
    lemma_ends_bounded(s, num_end);
}

/// The tokens of `s` from character `k` on, after the tokens `out`, with
/// nesting `depth` of `(` and subscript `[` (inside which newlines are no
/// tokens); `attached` says whether nothing separates the next token from
/// the one before.  An error gives its position and message.
pub open spec fn lex_from(s: Seq<char>, k: int, depth: int, attached: bool, out: Seq<(TokV, Pos, bool)>) -> Result<
    Seq<(TokV, Pos, bool)>,
    (Pos, Seq<char>),
>
    decreases s.len() - k,
{
    if k < 0 || k >= s.len() {
        Ok(out.push((TokV::Eof, pos_at(s, k), false)))
    } else {
        let c = s[k];
        let pos = pos_at(s, k);
        if c == '\n' {
            lex_from(
                s,
                k + 1,
                depth,
                false,
                if depth == 0 {
                    out.push((TokV::Newline, pos, false))
                } else {
                    out
                },
            )
        } else if is_space(c) {
            lex_from(s, k + 1, depth, false, out)
        } else if c == '/' && k + 1 < s.len() && s[k + 1] == '/' {
            proof {
                lemma_ends_bounded(s, k + 1);
            }
            lex_from(s, line_end(s, k), depth, attached, out)
        } else {
            proof {
                lemma_token_advances(s, k, depth);
            }
            match token_at(s, k, depth) {
                Err(m) => Err((pos, m)),
                Ok((t, next, d)) => {
                    let out = out.push((t, pos, attached));
                    if starts_let(out.drop_last(), t) {
                        proof {
                            lemma_raw_len_bounded(s.skip(next), 0, false, false);
                        }
                        let end = next + raw_len(s.skip(next), 0, false, false);
                        let raw = trim(s.subrange(next, end));
                        if raw.len() == 0 {
                            Err((pos_at(s, next), "`let` needs a value after `=`"@))
                        } else {
                            lex_from(s, end, d, true, out.push((TokV::Raw(raw), pos_at(s, next), false)))
                        }
                    } else {
                        lex_from(s, next, d, true, out)
                    }
                },
            }
        }
    }
}

/// The tokens of a source text, or the position and message of its first
/// error.
pub open spec fn lex_spec(s: Seq<char>) -> Result<Seq<(TokV, Pos, bool)>, (Pos, Seq<char>)> {
    lex_from(s, 0, 0, false, Seq::empty())
}

impl Lexer {
    spec fn rest(&self) -> Seq<char> {
        self.chars@.skip(self.k as int)
    }

    spec fn ok(&self) -> bool {
        &&& self.k <= self.chars@.len()
        &&& self.line >= 1
        &&& self.col >= 1
        &&& (self.line, self.col) == line_col(self.chars@, self.k as int)
        &&& -(self.k as int) <= self.depth <= self.k
        &&& self.chars@.len() <= usize::MAX
    }

    fn peek(&self, ahead: usize) -> (r: Option<char>)
        requires
            self.ok(),
        ensures
            self.k + ahead < self.chars@.len() ==> r == Some(self.chars@[self.k + ahead]),
            self.k + ahead >= self.chars@.len() ==> r is None,
    {
        if ahead < self.chars.len() - self.k {
            Some(self.chars[self.k + ahead])
        } else {
            None
        }
    }

    fn pos(&self) -> (p: Pos)
        requires
            self.ok(),
        ensures
            p.line == self.line && p.col == self.col,
            p == pos_at(self.chars@, self.k as int),
    {
        Pos { line: self.line, col: self.col }
    }

    /// Step over one character, keeping track of lines and columns.
    fn bump(&mut self)
        requires
            old(self).ok(),
            old(self).k < old(self).chars@.len(),
        ensures
            final(self).ok(),
            final(self).chars == old(self).chars,
            final(self).k == old(self).k + 1,
            final(self).depth == old(self).depth,
    {
        let c = self.chars[self.k];
        self.k = self.k + 1;
        if c == '\n' {
            if self.line < usize::MAX {
                self.line = self.line + 1;
            }
            self.col = 1;
        } else if self.col < usize::MAX {
            self.col = self.col + 1;
        }
    }

    /// The characters from `start` to the current position.
    fn since(&self, start: usize) -> (r: Vec<char>)
        requires
            start <= self.k <= self.chars@.len(),
        ensures
            r@ == self.chars@.subrange(start as int, self.k as int),
    {
        let mut r: Vec<char> = Vec::new();
        let mut i: usize = start;
        while i < self.k
            invariant
                start <= i <= self.k <= self.chars@.len(),
                r@ == self.chars@.subrange(start as int, i as int),
            decreases self.k - i,
        {
            r.push(self.chars[i]);
            i = i + 1;
            assert(r@ =~= self.chars@.subrange(start as int, i as int));
        }
        r
    }

    /// Step over the characters while they are digits.
    fn digits(&mut self)
        requires
            old(self).ok(),
        ensures
            final(self).ok(),
            final(self).chars == old(self).chars,
            final(self).depth == old(self).depth,
            old(self).k <= final(self).k <= final(self).chars@.len(),
            forall|i: int| old(self).k <= i < final(self).k ==> is_digit(#[trigger] final(self).chars@[i]),
            final(self).k < final(self).chars@.len() ==> !is_digit(final(self).chars@[final(self).k as int]),
            final(self).k == digits_end(old(self).chars@, old(self).k as int),
    {
        let ghost k0 = self.k;
        while self.k < self.chars.len() && digit(self.chars[self.k])
            invariant
                self.ok(),
                self.chars == old(self).chars,
                self.depth == old(self).depth,
                k0 == old(self).k,
                k0 <= self.k <= self.chars@.len(),
                forall|i: int| k0 <= i < self.k ==> is_digit(#[trigger] self.chars@[i]),
            decreases self.chars@.len() - self.k,
        {
            self.bump();
        }
        proof {
            lemma_digits_end(self.chars@, k0 as int, self.k as int);
        }
    }

    /// Step over the characters while they are identifier characters.
    fn ident_chars(&mut self)
        requires
            old(self).ok(),
        ensures
            final(self).ok(),
            final(self).chars == old(self).chars,
            final(self).depth == old(self).depth,
            old(self).k <= final(self).k <= final(self).chars@.len(),
            forall|i: int|
                old(self).k <= i < final(self).k ==> is_ident_char_spec(#[trigger] final(self).chars@[i]),
            final(self).k < final(self).chars@.len() ==> !is_ident_char_spec(
                final(self).chars@[final(self).k as int],
            ),
            final(self).k == ident_end(old(self).chars@, old(self).k as int),
    {
        let ghost k0 = self.k;
        while self.k < self.chars.len() && is_ident_char(self.chars[self.k])
            invariant
                self.ok(),
                self.chars == old(self).chars,
                self.depth == old(self).depth,
                k0 == old(self).k,
                k0 <= self.k <= self.chars@.len(),
                forall|i: int| k0 <= i < self.k ==> is_ident_char_spec(#[trigger] self.chars@[i]),
            decreases self.chars@.len() - self.k,
        {
            self.bump();
        }
        proof {
            lemma_ident_end(self.chars@, k0 as int, self.k as int);
        }
    }

    /// A number, possibly with a unit (`2mm`), or `3x3`, `2d`, `3d`.  The
    /// lexer is at a digit, or at a `.` before a digit.
    fn number(&mut self, pos: Pos) -> (r: Result<Tok, Error>)
        requires
            old(self).ok(),
            old(self).k < old(self).chars@.len(),
            is_digit(old(self).chars@[old(self).k as int]) || (old(self).chars@[old(self).k as int]
                == '.' && old(self).k + 1 < old(self).chars@.len() && is_digit(
                old(self).chars@[old(self).k + 1],
            )),
        ensures
            final(self).ok(),
            final(self).chars == old(self).chars,
            final(self).depth == old(self).depth,
            old(self).k < final(self).k <= final(self).chars@.len(),
            r matches Ok(t) ==> token_ok(t) && tok_v(t) == num_tok_v(num_view(t)),
            r matches Err(e) ==> e.pos == Some(pos),
            ({
                let s = old(self).chars@;
                let (num_end, is_float) = number_end(s, old(self).k as int);
                &&& final(self).k == ident_end(s, num_end)
                &&& number_tok(
                    s.subrange(old(self).k as int, num_end),
                    is_float,
                    s.subrange(num_end, final(self).k as int),
                ) == match r {
                    Ok(t) => Ok(num_view(t)),
                    Err(e) => Err(e.message@),
                }
            }),
    {
        let start = self.k;
        self.digits();
        let mut is_float = false;
        if self.peek(0) == Some('.') {
            match self.peek(1) {
                Some(d) => {
                    if digit(d) {
                        is_float = true;
                        self.bump();
                        self.digits();
                    }
                },
                None => {},
            }
        }
        let num_end = self.k;
        let num = self.since(start);
        self.ident_chars();
        let mut suffix: Vec<char> = Vec::new();
        let mut i: usize = num_end;
        while i < self.k
            invariant
                num_end <= i <= self.k <= self.chars@.len(),
                suffix@ == self.chars@.subrange(num_end as int, i as int),
            decreases self.k - i,
        {
            suffix.push(self.chars[i]);
            i = i + 1;
            assert(suffix@ =~= self.chars@.subrange(num_end as int, i as int));
        }
        let ghost s = self.chars@;
        let ghost nt = number_tok(num@, is_float, suffix@);
        assert(num@ == s.subrange(start as int, num_end as int));
        proof {
            assert(self.k > start) by {
                if s[start as int] == '.' {
                    assert(self.k >= start + 1);
                }
            }
        }
        let mut bad: Vec<char> = Vec::new();
        push_str(&mut bad, "bad number `");
        push_chars(&mut bad, num.as_slice());
        push_str(&mut bad, "`");
        if suffix.len() == 0 {
            if is_float {
                return match parse_decimal(num.as_slice()) {
                    Some(x) => Ok(Tok::Num(x)),
                    None => Err(error_at(pos, bad.as_slice())),
                };
            } else {
                return match parse_int(num.as_slice()) {
                    Some(n) => Ok(Tok::Int(n)),
                    None => Err(error_at(pos, bad.as_slice())),
                };
            }
        }
        if crate::attrs::unit_known(suffix.as_slice()) {
            return match parse_decimal(num.as_slice()) {
                Some(x) => Ok(Tok::Length(x, string_of(suffix.as_slice()))),
                None => Err(error_at(pos, bad.as_slice())),
            };
        }
        let text = self.since(start);
        assert(text@ =~= num@ + suffix@);
        if str_is("2d", text.as_slice()) || str_is("3d", text.as_slice()) {
            proof {
                assert forall|i: int| 0 <= i < text@.len() implies is_ident_char_spec(#[trigger] text@[i]) by {
                    if text@ == "2d"@ {
                        reveal_strlit("2d");
                    } else {
                        reveal_strlit("3d");
                    }
                }
            }
            return Ok(Tok::Ident(string_of(text.as_slice())));
        }
        if !is_float && suffix[0] == 'x' {
            let rest = self.since(num_end + 1);
            assert(rest@ =~= suffix@.drop_first());
            match (parse_count(num.as_slice()), parse_count(rest.as_slice())) {
                (Some(r), Some(c)) => {
                    return Ok(Tok::Dims(r, c));
                },
                _ => {},
            }
        }
        let mut m: Vec<char> = Vec::new();
        push_str(&mut m, "`");
        push_chars(&mut m, text.as_slice());
        push_str(&mut m, "` is not a number, a length, or a size like 3x3");
        assert(m@ =~= "`"@ + num@ + suffix@ + "` is not a number, a length, or a size like 3x3"@);
        Err(error_at(pos, m.as_slice()))
    }

    /// A `let` value: up to a `;`, a `//` comment, or the end of the line,
    /// outside strings, math, and parentheses; trimmed.
    fn raw_value(&mut self, pos: Pos) -> (r: Result<Tok, Error>)
        requires
            old(self).ok(),
        ensures
            final(self).ok(),
            final(self).chars == old(self).chars,
            final(self).depth == old(self).depth,
            final(self).k == old(self).k + raw_len(old(self).rest(), 0, false, false),
            ({
                let raw = trim(
                    old(self).chars@.subrange(old(self).k as int, final(self).k as int),
                );
                &&& raw.len() > 0 ==> (r matches Ok(Tok::Raw(x)) && x@ == raw)
                &&& raw.len() == 0 ==> (r matches Err(e) && e.pos == Some(pos) && e.message@
                    == "`let` needs a value after `=`"@)
            }),
            r matches Ok(t) ==> tok_wf(t),
    {
        let start = self.k;
        let mut depth: i128 = 0;
        let mut quote = false;
        let mut math = false;
        proof {
            assert(self.rest() =~= self.chars@.skip(start as int));
        }
        loop
            invariant
                self.ok(),
                self.chars == old(self).chars,
                self.depth == old(self).depth,
                start == old(self).k,
                start <= self.k <= self.chars@.len(),
                -(self.k - start) <= depth <= self.k - start,
                raw_len(old(self).rest(), 0, false, false) == (self.k - start) + raw_len(
                    self.rest(),
                    depth as int,
                    quote,
                    math,
                ),
            ensures
                self.ok(),
                self.chars == old(self).chars,
                self.depth == old(self).depth,
                start <= self.k <= self.chars@.len(),
                raw_len(old(self).rest(), 0, false, false) == self.k - start,
            decreases self.chars@.len() - self.k,
        {
            if self.k >= self.chars.len() {
                proof {
                    assert(self.rest() =~= Seq::<char>::empty());
                }
                break;
            }
            let c = self.chars[self.k];
            let top = depth == 0 && !quote && !math;
            let next = self.peek(1);
            if c == '\n' || (top && (c == ';' || (c == '/' && next == Some('/')))) {
                proof {
                    assert(self.rest()[0] == c);
                    if next == Some('/') {
                        assert(self.rest()[1] == '/');
                    }
                }
                break;
            }
            if c == '"' && !math {
                quote = !quote;
            } else if c == '$' && !quote {
                math = !math;
            } else if c == '(' && !quote && !math {
                depth = depth + 1;
            } else if c == ')' && !quote && !math {
                depth = depth - 1;
            }
            proof {
                assert(self.rest().drop_first() =~= self.chars@.skip(self.k + 1));
            }
            self.bump();
        }
        let all = self.since(start);
        let raw = crate::text::trimmed(all.as_slice());
        if raw.len() == 0 {
            return Err(error_at(pos, chars_of("`let` needs a value after `=`").as_slice()));
        }
        proof {
            crate::text::lemma_trim_idempotent(all@);
        }
        Ok(Tok::Raw(string_of(raw)))
    }

    /// The raw text of an attribute list; the lexer is at `[`.
    fn attrs(&mut self, pos: Pos) -> (r: Result<Tok, Error>)
        requires
            old(self).ok(),
            old(self).k < old(self).chars@.len(),
        ensures
            final(self).ok(),
            final(self).chars == old(self).chars,
            final(self).depth == old(self).depth,
            old(self).k < final(self).k,
            match attrs_len(old(self).chars@.skip(old(self).k + 1), 0, false, false) {
                Some(n) => r matches Ok(Tok::Attrs(x)) && x@ == old(self).chars@.subrange(
                    old(self).k + 1,
                    old(self).k + 1 + n,
                ) && final(self).k == old(self).k + n + 2,
                None => r matches Err(e) && e.pos == Some(pos) && e.message@
                    == "attribute list is not closed by `]`"@,
            },
    {
        self.bump();
        let start = self.k;
        let mut depth: u64 = 0;
        let mut quote = false;
        let mut math = false;
        proof {
            assert(self.rest() =~= self.chars@.skip(start as int));
        }
        loop
            invariant
                self.ok(),
                self.chars == old(self).chars,
                self.depth == old(self).depth,
                start == old(self).k + 1,
                start <= self.k <= self.chars@.len(),
                depth <= self.k - start,
                attrs_len(self.chars@.skip(start as int), 0, false, false) == match attrs_len(
                    self.rest(),
                    depth as nat,
                    quote,
                    math,
                ) {
                    Some(n) => Some((n + (self.k - start)) as nat),
                    None => None::<nat>,
                },
            ensures
                self.ok(),
                self.chars == old(self).chars,
                self.depth == old(self).depth,
                start <= self.k < self.chars@.len(),
                self.chars@[self.k as int] == ']',
                attrs_len(self.chars@.skip(start as int), 0, false, false) == Some(
                    (self.k - start) as nat,
                ),
            decreases self.chars@.len() - self.k,
        {
            if self.k >= self.chars.len() {
                proof {
                    assert(self.rest() =~= Seq::<char>::empty());
                }
                return Err(error_at(pos, chars_of("attribute list is not closed by `]`").as_slice()));
            }
            let c = self.chars[self.k];
            if c == ']' && !quote && !math && depth == 0 {
                proof {
                    assert(self.rest()[0] == c);
                }
                break;
            }
            if c == '"' {
                quote = !quote;
            } else if c == '$' && !quote {
                math = !math;
            } else if c == '[' && !quote && !math {
                depth = depth + 1;
            } else if c == ']' && !quote && !math {
                depth = depth - 1;
            }
            proof {
                assert(self.rest().drop_first() =~= self.chars@.skip(self.k + 1));
            }
            self.bump();
        }
        let raw = self.since(start);
        self.bump();
        Ok(Tok::Attrs(string_of(raw.as_slice())))
    }


    /// The symbol at the current position, if any.
    fn symbol(&self) -> (r: Option<Sym>)
        requires
            self.ok(),
        ensures
            r == sym_at(self.rest()),
    {
        if self.k >= self.chars.len() {
            return None;
        }
        let c = self.chars[self.k];
        if c == '.' && self.peek(1) == Some('.') {
            return Some(Sym::DotDot);
        }
        if c == '-' {
            Some(Sym::Dash)
        } else if c == ':' {
            Some(Sym::Colon)
        } else if c == ';' {
            Some(Sym::Semi)
        } else if c == ',' {
            Some(Sym::Comma)
        } else if c == '(' {
            Some(Sym::LParen)
        } else if c == ')' {
            Some(Sym::RParen)
        } else if c == '*' {
            Some(Sym::Star)
        } else if c == '.' {
            Some(Sym::Dot)
        } else if c == '\'' {
            Some(Sym::Prime)
        } else if c == '[' {
            Some(Sym::LBracket)
        } else if c == ']' {
            Some(Sym::RBracket)
        } else if c == '=' {
            Some(Sym::Equals)
        } else if c == '+' {
            Some(Sym::Plus)
        } else if c == '#' {
            Some(Sym::Hash)
        } else {
            None
        }
    }

    /// The token at the current position, where no space, newline, or
    /// comment starts.
    fn token(&mut self) -> (r: Result<Tok, Error>)
        requires
            old(self).ok(),
            old(self).k < old(self).chars@.len(),
        ensures
            final(self).ok(),
            final(self).chars == old(self).chars,
            match token_at(old(self).chars@, old(self).k as int, old(self).depth as int) {
                Ok((t, next, d)) => r matches Ok(x) && tok_v(x) == t && token_ok(x) && final(self).k
                    == next && final(self).depth == d,
                Err(m) => r matches Err(e) && e.pos == Some(pos_at(old(self).chars@, old(self).k as int))
                    && e.message@ == m,
            },
    {
        let ghost s = self.chars@;
        let ghost k0 = self.k as int;
        let c = self.chars[self.k];
        let pos = self.pos();
        let prev: Option<char> = if self.k > 0 {
            Some(self.chars[self.k - 1])
        } else {
            None
        };
        let after_name = match prev {
            Some(p) => is_ident_char(p) || p == ']' || p == '.',
            None => false,
        };
        let next_digit = match self.peek(1) {
            Some(d) => digit(d),
            None => false,
        };
        if c == '[' && !attached_to_name(prev) {
            self.attrs(pos)
        } else if is_ident_start(c) {
            let start = self.k;
            self.ident_chars();
            let w = self.since(start);
            proof {
                assert(self.k > start);
                assert forall|i: int| 0 <= i < w@.len() implies is_ident_char_spec(#[trigger] w@[i]) by {
                    assert(w@[i] == self.chars@[start + i]);
                }
            }
            Ok(Tok::Ident(string_of(w.as_slice())))
        } else if digit(c) || (c == '.' && next_digit && !after_name) {
            self.number(pos)
        } else {
            proof {
                assert(self.rest() =~= s.skip(k0));
            }
            match self.symbol() {
                Some(sym) => {
                    self.bump();
                    if sym == Sym::DotDot {
                        self.bump();
                    }
                    self.depth = self.depth + depth_change(sym);
                    Ok(Tok::Sym(sym))
                },
                None => {
                    if c == '"' || c == '$' {
                        return Err(
                            error_at(
                                pos,
                                chars_of(
                                    "text and math belong in an attribute list, as in [label=$\\chi$]",
                                ).as_slice(),
                            ),
                        );
                    }
                    let mut m: Vec<char> = Vec::new();
                    push_str(&mut m, "unexpected character `");
                    m.push(c);
                    push_str(&mut m, "`");
                    assert(m@ =~= stray_message(c));
                    Err(error_at(pos, m.as_slice()))
                },
            }
        }
    }

    /// The tokens of the rest of the source.
    #[verifier::rlimit(50)]
    fn run(&mut self) -> (r: Result<Vec<Token>, Error>)
        requires
            old(self).ok(),
        ensures
            r matches Ok(toks) ==> tokens_wf(toks@),
            match lex_from(old(self).chars@, old(self).k as int, old(self).depth as int, false, Seq::empty()) {
                Ok(ts) => r matches Ok(toks) && tokens_v(toks@) == ts,
                Err((p, m)) => r matches Err(e) && e.pos == Some(p) && e.message@ == m,
            },
    {
        let ghost s = self.chars@;
        let ghost goal = lex_from(s, self.k as int, self.depth as int, false, Seq::empty());
        let mut out: Vec<Token> = Vec::new();
        let mut attached = false;
        assert(tokens_v(out@) =~= Seq::<(TokV, Pos, bool)>::empty());
        while self.k < self.chars.len()
            invariant
                self.ok(),
                self.chars@ == s,
                s == old(self).chars@,
                goal == lex_from(s, old(self).k as int, old(self).depth as int, false, Seq::empty()),
                forall|i: int| 0 <= i < out@.len() ==> token_ok(#[trigger] out@[i].tok),
                goal == lex_from(s, self.k as int, self.depth as int, attached, tokens_v(out@)),
            decreases self.chars@.len() - self.k,
        {
            let c = self.chars[self.k];
            let pos = self.pos();
            let ghost k0 = self.k as int;
            let ghost before = tokens_v(out@);
            if c == '\n' {
                self.bump();
                if self.depth == 0 {
                    out.push(Token { tok: Tok::Newline, pos, attached: false });
                    assert(tokens_v(out@) =~= before.push((TokV::Newline, pos, false)));
                }
                attached = false;
                continue;
            }
            if space(c) {
                self.bump();
                attached = false;
                continue;
            }
            if c == '/' && self.peek(1) == Some('/') {
                let ghost k0 = self.k;
                let ghost depth_before = self.depth;
                while self.k < self.chars.len() && self.chars[self.k] != '\n'
                    invariant
                        self.ok(),
                        self.chars@ == s,
                        k0 <= self.k,
                        k0 < s.len(),
                        s[k0 as int] == '/',
                        self.depth == depth_before,
                        forall|m: int| k0 <= m < self.k ==> #[trigger] s[m] != '\n',
                    decreases self.chars@.len() - self.k,
                {
                    self.bump();
                }
                proof {
                    lemma_line_end(s, k0 as int, self.k as int);
                }
                continue;
            }
            let ghost depth0 = self.depth as int;
            proof {
                lemma_token_advances(s, k0, depth0);
            }
            let tok = match self.token() {
                Ok(t) => t,
                Err(e) => {
                    assert(!(c == '/' && k0 + 1 < s.len() && s[k0 + 1] == '/'));
                    assert(token_at(s, k0, depth0) == Err::<(TokV, int, int), Seq<char>>(e.message@));
                    assert(lex_from(s, k0, depth0, attached, before) == Err::<Seq<(TokV, Pos, bool)>, (Pos, Seq<char>)>(
                        (pos_at(s, k0), e.message@),
                    ));
                    return Err(e);
                },
            };
            // `let name =`: the rest of the statement is a raw value.
            let n = out.len();
            let starts = tok_is_sym(&tok, Sym::Equals) && n >= 2 && tok_is_ident(&out[n - 2].tok, "let")
                && (match &out[n - 1].tok {
                Tok::Ident(_) => true,
                _ => false,
            }) && (n < 3 || (match &out[n - 3].tok {
                Tok::Newline => true,
                Tok::Sym(Sym::Semi) => true,
                _ => false,
            }));
            proof {
                if n >= 2 {
                    assert(before[n - 2] == token_v(out@[n - 2]));
                    assert(before[n - 1] == token_v(out@[n - 1]));
                }
                if n >= 3 {
                    assert(before[n - 3] == token_v(out@[n - 3]));
                }
                assert(starts == starts_let(before, tok_v(tok)));
            }
            assert(token_ok(tok));
            out.push(Token { tok, pos, attached });
            assert(tokens_v(out@) =~= before.push((tok_v(tok), pos, attached)));
            assert(tokens_v(out@).drop_last() =~= before);
            attached = true;
            if starts {
                let p = self.pos();
                let ghost with_tok = tokens_v(out@);
                proof {
                    assert(self.rest() =~= s.skip(self.k as int));
                }
                match self.raw_value(p) {
                    Ok(t) => {
                        assert(token_ok(t));
                        out.push(Token { tok: t, pos: p, attached: false });
                        assert(tokens_v(out@) =~= with_tok.push((tok_v(t), p, false)));
                    },
                    Err(e) => return Err(e),
                }
            }
        }
        let end = self.pos();
        let ghost before = tokens_v(out@);
        out.push(Token { tok: Tok::Eof, pos: end, attached: false });
        assert(tokens_v(out@) =~= before.push((TokV::Eof, end, false)));
        proof {
            assert forall|i: int| 0 <= i < out@.len() - 1 implies token_ok(#[trigger] out@[i].tok) by {
                assert(out@[i] == out@.drop_last()[i]);
            }
        }
        Ok(out)
    }

}

/// The tokens of tnv source.
pub fn lex(src: &str) -> (r: Result<Vec<Token>, Error>)
    ensures
        r matches Ok(toks) ==> tokens_wf(toks@),
        r matches Err(e) ==> e.pos is Some,
        match lex_spec(src@) {
            Ok(ts) => r matches Ok(toks) && tokens_v(toks@) == ts,
            Err((p, m)) => r matches Err(e) && e.pos == Some(p) && e.message@ == m,
        },
{
    let chars = chars_of(src);
    let n = chars.len();
    let mut lexer = Lexer { chars, k: 0, line: 1, col: 1, depth: 0 };
    assert(lexer.chars@.len() == n);
    lexer.run()
}

} // verus!
