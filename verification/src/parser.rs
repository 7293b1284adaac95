//! Parse tokens into statements.

use vstd::prelude::*;

use crate::ast::{
    EndRef, EndV, Expr, ForClause, LegRef, LegSpec, LegSpecV, NameAst, SlotV, StmtV, SelectorAst, SlotAst, Stmt, StmtKind, Sub, SubV,
    direction_wf, end_v, ends_v, expr_v, name_v, dir_v, opt_dir_v, opt_str_v, leg_spec_v, for_v, kind_v, stmt_v, stmts_v, slot_v, strs_v, sel_v, numbers_wf, stmt_wf, sub_v,
};
use crate::attrs::{parse_attrs, substitute};
use crate::error::{Error, Pos, error_at};
use crate::lexer::{Sym, Tok, TokV, Token, lex, lex_spec, sym_text, tok_v, token_ok, tokens_v, tokens_wf};
use crate::grammar;
use crate::grammar::{Toks, Vars};
use crate::attrs::vars_view;
use crate::model::{Dim, Direction, Relation, direction_word_known};
use crate::number::{Number, number_text, number_wf};
use crate::text::{chars_of, push_chars, push_int, push_nat, push_str, str_is, string_copy, string_of};
use crate::value::{Attr, attrs_view, attrs_wf};

verus! {

pub struct Parser {
    toks: Vec<Token>,
    i: usize,
    /// `let` variables in order of declaration, with their values expanded.
    vars: Vec<(String, String)>,
}

/// The keyword text of an identifier token.
pub open spec fn is_ident_tok(t: Tok, w: Seq<char>) -> bool {
    t matches Tok::Ident(x) && x@ == w
}

impl Parser {
    pub closed spec fn ok(&self) -> bool {
        &&& tokens_wf(self.toks@)
        &&& self.i < self.toks@.len()
        &&& self.toks@.len() <= usize::MAX
    }

    /// The parser moved forward over the same tokens.
    pub closed spec fn follows(&self, before: Parser) -> bool {
        &&& self.ok()
        &&& self.toks == before.toks
        &&& self.vars == before.vars
        &&& before.i <= self.i
    }

    pub closed spec fn cur(&self) -> Tok {
        self.toks@[self.i as int].tok
    }

    pub closed spec fn start_pos(&self) -> Pos {
        self.toks@[self.i as int].pos
    }

    /// The tokens as mathematical data.
    pub closed spec fn tv(&self) -> Toks {
        tokens_v(self.toks@)
    }

    /// The `let` variables as mathematical data.
    pub closed spec fn vv(&self) -> Vars {
        vars_view(self.vars@)
    }

    proof fn lemma_tv(&self, k: int)
        requires
            0 <= k < self.toks@.len(),
        ensures
            self.tv()[k] == (tok_v(self.toks@[k].tok), self.toks@[k].pos, self.toks@[k].attached),
            self.tv().len() == self.toks@.len(),
    {
    }

    // ---- Token access ----------------------------------------------------

    fn peek(&self) -> (r: &Tok)
        requires
            self.ok(),
        ensures
            *r == self.cur(),
    {
        &self.toks[self.i].tok
    }

    /// The token `n` ahead, or the end of the file.
    fn peek_at(&self, n: usize) -> (r: &Tok)
        requires
            self.ok(),
        ensures
            self.i + n < self.toks@.len() ==> *r == self.toks@[self.i + n].tok,
            self.i + n >= self.toks@.len() ==> *r is Eof,
            tok_v(*r) == grammar::ahead(self.tv(), self.i as int, n as int),
    {
        proof {
            if self.i + n < self.toks@.len() {
                self.lemma_tv(self.i + n);
            }
        }
        let last = self.toks.len() - 1;
        if n <= last - self.i {
            &self.toks[self.i + n].tok
        } else {
            &self.toks[last].tok
        }
    }

    fn pos(&self) -> (p: Pos)
        requires
            self.ok(),
        ensures
            p == self.toks@[self.i as int].pos,
    {
        self.toks[self.i].pos
    }

    fn attached(&self) -> (r: bool)
        requires
            self.ok(),
        ensures
            r == self.toks@[self.i as int].attached,
    {
        self.toks[self.i].attached
    }

    /// Step over the current token, unless it is the end of the file.
    fn advance(&mut self)
        requires
            old(self).ok(),
        ensures
            final(self).follows(*old(self)),
            old(self).cur() is Eof ==> final(self).i == old(self).i,
            !(old(self).cur() is Eof) ==> final(self).i == old(self).i + 1,
            final(self).i == grammar::next(old(self).tv(), old(self).i as int),
    {
        proof {
            self.lemma_tv(self.i as int);
        }
        match self.toks[self.i].tok {
            Tok::Eof => {},
            _ => {
                assert(self.i != self.toks@.len() - 1);
                self.i = self.i + 1;
            },
        }
    }

    fn is_sym(&self, s: Sym) -> (r: bool)
        requires
            self.ok(),
        ensures
            r == (self.cur() == Tok::Sym(s)),
            r == grammar::is_sym(self.tv(), self.i as int, s),
    {
        proof {
            self.lemma_tv(self.i as int);
        }
        match self.peek() {
            Tok::Sym(x) => *x == s,
            _ => false,
        }
    }

    fn eat_sym(&mut self, s: Sym) -> (r: bool)
        requires
            old(self).ok(),
        ensures
            final(self).follows(*old(self)),
            r == (old(self).cur() == Tok::Sym(s)),
            r ==> final(self).i == old(self).i + 1,
            !r ==> final(self).i == old(self).i,
            r == grammar::is_sym(old(self).tv(), old(self).i as int, s),
            final(self).i == grammar::eat(old(self).tv(), old(self).i as int, s),
    {
        let hit = self.is_sym(s);
        if hit {
            self.advance();
        }
        hit
    }

    fn expect_sym(&mut self, s: Sym) -> (r: Result<(), Error>)
        requires
            old(self).ok(),
        ensures
            final(self).follows(*old(self)),
            r is Ok <==> old(self).cur() == Tok::Sym(s),
            r is Ok ==> final(self).i == old(self).i + 1,
            r matches Err(e) ==> e.pos is Some,
            match grammar::expect(old(self).tv(), old(self).i as int, s) {
                Ok(j) => r is Ok && final(self).i == j,
                Err(p) => r matches Err(e) && e.pos == Some(p),
            },
    {
        proof {
            self.lemma_tv(self.i as int);
        }
        if self.eat_sym(s) {
            Ok(())
        } else {
            let mut m: Vec<char> = Vec::new();
            push_str(&mut m, "expected `");
            s.push_text(&mut m);
            push_str(&mut m, "`");
            Err(self.fail(m.as_slice()))
        }
    }

    fn is_ident(&self, word: &str) -> (r: bool)
        requires
            self.ok(),
        ensures
            r == is_ident_tok(self.cur(), word@),
            r == grammar::is_word(self.tv(), self.i as int, word@),
    {
        proof {
            self.lemma_tv(self.i as int);
        }
        match self.peek() {
            Tok::Ident(w) => str_is(word, chars_of(w.as_str()).as_slice()),
            _ => false,
        }
    }

    fn eat_ident(&mut self, word: &str) -> (r: bool)
        requires
            old(self).ok(),
        ensures
            final(self).follows(*old(self)),
            r == is_ident_tok(old(self).cur(), word@),
            r ==> final(self).i == old(self).i + 1,
            !r ==> final(self).i == old(self).i,
            r == grammar::is_word(old(self).tv(), old(self).i as int, word@),
    {
        let hit = self.is_ident(word);
        if hit {
            self.advance();
        }
        hit
    }

    fn ident(&mut self, what: &str) -> (r: Result<String, Error>)
        requires
            old(self).ok(),
        ensures
            final(self).follows(*old(self)),
            match r {
                Ok(w) => is_ident_tok(old(self).cur(), w@) && final(self).i == old(self).i + 1,
                Err(e) => !(old(self).cur() is Ident) && e.pos is Some,
            },
            match grammar::ident(old(self).tv(), old(self).i as int) {
                Ok((w, j)) => r matches Ok(x) && x@ == w && final(self).i == j,
                Err(p) => r matches Err(e) && e.pos == Some(p),
            },
    {
        proof {
            reveal(grammar::ident);
        }
        proof {
            self.lemma_tv(self.i as int);
        }
        let w = match self.peek() {
            Tok::Ident(w) => string_copy(w),
            _ => {
                let mut m: Vec<char> = Vec::new();
                push_str(&mut m, "expected ");
                push_str(&mut m, what);
                return Err(self.fail(m.as_slice()));
            },
        };
        self.advance();
        Ok(w)
    }

    fn at_end(&self) -> (r: bool)
        requires
            self.ok(),
        ensures
            r == (self.cur() is Newline || self.cur() is Eof || self.cur() == Tok::Sym(Sym::Semi)),
            r == grammar::at_end(self.tv(), self.i as int),
    {
        proof {
            self.lemma_tv(self.i as int);
        }
        match self.peek() {
            Tok::Newline | Tok::Eof => true,
            Tok::Sym(Sym::Semi) => true,
            _ => false,
        }
    }

    /// A token as an error message names it.
    fn describe(tok: &Tok, out: &mut Vec<char>)
        requires
            tok_wf_for_text(*tok),
        ensures
            final(out)@ == old(out)@ + describe_text(*tok),
    {
        match tok {
            Tok::Ident(w) => {
                push_str(out, "`");
                push_str(out, w.as_str());
                push_str(out, "`");
            },
            Tok::Int(n) => {
                push_str(out, "`");
                push_int(out, *n);
                push_str(out, "`");
            },
            Tok::Num(x) => {
                push_str(out, "`");
                x.push_text(out);
                push_str(out, "`");
            },
            Tok::Length(x, u) => {
                push_str(out, "`");
                x.push_text(out);
                push_str(out, u.as_str());
                push_str(out, "`");
            },
            Tok::Dims(r, c) => {
                push_str(out, "`");
                push_nat(out, *r as u64);
                push_str(out, "x");
                push_nat(out, *c as u64);
                push_str(out, "`");
            },
            Tok::Attrs(_) => push_str(out, "an attribute list"),
            Tok::Raw(_) => push_str(out, "a value"),
            Tok::Sym(s) => {
                push_str(out, "`");
                s.push_text(out);
                push_str(out, "`");
            },
            Tok::Newline => push_str(out, "the end of the line"),
            Tok::Eof => push_str(out, "the end of the file"),
        }
    }

    /// `{msg}, found {the current token}`, at the current token.
    fn fail(&self, msg: &[char]) -> (e: Error)
        requires
            self.ok(),
        ensures
            e.pos == Some(self.toks@[self.i as int].pos),
            e.pos == Some(grammar::pos(self.tv(), self.i as int)),
    {
        proof {
            self.lemma_tv(self.i as int);
        }
        let mut m: Vec<char> = Vec::new();
        push_chars(&mut m, msg);
        push_str(&mut m, ", found ");
        proof {
            self.lemma_cur_wf();
        }
        Parser::describe(self.peek(), &mut m);
        error_at(self.pos(), m.as_slice())
    }

    proof fn lemma_cur_wf(&self)
        requires
            self.ok(),
        ensures
            tok_wf_for_text(self.cur()),
    {
        if self.i < self.toks@.len() - 1 {
            assert(token_ok(self.toks@[self.i as int].tok));
        }
    }

    // ---- Pieces ----------------------------------------------------------

    fn integer(&mut self) -> (r: Result<i64, Error>)
        requires
            old(self).ok(),
        ensures
            final(self).follows(*old(self)),
            r matches Ok(n) ==> n > i64::MIN && final(self).i > old(self).i,
            r matches Err(e) ==> e.pos is Some,
            match grammar::integer(old(self).tv(), old(self).i as int) {
                Ok((n, j)) => r == Ok::<i64, Error>(n) && final(self).i == j,
                Err(p) => r matches Err(e) && e.pos == Some(p),
            },
    {
        proof {
            reveal(grammar::integer);
        }
        let neg = self.eat_sym(Sym::Dash);
        proof {
            self.lemma_tv(self.i as int);
        }
        let n = match self.peek() {
            Tok::Int(n) => *n,
            _ => return Err(self.fail(chars_of("expected an integer").as_slice())),
        };
        proof {
            self.lemma_cur_wf();
        }
        self.advance();
        Ok(
            if neg {
                -n
            } else {
                n
            },
        )
    }

    fn number(&mut self) -> (r: Result<Number, Error>)
        requires
            old(self).ok(),
        ensures
            final(self).follows(*old(self)),
            r matches Ok(x) ==> number_wf(x) && final(self).i > old(self).i,
            r matches Err(e) ==> e.pos is Some,
            match grammar::number(old(self).tv(), old(self).i as int) {
                Ok((x, j)) => r == Ok::<Number, Error>(x) && final(self).i == j,
                Err(p) => r matches Err(e) && e.pos == Some(p),
            },
    {
        proof {
            reveal(grammar::number);
        }
        let neg = self.eat_sym(Sym::Dash);
        proof {
            self.lemma_cur_wf();
            self.lemma_tv(self.i as int);
        }
        let x = match self.peek() {
            Tok::Int(n) => Number::integer(*n),
            Tok::Num(x) => *x,
            _ => return Err(self.fail(chars_of("expected a number").as_slice())),
        };
        self.advance();
        Ok(
            if neg {
                x.negate()
            } else {
                x
            },
        )
    }

    fn point(&mut self) -> (r: Result<Vec<Number>, Error>)
        requires
            old(self).ok(),
        ensures
            final(self).follows(*old(self)),
            r matches Ok(p) ==> numbers_wf(p@) && 2 <= p@.len() <= 3 && final(self).i > old(self).i,
            r matches Err(e) ==> e.pos is Some,
            match grammar::point(old(self).tv(), old(self).i as int) {
                Ok((v, j)) => r matches Ok(p) && p@ == v && final(self).i == j,
                Err(q) => r matches Err(e) && e.pos == Some(q),
            },
    {
        proof {
            reveal(grammar::point);
        }
        let ghost ts = self.tv();
        match self.expect_sym(Sym::LParen) {
            Ok(()) => {},
            Err(e) => return Err(e),
        }
        let mut p: Vec<Number> = Vec::new();
        let ghost j0 = self.i as int;
        match self.number() {
            Ok(x) => p.push(x),
            Err(e) => return Err(e),
        }
        let ghost rest = grammar::numbers_rest(ts, self.i as int, p@);
        loop
            invariant
                self.follows(*old(self)),
                self.i > old(self).i,
                numbers_wf(p@),
                ts == old(self).tv(),
                rest == grammar::numbers_rest(ts, self.i as int, p@),
                grammar::point(ts, old(self).i as int) == match rest {
                    Err(q) => Err(q),
                    Ok((v, m)) => match grammar::expect(ts, m, Sym::RParen) {
                        Err(q) => Err(q),
                        Ok(e) => if v.len() == 2 || v.len() == 3 {
                            Ok((v, e))
                        } else {
                            Err(grammar::pos(ts, e))
                        },
                    },
                },
            ensures
                rest == Ok::<(Seq<Number>, int), Pos>((p@, self.i as int)),
            decreases self.toks@.len() - self.i,
        {
            let ghost here = self.i as int;
            if !self.eat_sym(Sym::Comma) {
                assert(ts == self.tv());
                assert(rest == Ok::<(Seq<Number>, int), Pos>((p@, here)));
                break;
            }
            match self.number() {
                Ok(x) => {
                    proof {
                        assert(grammar::numbers_rest(ts, here, p@) == grammar::numbers_rest(
                            ts,
                            self.i as int,
                            p@.push(x),
                        ));
                    }
                    p.push(x);
                },
                Err(e) => return Err(e),
            }
        }
        match self.expect_sym(Sym::RParen) {
            Ok(()) => {},
            Err(e) => return Err(e),
        }
        if p.len() == 2 || p.len() == 3 {
            Ok(p)
        } else {
            Err(self.fail(chars_of("a coordinate has 2 or 3 components").as_slice()))
        }
    }

    fn expr(&mut self) -> (r: Result<Expr, Error>)
        requires
            old(self).ok(),
        ensures
            final(self).follows(*old(self)),
            r is Ok ==> final(self).i > old(self).i,
            r matches Err(e) ==> e.pos is Some,
            match grammar::expr(old(self).tv(), old(self).i as int) {
                Ok((v, j)) => r matches Ok(x) && expr_v(x) == v && final(self).i == j,
                Err(p) => r matches Err(e) && e.pos == Some(p),
            },
    {
        proof {
            self.lemma_tv(self.i as int);
        }
        let var = match self.peek() {
            Tok::Ident(v) => Some(string_copy(v)),
            _ => None,
        };
        match var {
            Some(v) => {
                self.advance();
                let offset = if self.eat_sym(Sym::Plus) {
                    match self.integer() {
                        Ok(n) => n,
                        Err(e) => return Err(e),
                    }
                } else if self.is_sym(Sym::Dash) && (match self.peek_at(1) {
                    Tok::Int(_) => true,
                    _ => false,
                }) {
                    self.advance();
                    match self.integer() {
                        Ok(n) => -n,
                        Err(e) => return Err(e),
                    }
                } else {
                    0
                };
                Ok(Expr::Var(v, offset))
            },
            None => match self.integer() {
                Ok(n) => Ok(Expr::Int(n)),
                Err(e) => Err(e),
            },
        }
    }

    fn name(&mut self) -> (r: Result<NameAst, Error>)
        requires
            old(self).ok(),
        ensures
            final(self).follows(*old(self)),
            r matches Ok(n) ==> (final(self).i > old(self).i && n.pos == old(self).start_pos()),
            r matches Err(e) ==> e.pos is Some,
            match grammar::name(old(self).tv(), old(self).i as int) {
                Ok((v, j)) => r matches Ok(x) && name_v(x) == v && final(self).i == j,
                Err(p) => r matches Err(e) && e.pos == Some(p),
            },
    {
        proof {
            reveal(grammar::name);
        }
        let ghost ts = self.tv();
        let ghost i0 = self.i as int;
        proof {
            self.lemma_tv(i0);
        }
        let pos = self.pos();
        let base = match self.ident("a name") {
            Ok(b) => b,
            Err(e) => return Err(e),
        };
        let ghost j0 = self.i as int;
        let mut subs: Vec<Sub> = Vec::new();
        let ghost sv = Seq::<SubV>::empty();
        let ghost bracket = grammar::is_sym(ts, j0, Sym::LBracket) && ts[j0].2;
        proof {
            self.lemma_tv(j0);
        }
        if self.is_sym(Sym::LBracket) && self.attached() {
            self.advance();
            let ghost goal = grammar::subs(ts, self.i as int, Seq::empty());
            assert(subs@.map_values(|x: Sub| sub_v(x)) =~= Seq::<SubV>::empty());
            loop
                invariant_except_break
                    goal == grammar::subs(ts, self.i as int, subs@.map_values(|x: Sub| sub_v(x))),
                invariant
                    self.follows(*old(self)),
                    self.i > old(self).i,
                    ts == old(self).tv(),
                    i0 == old(self).i,
                    grammar::ident(ts, i0) == Ok::<(Seq<char>, int), Pos>((base@, j0)),
                    grammar::is_sym(ts, j0, Sym::LBracket) && ts[j0].2,
                    goal == grammar::subs(ts, j0 + 1, Seq::empty()),
                ensures
                    self.follows(*old(self)),
                    self.i > old(self).i,
                    goal == Ok::<(Seq<SubV>, int), Pos>((subs@.map_values(|x: Sub| sub_v(x)), self.i as int)),
                decreases self.toks@.len() - self.i,
            {
                proof {
                    reveal(grammar::name);
                }
                let ghost here = self.i as int;
                let ghost acc = subs@.map_values(|x: Sub| sub_v(x));
                let s = if self.eat_sym(Sym::Star) {
                    Sub::Any
                } else {
                    let a = match self.expr() {
                        Ok(a) => a,
                        Err(e) => return Err(e),
                    };
                    if self.eat_sym(Sym::DotDot) {
                        match self.expr() {
                            Ok(b) => Sub::Range(a, b),
                            Err(e) => return Err(e),
                        }
                    } else {
                        Sub::Expr(a)
                    }
                };
                assert(grammar::subscript(ts, here) == Ok::<(SubV, int), Pos>((sub_v(s), self.i as int)));
                subs.push(s);
                assert(subs@.map_values(|x: Sub| sub_v(x)) =~= acc.push(sub_v(s)));
                let ghost after = self.i as int;
                if !self.eat_sym(Sym::Comma) {
                    break;
                }
                assert(goal == grammar::subs(ts, after + 1, acc.push(sub_v(s))));
            }
            match self.expect_sym(Sym::RBracket) {
                Ok(()) => {},
                Err(e) => return Err(e),
            }
            assert(grammar::bracket(ts, j0) == Ok::<(Seq<SubV>, int), Pos>(
                (subs@.map_values(|x: Sub| sub_v(x)), self.i as int),
            ));
        } else {
            assert(subs@.map_values(|x: Sub| sub_v(x)) =~= Seq::<SubV>::empty());
            assert(grammar::bracket(ts, j0) == Ok::<(Seq<SubV>, int), Pos>((Seq::empty(), j0)));
        }
        let ghost k0 = self.i as int;
        let ghost goal2 = grammar::primes(ts, k0, 0);
        let ghost sv = subs@.map_values(|x: Sub| sub_v(x));
        assert(grammar::bracket(ts, j0) == Ok::<(Seq<SubV>, int), Pos>((sv, k0)));
        let mut prime: u32 = 0;
        while self.is_sym(Sym::Prime) && self.attached()
            invariant
                self.follows(*old(self)),
                self.i > old(self).i,
                ts == old(self).tv(),
                goal2 == grammar::primes(ts, self.i as int, prime),
                grammar::name(ts, old(self).i as int) == match goal2 {
                    Err(p) => Err(p),
                    Ok((n, m)) => Ok((
                        crate::ast::NameV { base: base@, subs: sv, prime: n, pos: grammar::pos(ts, old(self).i as int) },
                        m,
                    )),
                },
            decreases self.toks@.len() - self.i,
        {
            proof {
                self.lemma_tv(self.i as int);
            }
            if prime == u32::MAX {
                return Err(self.fail(chars_of("too many primes").as_slice()));
            }
            self.advance();
            prime = prime + 1;
        }
        proof {
            self.lemma_tv(self.i as int);
        }
        Ok(NameAst { base, subs, prime, pos })
    }

    fn end_ref(&mut self) -> (r: Result<EndRef, Error>)
        requires
            old(self).ok(),
        ensures
            final(self).follows(*old(self)),
            r is Ok ==> final(self).i > old(self).i,
            r matches Err(e) ==> e.pos is Some,
            match grammar::end_ref(old(self).tv(), old(self).i as int) {
                Ok((v, j)) => r matches Ok(x) && end_v(x) == v && final(self).i == j,
                Err(p) => r matches Err(e) && e.pos == Some(p),
            },
    {
        proof {
            reveal(grammar::end_ref);
        }
        let ghost ts = self.tv();
        let name = match self.name() {
            Ok(n) => n,
            Err(e) => return Err(e),
        };
        proof {
            self.lemma_tv(self.i as int);
        }
        let leg = if self.is_sym(Sym::Dot) && self.attached() {
            self.advance();
            if self.eat_sym(Sym::Hash) {
                let n = match self.integer() {
                    Ok(n) => n,
                    Err(e) => return Err(e),
                };
                if n < 1 {
                    return Err(self.fail(chars_of("leg positions start at 1").as_slice()));
                }
                if n as u64 > usize::MAX as u64 {
                    return Err(self.fail(chars_of("leg position is too large").as_slice()));
                }
                Some(LegRef::Position(n as usize))
            } else {
                match self.ident("a leg label") {
                    Ok(l) => Some(LegRef::Label(l)),
                    Err(e) => return Err(e),
                }
            }
        } else {
            None
        };
        Ok(EndRef { name, leg })
    }

    fn end_list(&mut self) -> (r: Result<Vec<EndRef>, Error>)
        requires
            old(self).ok(),
        ensures
            final(self).follows(*old(self)),
            r matches Ok(list) ==> list@.len() >= 1 && final(self).i > old(self).i,
            r matches Err(e) ==> e.pos is Some,
            match grammar::end_list(old(self).tv(), old(self).i as int) {
                Ok((v, j)) => r matches Ok(x) && ends_v(x@) == v && final(self).i == j,
                Err(p) => r matches Err(e) && e.pos == Some(p),
            },
    {
        proof {
            reveal(grammar::end_list);
        }
        let ghost ts = self.tv();
        let mut list: Vec<EndRef> = Vec::new();
        match self.end_ref() {
            Ok(e) => list.push(e),
            Err(e) => return Err(e),
        }
        assert(ends_v(list@) =~= seq![end_v(list@[0])]);
        let ghost goal = grammar::end_list(ts, old(self).i as int);
        loop
            invariant
                self.follows(*old(self)),
                self.i > old(self).i,
                list@.len() >= 1,
                ts == old(self).tv(),
                goal == grammar::end_list(ts, old(self).i as int),
                goal == grammar::ends_rest(ts, self.i as int, ends_v(list@)),
            decreases self.toks@.len() - self.i,
        {
            proof {
                self.lemma_tv(self.i as int);
            }
            let ghost here = self.i as int;
            let ghost acc = ends_v(list@);
            if !self.eat_sym(Sym::Comma) {
                return Ok(list);
            }
            match self.end_ref() {
                Ok(e) => {
                    list.push(e);
                    assert(ends_v(list@) =~= acc.push(end_v(e)));
                },
                Err(e) => return Err(e),
            }
        }
    }

    /// A direction: `down`, `down-left`, `+z`, `-45`, `30`, or `(0, 0, 1)`.
    fn direction_opt(&mut self) -> (r: Result<Option<Direction>, Error>)
        requires
            old(self).ok(),
        ensures
            final(self).follows(*old(self)),
            r matches Ok(Some(d)) ==> direction_wf(d) && final(self).i > old(self).i,
            r matches Ok(None) ==> final(self).i == old(self).i,
            r matches Err(e) ==> e.pos is Some,
            match grammar::direction(old(self).tv(), old(self).i as int) {
                Ok((v, j)) => r matches Ok(x) && opt_dir_v(x) == v && final(self).i == j,
                Err(p) => r matches Err(e) && e.pos == Some(p),
            },
    {
        proof {
            reveal(grammar::direction);
        }
        let ghost ts = self.tv();
        let ghost i0 = self.i as int;
        proof {
            self.lemma_tv(i0);
        }
        let sign: Option<char> = match self.peek() {
            Tok::Sym(Sym::Plus) => Some('+'),
            Tok::Sym(Sym::Dash) => Some('-'),
            _ => None,
        };
        if let Some(sg) = sign {
            assert(i0 + 1 < self.toks@.len());
            proof {
                self.lemma_tv(i0 + 1);
            }
            let axis: Option<String> = match self.peek_at(1) {
                Tok::Ident(a) => {
                    let c = chars_of(a.as_str());
                    if str_is("x", c.as_slice()) || str_is("y", c.as_slice()) || str_is("z", c.as_slice()) {
                        Some(string_copy(a))
                    } else {
                        None
                    }
                },
                _ => None,
            };
            proof {
                reveal_strlit("x");
                reveal_strlit("y");
                reveal_strlit("z");
            }
            if let Some(a) = axis {
                if self.toks[self.i + 1].attached {
                    self.advance();
                    self.advance();
                    let mut w: Vec<char> = Vec::new();
                    w.push(sg);
                    push_str(&mut w, a.as_str());
                    assert(w@ =~= seq![sg] + a@);
                    return Ok(Some(Direction::Axis(string_of(w.as_slice()))));
                }
            }
            return match self.number() {
                Ok(x) => Ok(Some(Direction::Angle(x))),
                Err(e) => Err(e),
            };
        }
        let is_number = match self.peek() {
            Tok::Int(_) | Tok::Num(_) => true,
            _ => false,
        };
        if is_number {
            return match self.number() {
                Ok(x) => Ok(Some(Direction::Angle(x))),
                Err(e) => Err(e),
            };
        }
        if self.is_sym(Sym::LParen) {
            return match self.point() {
                Ok(p) => Ok(Some(Direction::Vector(p))),
                Err(e) => Err(e),
            };
        }
        let word: Option<Vec<char>> = match self.peek() {
            Tok::Ident(w) => {
                let c = chars_of(w.as_str());
                if direction_word_known(c.as_slice()) {
                    Some(c)
                } else {
                    None
                }
            },
            _ => None,
        };
        match word {
            Some(w) => {
                self.advance();
                let ghost j = self.i as int;
                proof {
                    self.lemma_tv(j);
                }
                let mut word = w;
                if self.is_sym(Sym::Dash) && self.attached() {
                    proof {
                        self.lemma_tv(j + 1);
                    }
                    let second: Option<Vec<char>> = match self.peek_at(1) {
                        Tok::Ident(x) => Some(chars_of(x.as_str())),
                        _ => None,
                    };
                    if let Some(x) = second {
                        self.advance();
                        self.advance();
                        word.push('-');
                        push_chars(&mut word, x.as_slice());
                        assert(word@ =~= w@ + seq!['-'] + x@);
                    }
                }
                if !direction_word_known(word.as_slice()) {
                    let mut m: Vec<char> = Vec::new();
                    push_str(&mut m, "`");
                    push_chars(&mut m, word.as_slice());
                    push_str(&mut m, "` is not a direction");
                    proof {
                        self.lemma_tv(self.i as int);
                    }
                    return Err(error_at(self.pos(), m.as_slice()));
                }
                Ok(Some(Direction::Word(string_of(word.as_slice()))))
            },
            None => Ok(None),
        }
    }

    fn leg_specs(&mut self) -> (r: Result<Vec<LegSpec>, Error>)
        requires
            old(self).ok(),
        ensures
            final(self).follows(*old(self)),
            r matches Ok(legs) ==> forall|i: int|
                0 <= i < legs@.len() ==> ((#[trigger] legs@[i]).dir matches Some(d) ==> direction_wf(d)),
            r matches Err(e) ==> e.pos is Some,
            match grammar::leg_specs(old(self).tv(), old(self).i as int) {
                Ok((v, j)) => r matches Ok(x) && x@.map_values(|l: LegSpec| leg_spec_v(l)) == v
                    && final(self).i == j,
                Err(p) => r matches Err(e) && e.pos == Some(p),
            },
    {
        let ghost ts = self.tv();
        let mut specs: Vec<LegSpec> = Vec::new();
        if self.at_end() {
            specs.push(LegSpec { label: None, dir: None });
            assert(specs@.map_values(|l: LegSpec| leg_spec_v(l)) =~= seq![
                LegSpecV { label: None, dir: None },
            ]);
            return Ok(specs);
        }
        assert(specs@.map_values(|l: LegSpec| leg_spec_v(l)) =~= Seq::<LegSpecV>::empty());
        let ghost goal = grammar::leg_specs(ts, self.i as int);
        loop
            invariant
                self.follows(*old(self)),
                ts == old(self).tv(),
                goal == grammar::leg_specs(ts, old(self).i as int),
                goal == grammar::legs_from(ts, self.i as int, specs@.map_values(|l: LegSpec| leg_spec_v(l))),
                forall|i: int|
                    0 <= i < specs@.len() ==> ((#[trigger] specs@[i]).dir matches Some(d) ==> direction_wf(
                        d,
                    )),
            decreases self.toks@.len() - self.i,
        {
            let ghost here = self.i as int;
            let ghost acc = specs@.map_values(|l: LegSpec| leg_spec_v(l));
            proof {
                self.lemma_tv(here);
            }
            let label: Option<String> = match self.peek() {
                Tok::Ident(w) => {
                    if direction_word_known(chars_of(w.as_str()).as_slice()) {
                        None
                    } else {
                        Some(string_copy(w))
                    }
                },
                _ => None,
            };
            if label.is_some() {
                self.advance();
            }
            let dir = match self.direction_opt() {
                Ok(d) => d,
                Err(e) => return Err(e),
            };
            let spec = LegSpec { label, dir };
            specs.push(spec);
            assert(specs@.map_values(|l: LegSpec| leg_spec_v(l)) =~= acc.push(leg_spec_v(spec)));
            proof {
                self.lemma_tv(self.i as int);
            }
            if !self.eat_sym(Sym::Comma) {
                return Ok(specs);
            }
        }
    }

    fn for_opt(&mut self) -> (r: Result<Option<ForClause>, Error>)
        requires
            old(self).ok(),
        ensures
            final(self).follows(*old(self)),
            r matches Err(e) ==> e.pos is Some,
            match grammar::for_opt(old(self).tv(), old(self).i as int) {
                Ok((v, j)) => r matches Ok(x) && for_v(x) == v && final(self).i == j,
                Err(p) => r matches Err(e) && e.pos == Some(p),
            },
    {
        proof {
            reveal_strlit("for");
            reveal_strlit("in");
        }
        if !self.eat_ident("for") {
            return Ok(None);
        }
        let var = match self.ident("a loop variable") {
            Ok(v) => v,
            Err(e) => return Err(e),
        };
        if !self.eat_ident("in") {
            return Err(self.fail(chars_of("expected `in`").as_slice()));
        }
        let from = match self.integer() {
            Ok(n) => n,
            Err(e) => return Err(e),
        };
        match self.expect_sym(Sym::DotDot) {
            Ok(()) => {},
            Err(e) => return Err(e),
        }
        let to = match self.integer() {
            Ok(n) => n,
            Err(e) => return Err(e),
        };
        Ok(Some(ForClause { var, from, to }))
    }

    fn attrs_maybe(&mut self) -> (r: Result<Option<Vec<Attr>>, Error>)
        requires
            old(self).ok(),
        ensures
            final(self).follows(*old(self)),
            r matches Ok(Some(a)) ==> attrs_wf(attrs_view(a@)) && final(self).i > old(self).i,
            r matches Ok(None) ==> final(self).i == old(self).i && !(old(self).cur() is Attrs),
            r matches Err(e) ==> e.pos is Some,
            match grammar::attrs_maybe(old(self).tv(), old(self).i as int, old(self).vv()) {
                Ok((Some(v), j)) => r matches Ok(Some(x)) && attrs_view(x@) == v && final(self).i == j,
                Ok((None, j)) => r matches Ok(None) && final(self).i == j,
                Err(p) => r matches Err(e) && e.pos == Some(p),
            },
    {
        proof {
            reveal(grammar::attrs_maybe);
        }
        proof {
            self.lemma_tv(self.i as int);
        }
        let raw: Option<String> = match self.peek() {
            Tok::Attrs(raw) => Some(string_copy(raw)),
            _ => None,
        };
        match raw {
            Some(raw) => {
                let pos = self.pos();
                self.advance();
                let raw = match substitute(raw.as_str(), self.vars.as_slice()) {
                    Ok(r) => r,
                    Err(m) => return Err(Error::at(pos, m)),
                };
                match parse_attrs(raw.as_str(), pos) {
                    Ok(a) => Ok(Some(a)),
                    Err(e) => Err(e),
                }
            },
            None => Ok(None),
        }
    }

    fn attrs(&mut self) -> (r: Result<Vec<Attr>, Error>)
        requires
            old(self).ok(),
        ensures
            final(self).follows(*old(self)),
            r matches Ok(a) ==> attrs_wf(attrs_view(a@)) && final(self).i > old(self).i,
            r matches Err(e) ==> e.pos is Some,
            match grammar::attrs(old(self).tv(), old(self).i as int, old(self).vv()) {
                Ok((v, j)) => r matches Ok(x) && attrs_view(x@) == v && final(self).i == j,
                Err(p) => r matches Err(e) && e.pos == Some(p),
            },
    {
        match self.attrs_maybe() {
            Ok(Some(a)) => Ok(a),
            Ok(None) => Err(self.fail(chars_of("expected an attribute list such as [color=red]").as_slice())),
            Err(e) => Err(e),
        }
    }

    fn attrs_opt(&mut self) -> (r: Result<Vec<Attr>, Error>)
        requires
            old(self).ok(),
        ensures
            final(self).follows(*old(self)),
            r matches Ok(a) ==> attrs_wf(attrs_view(a@)),
            r matches Err(e) ==> e.pos is Some,
            match grammar::attrs_opt(old(self).tv(), old(self).i as int, old(self).vv()) {
                Ok((v, j)) => r matches Ok(x) && attrs_view(x@) == v && final(self).i == j,
                Err(p) => r matches Err(e) && e.pos == Some(p),
            },
    {
        match self.attrs_maybe() {
            Ok(Some(a)) => Ok(a),
            Ok(None) => Ok(Vec::new()),
            Err(e) => Err(e),
        }
    }

    /// `let name = value`: a global variable, used as `@name` in attribute
    /// values.  Its value is text, typed where it is used.
    fn let_statement(&mut self) -> (r: Result<(), Error>)
        requires
            old(self).ok(),
            is_ident_tok(old(self).cur(), "let"@),
        ensures
            final(self).ok(),
            final(self).toks == old(self).toks,
            final(self).i > old(self).i,
            r matches Err(e) ==> e.pos is Some,
            match grammar::let_statement(old(self).tv(), old(self).i as int, old(self).vv()) {
                Ok((vars, j)) => r is Ok && final(self).vv() == vars && final(self).i == j,
                Err(p) => r matches Err(e) && e.pos == Some(p),
            },
    {
        proof {
            reveal(grammar::let_statement);
        }
        let ghost ts = self.tv();
        let ghost vars0 = self.vv();
        self.advance();
        let ghost j = self.i as int;
        proof {
            self.lemma_tv(j);
        }
        let pos = self.pos();
        let name = match self.ident("a variable name") {
            Ok(n) => n,
            Err(e) => return Err(e),
        };
        match self.expect_sym(Sym::Equals) {
            Ok(()) => {},
            Err(e) => return Err(e),
        }
        let ghost m0 = self.i as int;
        proof {
            self.lemma_tv(self.i as int);
        }
        let raw: Option<String> = match self.peek() {
            Tok::Raw(raw) => Some(string_copy(raw)),
            _ => None,
        };
        self.advance();
        let raw = match raw {
            Some(r) => r,
            None => return Err(error_at(pos, chars_of("`let` needs a value after `=`").as_slice())),
        };
        let mut k: usize = 0;
        let mut dup = false;
        while k < self.vars.len()
            invariant
                k <= self.vars@.len(),
                vars0 == vars_view(self.vars@),
                dup == (exists|q: int| 0 <= q < k && (#[trigger] vars0[q]).0 == name@),
            decreases self.vars@.len() - k,
        {
            if crate::text::strings_equal(&self.vars[k].0, &name) {
                assert(vars0[k as int].0 == name@);
                dup = true;
            }
            k = k + 1;
        }
        if dup {
            let mut m: Vec<char> = Vec::new();
            push_str(&mut m, "`@");
            push_str(&mut m, name.as_str());
            push_str(&mut m, "` is already declared");
            return Err(error_at(pos, m.as_slice()));
        }
        let value = match substitute(raw.as_str(), self.vars.as_slice()) {
            Ok(v) => v,
            Err(m) => return Err(Error::at(pos, m)),
        };
        self.vars.push((name, value));
        assert(self.vv() =~= vars0.push((name@, value@)));
        Ok(())
    }

    fn chain(&mut self, group: Option<String>) -> (r: Result<StmtKind, Error>)
        requires
            old(self).ok(),
        ensures
            final(self).follows(*old(self)),
            r matches Ok(k) ==> stmt_wf(Stmt { pos: Pos { line: 0, col: 0 }, kind: k }) && final(self).i
                > old(self).i,
            r matches Err(e) ==> e.pos is Some,
            match grammar::chain(old(self).tv(), old(self).i as int, old(self).vv(), opt_str_v(group)) {
                Ok((v, j)) => r matches Ok(k) && kind_v(k) == v && final(self).i == j,
                Err(p) => r matches Err(e) && e.pos == Some(p),
            },
    {
        proof {
            reveal(grammar::chain);
        }
        let list = match self.end_list() {
            Ok(l) => l,
            Err(e) => return Err(e),
        };
        match self.attrs_opt() {
            Ok(attrs) => Ok(StmtKind::Chain { group, list, attrs }),
            Err(e) => Err(e),
        }
    }

    /// The lists of a connection after the first, each after a `-`.
    fn lists_rest(&mut self, first: Vec<EndRef>) -> (r: Result<Vec<Vec<EndRef>>, Error>)
        requires
            old(self).ok(),
        ensures
            final(self).follows(*old(self)),
            r matches Err(e) ==> e.pos is Some,
            match grammar::lists_rest(old(self).tv(), old(self).i as int, seq![ends_v(first@)]) {
                Ok((v, j)) => r matches Ok(x) && x@.map_values(|l: Vec<EndRef>| ends_v(l@)) == v
                    && final(self).i == j,
                Err(p) => r matches Err(e) && e.pos == Some(p),
            },
    {
        let ghost ts = self.tv();
        let mut lists: Vec<Vec<EndRef>> = Vec::new();
        lists.push(first);
        let ghost goal = grammar::lists_rest(ts, self.i as int, seq![ends_v(first@)]);
        assert(lists@.map_values(|l: Vec<EndRef>| ends_v(l@)) =~= seq![ends_v(first@)]);
        loop
            invariant
                self.follows(*old(self)),
                ts == old(self).tv(),
                goal == grammar::lists_rest(ts, self.i as int, lists@.map_values(|l: Vec<EndRef>| ends_v(l@))),
            goal == grammar::lists_rest(ts, old(self).i as int, seq![ends_v(first@)]),
            decreases self.toks@.len() - self.i,
        {
            proof {
                self.lemma_tv(self.i as int);
            }
            let ghost acc = lists@.map_values(|l: Vec<EndRef>| ends_v(l@));
            if !self.eat_sym(Sym::Dash) {
                return Ok(lists);
            }
            match self.end_list() {
                Ok(l) => {
                    lists.push(l);
                    assert(lists@.map_values(|l: Vec<EndRef>| ends_v(l@)) =~= acc.push(ends_v(l@)));
                },
                Err(e) => return Err(e),
            }
        }
    }

    /// Statements that start with names: connections, legs, groups,
    /// placement, and styles.
    fn name_statement(&mut self) -> (r: Result<StmtKind, Error>)
        requires
            old(self).ok(),
        ensures
            final(self).follows(*old(self)),
            r matches Ok(k) ==> stmt_wf(Stmt { pos: Pos { line: 0, col: 0 }, kind: k }) && final(self).i
                > old(self).i,
            r matches Err(e) ==> e.pos is Some,
            match grammar::name_statement(old(self).tv(), old(self).i as int, old(self).vv()) {
                Ok((v, j)) => r matches Ok(k) && kind_v(k) == v && final(self).i == j,
                Err(p) => r matches Err(e) && e.pos == Some(p),
            },
    {
        proof {
            reveal(grammar::name_statement);
        }
        let ghost ts = self.tv();
        proof {
            reveal_strlit("leg");
            reveal_strlit("legs");
            reveal_strlit("chain");
            reveal_strlit("at");
            reveal_strlit("right");
            reveal_strlit("left");
            reveal_strlit("of");
            reveal_strlit("above");
            reveal_strlit("below");
        }
        let first = match self.end_list() {
            Ok(l) => l,
            Err(e) => return Err(e),
        };
        let ghost j = self.i as int;
        proof {
            self.lemma_tv(j);
        }
        if self.eat_sym(Sym::Colon) {
            if self.eat_ident("leg") || self.eat_ident("legs") {
                match no_legs(&first) {
                    Ok(()) => {},
                    Err(e) => return Err(e),
                }
                return match self.leg_specs() {
                    Ok(legs) => Ok(StmtKind::Legs { targets: first, legs }),
                    Err(e) => Err(e),
                };
            }
            let group = match group_name(&first) {
                Ok(g) => g,
                Err(e) => return Err(e),
            };
            if self.eat_ident("chain") {
                return self.chain(Some(group));
            }
            let members = match self.end_list() {
                Ok(l) => l,
                Err(e) => return Err(e),
            };
            match no_legs(&members) {
                Ok(()) => {},
                Err(e) => return Err(e),
            }
            return Ok(StmtKind::Group { name: group, members });
        }
        if self.eat_ident("at") {
            let target = match single_name(first) {
                Ok(t) => t,
                Err(e) => return Err(e),
            };
            return match self.point() {
                Ok(p) => Ok(StmtKind::At { target, pos: p }),
                Err(e) => Err(e),
            };
        }
        let relation = if self.is_ident("right") || self.is_ident("left") {
            let right = self.is_ident("right");
            self.advance();
            if !self.eat_ident("of") {
                return Err(self.fail(chars_of("expected `of`").as_slice()));
            }
            Some(
                if right {
                    Relation::RightOf
                } else {
                    Relation::LeftOf
                },
            )
        } else if self.eat_ident("above") {
            Some(Relation::Above)
        } else if self.eat_ident("below") {
            Some(Relation::Below)
        } else {
            None
        };
        if let Some(relation) = relation {
            let target = match single_name(first) {
                Ok(t) => t,
                Err(e) => return Err(e),
            };
            let anchor = match self.name() {
                Ok(a) => a,
                Err(e) => return Err(e),
            };
            let distance = if self.eat_sym(Sym::Comma) {
                match self.number() {
                    Ok(x) => Some(x),
                    Err(e) => return Err(e),
                }
            } else {
                None
            };
            return Ok(StmtKind::Relative { target, relation, anchor, distance });
        }
        if self.is_sym(Sym::Dash) {
            let lists = match self.lists_rest(first) {
                Ok(l) => l,
                Err(e) => return Err(e),
            };
            let attrs = match self.attrs_opt() {
                Ok(a) => a,
                Err(e) => return Err(e),
            };
            return match self.for_opt() {
                Ok(each) => Ok(StmtKind::Connect { lists, attrs, each }),
                Err(e) => Err(e),
            };
        }
        let is_attrs = match self.peek() {
            Tok::Attrs(_) => true,
            _ => false,
        };
        if is_attrs {
            if first.len() != 1 {
                return Err(
                    error_at(
                        self.pos(),
                        chars_of("a style applies to one selector; use a pattern such as A[*]").as_slice(),
                    ),
                );
            }
            let mut first = first;
            let end = first.pop().unwrap();
            let selector = match end.leg {
                Some(leg) => SelectorAst::LegOf(end.name, leg),
                None => SelectorAst::Name(end.name),
            };
            return match self.attrs() {
                Ok(attrs) => Ok(StmtKind::Style { selector, attrs }),
                Err(e) => Err(e),
            };
        }
        if self.at_end() {
            match no_legs(&first) {
                Ok(()) => {},
                Err(e) => return Err(e),
            }
            return Ok(StmtKind::Declare(first));
        }
        Err(self.fail(chars_of("expected `-`, `:`, `at`, a relation, or an attribute list").as_slice()))
    }

    /// Identifiers after the first of a list, each after a comma.
    fn idents_rest(&mut self, first: String, what: &str) -> (r: Result<Vec<String>, Error>)
        requires
            old(self).ok(),
        ensures
            final(self).follows(*old(self)),
            r matches Err(e) ==> e.pos is Some,
            match grammar::idents_rest(old(self).tv(), old(self).i as int, seq![first@]) {
                Ok((v, j)) => r matches Ok(x) && strs_v(x@) == v && final(self).i == j,
                Err(p) => r matches Err(e) && e.pos == Some(p),
            },
    {
        let ghost ts = self.tv();
        let ghost goal = grammar::idents_rest(ts, self.i as int, seq![first@]);
        let mut words: Vec<String> = Vec::new();
        words.push(first);
        assert(strs_v(words@) =~= seq![first@]);
        loop
            invariant
                self.follows(*old(self)),
                ts == old(self).tv(),
                goal == grammar::idents_rest(ts, self.i as int, strs_v(words@)),
                goal == grammar::idents_rest(ts, old(self).i as int, seq![first@]),
            decreases self.toks@.len() - self.i,
        {
            proof {
                self.lemma_tv(self.i as int);
            }
            let ghost acc = strs_v(words@);
            if !self.eat_sym(Sym::Comma) {
                return Ok(words);
            }
            match self.ident(what) {
                Ok(w) => {
                    words.push(w);
                    assert(strs_v(words@) =~= acc.push(w@));
                },
                Err(e) => return Err(e),
            }
        }
    }

    /// The slots of a tensor, at the token after `(`.
    fn slots(&mut self) -> (r: Result<Vec<SlotAst>, Error>)
        requires
            old(self).ok(),
        ensures
            final(self).follows(*old(self)),
            r matches Err(e) ==> e.pos is Some,
            match grammar::slots(old(self).tv(), old(self).i as int) {
                Ok((v, j)) => r matches Ok(x) && x@.map_values(|s: SlotAst| slot_v(s)) == v
                    && final(self).i == j,
                Err(p) => r matches Err(e) && e.pos == Some(p),
            },
    {
        let ghost ts = self.tv();
        let mut slots: Vec<SlotAst> = Vec::new();
        assert(slots@.map_values(|s: SlotAst| slot_v(s)) =~= Seq::<SlotV>::empty());
        if self.is_sym(Sym::RParen) {
            return Ok(slots);
        }
        let ghost goal = grammar::slots_from(ts, self.i as int, Seq::empty());
        loop
            invariant
                self.follows(*old(self)),
                ts == old(self).tv(),
                goal == grammar::slots_from(ts, self.i as int, slots@.map_values(|s: SlotAst| slot_v(s))),
                goal == grammar::slots(ts, old(self).i as int),
            decreases self.toks@.len() - self.i,
        {
            let ghost here = self.i as int;
            let ghost acc = slots@.map_values(|s: SlotAst| slot_v(s));
            proof {
                self.lemma_tv(here);
            }
            let labelled = (match self.peek() {
                Tok::Ident(_) => true,
                _ => false,
            }) && (match self.peek_at(1) {
                Tok::Sym(Sym::Equals) => true,
                _ => false,
            });
            let label = if labelled {
                let l = match self.ident("a leg label") {
                    Ok(l) => l,
                    Err(e) => return Err(e),
                };
                proof {
                    reveal(grammar::ident);
                    self.lemma_tv(here + 1);
                }
                self.advance();
                Some(l)
            } else {
                None
            };
            let index = match self.name() {
                Ok(n) => n,
                Err(e) => return Err(e),
            };
            let slot = SlotAst { label, index };
            slots.push(slot);
            assert(slots@.map_values(|s: SlotAst| slot_v(s)) =~= acc.push(slot_v(slot)));
            proof {
                self.lemma_tv(self.i as int);
            }
            if !self.eat_sym(Sym::Comma) {
                return Ok(slots);
            }
        }
    }

    /// `camera`, after the keyword.
    fn camera_statement(&mut self) -> (r: Result<StmtKind, Error>)
        requires
            old(self).ok(),
        ensures
            final(self).follows(*old(self)),
            r matches Ok(k) ==> stmt_wf(Stmt { pos: Pos { line: 0, col: 0 }, kind: k }),
            r matches Err(e) ==> e.pos is Some,
            match grammar::camera_kind(old(self).tv(), old(self).i as int, old(self).vv()) {
                Ok((v, j)) => r matches Ok(k) && kind_v(k) == v && final(self).i == j,
                Err(p) => r matches Err(e) && e.pos == Some(p),
            },
    {
        proof {
            reveal(grammar::camera_kind);
            self.lemma_tv(self.i as int);
        }
        let has_angles = match self.peek() {
            Tok::Int(_) | Tok::Num(_) => true,
            Tok::Sym(Sym::Dash) => true,
            _ => false,
        };
        let angles = if has_angles {
            let az = match self.number() {
                Ok(x) => x,
                Err(e) => return Err(e),
            };
            let el = match self.number() {
                Ok(x) => x,
                Err(e) => return Err(e),
            };
            Some((az, el))
        } else {
            None
        };
        match self.attrs_opt() {
            Ok(attrs) => Ok(StmtKind::Camera { angles, attrs }),
            Err(e) => Err(e),
        }
    }

    /// `index`, after the keyword.
    fn index_statement(&mut self) -> (r: Result<StmtKind, Error>)
        requires
            old(self).ok(),
        ensures
            final(self).follows(*old(self)),
            r matches Ok(k) ==> stmt_wf(Stmt { pos: Pos { line: 0, col: 0 }, kind: k }) && final(self).i
                > old(self).i,
            r matches Err(e) ==> e.pos is Some,
            match grammar::index_kind(old(self).tv(), old(self).i as int, old(self).vv()) {
                Ok((v, j)) => r matches Ok(k) && kind_v(k) == v && final(self).i == j,
                Err(p) => r matches Err(e) && e.pos == Some(p),
            },
    {
        proof {
            reveal(grammar::index_kind);
        }
        let name = match self.name() {
            Ok(n) => n,
            Err(e) => return Err(e),
        };
        proof {
            self.lemma_tv(self.i as int);
        }
        let tags = if self.eat_sym(Sym::Colon) {
            let t = match self.ident("a tag") {
                Ok(t) => t,
                Err(e) => return Err(e),
            };
            match self.idents_rest(t, "a tag") {
                Ok(v) => v,
                Err(e) => return Err(e),
            }
        } else {
            let v: Vec<String> = Vec::new();
            assert(strs_v(v@) =~= Seq::<Seq<char>>::empty());
            v
        };
        let attrs = match self.attrs_opt() {
            Ok(a) => a,
            Err(e) => return Err(e),
        };
        match self.for_opt() {
            Ok(each) => Ok(StmtKind::Index { name, tags, attrs, each }),
            Err(e) => Err(e),
        }
    }

    /// `tensor`, after the keyword.
    fn tensor_statement(&mut self) -> (r: Result<StmtKind, Error>)
        requires
            old(self).ok(),
        ensures
            final(self).follows(*old(self)),
            r matches Ok(k) ==> stmt_wf(Stmt { pos: Pos { line: 0, col: 0 }, kind: k }) && final(self).i
                > old(self).i,
            r matches Err(e) ==> e.pos is Some,
            match grammar::tensor_kind(old(self).tv(), old(self).i as int, old(self).vv()) {
                Ok((v, j)) => r matches Ok(k) && kind_v(k) == v && final(self).i == j,
                Err(p) => r matches Err(e) && e.pos == Some(p),
            },
    {
        proof {
            reveal(grammar::tensor_kind);
        }
        let name = match self.name() {
            Ok(n) => n,
            Err(e) => return Err(e),
        };
        match self.expect_sym(Sym::LParen) {
            Ok(()) => {},
            Err(e) => return Err(e),
        }
        let slots = match self.slots() {
            Ok(v) => v,
            Err(e) => return Err(e),
        };
        match self.expect_sym(Sym::RParen) {
            Ok(()) => {},
            Err(e) => return Err(e),
        }
        let attrs = match self.attrs_opt() {
            Ok(a) => a,
            Err(e) => return Err(e),
        };
        match self.for_opt() {
            Ok(each) => Ok(StmtKind::Tensor { name, slots, attrs, each }),
            Err(e) => Err(e),
        }
    }

    /// `grid`, after the keyword.
    fn grid_statement(&mut self) -> (r: Result<StmtKind, Error>)
        requires
            old(self).ok(),
        ensures
            final(self).follows(*old(self)),
            r matches Ok(k) ==> stmt_wf(Stmt { pos: Pos { line: 0, col: 0 }, kind: k }) && final(self).i
                > old(self).i,
            r matches Err(e) ==> e.pos is Some,
            match grammar::grid_kind(old(self).tv(), old(self).i as int, old(self).vv()) {
                Ok((v, j)) => r matches Ok(k) && kind_v(k) == v && final(self).i == j,
                Err(p) => r matches Err(e) && e.pos == Some(p),
            },
    {
        let base = match self.ident("a tensor name") {
            Ok(b) => b,
            Err(e) => return Err(e),
        };
        proof {
            self.lemma_tv(self.i as int);
        }
        let dims = match self.peek() {
            Tok::Dims(r, c) => Some((*r, *c)),
            _ => None,
        };
        let (rows, cols) = match dims {
            Some(d) => d,
            None => return Err(self.fail(chars_of("expected a size such as 3x3").as_slice())),
        };
        self.advance();
        match self.attrs_opt() {
            Ok(attrs) => Ok(StmtKind::Grid { base, rows, cols, attrs }),
            Err(e) => Err(e),
        }
    }

    /// `stack`, after the keyword.
    fn stack_statement(&mut self) -> (r: Result<StmtKind, Error>)
        requires
            old(self).ok(),
        ensures
            final(self).follows(*old(self)),
            r matches Ok(k) ==> stmt_wf(Stmt { pos: Pos { line: 0, col: 0 }, kind: k }) && final(self).i
                > old(self).i,
            r matches Err(e) ==> e.pos is Some,
            match grammar::stack_kind(old(self).tv(), old(self).i as int) {
                Ok((v, j)) => r matches Ok(k) && kind_v(k) == v && final(self).i == j,
                Err(p) => r matches Err(e) && e.pos == Some(p),
            },
    {
        let g = match self.ident("a group name") {
            Ok(g) => g,
            Err(e) => return Err(e),
        };
        match self.idents_rest(g, "a group name") {
            Ok(groups) => Ok(StmtKind::Stack(groups)),
            Err(e) => Err(e),
        }
    }

    /// `tree`, after the keyword.
    fn tree_statement(&mut self) -> (r: Result<StmtKind, Error>)
        requires
            old(self).ok(),
        ensures
            final(self).follows(*old(self)),
            r matches Ok(k) ==> stmt_wf(Stmt { pos: Pos { line: 0, col: 0 }, kind: k }) && final(self).i
                > old(self).i,
            r matches Err(e) ==> e.pos is Some,
            match grammar::tree_kind(old(self).tv(), old(self).i as int) {
                Ok((v, j)) => r matches Ok(k) && kind_v(k) == v && final(self).i == j,
                Err(p) => r matches Err(e) && e.pos == Some(p),
            },
    {
        let root = match self.name() {
            Ok(n) => n,
            Err(e) => return Err(e),
        };
        match self.direction_opt() {
            Ok(Some(dir)) => Ok(StmtKind::Tree { root, dir }),
            Ok(None) => Err(self.fail(chars_of("expected a direction such as `down`").as_slice())),
            Err(e) => Err(e),
        }
    }

    /// `leg [..]` or `leg.open [..]`, after the keyword.
    fn legs_style(&mut self) -> (r: Result<StmtKind, Error>)
        requires
            old(self).ok(),
        ensures
            final(self).follows(*old(self)),
            r matches Ok(k) ==> stmt_wf(Stmt { pos: Pos { line: 0, col: 0 }, kind: k }) && final(self).i
                > old(self).i,
            r matches Err(e) ==> e.pos is Some,
            match grammar::legs_style_kind(old(self).tv(), old(self).i as int, old(self).vv()) {
                Ok((v, j)) => r matches Ok(k) && kind_v(k) == v && final(self).i == j,
                Err(p) => r matches Err(e) && e.pos == Some(p),
            },
    {
        proof {
            reveal_strlit("open");
            self.lemma_tv(self.i as int);
        }
        let selector = if self.eat_sym(Sym::Dot) {
            if !self.eat_ident("open") {
                return Err(self.fail(chars_of("expected `open`").as_slice()));
            }
            SelectorAst::OpenLegs
        } else {
            SelectorAst::Legs
        };
        match self.attrs() {
            Ok(attrs) => Ok(StmtKind::Style { selector, attrs }),
            Err(e) => Err(e),
        }
    }

    /// A style for what `selector` names: its attribute list.
    fn style(&mut self, selector: SelectorAst) -> (r: Result<StmtKind, Error>)
        requires
            old(self).ok(),
        ensures
            final(self).follows(*old(self)),
            r matches Ok(k) ==> stmt_wf(Stmt { pos: Pos { line: 0, col: 0 }, kind: k }) && final(self).i
                > old(self).i,
            r matches Err(e) ==> e.pos is Some,
            match grammar::symbol_style_kind(old(self).tv(), old(self).i as int, old(self).vv(), sel_v(selector)) {
                Ok((v, j)) => r matches Ok(k) && kind_v(k) == v && final(self).i == j,
                Err(p) => r matches Err(e) && e.pos == Some(p),
            },
    {
        match self.attrs() {
            Ok(attrs) => Ok(StmtKind::Style { selector, attrs }),
            Err(e) => Err(e),
        }
    }

    /// `light`, after the keyword.
    fn light_statement(&mut self) -> (r: Result<StmtKind, Error>)
        requires
            old(self).ok(),
        ensures
            final(self).follows(*old(self)),
            r matches Ok(k) ==> stmt_wf(Stmt { pos: Pos { line: 0, col: 0 }, kind: k }) && final(self).i
                > old(self).i,
            r matches Err(e) ==> e.pos is Some,
            match grammar::light_kind(old(self).tv(), old(self).i as int) {
                Ok((v, j)) => r matches Ok(k) && kind_v(k) == v && final(self).i == j,
                Err(p) => r matches Err(e) && e.pos == Some(p),
            },
    {
        if self.is_sym(Sym::LParen) {
            match self.point() {
                Ok(p) => Ok(StmtKind::Light(p)),
                Err(e) => Err(e),
            }
        } else {
            match self.number() {
                Ok(x) => {
                    let mut v: Vec<Number> = Vec::new();
                    v.push(x);
                    assert(v@ =~= seq![x]);
                    Ok(StmtKind::Light(v))
                },
                Err(e) => Err(e),
            }
        }
    }

    fn statement(&mut self) -> (r: Result<Stmt, Error>)
        requires
            old(self).ok(),
        ensures
            final(self).follows(*old(self)),
            r matches Ok(s) ==> stmt_wf(s) && final(self).i > old(self).i && s.pos
                == old(self).start_pos(),
            r matches Err(e) ==> e.pos is Some,
            match grammar::statement(old(self).tv(), old(self).i as int, old(self).vv()) {
                Ok((v, j)) => r matches Ok(s) && stmt_v(s) == v && final(self).i == j,
                Err(p) => r matches Err(e) && e.pos == Some(p),
            },
    {
        proof {
            reveal(grammar::statement);
            reveal(grammar::word_kind);
            reveal_strlit("tnv");
            reveal_strlit("2d");
            reveal_strlit("3d");
            reveal_strlit("spacing");
            reveal_strlit("light");
            reveal_strlit("camera");
            reveal_strlit("index");
            reveal_strlit("tensor");
            reveal_strlit("chain");
            reveal_strlit("grid");
            reveal_strlit("stack");
            reveal_strlit("tree");
            reveal_strlit("leg");
            reveal_strlit("tag");
            self.lemma_tv(self.i as int);
        }
        let ghost ts = self.tv();
        let ghost i0 = self.i as int;
        let pos = self.pos();
        let word: Option<Vec<char>> = match self.peek() {
            Tok::Ident(w) => Some(chars_of(w.as_str())),
            _ => None,
        };
        let kind = match word {
            Some(w) => {
                let w = w.as_slice();
                let (next_is_number, next_is_attrs_or_dot, next_is_colon) = match self.peek_at(1) {
                    Tok::Num(_) | Tok::Int(_) => (true, false, false),
                    Tok::Attrs(_) | Tok::Sym(Sym::Dot) => (false, true, false),
                    Tok::Sym(Sym::Colon) => (false, false, true),
                    _ => (false, false, false),
                };
                if str_is("tnv", w) && next_is_number {
                    self.advance();
                    proof {
                        self.lemma_tv(self.i as int);
                    }
                    let mut v: Vec<char> = Vec::new();
                    match self.peek() {
                        Tok::Num(x) => {
                            proof {
                                self.lemma_cur_wf();
                            }
                            x.push_text(&mut v);
                        },
                        Tok::Int(n) => push_int(&mut v, *n),
                        _ => {},
                    }
                    self.advance();
                    StmtKind::Version(string_of(v.as_slice()))
                } else if str_is("2d", w) || str_is("3d", w) {
                    self.advance();
                    StmtKind::Scene(
                        if str_is("2d", w) {
                            Dim::Two
                        } else {
                            Dim::Three
                        },
                    )
                } else if str_is("spacing", w) {
                    self.advance();
                    match self.number() {
                        Ok(x) => StmtKind::Spacing(x),
                        Err(e) => return Err(e),
                    }
                } else if str_is("light", w) {
                    self.advance();
                    match self.light_statement() {
                        Ok(k) => k,
                        Err(e) => return Err(e),
                    }
                } else if str_is("camera", w) {
                    self.advance();
                    match self.camera_statement() {
                        Ok(k) => k,
                        Err(e) => return Err(e),
                    }
                } else if str_is("index", w) {
                    self.advance();
                    match self.index_statement() {
                        Ok(k) => k,
                        Err(e) => return Err(e),
                    }
                } else if str_is("tensor", w) {
                    self.advance();
                    match self.tensor_statement() {
                        Ok(k) => k,
                        Err(e) => return Err(e),
                    }
                } else if str_is("chain", w) {
                    self.advance();
                    match self.chain(None) {
                        Ok(k) => k,
                        Err(e) => return Err(e),
                    }
                } else if str_is("grid", w) {
                    self.advance();
                    match self.grid_statement() {
                        Ok(k) => k,
                        Err(e) => return Err(e),
                    }
                } else if str_is("stack", w) {
                    self.advance();
                    match self.stack_statement() {
                        Ok(k) => k,
                        Err(e) => return Err(e),
                    }
                } else if str_is("tree", w) {
                    self.advance();
                    match self.tree_statement() {
                        Ok(k) => k,
                        Err(e) => return Err(e),
                    }
                } else if str_is("leg", w) && next_is_attrs_or_dot {
                    self.advance();
                    match self.legs_style() {
                        Ok(k) => k,
                        Err(e) => return Err(e),
                    }
                } else if str_is("tag", w) && next_is_colon {
                    self.advance();
                    self.advance();
                    let tag = match self.ident("a tag") {
                        Ok(t) => t,
                        Err(e) => return Err(e),
                    };
                    match self.style(SelectorAst::Tag(tag)) {
                        Ok(k) => k,
                        Err(e) => return Err(e),
                    }
                } else {
                    match self.name_statement() {
                        Ok(k) => k,
                        Err(e) => return Err(e),
                    }
                }
            },
            None => {
                if self.is_sym(Sym::Star) {
                    self.advance();
                    match self.style(SelectorAst::Tensors) {
                        Ok(k) => k,
                        Err(e) => return Err(e),
                    }
                } else if self.is_sym(Sym::Dash) {
                    self.advance();
                    match self.style(SelectorAst::Bonds) {
                        Ok(k) => k,
                        Err(e) => return Err(e),
                    }
                } else {
                    return Err(self.fail(chars_of("expected a statement").as_slice()));
                }
            },
        };
        Ok(Stmt { pos, kind })
    }

    fn file(&mut self) -> (r: Result<Vec<Stmt>, Error>)
        requires
            old(self).ok(),
        ensures
            r matches Ok(stmts) ==> forall|k: int| 0 <= k < stmts@.len() ==> stmt_wf(#[trigger] stmts@[k]),
            r matches Err(e) ==> e.pos is Some,
            match grammar::file(old(self).tv(), old(self).i as int, old(self).vv(), Seq::empty()) {
                Ok(v) => r matches Ok(x) && stmts_v(x@) == v,
                Err(p) => r matches Err(e) && e.pos == Some(p),
            },
    {
        proof {
            reveal_strlit("let");
        }
        let ghost ts = self.tv();
        let ghost goal = grammar::file(ts, self.i as int, self.vv(), Seq::empty());
        let mut stmts: Vec<Stmt> = Vec::new();
        assert(stmts_v(stmts@) =~= Seq::<StmtV>::empty());
        loop
            invariant
                self.ok(),
                self.toks == old(self).toks,
                ts == self.tv(),
                goal == grammar::file(ts, self.i as int, self.vv(), stmts_v(stmts@)),
                goal == grammar::file(old(self).tv(), old(self).i as int, old(self).vv(), Seq::empty()),
                forall|k: int| 0 <= k < stmts@.len() ==> stmt_wf(#[trigger] stmts@[k]),
            decreases self.toks@.len() - self.i,
        {
            let ghost i0 = self.i as int;
            let ghost vars0 = self.vars;
            loop
                invariant
                    self.ok(),
                    self.toks == old(self).toks,
                    self.vars == vars0,
                    ts == self.tv(),
                    self.i >= i0,
                    grammar::skip_blanks(ts, self.i as int) == grammar::skip_blanks(ts, i0),
                ensures
                    self.ok(),
                    self.toks == old(self).toks,
                    self.vars == vars0,
                    self.i >= i0,
                    grammar::skip_blanks(ts, i0) == self.i,
                    !(self.cur() is Newline) && self.cur() != Tok::Sym(Sym::Semi),
                decreases self.toks@.len() - self.i,
            {
                proof {
                    self.lemma_tv(self.i as int);
                }
                let blank = match self.peek() {
                    Tok::Newline => true,
                    Tok::Sym(Sym::Semi) => true,
                    _ => false,
                };
                if !blank {
                    break;
                }
                self.advance();
            }
            proof {
                self.lemma_tv(self.i as int);
            }
            let ghost acc = stmts_v(stmts@);
            let at_eof = match self.peek() {
                Tok::Eof => true,
                _ => false,
            };
            if at_eof {
                return Ok(stmts);
            }
            if self.is_ident("let") {
                match self.let_statement() {
                    Ok(()) => {},
                    Err(e) => return Err(e),
                }
                if !self.at_end() {
                    return Err(self.fail(chars_of("expected the end of the statement").as_slice()));
                }
                continue;
            }
            let stmt = match self.statement() {
                Ok(s) => s,
                Err(e) => return Err(e),
            };
            proof {
                self.lemma_tv(self.i as int);
            }
            // `3d, camera 35 25`: a comma may follow a scene statement.
            let is_scene = match stmt.kind {
                StmtKind::Scene(_) => true,
                _ => false,
            };
            let chained = is_scene && self.eat_sym(Sym::Comma);
            stmts.push(stmt);
            assert(stmts_v(stmts@) =~= acc.push(stmt_v(stmt)));
            if !chained && !self.at_end() {
                return Err(self.fail(chars_of("expected the end of the statement").as_slice()));
            }
        }
    }

}

/// How an error message names a token.
pub open spec fn describe_text(t: Tok) -> Seq<char> {
    match t {
        Tok::Ident(w) => "`"@ + w@ + "`"@,
        Tok::Int(n) => "`"@ + crate::text::int_text(n as int) + "`"@,
        Tok::Num(x) => "`"@ + number_text(x) + "`"@,
        Tok::Length(x, u) => "`"@ + number_text(x) + u@ + "`"@,
        Tok::Dims(r, c) => "`"@ + crate::text::nat_text(r as nat) + "x"@ + crate::text::nat_text(c as nat) + "`"@,
        Tok::Attrs(_) => "an attribute list"@,
        Tok::Raw(_) => "a value"@,
        Tok::Sym(y) => "`"@ + sym_text(y) + "`"@,
        Tok::Newline => "the end of the line"@,
        Tok::Eof => "the end of the file"@,
    }
}

/// Tokens whose numbers can be written.
pub open spec fn tok_wf_for_text(t: Tok) -> bool {
    match t {
        Tok::Num(x) => number_wf(x),
        Tok::Length(x, _) => number_wf(x),
        _ => true,
    }
}


fn group_name(list: &Vec<EndRef>) -> (r: Result<String, Error>)
    requires
        list@.len() >= 1,
    ensures
        r matches Err(e) ==> e.pos is Some,
        ({
            let first = ends_v(list@);
            if first.len() == 1 && first[0].leg is None && first[0].name.subs.len() == 0
                && first[0].name.prime == 0 {
                r matches Ok(g) && g@ == first[0].name.base
            } else {
                r matches Err(e) && e.pos == Some(first[0].name.pos)
            }
        }),
{
    let plain = list.len() == 1 && list[0].leg.is_none() && list[0].name.subs.len() == 0
        && list[0].name.prime == 0;
    proof {
        assert(name_v(list@[0].name).subs.len() == list@[0].name.subs@.len());
    }
    if plain {
        Ok(string_copy(&list[0].name.base))
    } else {
        Err(error_at(list[0].name.pos, chars_of("a group name must be a plain identifier").as_slice()))
    }
}

fn single_name(list: Vec<EndRef>) -> (r: Result<NameAst, Error>)
    requires
        list@.len() >= 1,
    ensures
        r matches Err(e) ==> e.pos is Some,
        if list@.len() == 1 && list@[0].leg is None {
            r == Ok::<NameAst, Error>(list@[0].name)
        } else {
            r matches Err(e) && e.pos == Some(list@[0].name.pos)
        },
{
    let pos = list[0].name.pos;
    if list.len() == 1 && list[0].leg.is_none() {
        let mut list = list;
        let e = list.pop().unwrap();
        Ok(e.name)
    } else {
        Err(error_at(pos, chars_of("expected a single tensor name").as_slice()))
    }
}

proof fn lemma_first_leg_prefix(s: Seq<EndV>, n: int)
    requires
        0 <= n <= s.len(),
        grammar::first_leg(s.take(n)) is Some,
    ensures
        grammar::first_leg(s) == grammar::first_leg(s.take(n)),
    decreases s.len() - n,
{
    if n < s.len() {
        assert(s.take(n + 1).take(n) =~= s.take(n));
        assert(s.take(n + 1).drop_last() =~= s.take(n));
        if n + 1 == s.len() {
            assert(s.take(n + 1) =~= s);
        } else {
            lemma_first_leg_prefix(s, n + 1);
        }
    } else {
        assert(s.take(n) =~= s);
    }
}

fn no_legs(list: &Vec<EndRef>) -> (r: Result<(), Error>)
    ensures
        r is Ok <==> forall|k: int| 0 <= k < list@.len() ==> (#[trigger] list@[k]).leg is None,
        r matches Err(e) ==> e.pos is Some,
        match grammar::no_legs(ends_v(list@)) {
            Some(p) => r matches Err(e) && e.pos == Some(p),
            None => r is Ok,
        },
{
    let ghost vs = ends_v(list@);
    let mut k: usize = 0;
    assert(vs.take(0) =~= Seq::<EndV>::empty());
    while k < list.len()
        invariant
            k <= list@.len(),
            vs == ends_v(list@),
            forall|j: int| 0 <= j < k ==> (#[trigger] list@[j]).leg is None,
            grammar::first_leg(vs.take(k as int)) is None,
        decreases list@.len() - k,
    {
        assert(vs.take(k + 1).drop_last() =~= vs.take(k as int));
        if list[k].leg.is_some() {
            assert(grammar::first_leg(vs.take(k + 1)) == Some(k as int));
            proof {
                lemma_first_leg_prefix(vs, k + 1);
            }
            return Err(error_at(list[k].name.pos, chars_of("a leg is not allowed here").as_slice()));
        }
        k = k + 1;
    }
    assert(vs.take(k as int) =~= vs);
    Ok(())
}

/// Parse tnv source into statements.
pub fn parse(src: &str) -> (r: Result<Vec<Stmt>, Error>)
    ensures
        r matches Ok(stmts) ==> forall|k: int| 0 <= k < stmts@.len() ==> stmt_wf(#[trigger] stmts@[k]),
        r matches Err(e) ==> e.pos is Some,
        lex_spec(src@) matches Err((p, m)) ==> r matches Err(e) && e.pos == Some(p) && e.message@ == m,
        match grammar::parse_spec(src@) {
            Ok(v) => r matches Ok(stmts) && stmts_v(stmts@) == v,
            Err(p) => r matches Err(e) && e.pos == Some(p),
        },
{
    let toks = match lex(src) {
        Ok(t) => t,
        Err(e) => return Err(e),
    };
    let n = toks.len();
    let mut p = Parser { toks, i: 0, vars: Vec::new() };
    assert(p.toks@.len() == n);
    assert(p.vv() =~= Seq::<(Seq<char>, Seq<char>)>::empty());
    p.file()
}

} // verus!
