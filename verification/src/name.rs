//! Names of tensors and indices, and patterns over them.

use vstd::prelude::*;

use crate::text::{chars_of, int_text, push_chars, push_int, string_copy, string_of};

verus! {

/// The name of a tensor or an index: a base with optional integer
/// subscripts, such as `A`, `A[3]`, or `T[1,2]`.
///
/// Names order by base, then by subscripts numerically, so `A[2]` comes
/// before `A[10]`.
#[derive(Clone, Debug, PartialEq, Eq, Hash, PartialOrd, Ord)]
pub struct Name {
    pub base: String,
    pub subscripts: Vec<i64>,
}

/// Two names are the same name.
pub open spec fn same_name(a: Name, b: Name) -> bool {
    a.base@ == b.base@ && a.subscripts@ == b.subscripts@
}

/// Strict lexicographic order on characters.
pub open spec fn chars_lt(a: Seq<char>, b: Seq<char>) -> bool
    decreases a.len(),
{
    if a.len() == 0 {
        b.len() > 0
    } else if b.len() == 0 {
        false
    } else if a[0] != b[0] {
        a[0] < b[0]
    } else {
        chars_lt(a.drop_first(), b.drop_first())
    }
}

/// Strict lexicographic order on integers.
pub open spec fn ints_lt(a: Seq<i64>, b: Seq<i64>) -> bool
    decreases a.len(),
{
    if a.len() == 0 {
        b.len() > 0
    } else if b.len() == 0 {
        false
    } else if a[0] != b[0] {
        a[0] < b[0]
    } else {
        ints_lt(a.drop_first(), b.drop_first())
    }
}

/// The order of names: by base, then by subscripts.
pub open spec fn name_lt(a: Name, b: Name) -> bool {
    chars_lt(a.base@, b.base@) || (a.base@ == b.base@ && ints_lt(a.subscripts@, b.subscripts@))
}

/// Elements written one after another with a separator between them.
pub open spec fn join<A>(s: Seq<A>, f: spec_fn(A) -> Seq<char>, sep: Seq<char>) -> Seq<char>
    decreases s.len(),
{
    if s.len() == 0 {
        Seq::empty()
    } else if s.len() == 1 {
        f(s[0])
    } else {
        join(s.drop_last(), f, sep) + sep + f(s.last())
    }
}

pub proof fn lemma_join_step<A>(s: Seq<A>, f: spec_fn(A) -> Seq<char>, sep: Seq<char>, i: int)
    requires
        0 <= i < s.len(),
    ensures
        join(s.take(i + 1), f, sep) == if i == 0 {
            f(s[0])
        } else {
            join(s.take(i), f, sep) + sep + f(s[i])
        },
{
    assert(s.take(i + 1).drop_last() =~= s.take(i));
}

/// `A`, `A[3]`, `T[1,2]`.
pub open spec fn name_text(base: Seq<char>, subscripts: Seq<i64>) -> Seq<char> {
    if subscripts.len() == 0 {
        base
    } else {
        base + seq!['['] + join(subscripts, |i: i64| int_text(i as int), seq![',']) + seq![']']
    }
}

/// `n` copies of `'`.
pub open spec fn primes(n: nat) -> Seq<char> {
    Seq::new(n, |_i: int| '\'')
}

/// An index name with its prime level, as `s[2]'`.
pub open spec fn index_text(base: Seq<char>, subscripts: Seq<i64>, prime: nat) -> Seq<char> {
    name_text(base, subscripts) + primes(prime)
}

/// Append the integers separated by commas.
pub fn push_ints(out: &mut Vec<char>, s: &[i64])
    ensures
        final(out)@ == old(out)@ + join(s@, |i: i64| int_text(i as int), seq![',']),
{
    let ghost start = out@;
    let ghost f = |i: i64| int_text(i as int);
    let mut k: usize = 0;
    while k < s.len()
        invariant
            k <= s@.len(),
            f == (|i: i64| int_text(i as int)),
            out@ == start + join(s@.take(k as int), f, seq![',']),
        decreases s@.len() - k,
    {
        proof {
            lemma_join_step(s@, f, seq![','], k as int);
        }
        assert(f(s@[k as int]) == int_text(s@[k as int] as int));
        assert(join(s@.take(0), f, seq![',']) == Seq::<char>::empty());
        if k > 0 {
            out.push(',');
        }
        push_int(out, s[k]);
        k = k + 1;
    }
    assert(s@.take(s@.len() as int) =~= s@);
}

/// Append `n` primes.
pub fn push_primes(out: &mut Vec<char>, n: u32)
    ensures
        final(out)@ == old(out)@ + primes(n as nat),
{
    let ghost start = out@;
    let mut k: u32 = 0;
    while k < n
        invariant
            k <= n,
            out@ == start + primes(k as nat),
        decreases n - k,
    {
        out.push('\'');
        k = k + 1;
        assert(primes(k as nat) =~= primes((k - 1) as nat) + seq!['\'']);
    }
}

impl Name {
    pub fn new(base: String, subscripts: Vec<i64>) -> (n: Self)
        ensures
            n.base@ == base@,
            n.subscripts@ == subscripts@,
    {
        Name { base, subscripts }
    }

    pub fn plain(base: String) -> (n: Self)
        ensures
            n.base@ == base@,
            n.subscripts@.len() == 0,
    {
        Name { base, subscripts: Vec::new() }
    }

    /// A copy of the name.
    pub fn copy(&self) -> (n: Self)
        ensures
            same_name(n, *self),
    {
        let mut subs: Vec<i64> = Vec::new();
        let mut k: usize = 0;
        while k < self.subscripts.len()
            invariant
                k <= self.subscripts@.len(),
                subs@ == self.subscripts@.take(k as int),
            decreases self.subscripts@.len() - k,
        {
            subs.push(self.subscripts[k]);
            k = k + 1;
            assert(subs@ =~= self.subscripts@.take(k as int));
        }
        assert(self.subscripts@.take(self.subscripts@.len() as int) =~= self.subscripts@);
        Name { base: string_copy(&self.base), subscripts: subs }
    }

    /// Whether two names are the same.
    pub fn same(&self, other: &Name) -> (r: bool)
        ensures
            r == same_name(*self, *other),
    {
        if !crate::text::strings_equal(&self.base, &other.base) {
            return false;
        }
        if self.subscripts.len() != other.subscripts.len() {
            return false;
        }
        let mut k: usize = 0;
        while k < self.subscripts.len()
            invariant
                self.subscripts@.len() == other.subscripts@.len(),
                k <= self.subscripts@.len(),
                forall|j: int| 0 <= j < k ==> self.subscripts@[j] == other.subscripts@[j],
            decreases self.subscripts@.len() - k,
        {
            if self.subscripts[k] != other.subscripts[k] {
                return false;
            }
            k = k + 1;
        }
        assert(self.subscripts@ =~= other.subscripts@);
        true
    }

    /// Whether this name comes strictly before `other`.
    pub fn precedes(&self, other: &Name) -> (r: bool)
        ensures
            r == name_lt(*self, *other),
    {
        let a = chars_of(self.base.as_str());
        let b = chars_of(other.base.as_str());
        match compare_chars(a.as_slice(), b.as_slice()) {
            Cmp::Less => true,
            Cmp::Greater => false,
            Cmp::Equal => ints_less(self.subscripts.as_slice(), other.subscripts.as_slice()),
        }
    }

    /// Append the name as text, `T[1,2]`.
    pub fn push_text(&self, out: &mut Vec<char>)
        ensures
            final(out)@ == old(out)@ + name_text(self.base@, self.subscripts@),
    {
        let b = chars_of(self.base.as_str());
        push_chars(out, b.as_slice());
        if self.subscripts.len() > 0 {
            out.push('[');
            push_ints(out, self.subscripts.as_slice());
            out.push(']');
        }
    }

    /// The name as text, `T[1,2]`.
    pub fn to_text(&self) -> (s: String)
        ensures
            s@ == name_text(self.base@, self.subscripts@),
    {
        let mut out: Vec<char> = Vec::new();
        self.push_text(&mut out);
        string_of(out.as_slice())
    }
}

/// Append an index name with its prime level.
pub fn push_index_text(out: &mut Vec<char>, name: &Name, prime: u32)
    ensures
        final(out)@ == old(out)@ + index_text(name.base@, name.subscripts@, prime as nat),
{
    name.push_text(out);
    push_primes(out, prime);
}

/// An index name with its prime level, as `s[2]'`.
pub fn index_display(name: &Name, prime: u32) -> (s: String)
    ensures
        s@ == index_text(name.base@, name.subscripts@, prime as nat),
{
    let mut out: Vec<char> = Vec::new();
    push_index_text(&mut out, name, prime);
    string_of(out.as_slice())
}

/// The result of a three-way comparison.
#[derive(Clone, Copy, Debug, PartialEq, Eq, Structural)]
pub enum Cmp {
    Less,
    Equal,
    Greater,
}

/// Compare characters lexicographically.
pub fn compare_chars(a: &[char], b: &[char]) -> (c: Cmp)
    ensures
        c == Cmp::Less <==> chars_lt(a@, b@),
        c == Cmp::Equal <==> a@ == b@,
        c == Cmp::Greater <==> chars_lt(b@, a@),
{
    let mut k: usize = 0;
    assert(a@.skip(0) =~= a@);
    assert(b@.skip(0) =~= b@);
    while k < a.len() && k < b.len() && a[k] == b[k]
        invariant
            k <= a@.len(),
            k <= b@.len(),
            a@.take(k as int) == b@.take(k as int),
            chars_lt(a@, b@) == chars_lt(a@.skip(k as int), b@.skip(k as int)),
            chars_lt(b@, a@) == chars_lt(b@.skip(k as int), a@.skip(k as int)),
        decreases a@.len() - k,
    {
        assert(a@.skip(k as int).drop_first() =~= a@.skip(k + 1));
        assert(b@.skip(k as int).drop_first() =~= b@.skip(k + 1));
        assert(a@.take(k + 1) =~= a@.take(k as int).push(a@[k as int]));
        assert(b@.take(k + 1) =~= b@.take(k as int).push(b@[k as int]));
        k = k + 1;
    }
    assert(a@.skip(0) =~= a@);
    assert(b@.skip(0) =~= b@);
    if k == a.len() && k == b.len() {
        assert(a@ =~= a@.take(k as int));
        assert(b@ =~= b@.take(k as int));
        assert(a@.skip(k as int).len() == 0);
        Cmp::Equal
    } else if k == a.len() {
        assert(a@.skip(k as int).len() == 0);
        assert(a@ != b@);
        Cmp::Less
    } else if k == b.len() {
        assert(b@.skip(k as int).len() == 0);
        assert(a@ != b@);
        Cmp::Greater
    } else {
        assert(a@.skip(k as int)[0] == a@[k as int]);
        assert(b@.skip(k as int)[0] == b@[k as int]);
        assert(a@[k as int] != b@[k as int]);
        if a[k] < b[k] {
            Cmp::Less
        } else {
            Cmp::Greater
        }
    }
}

/// Whether `a` comes strictly before `b` lexicographically.
pub fn ints_less(a: &[i64], b: &[i64]) -> (r: bool)
    ensures
        r == ints_lt(a@, b@),
{
    let mut k: usize = 0;
    assert(a@.skip(0) =~= a@);
    assert(b@.skip(0) =~= b@);
    while k < a.len() && k < b.len() && a[k] == b[k]
        invariant
            k <= a@.len(),
            k <= b@.len(),
            ints_lt(a@, b@) == ints_lt(a@.skip(k as int), b@.skip(k as int)),
        decreases a@.len() - k,
    {
        assert(a@.skip(k as int).drop_first() =~= a@.skip(k + 1));
        assert(b@.skip(k as int).drop_first() =~= b@.skip(k + 1));
        k = k + 1;
    }
    assert(a@.skip(0) =~= a@);
    assert(b@.skip(0) =~= b@);
    if k == a.len() {
        assert(a@.skip(k as int).len() == 0);
        k < b.len()
    } else if k == b.len() {
        assert(b@.skip(k as int).len() == 0);
        false
    } else {
        assert(a@.skip(k as int)[0] == a@[k as int]);
        assert(b@.skip(k as int)[0] == b@[k as int]);
        a[k] < b[k]
    }
}

/// One subscript position of a name pattern.
#[derive(Clone, Copy, Debug, PartialEq, Eq, Structural)]
pub enum SubPattern {
    Exact(i64),
    /// An inclusive range.
    Range(i64, i64),
    /// `*`: any value.
    Any,
}

/// A pattern over names, such as `A[*]`, `T[*, 1]`, or `A[2..4]`, with an
/// optional prime level for indices.
#[derive(Clone, Debug, PartialEq)]
pub struct NamePattern {
    pub base: String,
    pub subscripts: Vec<SubPattern>,
    pub prime: u32,
}

/// Whether one subscript pattern admits a value.
pub open spec fn sub_admits(p: SubPattern, s: i64) -> bool {
    match p {
        SubPattern::Exact(e) => e == s,
        SubPattern::Range(a, b) => a <= s && s <= b,
        SubPattern::Any => true,
    }
}

/// Whether a pattern matches a name with a prime level.  A lone `*`, as in
/// `A[*]`, matches every subscripted name with the base, whatever the number
/// of subscripts.
pub open spec fn pattern_matches(p: NamePattern, name: Name, prime: u32) -> bool {
    if p.subscripts@ == seq![SubPattern::Any] {
        p.base@ == name.base@ && p.prime == prime && name.subscripts@.len() > 0
    } else {
        &&& p.base@ == name.base@
        &&& p.prime == prime
        &&& p.subscripts@.len() == name.subscripts@.len()
        &&& forall|k: int|
            0 <= k < p.subscripts@.len() ==> #[trigger] sub_admits(p.subscripts@[k], name.subscripts@[k])
    }
}

/// Whether every subscript of a pattern is exact.
pub open spec fn pattern_is_exact(p: NamePattern) -> bool {
    forall|k: int| 0 <= k < p.subscripts@.len() ==> #[trigger] p.subscripts@[k] is Exact
}

/// The text of one subscript pattern.
pub open spec fn sub_text(p: SubPattern) -> Seq<char> {
    match p {
        SubPattern::Exact(e) => int_text(e as int),
        SubPattern::Range(a, b) => int_text(a as int) + seq!['.', '.'] + int_text(b as int),
        SubPattern::Any => seq!['*'],
    }
}

/// `A[*,1..3]''`.
pub open spec fn pattern_text(p: NamePattern) -> Seq<char> {
    if p.subscripts@.len() == 0 {
        p.base@ + primes(p.prime as nat)
    } else {
        p.base@ + seq!['['] + join(p.subscripts@, |s: SubPattern| sub_text(s), seq![','])
            + seq![']'] + primes(p.prime as nat)
    }
}

impl NamePattern {
    /// The pattern that matches exactly this name and prime level.
    pub fn exact(name: &Name, prime: u32) -> (p: Self)
        ensures
            p.base@ == name.base@,
            p.prime == prime,
            p.subscripts@.len() == name.subscripts@.len(),
            forall|k: int|
                0 <= k < p.subscripts@.len() ==> #[trigger] p.subscripts@[k] == SubPattern::Exact(
                    name.subscripts@[k],
                ),
    {
        let mut subs: Vec<SubPattern> = Vec::new();
        let mut k: usize = 0;
        while k < name.subscripts.len()
            invariant
                k <= name.subscripts@.len(),
                subs@.len() == k,
                forall|j: int| 0 <= j < k ==> #[trigger] subs@[j] == SubPattern::Exact(name.subscripts@[j]),
            decreases name.subscripts@.len() - k,
        {
            subs.push(SubPattern::Exact(name.subscripts[k]));
            k = k + 1;
        }
        NamePattern { base: string_copy(&name.base), subscripts: subs, prime }
    }

    /// Whether the pattern names exactly one thing.
    pub fn is_exact(&self) -> (r: bool)
        ensures
            r == pattern_is_exact(*self),
    {
        let mut k: usize = 0;
        while k < self.subscripts.len()
            invariant
                k <= self.subscripts@.len(),
                forall|j: int| 0 <= j < k ==> #[trigger] self.subscripts@[j] is Exact,
            decreases self.subscripts@.len() - k,
        {
            match self.subscripts[k] {
                SubPattern::Exact(_) => {},
                _ => return false,
            }
            k = k + 1;
        }
        true
    }

    /// Whether the pattern is a bare identifier, which may also name a group.
    pub fn is_bare(&self) -> (r: bool)
        ensures
            r == (self.subscripts@.len() == 0 && self.prime == 0),
    {
        self.subscripts.len() == 0 && self.prime == 0
    }

    /// Whether the pattern matches a name.  A lone `*`, as in `A[*]`,
    /// matches every subscripted `A`, whatever the number of subscripts.
    pub fn matches(&self, name: &Name, prime: u32) -> (r: bool)
        ensures
            r == pattern_matches(*self, *name, prime),
    {
        let base_eq = crate::text::strings_equal(&self.base, &name.base);
        if self.subscripts.len() == 1 && self.subscripts[0] == SubPattern::Any {
            assert(self.subscripts@ =~= seq![SubPattern::Any]);
            return base_eq && self.prime == prime && name.subscripts.len() > 0;
        }
        assert(self.subscripts@ != seq![SubPattern::Any]);
        if !base_eq || self.prime != prime || self.subscripts.len() != name.subscripts.len() {
            return false;
        }
        let mut k: usize = 0;
        while k < self.subscripts.len()
            invariant
                self.subscripts@.len() == name.subscripts@.len(),
                k <= self.subscripts@.len(),
                forall|j: int|
                    0 <= j < k ==> #[trigger] sub_admits(self.subscripts@[j], name.subscripts@[j]),
            decreases self.subscripts@.len() - k,
        {
            let s = name.subscripts[k];
            let ok = match self.subscripts[k] {
                SubPattern::Exact(e) => e == s,
                SubPattern::Range(a, b) => a <= s && s <= b,
                SubPattern::Any => true,
            };
            if !ok {
                assert(!sub_admits(self.subscripts@[k as int], name.subscripts@[k as int]));
                return false;
            }
            k = k + 1;
        }
        true
    }

    /// A copy of the pattern.
    pub fn copy(&self) -> (p: Self)
        ensures
            p.base@ == self.base@,
            p.subscripts@ == self.subscripts@,
            p.prime == self.prime,
    {
        let mut subs: Vec<SubPattern> = Vec::new();
        let mut k: usize = 0;
        while k < self.subscripts.len()
            invariant
                k <= self.subscripts@.len(),
                subs@ == self.subscripts@.take(k as int),
            decreases self.subscripts@.len() - k,
        {
            subs.push(self.subscripts[k]);
            k = k + 1;
            assert(subs@ =~= self.subscripts@.take(k as int));
        }
        assert(self.subscripts@.take(self.subscripts@.len() as int) =~= self.subscripts@);
        NamePattern { base: string_copy(&self.base), subscripts: subs, prime: self.prime }
    }

    /// Append the pattern as text, such as `A[*,2..4]'`.
    pub fn push_text(&self, out: &mut Vec<char>)
        ensures
            final(out)@ == old(out)@ + pattern_text(*self),
    {
        let ghost start = out@;
        let b = chars_of(self.base.as_str());
        push_chars(out, b.as_slice());
        if self.subscripts.len() > 0 {
            out.push('[');
            let ghost mid = out@;
            let ghost f = |s: SubPattern| sub_text(s);
            let mut k: usize = 0;
            while k < self.subscripts.len()
                invariant
                    k <= self.subscripts@.len(),
                    f == (|s: SubPattern| sub_text(s)),
                    out@ == mid + join(self.subscripts@.take(k as int), f, seq![',']),
                decreases self.subscripts@.len() - k,
            {
                proof {
                    lemma_join_step(self.subscripts@, f, seq![','], k as int);
                }
                assert(f(self.subscripts@[k as int]) == sub_text(self.subscripts@[k as int]));
                assert(join(self.subscripts@.take(0), f, seq![',']) == Seq::<char>::empty());
                if k > 0 {
                    out.push(',');
                }
                match self.subscripts[k] {
                    SubPattern::Exact(e) => push_int(out, e),
                    SubPattern::Range(a, b) => {
                        push_int(out, a);
                        out.push('.');
                        out.push('.');
                        push_int(out, b);
                    },
                    SubPattern::Any => out.push('*'),
                }
                k = k + 1;
            }
            assert(self.subscripts@.take(self.subscripts@.len() as int) =~= self.subscripts@);
            out.push(']');
        }
        push_primes(out, self.prime);
    }

    /// The pattern as text.
    pub fn to_text(&self) -> (s: String)
        ensures
            s@ == pattern_text(*self),
    {
        let mut out: Vec<char> = Vec::new();
        self.push_text(&mut out);
        string_of(out.as_slice())
    }
}

/// An exact pattern matches its own name and prime level.
pub proof fn lemma_exact_matches_itself(name: Name, prime: u32, p: NamePattern)
    requires
        p.base@ == name.base@,
        p.prime == prime,
        p.subscripts@.len() == name.subscripts@.len(),
        forall|k: int|
            0 <= k < p.subscripts@.len() ==> #[trigger] p.subscripts@[k] == SubPattern::Exact(
                name.subscripts@[k],
            ),
    ensures
        pattern_matches(p, name, prime),
        pattern_is_exact(p),
{
    if p.subscripts@ == seq![SubPattern::Any] {
        assert(p.subscripts@[0] == SubPattern::Any);
    }
    assert forall|k: int| 0 <= k < p.subscripts@.len() implies #[trigger] sub_admits(
        p.subscripts@[k],
        name.subscripts@[k],
    ) by {}
}

/// A pattern whose subscripts are all exact matches at most one name and
/// prime level.
pub proof fn lemma_exact_pattern_names_one(p: NamePattern, a: Name, pa: u32, b: Name, pb: u32)
    requires
        pattern_is_exact(p),
        pattern_matches(p, a, pa),
        pattern_matches(p, b, pb),
    ensures
        same_name(a, b),
        pa == pb,
{
    if p.subscripts@ == seq![SubPattern::Any] {
        assert(p.subscripts@[0] is Exact);
    }
    assert forall|k: int| 0 <= k < a.subscripts@.len() implies a.subscripts@[k] == b.subscripts@[k] by {
        assert(sub_admits(p.subscripts@[k], a.subscripts@[k]));
        assert(sub_admits(p.subscripts@[k], b.subscripts@[k]));
        assert(p.subscripts@[k] is Exact);
    }
    assert(a.subscripts@ =~= b.subscripts@);
}

proof fn lemma_chars_lt_irrefl(a: Seq<char>)
    ensures
        !chars_lt(a, a),
    decreases a.len(),
{
    if a.len() > 0 {
        lemma_chars_lt_irrefl(a.drop_first());
    }
}

proof fn lemma_chars_lt_asym(a: Seq<char>, b: Seq<char>)
    ensures
        chars_lt(a, b) ==> !chars_lt(b, a),
    decreases a.len(),
{
    if a.len() > 0 && b.len() > 0 {
        lemma_chars_lt_asym(a.drop_first(), b.drop_first());
    }
}

proof fn lemma_chars_lt_total(a: Seq<char>, b: Seq<char>)
    ensures
        a != b ==> chars_lt(a, b) || chars_lt(b, a),
    decreases a.len(),
{
    if a.len() > 0 && b.len() > 0 {
        lemma_chars_lt_total(a.drop_first(), b.drop_first());
        if a[0] == b[0] && a.drop_first() == b.drop_first() {
            assert(a =~= seq![a[0]] + a.drop_first());
            assert(b =~= seq![b[0]] + b.drop_first());
        }
    }
    if a.len() == 0 && b.len() == 0 {
        assert(a =~= b);
    }
}

proof fn lemma_chars_lt_trans(a: Seq<char>, b: Seq<char>, c: Seq<char>)
    ensures
        chars_lt(a, b) && chars_lt(b, c) ==> chars_lt(a, c),
    decreases a.len(),
{
    if a.len() > 0 && b.len() > 0 && c.len() > 0 {
        lemma_chars_lt_trans(a.drop_first(), b.drop_first(), c.drop_first());
    }
}

proof fn lemma_ints_lt_irrefl(a: Seq<i64>)
    ensures
        !ints_lt(a, a),
    decreases a.len(),
{
    if a.len() > 0 {
        lemma_ints_lt_irrefl(a.drop_first());
    }
}

proof fn lemma_ints_lt_asym(a: Seq<i64>, b: Seq<i64>)
    ensures
        ints_lt(a, b) ==> !ints_lt(b, a),
    decreases a.len(),
{
    if a.len() > 0 && b.len() > 0 {
        lemma_ints_lt_asym(a.drop_first(), b.drop_first());
    }
}

proof fn lemma_ints_lt_total(a: Seq<i64>, b: Seq<i64>)
    ensures
        a != b ==> ints_lt(a, b) || ints_lt(b, a),
    decreases a.len(),
{
    if a.len() > 0 && b.len() > 0 {
        lemma_ints_lt_total(a.drop_first(), b.drop_first());
        if a[0] == b[0] && a.drop_first() == b.drop_first() {
            assert(a =~= seq![a[0]] + a.drop_first());
            assert(b =~= seq![b[0]] + b.drop_first());
        }
    }
    if a.len() == 0 && b.len() == 0 {
        assert(a =~= b);
    }
}

proof fn lemma_ints_lt_trans(a: Seq<i64>, b: Seq<i64>, c: Seq<i64>)
    ensures
        ints_lt(a, b) && ints_lt(b, c) ==> ints_lt(a, c),
    decreases a.len(),
{
    if a.len() > 0 && b.len() > 0 && c.len() > 0 {
        lemma_ints_lt_trans(a.drop_first(), b.drop_first(), c.drop_first());
    }
}

/// The order on characters is a strict total order.
pub proof fn lemma_chars_lt_order(a: Seq<char>, b: Seq<char>, c: Seq<char>)
    ensures
        !chars_lt(a, a),
        chars_lt(a, b) ==> !chars_lt(b, a),
        a != b ==> chars_lt(a, b) || chars_lt(b, a),
        chars_lt(a, b) && chars_lt(b, c) ==> chars_lt(a, c),
{
    lemma_chars_lt_irrefl(a);
    lemma_chars_lt_asym(a, b);
    lemma_chars_lt_total(a, b);
    lemma_chars_lt_trans(a, b, c);
}

/// The order on integer sequences is a strict total order.
pub proof fn lemma_ints_lt_order(a: Seq<i64>, b: Seq<i64>, c: Seq<i64>)
    ensures
        !ints_lt(a, a),
        ints_lt(a, b) ==> !ints_lt(b, a),
        a != b ==> ints_lt(a, b) || ints_lt(b, a),
        ints_lt(a, b) && ints_lt(b, c) ==> ints_lt(a, c),
{
    lemma_ints_lt_irrefl(a);
    lemma_ints_lt_asym(a, b);
    lemma_ints_lt_total(a, b);
    lemma_ints_lt_trans(a, b, c);
}

/// Names are totally ordered: by base, then by subscripts.
pub proof fn lemma_name_order(a: Name, b: Name, c: Name)
    ensures
        !name_lt(a, a),
        name_lt(a, b) ==> !name_lt(b, a),
        !same_name(a, b) ==> name_lt(a, b) || name_lt(b, a),
        name_lt(a, b) && name_lt(b, c) ==> name_lt(a, c),
{
    lemma_chars_lt_order(a.base@, b.base@, c.base@);
    lemma_ints_lt_order(a.subscripts@, b.subscripts@, c.subscripts@);
    lemma_chars_lt_order(a.base@, c.base@, b.base@);
    lemma_chars_lt_order(b.base@, a.base@, c.base@);
}

} // verus!
