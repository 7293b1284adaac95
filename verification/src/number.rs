//! Decimal numbers as the language writes them: `2`, `-1.5`, `.5`.
//!
//! A number keeps the exact value written, as an integer mantissa and a
//! count of decimal places, so reading and printing never round.

use vstd::prelude::*;

use crate::text::{digit, digit_char, digit_value, is_digit, nat_text, push_nat};

verus! {

/// `mantissa / 10^scale`.  A well-formed number has no trailing zero after
/// the point (see [`number_wf`]), so equal values are equal numbers.
#[derive(Clone, Copy, Debug, PartialEq, Eq, Structural)]
pub struct Number {
    pub mantissa: i64,
    pub scale: u32,
}

/// The largest number of decimal places kept.
pub const MAX_SCALE: u32 = 18;

pub open spec fn pow10(n: nat) -> nat
    decreases n,
{
    if n == 0 {
        1
    } else {
        10 * pow10((n - 1) as nat)
    }
}

/// A number in lowest terms, with at most [`MAX_SCALE`] decimal places.
pub open spec fn number_wf(n: Number) -> bool {
    &&& n.scale <= MAX_SCALE
    &&& (n.scale == 0 || n.mantissa % 10 != 0)
    &&& n.mantissa > i64::MIN
}

/// The value of decimal digits.
pub open spec fn digits_value(s: Seq<char>) -> nat
    decreases s.len(),
{
    if s.len() == 0 {
        0
    } else {
        digits_value(s.drop_last()) * 10 + digit_value(s.last())
    }
}

pub open spec fn all_digits(s: Seq<char>) -> bool {
    forall|i: int| 0 <= i < s.len() ==> #[trigger] is_digit(s[i])
}

/// Digits without their trailing zeros.
pub open spec fn strip_zeros(s: Seq<char>) -> Seq<char>
    decreases s.len(),
{
    if s.len() > 0 && s.last() == '0' {
        strip_zeros(s.drop_last())
    } else {
        s
    }
}

/// The position of the first `.`, or the length when there is none.
pub open spec fn point_index(s: Seq<char>) -> nat
    decreases s.len(),
{
    if s.len() == 0 {
        0
    } else if s[0] == '.' {
        0
    } else {
        point_index(s.drop_first()) + 1
    }
}

/// The sign, and the text after it.
pub open spec fn unsigned_part(s: Seq<char>) -> Seq<char> {
    if s.len() > 0 && (s[0] == '-' || s[0] == '+') {
        s.drop_first()
    } else {
        s
    }
}

pub open spec fn is_negative_text(s: Seq<char>) -> bool {
    s.len() > 0 && s[0] == '-'
}

/// The digits before the point.
pub open spec fn int_digits(s: Seq<char>) -> Seq<char> {
    let u = unsigned_part(s);
    u.take(point_index(u) as int)
}

/// The digits after the point (empty when there is no point).
pub open spec fn frac_digits(s: Seq<char>) -> Seq<char> {
    let u = unsigned_part(s);
    let p = point_index(u);
    if p < u.len() {
        u.skip(p as int + 1)
    } else {
        Seq::empty()
    }
}

/// Decimal syntax: an optional sign, digits with at most one point, and at
/// least one digit, as Rust's float parser reads text made of digits,
/// points, and signs.
pub open spec fn decimal_syntax(s: Seq<char>) -> bool {
    &&& all_digits(int_digits(s))
    &&& all_digits(frac_digits(s))
    &&& int_digits(s).len() + frac_digits(s).len() > 0
}

/// The mantissa digits in lowest terms.
pub open spec fn significant(s: Seq<char>) -> Seq<char> {
    int_digits(s) + strip_zeros(frac_digits(s))
}

/// The number written by `s`, if it is one and fits: its mantissa within
/// `i64` and at most [`MAX_SCALE`] decimal places.
pub open spec fn decimal_of(s: Seq<char>) -> Option<Number> {
    let mag = digits_value(significant(s));
    let scale = strip_zeros(frac_digits(s)).len();
    if decimal_syntax(s) && mag <= i64::MAX && scale <= MAX_SCALE {
        let m: int = if mag == 0 {
            0
        } else if is_negative_text(s) {
            -mag
        } else {
            mag as int
        };
        Some(Number { mantissa: m as i64, scale: (if mag == 0 { 0 } else { scale }) as u32 })
    } else {
        None
    }
}

/// Zeros in front of `s` to make it `n` long.
pub open spec fn pad_left(s: Seq<char>, n: nat) -> Seq<char> {
    if s.len() < n {
        Seq::new((n - s.len()) as nat, |_i: int| '0') + s
    } else {
        s
    }
}

pub open spec fn abs(i: int) -> nat {
    if i < 0 {
        (-i) as nat
    } else {
        i as nat
    }
}

/// The shortest text of a number: an integer without a point, otherwise
/// the digits after the point without trailing zeros, as `0.5` or `-1.25`.
pub open spec fn number_text(n: Number) -> Seq<char> {
    let a = abs(n.mantissa as int);
    let sign = if n.mantissa < 0 {
        seq!['-']
    } else {
        Seq::empty()
    };
    if n.scale == 0 {
        sign + nat_text(a)
    } else {
        sign + nat_text(a / pow10(n.scale as nat)) + seq!['.'] + pad_left(
            nat_text(a % pow10(n.scale as nat)),
            n.scale as nat,
        )
    }
}

/// Whether a number is an integer, and the integer.
pub open spec fn number_int(n: Number) -> Option<int> {
    if n.scale == 0 {
        Some(n.mantissa as int)
    } else {
        None
    }
}

/// `n` compared with `k / 10^0`: the sign of `n - k`, scaled.
pub open spec fn scaled(n: Number, k: int) -> int {
    k * pow10(n.scale as nat)
}

/// `n <= k`.
pub open spec fn at_most(n: Number, k: int) -> bool {
    n.mantissa <= scaled(n, k)
}

/// `n >= k`.
pub open spec fn at_least(n: Number, k: int) -> bool {
    n.mantissa >= scaled(n, k)
}

pub proof fn lemma_digits_value_prefix(s: Seq<char>, i: int)
    requires
        0 <= i <= s.len(),
    ensures
        digits_value(s.take(i)) <= digits_value(s),
    decreases s.len() - i,
{
    if i < s.len() {
        lemma_digits_value_prefix(s, i + 1);
        assert(s.take(i + 1).drop_last() =~= s.take(i));
    } else {
        assert(s.take(i) =~= s);
    }
}

proof fn lemma_pow10_positive(n: nat)
    ensures
        pow10(n) >= 1,
    decreases n,
{
    if n > 0 {
        lemma_pow10_positive((n - 1) as nat);
    }
}

pub proof fn lemma_pow10_bound(n: nat)
    requires
        n <= 18,
    ensures
        pow10(n) <= 1_000_000_000_000_000_000,
    decreases n,
{
    if n > 0 {
        lemma_pow10_bound((n - 1) as nat);
        assert(pow10((n - 1) as nat) <= 100_000_000_000_000_000) by {
            lemma_pow10_mono((n - 1) as nat, 17);
            reveal_with_fuel(pow10, 18);
        }
    }
}

proof fn lemma_pow10_mono(a: nat, b: nat)
    requires
        a <= b,
    ensures
        pow10(a) <= pow10(b),
    decreases b,
{
    if a < b {
        lemma_pow10_mono(a, (b - 1) as nat);
        lemma_pow10_positive((b - 1) as nat);
    }
}

/// The position of the first `.` in digits, points, and signs.
fn find_point(s: &[char]) -> (p: usize)
    ensures
        p == point_index(s@),
        p <= s@.len(),
{
    let mut i: usize = 0;
    assert(s@.skip(0) =~= s@);
    while i < s.len() && s[i] != '.'
        invariant
            i <= s@.len(),
            point_index(s@) == i + point_index(s@.skip(i as int)),
        decreases s@.len() - i,
    {
        assert(s@.skip(i as int).drop_first() =~= s@.skip(i + 1));
        i = i + 1;
    }
    proof {
        if i < s@.len() {
            assert(s@.skip(i as int)[0] == '.');
        } else {
            assert(s@.skip(i as int).len() == 0);
        }
    }
    i
}

/// Whether all characters are digits.
fn check_digits(s: &[char]) -> (r: bool)
    ensures
        r == all_digits(s@),
{
    let mut i: usize = 0;
    while i < s.len()
        invariant
            i <= s@.len(),
            forall|j: int| 0 <= j < i ==> #[trigger] is_digit(s@[j]),
        decreases s@.len() - i,
    {
        if !digit(s[i]) {
            return false;
        }
        i = i + 1;
    }
    true
}

/// The length of `s` without its trailing zeros.
fn stripped_len(s: &[char]) -> (n: usize)
    ensures
        n <= s@.len(),
        s@.take(n as int) == strip_zeros(s@),
{
    let mut n: usize = s.len();
    assert(s@.take(n as int) =~= s@);
    while n > 0 && s[n - 1] == '0'
        invariant
            n <= s@.len(),
            strip_zeros(s@) == strip_zeros(s@.take(n as int)),
        decreases n,
    {
        assert(s@.take(n - 1) =~= s@.take(n as int).drop_last());
        n = n - 1;
    }
    n
}

/// Accumulate the value of digits, failing once it exceeds `i64::MAX`.
fn accumulate(acc: u64, s: &[char]) -> (r: Option<u64>)
    requires
        acc <= i64::MAX,
        all_digits(s@),
    ensures
        match r {
            Some(v) => v == acc * pow10(s@.len()) + digits_value(s@) && v <= i64::MAX,
            None => acc * pow10(s@.len()) + digits_value(s@) > i64::MAX,
        },
{
    let mut v: u64 = acc;
    let mut i: usize = 0;
    assert(s@.take(0) =~= Seq::<char>::empty());
    assert(pow10(0) == 1);
    assert(acc * 1 == acc);
    while i < s.len()
        invariant
            i <= s@.len(),
            all_digits(s@),
            v <= i64::MAX,
            v == acc * pow10(i as nat) + digits_value(s@.take(i as int)),
        decreases s@.len() - i,
    {
        assert(is_digit(s@[i as int]));
        let d: u64 = (s[i] as u32 - '0' as u32) as u64;
        assert(s@.take(i + 1).drop_last() =~= s@.take(i as int));
        assert(acc * pow10((i + 1) as nat) == 10 * (acc * pow10(i as nat))) by (nonlinear_arith)
            requires
                pow10((i + 1) as nat) == 10 * pow10(i as nat),
        ;
        if v > (9223372036854775807u64 - d) / 10 {
            proof {
                lemma_tail_grows(acc, s@, (i + 1) as nat);
            }
            return None;
        }
        v = v * 10 + d;
        i = i + 1;
    }
    assert(s@.take(s@.len() as int) =~= s@);
    Some(v)
}

proof fn lemma_tail_grows(acc: u64, s: Seq<char>, i: nat)
    requires
        i <= s.len(),
    ensures
        acc * pow10(i) + digits_value(s.take(i as int)) <= acc * pow10(s.len()) + digits_value(s),
    decreases s.len() - i,
{
    if i < s.len() {
        lemma_tail_grows(acc, s, i + 1);
        assert(s.take(i as int + 1).drop_last() =~= s.take(i as int));
        assert(acc * pow10(i + 1) == 10 * (acc * pow10(i))) by (nonlinear_arith)
            requires
                pow10(i + 1) == 10 * pow10(i),
        ;
    } else {
        assert(s.take(i as int) =~= s);
    }
}

/// The number written by digits, points, and signs, such as `-1.5` or
/// `.5`; `None` when it is not a number or does not fit.
pub fn parse_decimal(s: &[char]) -> (r: Option<Number>)
    ensures
        r == decimal_of(s@),
        r matches Some(n) ==> number_wf(n),
{
    let neg = s.len() > 0 && s[0] == '-';
    let u: &[char] = if s.len() > 0 && (s[0] == '-' || s[0] == '+') {
        &s[1..s.len()]
    } else {
        s
    };
    assert(u@ == unsigned_part(s@));
    let p = find_point(u);
    let int_part = &u[0..p];
    let frac: &[char] = if p < u.len() {
        &u[p + 1..u.len()]
    } else {
        &u[0..0]
    };
    assert(int_part@ == int_digits(s@));
    assert(frac@ =~= frac_digits(s@));
    if !check_digits(int_part) || !check_digits(frac) || int_part.len() + frac.len() == 0 {
        return None;
    }
    let keep = stripped_len(frac);
    let frac_sig = &frac[0..keep];
    assert(significant(s@) == int_part@ + frac_sig@);
    assert(all_digits(frac_sig@));
    let Some(a) = accumulate(0, int_part) else {
        proof {
            lemma_concat_value(int_part@, frac_sig@);
            assert(0 * pow10(int_part@.len()) == 0);
            lemma_pow10_positive(frac_sig@.len());
            let x = digits_value(int_part@);
            let p = pow10(frac_sig@.len());
            assert(x * p >= x) by (nonlinear_arith)
                requires
                    p >= 1,
            ;
        }
        return None;
    };
    assert(0 * pow10(int_part@.len()) == 0);
    let Some(mag) = accumulate(a, frac_sig) else {
        proof {
            lemma_concat_value(int_part@, frac_sig@);
        }
        return None;
    };
    proof {
        lemma_concat_value(int_part@, frac_sig@);
    }
    if keep > 18 {
        return None;
    }
    if mag == 0 {
        return Some(Number { mantissa: 0, scale: 0 });
    }
    let m: i64 = if neg {
        -(mag as i64)
    } else {
        mag as i64
    };
    proof {
        if keep > 0 {
            lemma_strip_zeros_last(frac@);
            lemma_last_digit(int_part@, frac_sig@, mag as nat);
        }
    }
    Some(Number { mantissa: m, scale: keep as u32 })
}

proof fn lemma_concat_value(a: Seq<char>, b: Seq<char>)
    ensures
        digits_value(a + b) == digits_value(a) * pow10(b.len()) + digits_value(b),
    decreases b.len(),
{
    if b.len() == 0 {
        assert(a + b =~= a);
        assert(pow10(0) == 1);
        assert(digits_value(a) * 1 == digits_value(a));
    } else {
        lemma_concat_value(a, b.drop_last());
        assert((a + b).drop_last() =~= a + b.drop_last());
        assert((a + b).last() == b.last());
        let x = digits_value(a);
        let p = pow10((b.len() - 1) as nat);
        let y = digits_value(b.drop_last());
        let d = digit_value(b.last());
        assert(digits_value(a + b) == (x * p + y) * 10 + d);
        assert(digits_value(b) == y * 10 + d);
        assert((x * p + y) * 10 + d == x * (10 * p) + (y * 10 + d)) by (nonlinear_arith);
        assert(pow10(b.len()) == 10 * p);
    }
}

proof fn lemma_strip_zeros_last(s: Seq<char>)
    ensures
        strip_zeros(s).len() > 0 ==> strip_zeros(s).last() != '0',
    decreases s.len(),
{
    if s.len() > 0 && s.last() == '0' {
        lemma_strip_zeros_last(s.drop_last());
    }
}

/// A nonzero last digit makes the value not a multiple of ten.
proof fn lemma_last_digit(a: Seq<char>, b: Seq<char>, v: nat)
    requires
        b.len() > 0,
        b.last() != '0',
        all_digits(b),
        v == digits_value(a + b),
    ensures
        v % 10 != 0,
{
    assert((a + b).last() == b.last());
    assert(is_digit(b[b.len() - 1]));
    let d = digit_value(b.last());
    assert(1 <= d <= 9);
    assert(v == digits_value((a + b).drop_last()) * 10 + d);
}

/// Append the digits of `n` with zeros in front to make `width` digits.
fn push_padded(out: &mut Vec<char>, n: u64, width: u32)
    ensures
        final(out)@ == old(out)@ + pad_left(nat_text(n as nat), width as nat),
{
    let mut digits: Vec<char> = Vec::new();
    push_nat(&mut digits, n);
    let ghost t = digits@;
    assert(t == nat_text(n as nat));
    if (digits.len() as u64) < (width as u64) {
        let zeros = width as usize - digits.len();
        let ghost start = out@;
        let mut k: usize = 0;
        while k < zeros
            invariant
                k <= zeros,
                out@ == start + Seq::new(k as nat, |_i: int| '0'),
            decreases zeros - k,
        {
            out.push('0');
            k = k + 1;
            assert(out@ =~= start + Seq::new(k as nat, |_i: int| '0'));
        }
    }
    crate::text::push_chars(out, digits.as_slice());
    assert(final(out)@ =~= old(out)@ + pad_left(nat_text(n as nat), width as nat)) by {
        if t.len() < width {
        }
    }
}

fn pow10_exec(n: u32) -> (r: u64)
    requires
        n <= 18,
    ensures
        r == pow10(n as nat),
{
    let mut r: u64 = 1;
    let mut k: u32 = 0;
    while k < n
        invariant
            k <= n <= 18,
            r == pow10(k as nat),
        decreases n - k,
    {
        proof {
            lemma_pow10_bound(k as nat);
        }
        r = r * 10;
        k = k + 1;
    }
    r
}

impl Number {
    /// The integer `n`.
    pub fn integer(n: i64) -> (r: Number)
        requires
            n > i64::MIN,
        ensures
            r == (Number { mantissa: n, scale: 0 }),
            number_wf(r),
    {
        Number { mantissa: n, scale: 0 }
    }

    /// `mantissa / 10^scale`, in lowest terms.
    pub fn new(mantissa: i64, scale: u32) -> (r: Number)
        requires
            mantissa > i64::MIN,
            scale <= MAX_SCALE,
        ensures
            number_wf(r),
            r.mantissa * pow10(scale as nat) == mantissa * pow10(r.scale as nat),
    {
        let mut m = mantissa;
        let mut s = scale;
        while s > 0 && m % 10 == 0
            invariant
                m > i64::MIN,
                s <= scale <= MAX_SCALE,
                m * pow10(scale as nat) == mantissa * pow10(s as nat),
            decreases s,
        {
            proof {
                let q = m / 10;
                assert(m == 10 * q);
                assert(pow10(s as nat) == 10 * pow10((s - 1) as nat));
                assert(q * pow10(scale as nat) == mantissa * pow10((s - 1) as nat)) by (nonlinear_arith)
                    requires
                        m == 10 * q,
                        m * pow10(scale as nat) == mantissa * pow10(s as nat),
                        pow10(s as nat) == 10 * pow10((s - 1) as nat),
                ;
            }
            m = m / 10;
            s = s - 1;
        }
        if m == 0 {
            proof {
                assert(0 * pow10(scale as nat) == 0);
                lemma_pow10_positive(s as nat);
                assert(mantissa * pow10(s as nat) == 0);
                assert(mantissa == 0) by (nonlinear_arith)
                    requires
                        mantissa * pow10(s as nat) == 0,
                        pow10(s as nat) >= 1,
                ;
                assert(mantissa * pow10(0) == 0);
            }
            return Number { mantissa: 0, scale: 0 };
        }
        Number { mantissa: m, scale: s }
    }

    /// Whether the number is an integer.
    pub fn is_integer(&self) -> (r: bool)
        ensures
            r == (self.scale == 0),
    {
        self.scale == 0
    }

    /// Whether the number is at most the integer `k`.
    pub fn le_int(&self, k: i64) -> (r: bool)
        requires
            number_wf(*self),
            -1_000_000_000 <= k <= 1_000_000_000,
        ensures
            r == at_most(*self, k as int),
    {
        proof {
            lemma_pow10_bound(self.scale as nat);
        }
        let p = pow10_exec(self.scale) as i128;
        assert((k as i128) * p <= 1_000_000_000_000_000_000_000_000_000 && (k as i128) * p
            >= -1_000_000_000_000_000_000_000_000_000) by (nonlinear_arith)
            requires
                -1_000_000_000 <= k <= 1_000_000_000,
                0 <= p <= 1_000_000_000_000_000_000,
        ;
        (self.mantissa as i128) <= (k as i128) * p
    }

    /// Whether the number is at least the integer `k`.
    pub fn ge_int(&self, k: i64) -> (r: bool)
        requires
            number_wf(*self),
            -1_000_000_000 <= k <= 1_000_000_000,
        ensures
            r == at_least(*self, k as int),
    {
        proof {
            lemma_pow10_bound(self.scale as nat);
        }
        let p = pow10_exec(self.scale) as i128;
        assert((k as i128) * p <= 1_000_000_000_000_000_000_000_000_000 && (k as i128) * p
            >= -1_000_000_000_000_000_000_000_000_000) by (nonlinear_arith)
            requires
                -1_000_000_000 <= k <= 1_000_000_000,
                0 <= p <= 1_000_000_000_000_000_000,
        ;
        (self.mantissa as i128) >= (k as i128) * p
    }

    /// The number negated.
    pub fn negate(&self) -> (r: Number)
        requires
            number_wf(*self),
        ensures
            r.mantissa == -self.mantissa,
            r.scale == self.scale,
            number_wf(r),
    {
        Number { mantissa: -self.mantissa, scale: self.scale }
    }

    /// Append the number's text.
    pub fn push_text(&self, out: &mut Vec<char>)
        requires
            number_wf(*self),
        ensures
            final(out)@ == old(out)@ + number_text(*self),
    {
        let ghost start = out@;
        let a: u64 = if self.mantissa < 0 {
            (-self.mantissa) as u64
        } else {
            self.mantissa as u64
        };
        if self.mantissa < 0 {
            out.push('-');
        }
        if self.scale == 0 {
            push_nat(out, a);
        } else {
            proof {
                lemma_pow10_bound(self.scale as nat);
                lemma_pow10_positive(self.scale as nat);
            }
            let p = pow10_exec(self.scale);
            push_nat(out, a / p);
            out.push('.');
            push_padded(out, a % p, self.scale);
        }
    }

    /// The number's text.
    pub fn to_text(&self) -> (s: String)
        requires
            number_wf(*self),
        ensures
            s@ == number_text(*self),
    {
        let mut out: Vec<char> = Vec::new();
        self.push_text(&mut out);
        crate::text::string_of(out.as_slice())
    }
}

// ---- Reading back what is written -------------------------------------------------

proof fn lemma_digit_char(d: nat)
    requires
        d < 10,
    ensures
        is_digit(digit_char(d)),
        digit_value(digit_char(d)) == d,
        digit_char(d) != '.',
        digit_char(d) != '-',
        digit_char(d) != '+',
        d != 0 ==> digit_char(d) != '0',
{
}

proof fn lemma_nat_text(n: nat)
    ensures
        nat_text(n).len() >= 1,
        all_digits(nat_text(n)),
        digits_value(nat_text(n)) == n,
        nat_text(n).last() == digit_char(n % 10),
        is_digit(nat_text(n)[0]),
    decreases n,
{
    if n < 10 {
        lemma_digit_char(n);
        assert(nat_text(n) =~= seq![digit_char(n)]);
        assert(nat_text(n).drop_last() =~= Seq::<char>::empty());
        assert(digits_value(nat_text(n)) == digits_value(Seq::<char>::empty()) * 10 + digit_value(digit_char(n)));
    } else {
        lemma_nat_text(n / 10);
        lemma_digit_char(n % 10);
        let t = nat_text(n);
        assert(t.drop_last() =~= nat_text(n / 10));
        assert(forall|i: int| 0 <= i < t.len() - 1 ==> t[i] == nat_text(n / 10)[i]);
        assert(digits_value(t) == (n / 10) * 10 + n % 10);
    }
}

proof fn lemma_nat_text_len(n: nat, k: nat)
    requires
        k >= 1,
        n < pow10(k),
    ensures
        nat_text(n).len() <= k,
    decreases k,
{
    if n >= 10 {
        assert(k >= 2) by {
            if k == 1 {
                assert(pow10(1) == 10 * pow10(0));
            }
        }
        assert(pow10(k) == 10 * pow10((k - 1) as nat));
        assert(n / 10 < pow10((k - 1) as nat)) by (nonlinear_arith)
            requires
                n < 10 * pow10((k - 1) as nat),
        ;
        lemma_nat_text_len(n / 10, (k - 1) as nat);
    }
}

proof fn lemma_zeros(z: Seq<char>)
    requires
        forall|i: int| 0 <= i < z.len() ==> z[i] == '0',
    ensures
        all_digits(z),
        digits_value(z) == 0,
    decreases z.len(),
{
    if z.len() > 0 {
        lemma_zeros(z.drop_last());
    }
}

proof fn lemma_pad_left(t: Seq<char>, k: nat)
    requires
        t.len() <= k,
        all_digits(t),
        t.len() >= 1,
    ensures
        pad_left(t, k).len() == k,
        all_digits(pad_left(t, k)),
        digits_value(pad_left(t, k)) == digits_value(t),
        pad_left(t, k).last() == t.last(),
{
    if t.len() < k {
        let z = Seq::new((k - t.len()) as nat, |_i: int| '0');
        lemma_zeros(z);
        lemma_concat_value(z, t);
        assert(digits_value(z) * pow10(t.len()) == 0);
        assert(pad_left(t, k) == z + t);
        assert forall|i: int| 0 <= i < (z + t).len() implies #[trigger] is_digit((z + t)[i]) by {
            if i >= z.len() {
                assert((z + t)[i] == t[i - z.len()]);
            }
        }
    }
}

proof fn lemma_point_index(a: Seq<char>, b: Seq<char>)
    requires
        all_digits(a),
    ensures
        point_index(a + seq!['.'] + b) == a.len(),
    decreases a.len(),
{
    if a.len() > 0 {
        assert((a + seq!['.'] + b).drop_first() =~= a.drop_first() + seq!['.'] + b);
        assert(is_digit(a[0]));
        lemma_point_index(a.drop_first(), b);
    } else {
        assert((a + seq!['.'] + b)[0] == '.');
    }
}

proof fn lemma_no_point(a: Seq<char>)
    requires
        all_digits(a),
    ensures
        point_index(a) == a.len(),
    decreases a.len(),
{
    if a.len() > 0 {
        assert(is_digit(a[0]));
        lemma_no_point(a.drop_first());
    }
}

/// The parts of a signed decimal text.
proof fn lemma_parts(sign: Seq<char>, i: Seq<char>, f: Seq<char>, point: bool)
    requires
        sign == Seq::<char>::empty() || sign == seq!['-'],
        i.len() >= 1,
        all_digits(i),
        point ==> f.len() >= 1 && all_digits(f),
    ensures
        ({
            let t = if point {
                sign + (i + seq!['.'] + f)
            } else {
                sign + i
            };
            &&& int_digits(t) == i
            &&& frac_digits(t) == if point {
                f
            } else {
                Seq::<char>::empty()
            }
            &&& is_negative_text(t) == (sign.len() == 1)
        }),
{
    assert(is_digit(i[0]));
    if point {
        let u = i + seq!['.'] + f;
        let t = sign + u;
        assert(unsigned_part(t) =~= u) by {
            if sign.len() == 1 {
                assert(t.drop_first() =~= u);
            } else {
                assert(t =~= u);
                assert(u[0] == i[0]);
            }
        }
        lemma_point_index(i, f);
        assert(u.take(i.len() as int) =~= i);
        assert(u.skip(i.len() as int + 1) =~= f);
        if sign.len() == 0 {
            assert(t[0] == i[0]);
        }
    } else {
        let t = sign + i;
        assert(unsigned_part(t) =~= i) by {
            if sign.len() == 1 {
                assert(t.drop_first() =~= i);
            } else {
                assert(t =~= i);
            }
        }
        lemma_no_point(i);
        assert(i.take(i.len() as int) =~= i);
        if sign.len() == 0 {
            assert(t[0] == i[0]);
        }
    }
}

/// The digits after the point of a number's text, and their value.
proof fn lemma_fraction(n: Number)
    requires
        number_wf(n),
        n.scale > 0,
    ensures
        ({
            let a = abs(n.mantissa as int);
            let p = pow10(n.scale as nat);
            let f = pad_left(nat_text(a % p), n.scale as nat);
            &&& f.len() == n.scale
            &&& all_digits(f)
            &&& strip_zeros(f) == f
            &&& digits_value(nat_text(a / p) + f) == a
            &&& a != 0
        }),
{
    let a = abs(n.mantissa as int);
    let p = pow10(n.scale as nat);
    lemma_pow10_positive(n.scale as nat);
    let q = a / p;
    let r = a % p;
    let i = nat_text(q);
    let f = pad_left(nat_text(r), n.scale as nat);
    lemma_nat_text(q);
    lemma_nat_text(r);
    lemma_nat_text_len(r, n.scale as nat);
    lemma_pad_left(nat_text(r), n.scale as nat);
    let pp = pow10((n.scale - 1) as nat);
    assert(p == 10 * pp);
    assert(a % 10 != 0) by (nonlinear_arith)
        requires
            a == (if n.mantissa < 0 { -n.mantissa } else { n.mantissa as int }),
            n.mantissa % 10 != 0,
    ;
    vstd::arithmetic::div_mod::lemma_fundamental_div_mod(a as int, p as int);
    assert(a == 10 * (q * pp) + r) by (nonlinear_arith)
        requires
            a == p * q + r,
            p == 10 * pp,
    ;
    vstd::arithmetic::div_mod::lemma_mod_multiples_vanish((q * pp) as int, r as int, 10);
    lemma_digit_char(r % 10);
    assert(f.last() != '0');
    lemma_concat_value(i, f);
}

/// Reading the text of a number gives the number back.
pub proof fn lemma_number_text_reads_back(n: Number)
    requires
        number_wf(n),
    ensures
        decimal_of(number_text(n)) == Some(n),
{
    let a = abs(n.mantissa as int);
    assert(a <= i64::MAX);
    let sign: Seq<char> = if n.mantissa < 0 {
        seq!['-']
    } else {
        Seq::empty()
    };
    let t = number_text(n);
    if n.scale == 0 {
        let i = nat_text(a);
        lemma_nat_text(a);
        lemma_parts(sign, i, Seq::empty(), false);
        assert(strip_zeros(Seq::<char>::empty()) =~= Seq::<char>::empty());
        assert(significant(t) =~= i);
    } else {
        let p = pow10(n.scale as nat);
        let i = nat_text(a / p);
        let f = pad_left(nat_text(a % p), n.scale as nat);
        lemma_nat_text(a / p);
        lemma_fraction(n);
        assert(t =~= sign + (i + seq!['.'] + f));
        lemma_parts(sign, i, f, true);
        assert(significant(t) =~= i + f);
    }
}

/// A number is written with digits, and a point and a minus sign where
/// needed, starting with a digit or the sign.
pub proof fn lemma_number_text_chars(n: Number)
    requires
        number_wf(n),
    ensures
        number_text(n).len() > 0,
        is_digit(number_text(n)[0]) || number_text(n)[0] == '-',
        is_digit(number_text(n).last()),
        forall|i: int|
            0 <= i < number_text(n).len() ==> is_digit(#[trigger] number_text(n)[i]) || number_text(n)[i]
                == '.' || number_text(n)[i] == '-',
{
    let a = abs(n.mantissa as int);
    let sign: Seq<char> = if n.mantissa < 0 {
        seq!['-']
    } else {
        Seq::empty()
    };
    let t = number_text(n);
    if n.scale == 0 {
        let i = nat_text(a);
        lemma_nat_text(a);
        assert(t == sign + i);
        assert forall|k: int| 0 <= k < t.len() implies is_digit(#[trigger] t[k]) || t[k] == '.' || t[k] == '-' by {
            if k >= sign.len() {
                assert(t[k] == i[k - sign.len()]);
            }
        }
        assert(t.last() == i.last());
        if sign.len() == 0 {
            assert(t[0] == i[0]);
        }
    } else {
        let p = pow10(n.scale as nat);
        let i = nat_text(a / p);
        let f = pad_left(nat_text(a % p), n.scale as nat);
        lemma_nat_text(a / p);
        lemma_fraction(n);
        assert(t =~= sign + i + seq!['.'] + f);
        assert forall|k: int| 0 <= k < t.len() implies is_digit(#[trigger] t[k]) || t[k] == '.' || t[k] == '-' by {
            if sign.len() <= k < sign.len() + i.len() {
                assert(t[k] == i[k - sign.len()]);
            } else if k > sign.len() + i.len() {
                assert(t[k] == f[k - sign.len() - i.len() - 1]);
            }
        }
        assert(t.last() == f.last());
        assert(is_digit(f[f.len() - 1]));
        if sign.len() == 0 {
            assert(t[0] == i[0]);
        }
    }
}

} // verus!
