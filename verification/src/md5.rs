//! MD5 (RFC 1321), only to fingerprint a figure's source the way LaTeX's
//! `\file_get_mdfive_hash:nN` does.  Not for security.

use vstd::prelude::*;

use crate::text::string_of;

verus! {

/// The additive constants, `floor(2³² · |sin(i + 1)|)` for `i` in `0..64`.
pub open spec fn sines() -> Seq<u32> {
    seq![
        0xd76aa478u32, 0xe8c7b756, 0x242070db, 0xc1bdceee, 0xf57c0faf, 0x4787c62a, 0xa8304613, 0xfd469501,
        0x698098d8, 0x8b44f7af, 0xffff5bb1, 0x895cd7be, 0x6b901122, 0xfd987193, 0xa679438e, 0x49b40821,
        0xf61e2562, 0xc040b340, 0x265e5a51, 0xe9b6c7aa, 0xd62f105d, 0x02441453, 0xd8a1e681, 0xe7d3fbc8,
        0x21e1cde6, 0xc33707d6, 0xf4d50d87, 0x455a14ed, 0xa9e3e905, 0xfcefa3f8, 0x676f02d9, 0x8d2a4c8a,
        0xfffa3942, 0x8771f681, 0x6d9d6122, 0xfde5380c, 0xa4beea44, 0x4bdecfa9, 0xf6bb4b60, 0xbebfbc70,
        0x289b7ec6, 0xeaa127fa, 0xd4ef3085, 0x04881d05, 0xd9d4d039, 0xe6db99e5, 0x1fa27cf8, 0xc4ac5665,
        0xf4292244, 0x432aff97, 0xab9423a7, 0xfc93a039, 0x655b59c3, 0x8f0ccc92, 0xffeff47d, 0x85845dd1,
        0x6fa87e4f, 0xfe2ce6e0, 0xa3014314, 0x4e0811a1, 0xf7537e82, 0xbd3af235, 0x2ad7d2bb, 0xeb86d391,
    ]
}

fn sine_table() -> (v: Vec<u32>)
    ensures
        v@ == sines(),
{
    let v: Vec<u32> = vec![
        0xd76aa478u32, 0xe8c7b756, 0x242070db, 0xc1bdceee, 0xf57c0faf, 0x4787c62a, 0xa8304613, 0xfd469501,
        0x698098d8, 0x8b44f7af, 0xffff5bb1, 0x895cd7be, 0x6b901122, 0xfd987193, 0xa679438e, 0x49b40821,
        0xf61e2562, 0xc040b340, 0x265e5a51, 0xe9b6c7aa, 0xd62f105d, 0x02441453, 0xd8a1e681, 0xe7d3fbc8,
        0x21e1cde6, 0xc33707d6, 0xf4d50d87, 0x455a14ed, 0xa9e3e905, 0xfcefa3f8, 0x676f02d9, 0x8d2a4c8a,
        0xfffa3942, 0x8771f681, 0x6d9d6122, 0xfde5380c, 0xa4beea44, 0x4bdecfa9, 0xf6bb4b60, 0xbebfbc70,
        0x289b7ec6, 0xeaa127fa, 0xd4ef3085, 0x04881d05, 0xd9d4d039, 0xe6db99e5, 0x1fa27cf8, 0xc4ac5665,
        0xf4292244, 0x432aff97, 0xab9423a7, 0xfc93a039, 0x655b59c3, 0x8f0ccc92, 0xffeff47d, 0x85845dd1,
        0x6fa87e4f, 0xfe2ce6e0, 0xa3014314, 0x4e0811a1, 0xf7537e82, 0xbd3af235, 0x2ad7d2bb, 0xeb86d391,
    ];
    assert(v@ =~= sines());
    v
}

/// The rotation of step `i`: four amounts per round, repeated.
pub open spec fn shift(i: int) -> u32 {
    let j = i % 4;
    if i < 16 {
        if j == 0 { 7 } else if j == 1 { 12 } else if j == 2 { 17 } else { 22 }
    } else if i < 32 {
        if j == 0 { 5 } else if j == 1 { 9 } else if j == 2 { 14 } else { 20 }
    } else if i < 48 {
        if j == 0 { 4 } else if j == 1 { 11 } else if j == 2 { 16 } else { 23 }
    } else {
        if j == 0 { 6 } else if j == 1 { 10 } else if j == 2 { 15 } else { 21 }
    }
}

/// The auxiliary function of step `i`: F, G, H, or I of the RFC.
pub open spec fn mix(i: int, b: u32, c: u32, d: u32) -> u32 {
    if i < 16 {
        (b & c) | (!b & d)
    } else if i < 32 {
        (d & b) | (!d & c)
    } else if i < 48 {
        b ^ c ^ d
    } else {
        c ^ (b | !d)
    }
}

/// The message word that step `i` reads.
pub open spec fn word_index(i: int) -> int {
    if i < 16 {
        i
    } else if i < 32 {
        (5 * i + 1) % 16
    } else if i < 48 {
        (3 * i + 5) % 16
    } else {
        (7 * i) % 16
    }
}

pub open spec fn rotl(x: u32, s: u32) -> u32 {
    (x << s) | (x >> ((32 - s) as u32))
}

/// The state `(a, b, c, d)` after step `i`.
pub open spec fn step(st: (u32, u32, u32, u32), m: Seq<u32>, i: int) -> (u32, u32, u32, u32) {
    let (a, b, c, d) = st;
    let sum = a.wrapping_add(mix(i, b, c, d)).wrapping_add(sines()[i]).wrapping_add(m[word_index(i)]);
    (d, b.wrapping_add(rotl(sum, shift(i))), b, c)
}

/// The state after the first `n` steps.
pub open spec fn rounds(st: (u32, u32, u32, u32), m: Seq<u32>, n: nat) -> (u32, u32, u32, u32)
    decreases n,
{
    if n == 0 {
        st
    } else {
        step(rounds(st, m, (n - 1) as nat), m, n - 1)
    }
}

/// One block added into the chaining state.
pub open spec fn compress(h: (u32, u32, u32, u32), m: Seq<u32>) -> (u32, u32, u32, u32) {
    let r = rounds(h, m, 64);
    (h.0.wrapping_add(r.0), h.1.wrapping_add(r.1), h.2.wrapping_add(r.2), h.3.wrapping_add(r.3))
}

/// The little-endian word at byte `p`.
pub open spec fn le_word(msg: Seq<u8>, p: int) -> u32 {
    (msg[p] as u32) | ((msg[p + 1] as u32) << 8u32) | ((msg[p + 2] as u32) << 16u32) | ((msg[p + 3] as u32)
        << 24u32)
}

/// The sixteen words of block `k`.
pub open spec fn block_words(msg: Seq<u8>, k: int) -> Seq<u32> {
    Seq::new(16, |g: int| le_word(msg, 64 * k + 4 * g))
}

pub open spec fn initial() -> (u32, u32, u32, u32) {
    (0x67452301u32, 0xefcdab89u32, 0x98badcfeu32, 0x10325476u32)
}

/// The state after the first `n` blocks of `msg`.
pub open spec fn digest_state(msg: Seq<u8>, n: nat) -> (u32, u32, u32, u32)
    decreases n,
{
    if n == 0 {
        initial()
    } else {
        compress(digest_state(msg, (n - 1) as nat), block_words(msg, n - 1))
    }
}

/// The number of zero bytes after the `0x80` that bring the length to 56
/// modulo 64.
pub open spec fn zero_count(n: nat) -> nat {
    ((56 + 64 - (n + 1) % 64) % 64) as nat
}

/// The little-endian bytes of a 64-bit number.
pub open spec fn le64(x: u64) -> Seq<u8> {
    Seq::new(8, |i: int| ((x >> (8 * i) as u64) & 0xff) as u8)
}

/// The padded message: `0x80`, zeros, and the bit length.
pub open spec fn padded(data: Seq<u8>) -> Seq<u8> {
    data + seq![0x80u8] + Seq::new(zero_count(data.len()), |_i: int| 0u8) + le64(
        ((data.len() * 8) % 0x1_0000_0000_0000_0000) as u64,
    )
}

pub open spec fn hex_char(n: u8) -> char {
    if n < 10 {
        ((n + 48) as u8) as char
    } else {
        ((n + 55) as u8) as char
    }
}

/// A byte as two upper-case hexadecimal digits.
pub open spec fn byte_hex(b: u8) -> Seq<char> {
    seq![hex_char(b >> 4u8), hex_char(b & 0xfu8)]
}

/// A word's little-endian bytes in hexadecimal.
pub open spec fn word_hex(w: u32) -> Seq<char> {
    byte_hex((w & 0xff) as u8) + byte_hex(((w >> 8u32) & 0xff) as u8) + byte_hex(
        ((w >> 16u32) & 0xff) as u8,
    ) + byte_hex(((w >> 24u32) & 0xff) as u8)
}

/// The MD5 digest of `data` in upper-case hexadecimal.
pub open spec fn md5_text(data: Seq<u8>) -> Seq<char> {
    let msg = padded(data);
    let h = digest_state(msg, msg.len() / 64);
    word_hex(h.0) + word_hex(h.1) + word_hex(h.2) + word_hex(h.3)
}

/// An upper-case hexadecimal digit.
pub open spec fn is_upper_hex(c: char) -> bool {
    ('0' <= c && c <= '9') || ('A' <= c && c <= 'F')
}

proof fn lemma_byte_hex(b: u8)
    ensures
        byte_hex(b).len() == 2,
        forall|i: int| 0 <= i < 2 ==> is_upper_hex(#[trigger] byte_hex(b)[i]),
{
    assert(b >> 4u8 < 16u8) by (bit_vector);
    assert(b & 0xfu8 < 16u8) by (bit_vector);
}

proof fn lemma_word_hex(w: u32)
    ensures
        word_hex(w).len() == 8,
        forall|i: int| 0 <= i < 8 ==> is_upper_hex(#[trigger] word_hex(w)[i]),
{
    let b0 = (w & 0xff) as u8;
    let b1 = ((w >> 8u32) & 0xff) as u8;
    let b2 = ((w >> 16u32) & 0xff) as u8;
    let b3 = ((w >> 24u32) & 0xff) as u8;
    lemma_byte_hex(b0);
    lemma_byte_hex(b1);
    lemma_byte_hex(b2);
    lemma_byte_hex(b3);
    let s = word_hex(w);
    assert forall|i: int| 0 <= i < 8 implies is_upper_hex(#[trigger] s[i]) by {
        if i < 2 {
            assert(s[i] == byte_hex(b0)[i]);
        } else if i < 4 {
            assert(s[i] == byte_hex(b1)[i - 2]);
        } else if i < 6 {
            assert(s[i] == byte_hex(b2)[i - 4]);
        } else {
            assert(s[i] == byte_hex(b3)[i - 6]);
        }
    }
}

/// The digest text is 32 upper-case hexadecimal digits.
pub proof fn lemma_md5_text_shape(data: Seq<u8>)
    ensures
        md5_text(data).len() == 32,
        forall|i: int| 0 <= i < 32 ==> is_upper_hex(#[trigger] md5_text(data)[i]),
{
    let msg = padded(data);
    let h = digest_state(msg, msg.len() / 64);
    lemma_word_hex(h.0);
    lemma_word_hex(h.1);
    lemma_word_hex(h.2);
    lemma_word_hex(h.3);
    let s = md5_text(data);
    assert forall|i: int| 0 <= i < 32 implies is_upper_hex(#[trigger] s[i]) by {
        if i < 8 {
            assert(s[i] == word_hex(h.0)[i]);
        } else if i < 16 {
            assert(s[i] == word_hex(h.1)[i - 8]);
        } else if i < 24 {
            assert(s[i] == word_hex(h.2)[i - 16]);
        } else {
            assert(s[i] == word_hex(h.3)[i - 24]);
        }
    }
}

fn hex_digit(n: u8) -> (c: char)
    requires
        n < 16,
    ensures
        c == hex_char(n),
{
    if n < 10 {
        (n + 48) as char
    } else {
        (n + 55) as char
    }
}

fn push_byte_hex(out: &mut Vec<char>, b: u8)
    ensures
        final(out)@ == old(out)@ + byte_hex(b),
{
    assert(b >> 4u8 < 16 && b & 0xfu8 < 16) by (bit_vector);
    out.push(hex_digit(b >> 4));
    out.push(hex_digit(b & 0xf));
}

fn push_word_hex(out: &mut Vec<char>, w: u32)
    ensures
        final(out)@ == old(out)@ + word_hex(w),
{
    assert((w & 0xff) < 256 && ((w >> 8u32) & 0xff) < 256 && ((w >> 16u32) & 0xff) < 256 && ((w
        >> 24u32) & 0xff) < 256) by (bit_vector);
    push_byte_hex(out, (w & 0xff) as u8);
    push_byte_hex(out, ((w >> 8) & 0xff) as u8);
    push_byte_hex(out, ((w >> 16) & 0xff) as u8);
    push_byte_hex(out, ((w >> 24) & 0xff) as u8);
}

/// The padded message.
#[verifier::spinoff_prover]
fn pad(data: &[u8]) -> (msg: Vec<u8>)
    requires
        data@.len() + 72 <= usize::MAX,
    ensures
        msg@ == padded(data@),
        msg@.len() % 64 == 0,
{
    let n = data.len();
    let mut msg: Vec<u8> = Vec::new();
    let mut i: usize = 0;
    while i < n
        invariant
            i <= n == data@.len(),
            msg@ == data@.take(i as int),
        decreases n - i,
    {
        msg.push(data[i]);
        i = i + 1;
        assert(msg@ =~= data@.take(i as int));
    }
    assert(data@.take(n as int) =~= data@);
    msg.push(0x80);
    let ghost z = zero_count(n as nat);
    let mut k: usize = 0;
    while msg.len() % 64 != 56
        invariant
            n == data@.len(),
            n + 72 <= usize::MAX,
            k <= z,
            z == zero_count(n as nat),
            msg@ == data@ + seq![0x80u8] + Seq::new(k as nat, |_i: int| 0u8),
        decreases z - k,
    {
        assert(k < z);
        msg.push(0);
        k = k + 1;
        assert(msg@ =~= data@ + seq![0x80u8] + Seq::new(k as nat, |_i: int| 0u8));
    }
    assert(k == z);
    let bits: u64 = (n as u64).wrapping_mul(8);
    assert(bits == ((n * 8) % 0x1_0000_0000_0000_0000) as u64);
    let mut j: u64 = 0;
    let ghost before = msg@;
    while j < 8
        invariant
            j <= 8,
            before.len() == n + 1 + z,
            msg@ == before + le64(bits).take(j as int),
        decreases 8 - j,
    {
        assert((bits >> (8 * j)) & 0xff < 256) by (bit_vector);
        msg.push(((bits >> (8 * j)) & 0xff) as u8);
        j = j + 1;
        assert(msg@ =~= before + le64(bits).take(j as int));
    }
    assert(le64(bits).take(8) =~= le64(bits));
    msg
}

/// The digest of `data` as 32 upper-case hexadecimal digits, as TeX writes it.
pub fn md5_hex(data: &[u8]) -> (s: String)
    requires
        data@.len() + 72 <= usize::MAX,
    ensures
        s@ == md5_text(data@),
        s@.len() == 32,
        forall|i: int| 0 <= i < 32 ==> is_upper_hex(#[trigger] s@[i]),
{
    proof {
        lemma_md5_text_shape(data@);
    }
    let k = sine_table();
    let msg = pad(data);
    let nblocks = msg.len() / 64;
    let mut h: (u32, u32, u32, u32) = (0x67452301, 0xefcdab89, 0x98badcfe, 0x10325476);
    let mut blk: usize = 0;
    while blk < nblocks
        invariant
            blk <= nblocks == msg@.len() / 64,
            msg@.len() % 64 == 0,
            k@ == sines(),
            h == digest_state(msg@, blk as nat),
        decreases nblocks - blk,
    {
        let mut m: Vec<u32> = Vec::new();
        let mut g: usize = 0;
        while g < 16
            invariant
                g <= 16,
                blk < nblocks == msg@.len() / 64,
                msg@.len() % 64 == 0,
                m@ == block_words(msg@, blk as int).take(g as int),
            decreases 16 - g,
        {
            let len = msg.len();
            assert(64 * blk + 4 * g + 3 < len) by (nonlinear_arith)
                requires
                    blk < len / 64,
                    g < 16,
                    len % 64 == 0,
            ;
            let p = 64 * blk + 4 * g;
            m.push(
                (msg[p] as u32) | ((msg[p + 1] as u32) << 8) | ((msg[p + 2] as u32) << 16) | ((msg[p
                    + 3] as u32) << 24),
            );
            g = g + 1;
            assert(m@ =~= block_words(msg@, blk as int).take(g as int));
        }
        assert(block_words(msg@, blk as int).take(16) =~= block_words(msg@, blk as int));
        let (mut a, mut b, mut c, mut d) = h;
        let mut i: usize = 0;
        while i < 64
            invariant
                i <= 64,
                m@.len() == 16,
                k@ == sines(),
                (a, b, c, d) == rounds(h, m@, i as nat),
            decreases 64 - i,
        {
            let (f, w) = if i < 16 {
                ((b & c) | (!b & d), i)
            } else if i < 32 {
                ((d & b) | (!d & c), (5 * i + 1) % 16)
            } else if i < 48 {
                (b ^ c ^ d, (3 * i + 5) % 16)
            } else {
                (c ^ (b | !d), (7 * i) % 16)
            };
            let j = i % 4;
            let s: u32 = if i < 16 {
                if j == 0 { 7 } else if j == 1 { 12 } else if j == 2 { 17 } else { 22 }
            } else if i < 32 {
                if j == 0 { 5 } else if j == 1 { 9 } else if j == 2 { 14 } else { 20 }
            } else if i < 48 {
                if j == 0 { 4 } else if j == 1 { 11 } else if j == 2 { 16 } else { 23 }
            } else {
                if j == 0 { 6 } else if j == 1 { 10 } else if j == 2 { 15 } else { 21 }
            };
            let sum = a.wrapping_add(f).wrapping_add(k[i]).wrapping_add(m[w]);
            let rotated = (sum << s) | (sum >> (32 - s));
            let na = d;
            let nd = c;
            let nc = b;
            let nb = b.wrapping_add(rotated);
            a = na;
            b = nb;
            c = nc;
            d = nd;
            i = i + 1;
        }
        h = (h.0.wrapping_add(a), h.1.wrapping_add(b), h.2.wrapping_add(c), h.3.wrapping_add(d));
        blk = blk + 1;
    }
    let mut out: Vec<char> = Vec::new();
    push_word_hex(&mut out, h.0);
    push_word_hex(&mut out, h.1);
    push_word_hex(&mut out, h.2);
    push_word_hex(&mut out, h.3);
    string_of(out.as_slice())
}

} // verus!
