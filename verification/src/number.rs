//! Fixed-width little-endian and base-128 variable-length integers, as the
//! binary formats of this crate lay them out.

use vstd::arithmetic::power::pow;
use vstd::prelude::*;

verus! {

/// The number whose base-256 digits are `s`, least significant digit first.
pub open spec fn le_value(s: Seq<u8>) -> nat
    decreases s.len(),
{
    if s.len() == 0 {
        0
    } else {
        s[0] as nat + 256 * le_value(s.drop_first())
    }
}

/// Decodes the first two bytes of `buf`, little-endian.
pub fn decode_u16_le(buf: &[u8]) -> (v: u16)
    requires
        buf@.len() >= 2,
    ensures
        v as nat == le_value(buf@.take(2)),
{
    proof {
        reveal_with_fuel(le_value, 3);
        let s = buf@.take(2);
        assert(s.drop_first().drop_first().len() == 0);
    }
    buf[0] as u16 + 256 * (buf[1] as u16)
}

/// Decodes the first four bytes of `buf`, little-endian.
pub fn decode_u32_le(buf: &[u8]) -> (v: u32)
    requires
        buf@.len() >= 4,
    ensures
        v as nat == le_value(buf@.take(4)),
{
    proof {
        reveal_with_fuel(le_value, 5);
        let s = buf@.take(4);
        assert(s.drop_first().drop_first().drop_first().drop_first().len() == 0);
    }
    buf[0] as u32 + 256 * (buf[1] as u32 + 256 * (buf[2] as u32 + 256 * (buf[3] as u32)))
}

/// The `n` low base-256 digits of `v`, least significant digit first.
pub open spec fn le_digits(v: nat, n: nat) -> Seq<u8>
    decreases n,
{
    if n == 0 {
        Seq::empty()
    } else {
        seq![(v % 256) as u8] + le_digits(v / 256, (n - 1) as nat)
    }
}

/// 256 to the power of `n`.
pub open spec fn pow256(n: nat) -> nat
    decreases n,
{
    if n == 0 {
        1
    } else {
        256 * pow256((n - 1) as nat)
    }
}

/// Reading back digits gives the number again, where it has no more of them.
pub proof fn lemma_le_round_trip(v: nat, n: nat)
    requires
        v < pow256(n),
    ensures
        le_digits(v, n).len() == n,
        le_value(le_digits(v, n)) == v,
    decreases n,
{
    if n > 0 {
        lemma_le_round_trip(v / 256, (n - 1) as nat);
        assert(le_digits(v, n).drop_first() =~= le_digits(v / 256, (n - 1) as nat));
    }
}

/// Encodes a 64-bit integer in eight bytes, little-endian, in two's
/// complement.
pub fn encode_i64_le(x: i64) -> (r: Vec<u8>)
    ensures
        r@ == le_digits(x as u64 as nat, 8),
        r@.len() == 8,
        le_value(r@) == x as u64,
{
    let mut out: Vec<u8> = Vec::new();
    let mut v: u64 = x as u64;
    let mut i: usize = 0;
    assert(out@ + le_digits(v as nat, 8) =~= le_digits(v as nat, 8));
    while i < 8
        invariant
            i <= 8,
            out@.len() == i,
            out@ + le_digits(v as nat, (8 - i) as nat) == le_digits(x as u64 as nat, 8),
        decreases 8 - i,
    {
        let ghost before = out@;
        let b: u8 = (v % 256) as u8;
        out.push(b);
        assert(before + (seq![b] + le_digits((v / 256) as nat, (7 - i) as nat)) =~= out@
            + le_digits((v / 256) as nat, (7 - i) as nat));
        v = v / 256;
        i = i + 1;
    }
    assert(out@ + le_digits(v as nat, 0) =~= out@);
    proof {
        assert(pow256(8) == 0x1_0000_0000_0000_0000) by {
            reveal_with_fuel(pow256, 9);
        }
        lemma_le_round_trip(x as u64 as nat, 8);
    }
    out
}

/// The longest encoding of a variable-length 64-bit integer, in bytes.
pub const MAX_VARINT64_LENGTH: usize = 10;

/// The number whose base-128 digits are the low seven bits of each byte of
/// `s`, least significant digit first.
pub open spec fn base128_value(s: Seq<u8>) -> nat
    decreases s.len(),
{
    if s.len() == 0 {
        0
    } else {
        (s[0] % 128) as nat + 128 * base128_value(s.drop_first())
    }
}

/// Where the run of bytes that starts at `i` stops: one past the first byte
/// whose high bit is clear, if that byte is in `s` and among its first ten.
pub open spec fn varint_end(s: Seq<u8>, i: nat) -> Option<nat>
    decreases MAX_VARINT64_LENGTH - i,
{
    if i >= MAX_VARINT64_LENGTH || i >= s.len() {
        None
    } else if s[i as int] < 128 {
        Some(i + 1)
    } else {
        varint_end(s, i + 1)
    }
}

/// The variable-length integer at the start of `s` and the number of bytes it
/// takes. Bits past the sixty-fourth are dropped.
pub open spec fn varint(s: Seq<u8>) -> Option<(nat, nat)> {
    match varint_end(s, 0) {
        Some(n) => Some((base128_value(s.take(n as int)) % 0x1_0000_0000_0000_0000, n)),
        None => None,
    }
}

spec fn pow128(n: nat) -> nat
    decreases n,
{
    if n == 0 {
        1
    } else {
        128 * pow128((n - 1) as nat)
    }
}

/// Appending a byte adds it as the most significant digit.
proof fn lemma_base128_push(s: Seq<u8>, b: u8)
    ensures
        base128_value(s.push(b)) == base128_value(s) + (b % 128) as nat * pow128(s.len()),
    decreases s.len(),
{
    let t = s.push(b);
    if s.len() == 0 {
        assert(t.drop_first() =~= Seq::<u8>::empty());
        assert(base128_value(t.drop_first()) == 0);
        assert((b % 128) as nat * pow128(0) == (b % 128) as nat) by (nonlinear_arith)
            requires
                pow128(0) == 1,
        ;
    } else {
        assert(t.drop_first() =~= s.drop_first().push(b));
        lemma_base128_push(s.drop_first(), b);
        let d = (b % 128) as nat;
        let p = pow128((s.len() - 1) as nat);
        assert(d * (128 * p) == 128 * (d * p)) by (nonlinear_arith);
    }
}

proof fn lemma_varint_end_bounds(s: Seq<u8>, i: nat)
    ensures
        varint_end(s, i) matches Some(n) ==> i < n <= s.len() && n <= MAX_VARINT64_LENGTH,
    decreases MAX_VARINT64_LENGTH - i,
{
    if i < MAX_VARINT64_LENGTH && i < s.len() && s[i as int] >= 128 {
        lemma_varint_end_bounds(s, i + 1);
    }
}

/// A variable-length integer takes between one and ten bytes, all of them in
/// `s`, and its value fits in sixty-four bits.
pub proof fn lemma_varint_bounds(s: Seq<u8>)
    ensures
        varint(s) matches Some((v, n)) ==> v <= u64::MAX && 1 <= n <= s.len() && n
            <= MAX_VARINT64_LENGTH,
{
    lemma_varint_end_bounds(s, 0);
}

/// What a longer buffer holds past the integer does not matter.
pub proof fn lemma_varint_prefix(s: Seq<u8>, t: Seq<u8>)
    requires
        varint(s) is Some,
    ensures
        varint(s + t) == varint(s),
{
    lemma_varint_end_prefix(s, t, 0);
    lemma_varint_end_bounds(s, 0);
    let n = varint_end(s, 0)->0;
    assert((s + t).take(n as int) =~= s.take(n as int));
}

proof fn lemma_varint_end_prefix(s: Seq<u8>, t: Seq<u8>, i: nat)
    requires
        varint_end(s, i) is Some,
    ensures
        varint_end(s + t, i) == varint_end(s, i),
    decreases MAX_VARINT64_LENGTH - i,
{
    if s[i as int] >= 128 {
        lemma_varint_end_prefix(s, t, i + 1);
    }
}

/// Decodes the variable-length integer at the start of `buf`: its value and
/// the number of bytes it takes, or `None` where the buffer or the first ten
/// bytes end before the integer does.
pub fn try_decode_var_u64(buf: &[u8]) -> (r: Option<(u64, usize)>)
    ensures
        match r {
            Some((v, n)) => varint(buf@) == Some((v as nat, n as nat)),
            None => varint(buf@) is None,
        },
{
    let mut val: u64 = 0;
    let mut scale: u64 = 1;
    let mut i: usize = 0;
    assert(buf@.take(0) =~= Seq::<u8>::empty());
    while i < MAX_VARINT64_LENGTH && i < buf.len()
        invariant
            i <= MAX_VARINT64_LENGTH,
            i <= buf@.len(),
            i < MAX_VARINT64_LENGTH ==> scale == pow128(i as nat),
            i < MAX_VARINT64_LENGTH ==> scale <= 0x8000_0000_0000_0000,
            i < MAX_VARINT64_LENGTH ==> val < scale,
            i < MAX_VARINT64_LENGTH ==> val == base128_value(buf@.take(i as int)),
            i < 9 ==> scale <= 0x0100_0000_0000_0000,
            i < 8 ==> scale <= 0x0002_0000_0000_0000,
            i < 7 ==> scale <= 0x0000_0400_0000_0000,
            i < 6 ==> scale <= 0x0000_0008_0000_0000,
            i < 5 ==> scale <= 0x0000_0000_1000_0000,
            i < 4 ==> scale <= 0x0000_0000_0020_0000,
            i < 3 ==> scale <= 0x0000_0000_0000_4000,
            i < 2 ==> scale <= 0x0000_0000_0000_0080,
            i < 1 ==> scale <= 1,
            i == 9 ==> scale == 0x8000_0000_0000_0000,
            varint_end(buf@, i as nat) == varint_end(buf@, 0),
        decreases MAX_VARINT64_LENGTH - i,
    {
        let b: u8 = buf[i];
        let low: u64 = (b % 128) as u64;
        proof {
            assert(buf@.take(i + 1) =~= buf@.take(i as int).push(b));
            lemma_base128_push(buf@.take(i as int), b);
        }
        let digit: u64 = if i < 9 {
            assert(low * scale <= 127 * scale) by (nonlinear_arith)
                requires
                    low <= 127,
            ;
            low * scale
        } else {
            (low % 2) * 0x8000_0000_0000_0000
        };
        proof {
            if i == 9 {
                let d = low as int;
                assert(d * 0x8000_0000_0000_0000 == (d % 2) * 0x8000_0000_0000_0000 + (d / 2)
                    * 0x1_0000_0000_0000_0000);
            }
        }
        let ghost sum: nat = base128_value(buf@.take(i + 1));
        assert((val + digit) as int == sum % 0x1_0000_0000_0000_0000) by {
            if i == 9 {
                let d = low as int;
                let v = val + digit;
                assert(sum == v + (d / 2) * 0x1_0000_0000_0000_0000);
                assert(0 <= v < 0x1_0000_0000_0000_0000);
                vstd::arithmetic::div_mod::lemma_fundamental_div_mod_converse(
                    sum as int,
                    0x1_0000_0000_0000_0000,
                    d / 2,
                    v as int,
                );
            }
        }
        val = val + digit;
        i = i + 1;
        if b < 128 {
            return Some((val, i));
        }
        if i < 9 {
            scale = scale * 128;
        } else if i == 9 {
            scale = 0x8000_0000_0000_0000;
            proof {
                reveal_with_fuel(pow128, 10);
            }
        }
    }
    None
}

/// A byte alone is its own value, and bytes further back weigh 256 times as
/// much for every byte in front of them.
pub proof fn lemma_le_value_splits(a: Seq<u8>, b: Seq<u8>)
    ensures
        le_value(Seq::<u8>::empty()) == 0,
        a.len() == 1 ==> le_value(a) == a[0],
        le_value(a + b) == le_value(a) + pow(256, a.len()) * le_value(b),
    decreases a.len(),
{
    assert(pow(256, 0) == 1) by {
        reveal(pow);
    }
    if a.len() == 0 {
        assert(a + b =~= b);
    } else {
        let rest = a.drop_first();
        lemma_le_value_splits(rest, b);
        assert((a + b).drop_first() =~= rest + b);
        let p = pow(256, rest.len());
        let v = le_value(b) as int;
        assert(pow(256, a.len()) == 256 * p) by {
            reveal(pow);
        }
        assert((256 * p) * v == 256 * (p * v)) by (nonlinear_arith);
        assert((a + b)[0] == a[0]);
        assert(le_value(a + b) == a[0] + 256 * le_value(rest + b));
        assert(le_value(a) == a[0] + 256 * le_value(rest));
        assert(256 * (le_value(rest) + p * v) == 256 * le_value(rest) + 256 * (p * v));
        if a.len() == 1 {
            assert(le_value(rest) == 0);
        }
    }
}

/// Two bytes and four bytes, written out.
pub proof fn lemma_le_value_of_few(s: Seq<u8>)
    ensures
        s.len() == 2 ==> le_value(s) == s[0] + 256 * s[1],
        s.len() == 4 ==> le_value(s) == s[0] + 256 * s[1] + 65_536 * s[2] + 16_777_216 * s[3],
{
    reveal_with_fuel(le_value, 5);
}

/// Digit `i` of a number is what is left of it after `i` divisions by 256.
pub proof fn lemma_le_digits_are_quotients(v: nat, n: nat, i: int)
    requires
        0 <= i < n,
    ensures
        le_digits(v, n).len() == n,
        le_digits(v, n)[i] == (v as int / pow(256, i as nat)) % 256,
    decreases n,
{
    reveal(pow);
    let rest = le_digits(v / 256, (n - 1) as nat);
    lemma_le_digits_len(v / 256, (n - 1) as nat);
    if i > 0 {
        lemma_le_digits_are_quotients(v / 256, (n - 1) as nat, i - 1);
        assert(le_digits(v, n)[i] == rest[i - 1]);
        vstd::arithmetic::power::lemma_pow_positive(256, (i - 1) as nat);
        vstd::arithmetic::div_mod::lemma_div_denominator(v as int, 256, pow(256, (i - 1) as nat));
        assert(pow(256, i as nat) == 256 * pow(256, (i - 1) as nat));
    } else {
        assert(pow(256, 0) == 1);
    }
}

proof fn lemma_le_digits_len(v: nat, n: nat)
    ensures
        le_digits(v, n).len() == n,
    decreases n,
{
    if n > 0 {
        lemma_le_digits_len(v / 256, (n - 1) as nat);
    }
}

/// A variable-length integer ends at the first byte below 128, which is one of
/// the first ten; there is none where the bytes end before. One byte is its own
/// value. A byte from 128 on gives its low seven bits, and the bytes behind it
/// weigh 128 times as much, up to 64 bits in all.
pub proof fn lemma_varint_by_bytes(s: Seq<u8>, n: int)
    ensures
        s.len() == 0 ==> varint(s) is None,
        s.len() > 0 && s[0] < 128 ==> varint(s) == Some((s[0] as nat, 1nat)),
        0 < n <= s.len() && n <= 10 && s[n - 1] < 128 && (forall|i: int|
            0 <= i < n - 1 ==> #[trigger] s[i] >= 128) ==> varint(s) is Some && (varint(
            s,
        )->0).1 == n,
        (forall|i: int| 0 <= i < s.len() && i < 10 ==> #[trigger] s[i] >= 128) ==> varint(s) is None,
        s.len() > 0 && s[0] >= 128 ==> match varint(s.drop_first()) {
            Some((v, k)) => if k <= 9 {
                varint(s) == Some(
                    (((s[0] - 128 + 128 * v) % 0x1_0000_0000_0000_0000) as nat, k + 1),
                )
            } else {
                varint(s) is None
            },
            None => varint(s) is None,
        },
{
    lemma_varint_end_by_bytes(s, 0);
    if s.len() > 0 && s[0] < 128 {
        assert(varint_end(s, 0) == Some(1nat));
        let one = s.take(1);
        assert(one.drop_first() =~= Seq::<u8>::empty());
        assert(base128_value(one.drop_first()) == 0);
        assert(base128_value(one) == s[0]);
        vstd::arithmetic::div_mod::lemma_small_mod(s[0] as nat, 0x1_0000_0000_0000_0000);
    }
    if 0 < n <= s.len() && n <= 10 && s[n - 1] < 128 && (forall|i: int|
        0 <= i < n - 1 ==> #[trigger] s[i] >= 128) {
        lemma_varint_end_at(s, 0, n);
    }
    if s.len() > 0 && s[0] >= 128 {
        let t = s.drop_first();
        lemma_varint_end_shift(s, 0);
        lemma_varint_end_bounds(t, 0);
        if let Some(k) = varint_end(t, 0) {
            if k <= 9 {
                assert(s.take(k as int + 1).drop_first() =~= t.take(k as int));
                let b = base128_value(t.take(k as int)) as int;
                let m = 0x1_0000_0000_0000_0000int;
                let a = (s[0] - 128) as int;
                assert(s[0] % 128 == s[0] - 128);
                vstd::arithmetic::div_mod::lemma_mul_mod_noop_right(128, b, m);
                vstd::arithmetic::div_mod::lemma_add_mod_noop_right(a, 128 * b, m);
                vstd::arithmetic::div_mod::lemma_add_mod_noop_right(a, 128 * (b % m), m);
            }
        }
    }
}

proof fn lemma_varint_end_by_bytes(s: Seq<u8>, i: nat)
    ensures
        (forall|j: int| i <= j < s.len() && j < 10 ==> #[trigger] s[j] >= 128) ==> varint_end(s, i)
            is None,
    decreases MAX_VARINT64_LENGTH - i,
{
    if i < MAX_VARINT64_LENGTH && i < s.len() {
        lemma_varint_end_by_bytes(s, i + 1);
    }
}

proof fn lemma_varint_end_at(s: Seq<u8>, i: nat, n: int)
    requires
        i < n <= s.len(),
        n <= 10,
        s[n - 1] < 128,
        forall|j: int| 0 <= j < n - 1 ==> #[trigger] s[j] >= 128,
    ensures
        varint_end(s, i) == Some(n as nat),
    decreases n - i,
{
    if i < n - 1 {
        lemma_varint_end_at(s, i + 1, n);
    }
}

proof fn lemma_varint_end_shift(s: Seq<u8>, i: nat)
    requires
        s.len() > 0,
    ensures
        match varint_end(s.drop_first(), i) {
            Some(k) => if k <= 9 {
                varint_end(s, i + 1) == Some(k + 1)
            } else {
                varint_end(s, i + 1) is None
            },
            None => varint_end(s, i + 1) is None,
        },
    decreases MAX_VARINT64_LENGTH - i,
{
    let t = s.drop_first();
    if i < MAX_VARINT64_LENGTH && i < t.len() {
        assert(t[i as int] == s[i as int + 1]);
        if t[i as int] >= 128 {
            lemma_varint_end_shift(s, i + 1);
        }
        lemma_varint_end_bounds(t, i);
    }
}

} // verus!
