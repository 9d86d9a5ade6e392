//! Little-endian bit packing: a byte sequence read as one number, codes taken
//! from its low end.
use vstd::arithmetic::div_mod::*;
use vstd::arithmetic::power2::*;
use vstd::bits::*;
use vstd::prelude::*;

verus! {

/// The bytes read as one little-endian number.
pub open spec fn le_value(s: Seq<u8>) -> nat
    decreases s.len(),
{
    if s.len() == 0 {
        0
    } else {
        s[0] as nat + 256 * le_value(s.drop_first())
    }
}

/// The `width`-bit code that starts at bit `pos` of the stream.
pub open spec fn code_at(s: Seq<u8>, pos: nat, width: nat) -> nat {
    (le_value(s) / pow2(pos)) % pow2(width)
}

/// Byte `k` of the stream is bits `8k .. 8k + 8`.
pub proof fn lemma_byte_at(s: Seq<u8>, k: nat)
    requires
        k < s.len(),
    ensures
        code_at(s, 8 * k, 8) == s[k as int] as nat,
    decreases k,
{
    let v = le_value(s);
    let r = le_value(s.drop_first());
    lemma_pow2_pos(8);
    lemma2_to64();
    assert(v == 256 * r + s[0] as nat);
    if k == 0 {
        lemma2_to64();
        assert(v / 1 == v);
        lemma_mod_multiples_vanish(r as int, s[0] as int, 256);
        lemma_small_mod(s[0] as nat, 256);
    } else {
        lemma_byte_at(s.drop_first(), (k - 1) as nat);
        lemma_div_multiples_vanish_fancy(r as int, s[0] as int, 256);
        lemma_pow2_pos(8 * (k - 1) as nat);
        lemma_pow2_adds(8, 8 * (k - 1) as nat);
        assert(8 + 8 * (k - 1) == 8 * k);
        lemma_div_denominator(v as int, 256, pow2(8 * (k - 1) as nat) as int);
    }
}

/// Widening a window by the next eight bits adds the next byte on top.
pub proof fn lemma_widen(s: Seq<u8>, pos: nat, b: nat)
    requires
        (pos + b) % 8 == 0,
        (pos + b) / 8 < s.len(),
    ensures
        code_at(s, pos, b + 8) == code_at(s, pos, b) + pow2(b) * s[((pos + b) / 8) as int],
{
    let x = le_value(s) / pow2(pos);
    lemma_pow2_pos(pos);
    lemma_pow2_pos(b);
    lemma_pow2_pos(8);
    lemma_pow2_adds(b, 8);
    lemma_mod_breakdown(x as int, pow2(b) as int, pow2(8) as int);
    lemma_pow2_adds(pos, b);
    lemma_div_denominator(le_value(s) as int, pow2(pos) as int, pow2(b) as int);
    let k = ((pos + b) / 8) as nat;
    assert(pos + b == 8 * k);
    lemma_byte_at(s, k);
}

/// Taking the low `w` bits of a `b`-bit window, and what is left of it.
pub proof fn lemma_split(s: Seq<u8>, pos: nat, w: nat, b: nat)
    requires
        w <= b,
    ensures
        code_at(s, pos, b) % pow2(w) == code_at(s, pos, w),
        code_at(s, pos, b) / pow2(w) == code_at(s, pos + w, (b - w) as nat),
{
    let x = le_value(s) / pow2(pos);
    let hi = (b - w) as nat;
    lemma_pow2_pos(pos);
    lemma_pow2_pos(w);
    lemma_pow2_pos(hi);
    lemma_pow2_adds(w, hi);
    assert(w + hi == b);
    lemma_mod_mod(x as int, pow2(w) as int, pow2(hi) as int);
    lemma_mod_breakdown(x as int, pow2(w) as int, pow2(hi) as int);
    lemma_mod_bound(x as int, pow2(w) as int);
    lemma_mod_bound((x / pow2(w)) as int, pow2(hi) as int);
    lemma_div_multiples_vanish_fancy(
        ((x / pow2(w)) % pow2(hi)) as int,
        (x % pow2(w)) as int,
        pow2(w) as int,
    );
    lemma_pow2_adds(pos, w);
    lemma_div_denominator(le_value(s) as int, pow2(pos) as int, pow2(w) as int);
}

/// `a | (y << n)` is `a + y * 2^n` when `a` has no bit at or above `n`.
pub proof fn lemma_or_shifted(a: u64, y: u64, n: u64)
    requires
        n < 40,
        y < 256,
        a < pow2(n as nat),
    ensures
        a | (y << n) == a + y * pow2(n as nat),
        a + y * pow2(n as nat) < pow2((n + 8) as nat),
{
    lemma_pow2_strictly_increases(n as nat, 48);
    lemma2_to64_rest();
    assert(y * pow2(n as nat) <= u64::MAX) by (nonlinear_arith)
        requires
            y < 256,
            pow2(n as nat) < 0x1_0000_0000_0000,
    ;
    lemma_u64_shl_is_mul(1, n);
    lemma_u64_shl_is_mul(y, n);
    assert(a < (1u64 << n));
    assert(a | (y << n) == a + (y << n)) by (bit_vector)
        requires
            a < (1u64 << n),
            n < 40,
            y < 256,
    ;
    lemma_pow2_adds(n as nat, 8);
    lemma2_to64();
    assert(a + y * pow2(n as nat) < pow2(n as nat) * 256) by (nonlinear_arith)
        requires
            a < pow2(n as nat),
            y < 256,
    ;
}

/// The low `w` bits of `a`, and `a` shifted down by `w`.
pub proof fn lemma_take_low(a: u64, w: u64)
    requires
        w < 40,
    ensures
        a & (((1u64 << w) - 1) as u64) == a % (pow2(w as nat) as u64),
        (1u64 << w) == pow2(w as nat),
        a >> w == a as nat / pow2(w as nat),
        pow2(w as nat) <= u64::MAX,
{
    lemma_u64_pow2_no_overflow(w as nat);
    lemma_u64_shl_is_mul(1, w);
    lemma_u64_low_bits_mask_is_mod(a, w as nat);
    lemma_u64_shr_is_div(a, w);
}

/// Appending bytes puts them above all the bits already there.
pub proof fn lemma_le_value_append(s: Seq<u8>, t: Seq<u8>)
    ensures
        le_value(s + t) == le_value(s) + pow2(8 * s.len()) * le_value(t),
    decreases s.len(),
{
    if s.len() == 0 {
        assert(s + t =~= t);
        lemma2_to64();
    } else {
        let s1 = s.drop_first();
        assert((s + t).drop_first() =~= s1 + t);
        lemma_le_value_append(s1, t);
        lemma_pow2_adds(8, 8 * s1.len());
        lemma2_to64();
        assert(8 + 8 * s1.len() == 8 * s.len());
        let a = le_value(s1);
        let b = le_value(t);
        let q = pow2(8 * s1.len());
        assert(256 * (a + q * b) == 256 * a + (256 * q) * b) by (nonlinear_arith);
    }
}

/// A code that lies wholly within `s` reads the same once more bytes follow.
pub proof fn lemma_code_at_append(s: Seq<u8>, t: Seq<u8>, pos: nat, width: nat)
    requires
        pos + width <= 8 * s.len(),
    ensures
        code_at(s + t, pos, width) == code_at(s, pos, width),
{
    lemma_le_value_append(s, t);
    let a = le_value(s);
    let b = le_value(t);
    let gap = (8 * s.len() - pos - width) as nat;
    lemma_pow2_pos(pos);
    lemma_pow2_pos(width);
    lemma_pow2_pos(gap);
    lemma_pow2_adds(pos, (width + gap) as nat);
    lemma_pow2_adds(width, gap);
    assert(pos + (width + gap) == 8 * s.len());
    let k = pow2(width) * (pow2(gap) * b);
    assert(pow2(8 * s.len()) * b == pow2(pos) * k) by (nonlinear_arith)
        requires
            pow2(8 * s.len()) == pow2(pos) * pow2((width + gap) as nat),
            pow2((width + gap) as nat) == pow2(width) * pow2(gap),
            k == pow2(width) * (pow2(gap) * b),
    ;
    lemma_fundamental_div_mod(a as int, pow2(pos) as int);
    lemma_mod_bound(a as int, pow2(pos) as int);
    assert(a + pow2(pos) * k == pow2(pos) * (a / pow2(pos) + k) + a % pow2(pos)) by (nonlinear_arith)
        requires
            a == pow2(pos) * (a / pow2(pos)) + a % pow2(pos),
    ;
    lemma_div_multiples_vanish_fancy((a / pow2(pos) + k) as int, (a % pow2(pos)) as int, pow2(pos) as int);
    lemma_mod_multiples_vanish((pow2(gap) * b) as int, (a / pow2(pos)) as int, pow2(width) as int);
    assert(a / pow2(pos) + k == pow2(width) * (pow2(gap) * b) + a / pow2(pos));
}

/// `n` bytes make a number below `2^(8n)`.
pub proof fn lemma_le_value_bound(s: Seq<u8>)
    ensures
        le_value(s) < pow2(8 * s.len()),
    decreases s.len(),
{
    lemma2_to64();
    if s.len() > 0 {
        let s1 = s.drop_first();
        lemma_le_value_bound(s1);
        lemma_pow2_adds(8, 8 * s1.len());
        assert(8 + 8 * s1.len() == 8 * s.len());
        let a = le_value(s1);
        let q = pow2(8 * s1.len());
        assert(s[0] as nat + 256 * a < 256 * q) by (nonlinear_arith)
            requires
                a < q,
                s[0] < 256,
        ;
    }
}

/// Dropping whole bytes from the front shifts every later code down by their bits.
pub proof fn lemma_code_at_shift(a: Seq<u8>, b: Seq<u8>, pos: nat, width: nat)
    ensures
        code_at(a + b, 8 * a.len() + pos, width) == code_at(b, pos, width),
{
    lemma_le_value_append(a, b);
    lemma_le_value_bound(a);
    let n = 8 * a.len();
    lemma_pow2_pos(n);
    lemma_pow2_pos(pos);
    lemma_pow2_adds(n, pos);
    let va = le_value(a);
    let vb = le_value(b);
    lemma_div_multiples_vanish_fancy(vb as int, va as int, pow2(n) as int);
    assert(va + pow2(n) * vb == pow2(n) * vb + va);
    lemma_div_denominator((va + pow2(n) * vb) as int, pow2(n) as int, pow2(pos) as int);
}

} // verus!
