//! Whole-number rendering of counters, ratios and sensor readings.
use vstd::prelude::*;
use vstd::arithmetic::power2::{pow2, lemma_pow2_adds, lemma_pow2_strictly_increases, lemma_pow2_unfold};
use vstd::arithmetic::div_mod::{lemma_fundamental_div_mod, lemma_fundamental_div_mod_converse, lemma_small_mod};

verus! {

/// Text shown in place of a value that cannot be computed.
pub open spec fn placeholder() -> Seq<char> {
    seq!['-', '-']
}

/// The placeholder text.
pub fn placeholder_str() -> (r: &'static str)
    ensures
        r@ == placeholder(),
{
    proof {
        reveal_strlit("--");
    }
    "--"
}

pub open spec fn digit(d: int) -> char {
    seq!['0', '1', '2', '3', '4', '5', '6', '7', '8', '9'][d]
}

/// Decimal digits of `v`, most significant first, without leading zeros.
pub open spec fn decimal(v: nat) -> Seq<char>
    decreases v,
{
    if v < 10 {
        seq![digit(v as int)]
    } else {
        decimal(v / 10) + seq![digit((v % 10) as int)]
    }
}

/// `p / q` rounded to the nearest whole number, ties to the even one.
pub open spec fn round_half_even(p: nat, q: nat) -> nat
    recommends
        q > 0,
{
    let f = p / q;
    let r = p % q;
    if 2 * r > q {
        f + 1
    } else if 2 * r < q {
        f
    } else if f % 2 == 0 {
        f
    } else {
        f + 1
    }
}

fn digit_str(d: u128) -> (r: &'static str)
    requires
        d < 10,
    ensures
        r@ == seq![digit(d as int)],
{
    let all = "0123456789";
    proof {
        reveal_strlit("0123456789");
    }
    let r = all.substring_char(d as usize, d as usize + 1);
    assert(r@ =~= seq![digit(d as int)]);
    r
}

/// Appends the decimal digits of `v`.
pub fn push_decimal(s: &mut String, v: u128)
    ensures
        final(s)@ == old(s)@ + decimal(v as nat),
    decreases v,
{
    let ghost start = s@;
    if v >= 10 {
        push_decimal(s, v / 10);
    }
    s.append(digit_str(v % 10));
    proof {
        if v >= 10 {
            assert(start + decimal(v as nat / 10) + seq![digit((v % 10) as int)] =~= start + (
            decimal(v as nat / 10) + seq![digit((v % 10) as int)]));
        }
    }
}

/// The decimal text of `v`.
pub fn decimal_string(v: u128) -> (r: String)
    ensures
        r@ == decimal(v as nat),
{
    let mut s = String::new();
    push_decimal(&mut s, v);
    assert(Seq::<char>::empty() + decimal(v as nat) =~= decimal(v as nat));
    s
}

/// `p / q` rounded half to even.
pub fn div_round_half_even(p: u128, q: u128) -> (r: u128)
    requires
        q > 0,
    ensures
        r == round_half_even(p as nat, q as nat),
{
    let f = p / q;
    let rem = p % q;
    let half_up = rem > q - rem;
    let half_down = rem < q - rem;
    proof {
        lemma_fundamental_div_mod(p as int, q as int);
        if q >= 2 {
            assert(f + 1 <= u128::MAX) by (nonlinear_arith)
                requires
                    q >= 2,
                    p == q * f + rem,
                    rem >= 0,
                    f >= 0,
                    p <= u128::MAX,
            ;
        }
    }
    if half_up {
        f + 1
    } else if half_down {
        f
    } else if f % 2 == 0 {
        f
    } else {
        f + 1
    }
}

/// `used / total` in percent, rounded half to even; none when `total` is zero.
pub open spec fn percent_spec(used: nat, total: nat) -> Option<nat> {
    if total == 0 {
        None
    } else {
        Some(round_half_even(used * 100, total))
    }
}

/// The rounded percentage, as text, or the placeholder.
pub open spec fn percent_text(used: nat, total: nat) -> Seq<char> {
    match percent_spec(used, total) {
        Some(p) => decimal(p),
        None => placeholder(),
    }
}

/// `used / total` in percent, rounded half to even; `None` when `total` is zero.
pub fn percent(used: u64, total: u64) -> (r: Option<u128>)
    ensures
        r.is_some() == (total > 0),
        r.is_some() ==> Some(r.unwrap() as nat) == percent_spec(used as nat, total as nat),
{
    if total == 0 {
        None
    } else {
        Some(div_round_half_even(used as u128 * 100, total as u128))
    }
}

/// Appends the percentage field for `used` of `total`.
pub fn push_percent(s: &mut String, used: u64, total: u64)
    ensures
        final(s)@ == old(s)@ + percent_text(used as nat, total as nat),
{
    match percent(used, total) {
        Some(p) => push_decimal(s, p),
        None => s.append(placeholder_str()),
    }
}

/// Biased exponent of an IEEE-754 single-precision value given by its bits.
pub open spec fn exponent_field(bits: u32) -> nat {
    ((bits as nat) / 0x80_0000) % 0x100
}

/// Stored fraction of the value.
pub open spec fn fraction_field(bits: u32) -> nat {
    (bits as nat) % 0x80_0000
}

pub open spec fn sign_set(bits: u32) -> bool {
    bits as nat >= 0x8000_0000
}

/// Infinities and NaNs have every exponent bit set.
pub open spec fn is_finite_bits(bits: u32) -> bool {
    exponent_field(bits) != 0xff
}

/// The integer significand: the magnitude is `significand * 2^scale_exponent`.
pub open spec fn significand(bits: u32) -> nat {
    if exponent_field(bits) == 0 {
        fraction_field(bits)
    } else {
        fraction_field(bits) + 0x80_0000
    }
}

pub open spec fn scale_exponent(bits: u32) -> int {
    if exponent_field(bits) == 0 {
        -149
    } else {
        exponent_field(bits) - 150
    }
}

/// The magnitude of a finite value rounded to a whole number, ties to even.
pub open spec fn rounded_magnitude(bits: u32) -> nat {
    let e = scale_exponent(bits);
    if e >= 0 {
        significand(bits) * pow2(e as nat)
    } else {
        round_half_even(significand(bits), pow2((-e) as nat))
    }
}

/// A sensor reading as a whole number: a minus sign when the sign bit is
/// set, then the rounded magnitude; infinities and NaNs show the placeholder.
pub open spec fn reading_text(bits: u32) -> Seq<char> {
    if !is_finite_bits(bits) {
        placeholder()
    } else if sign_set(bits) {
        seq!['-'] + decimal(rounded_magnitude(bits))
    } else {
        decimal(rounded_magnitude(bits))
    }
}

fn scale_up(sig: u128, e: u32) -> (r: u128)
    requires
        sig < pow2(24),
        e <= 104,
    ensures
        r == sig * pow2(e as nat),
{
    let mut v = sig;
    let mut i: u32 = 0;
    proof {
        vstd::arithmetic::power2::lemma2_to64();
        vstd::arithmetic::power2::lemma2_to64_rest();
        lemma_pow2_adds(64, 64);
        lemma_pow2_adds(24, 104);
    }
    while i < e
        invariant
            i <= e,
            e <= 104,
            sig < pow2(24),
            v == sig * pow2(i as nat),
            pow2(24) * pow2(104) == u128::MAX + 1,
        decreases e - i,
    {
        proof {
            lemma_pow2_unfold((i + 1) as nat);
            vstd::arithmetic::power2::lemma_pow2_pos((i + 1) as nat);
            if i + 1 < 104 {
                lemma_pow2_strictly_increases((i + 1) as nat, 104);
            }
            let a = sig as int;
            let b = pow2((i + 1) as nat) as int;
            assert(a * b < pow2(24) * pow2(104)) by (nonlinear_arith)
                requires
                    0 <= a < pow2(24),
                    0 < b <= pow2(104),
            ;
            assert(sig * pow2((i + 1) as nat) == 2 * v) by (nonlinear_arith)
                requires
                    v == sig * pow2(i as nat),
                    pow2((i + 1) as nat) == 2 * pow2(i as nat),
            ;
        }
        v = v * 2;
        i = i + 1;
    }
    v
}

fn scale_down(sig: u128, shift: u32) -> (r: u128)
    requires
        sig < pow2(24),
        1 <= shift,
    ensures
        r == round_half_even(sig as nat, pow2(shift as nat)),
{
    proof {
        vstd::arithmetic::power2::lemma2_to64();
        vstd::arithmetic::power2::lemma2_to64_rest();
    }
    if shift >= 64 {
        proof {
            lemma_pow2_strictly_increases(63, shift as nat);
            lemma_fundamental_div_mod_converse(sig as int, pow2(shift as nat) as int, 0, sig as int);
        }
        return 0;
    }
    let mut d: u128 = 1;
    let mut i: u32 = 0;
    while i < shift
        invariant
            i <= shift < 64,
            d == pow2(i as nat),
            pow2(64) == 0x1_0000_0000_0000_0000,
        decreases shift - i,
    {
        proof {
            lemma_pow2_unfold((i + 1) as nat);
            if i + 1 < 64 {
                lemma_pow2_strictly_increases((i + 1) as nat, 64);
            }
        }
        d = d * 2;
        i = i + 1;
    }
    div_round_half_even(sig, d)
}

/// Appends a reading given by the bits of an `f32`, as a whole number.
pub fn push_reading(s: &mut String, bits: u32)
    ensures
        final(s)@ == old(s)@ + reading_text(bits),
{
    let exp = (bits / 0x80_0000) % 0x100;
    let frac = bits % 0x80_0000;
    if exp == 0xff {
        s.append(placeholder_str());
        return;
    }
    proof {
        vstd::arithmetic::power2::lemma2_to64();
    }
    let sig: u128 = if exp == 0 {
        frac as u128
    } else {
        frac as u128 + 0x80_0000
    };
    let mag = if exp >= 150 {
        scale_up(sig, exp - 150)
    } else if exp == 0 {
        scale_down(sig, 149)
    } else {
        scale_down(sig, 150 - exp)
    };
    let ghost start = s@;
    if bits >= 0x8000_0000 {
        proof {
            reveal_strlit("-");
        }
        s.append("-");
        push_decimal(s, mag);
        assert(start + seq!['-'] + decimal(mag as nat) =~= start + (seq!['-'] + decimal(
            mag as nat,
        )));
    } else {
        push_decimal(s, mag);
    }
}

/// The text of a reading given by the bits of an `f32`.
pub fn reading_string(bits: u32) -> (r: String)
    ensures
        r@ == reading_text(bits),
{
    let mut s = String::new();
    push_reading(&mut s, bits);
    assert(Seq::<char>::empty() + reading_text(bits) =~= reading_text(bits));
    s
}

} // verus!
