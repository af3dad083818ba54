//! Reproducible colors for bindings: a seed picks a hue, a saturation and a
//! lightness, and the same seed always picks the same three.

use rand::rngs::StdRng;
use rand::{Rng, SeedableRng};
use vstd::prelude::*;

verus! {

/// Lowest hue drawn.
pub const HUE_LOW: u16 = 0;

/// One past the highest hue drawn.
pub const HUE_HIGH: u16 = 361;

/// Lowest saturation drawn, in percent.
pub const SATURATION_LOW: u16 = 42;

/// One past the highest saturation drawn, in percent.
pub const SATURATION_HIGH: u16 = 99;

/// Lowest lightness drawn, in percent.
pub const LIGHTNESS_LOW: u16 = 40;

/// One past the highest lightness drawn, in percent.
pub const LIGHTNESS_HIGH: u16 = 91;

/// The three numbers that a generator seeded with `seed` draws in turn, the
/// first from `[low.0, high.0)`, the second from `[low.1, high.1)`, the third
/// from `[low.2, high.2)`.
pub uninterp spec fn seeded_draws(seed: u64, low: (u16, u16, u16), high: (u16, u16, u16)) -> (u16, u16, u16);

/// Relies on rand's `StdRng::seed_from_u64`, which builds the generator from
/// the seed alone, and on `Rng::gen_range`, which returns a value in
/// `[low, high)` and panics only when `low >= high`. `StdRng` is used rather
/// than `SmallRng` because its algorithm (ChaCha20 in this version) does not
/// depend on the platform's word size, so the draws are a function of the
/// arguments.
#[verifier::external_body]
fn draw_seeded(seed: u64, low: (u16, u16, u16), high: (u16, u16, u16)) -> (r: (u16, u16, u16))
    requires
        low.0 < high.0,
        low.1 < high.1,
        low.2 < high.2,
    ensures
        r == seeded_draws(seed, low, high),
        low.0 <= r.0 < high.0,
        low.1 <= r.1 < high.1,
        low.2 <= r.2 < high.2,
{
    let mut rng = StdRng::seed_from_u64(seed);
    let h: u16 = rng.gen_range(low.0, high.0);
    let s: u16 = rng.gen_range(low.1, high.1);
    let l: u16 = rng.gen_range(low.2, high.2);
    (h, s, l)
}

/// The hue, saturation and lightness given to the binding `seed`.
pub open spec fn binding_hsl_of(seed: u64) -> (u16, u16, u16) {
    seeded_draws(
        seed,
        (HUE_LOW, SATURATION_LOW, LIGHTNESS_LOW),
        (HUE_HIGH, SATURATION_HIGH, LIGHTNESS_HIGH),
    )
}

/// Hue, saturation and lightness for the binding `seed`: hue in `[0, 360]`,
/// saturation in `[42, 98]`, lightness in `[40, 90]`.
pub fn binding_hsl(seed: u64) -> (r: (u16, u16, u16))
    ensures
        r == binding_hsl_of(seed),
        r.0 <= 360,
        42 <= r.1 <= 98,
        40 <= r.2 <= 90,
{
    draw_seeded(
        seed,
        (HUE_LOW, SATURATION_LOW, LIGHTNESS_LOW),
        (HUE_HIGH, SATURATION_HIGH, LIGHTNESS_HIGH),
    )
}

/// The character of the decimal digit `d`.
pub open spec fn digit_char(d: nat) -> char {
    ((48 + d) as u8) as char
}

/// `n` written in decimal, without leading zeros.
pub open spec fn decimal(n: nat) -> Seq<char>
    decreases n,
{
    if n < 10 {
        seq![digit_char(n)]
    } else {
        decimal(n / 10).push(digit_char(n % 10))
    }
}

/// Appends `n` in decimal.
pub fn push_decimal(out: &mut String, n: u64)
    ensures
        final(out)@ == old(out)@ + decimal(n as nat),
    decreases n,
{
    if n >= 10 {
        push_decimal(out, n / 10);
    }
    let d: u8 = (n % 10) as u8;
    out.push((48u8 + d) as char);
    proof {
        if n < 10 {
            assert(old(out)@ + decimal(n as nat) =~= old(out)@.push(digit_char(n as nat)));
        } else {
            assert(old(out)@ + decimal(n as nat) =~= (old(out)@ + decimal((n / 10) as nat)).push(
                digit_char((n % 10) as nat),
            ));
        }
    }
}

/// The CSS color `hsl(h,s%,l%)`.
pub open spec fn hsl_text(h: nat, s: nat, l: nat) -> Seq<char> {
    seq!['h', 's', 'l', '('] + decimal(h) + seq![','] + decimal(s) + seq!['%', ','] + decimal(l)
        + seq!['%', ')']
}

/// The color of the binding `seed`.
pub open spec fn binding_color(seed: u64) -> Seq<char> {
    let c = binding_hsl_of(seed);
    hsl_text(c.0 as nat, c.1 as nat, c.2 as nat)
}

/// The CSS color of the binding `seed`, the same on every call.
pub fn rainbowify(seed: u64) -> (r: String)
    ensures
        r@ == binding_color(seed),
{
    let (h, s, l) = binding_hsl(seed);
    let mut out = String::new();
    out.push_str("hsl(");
    push_decimal(&mut out, h as u64);
    out.push_str(",");
    push_decimal(&mut out, s as u64);
    out.push_str("%,");
    push_decimal(&mut out, l as u64);
    out.push_str("%)");
    proof {
        reveal_strlit("hsl(");
        reveal_strlit(",");
        reveal_strlit("%,");
        reveal_strlit("%)");
        assert(out@ =~= binding_color(seed));
    }
    out
}

} // verus!
