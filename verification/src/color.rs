use vstd::prelude::*;

verus! {

/// An 8-bit-per-channel RGB value. Pure value type: equality is structural
/// and there are no invalid states.
#[derive(Clone, Copy, PartialEq, Eq, Structural, Debug)]
pub struct Color {
    pub red: u8,
    pub green: u8,
    pub blue: u8,
}

/// Linear interpolation of one 8-bit channel: the value `num/den` of the way
/// from `a` to `b`, rounded toward `a`. A zero denominator yields `a`
/// (used by segments whose period is too short to have a distinct midpoint).
pub open spec fn spec_lerp_channel(a: u8, b: u8, num: nat, den: nat) -> u8
    recommends
        num <= den,
{
    if den == 0 {
        a
    } else if a <= b {
        (a + (b - a) * num / (den as int)) as u8
    } else {
        (a - (a - b) * num / (den as int)) as u8
    }
}

/// Channel-wise linear interpolation between two colors.
pub open spec fn spec_lerp(from: Color, to: Color, num: nat, den: nat) -> Color {
    Color {
        red: spec_lerp_channel(from.red, to.red, num, den),
        green: spec_lerp_channel(from.green, to.green, num, den),
        blue: spec_lerp_channel(from.blue, to.blue, num, den),
    }
}

impl Color {
    pub fn new(red: u8, green: u8, blue: u8) -> (c: Color)
        ensures
            c == (Color { red, green, blue }),
    {
        Color { red, green, blue }
    }
}

/// Interpolating with `num == 0` yields the starting value exactly.
pub proof fn lemma_lerp_at_start(from: Color, to: Color, den: nat)
    ensures
        spec_lerp(from, to, 0, den) == from,
{
}

/// Interpolating with `num == den > 0` yields the ending value exactly.
pub proof fn lemma_lerp_at_end(from: Color, to: Color, den: nat)
    requires
        den > 0,
    ensures
        spec_lerp(from, to, den, den) == to,
{
    lemma_lerp_channel_at_end(from.red, to.red, den);
    lemma_lerp_channel_at_end(from.green, to.green, den);
    lemma_lerp_channel_at_end(from.blue, to.blue, den);
}

proof fn lemma_lerp_channel_at_end(a: u8, b: u8, den: nat)
    requires
        den > 0,
    ensures
        spec_lerp_channel(a, b, den, den) == b,
{
    if a <= b {
        vstd::arithmetic::div_mod::lemma_div_by_multiple(b - a, den as int);
    } else {
        vstd::arithmetic::div_mod::lemma_div_by_multiple(a - b, den as int);
    }
}

/// The interpolated channel value never leaves the interval spanned by its
/// endpoints.
pub proof fn lemma_lerp_channel_bounded(a: u8, b: u8, num: nat, den: nat)
    requires
        num <= den,
    ensures
        a <= b ==> a <= spec_lerp_channel(a, b, num, den) <= b,
        a > b ==> b <= spec_lerp_channel(a, b, num, den) <= a,
{
    if den > 0 {
        if a <= b {
            lemma_scaled_fraction_bounded((b - a) as nat, num, den);
        } else {
            lemma_scaled_fraction_bounded((a - b) as nat, num, den);
        }
    }
}

/// `d * num / den <= d` whenever `num <= den` and `den > 0`.
proof fn lemma_scaled_fraction_bounded(d: nat, num: nat, den: nat)
    requires
        num <= den,
        den > 0,
    ensures
        0 <= (d as int) * (num as int) / (den as int) <= d,
{
    assert(d * num <= d * den) by (nonlinear_arith)
        requires
            num <= den,
            0 <= d,
    ;
    assert((d as int) * (den as int) / (den as int) == d) by {
        vstd::arithmetic::div_mod::lemma_div_by_multiple(d as int, den as int);
    }
    vstd::arithmetic::div_mod::lemma_div_is_ordered((d * num) as int, (d * den) as int, den as int);
    vstd::arithmetic::div_mod::lemma_div_pos_is_pos((d * num) as int, den as int);
}

/// Executable counterpart of `spec_lerp_channel`.
pub fn lerp_channel(a: u8, b: u8, num: u32, den: u32) -> (r: u8)
    requires
        num <= den,
    ensures
        r == spec_lerp_channel(a, b, num as nat, den as nat),
{
    if den == 0 {
        a
    } else if a <= b {
        let d: u64 = (b - a) as u64;
        proof {
            assert(d * (num as u64) <= 255 * 0xffff_ffffu64) by (nonlinear_arith)
                requires
                    d <= 255,
                    num <= 0xffff_ffffu32,
            ;
            lemma_lerp_channel_bounded(a, b, num as nat, den as nat);
            lemma_scaled_fraction_bounded((b - a) as nat, num as nat, den as nat);
        }
        let q: u64 = d * (num as u64) / (den as u64);
        a + (q as u8)
    } else {
        let d: u64 = (a - b) as u64;
        proof {
            assert(d * (num as u64) <= 255 * 0xffff_ffffu64) by (nonlinear_arith)
                requires
                    d <= 255,
                    num <= 0xffff_ffffu32,
            ;
            lemma_lerp_channel_bounded(a, b, num as nat, den as nat);
            lemma_scaled_fraction_bounded((a - b) as nat, num as nat, den as nat);
        }
        let q: u64 = d * (num as u64) / (den as u64);
        a - (q as u8)
    }
}

/// Executable counterpart of `spec_lerp`.
pub fn lerp(from: Color, to: Color, num: u32, den: u32) -> (c: Color)
    requires
        num <= den,
    ensures
        c == spec_lerp(from, to, num as nat, den as nat),
{
    Color {
        red: lerp_channel(from.red, to.red, num, den),
        green: lerp_channel(from.green, to.green, num, den),
        blue: lerp_channel(from.blue, to.blue, num, den),
    }
}

} // verus!
