use vstd::prelude::*;
use vstd::arithmetic::div_mod::{
    lemma_add_mod_noop, lemma_add_mod_noop_right, lemma_fundamental_div_mod, lemma_mod_bound,
    lemma_mod_add_multiples_vanish, lemma_mod_multiples_vanish, lemma_small_mod,
};
use crate::color::{Color, lerp, spec_lerp, lemma_lerp_at_start, lemma_lerp_at_end};

verus! {

/// One animation unit of the strip: a contiguous run of `length` pixels that
/// all show the same color at any instant, oscillating between `start_color`
/// and `end_color` once every `period` milliseconds.
///
/// The animation policy is a linear ping-pong: over the first half of the
/// period the color sweeps `start_color -> end_color` channel-wise linearly,
/// over the second half it sweeps back, so the cycle is continuous at the
/// wrap boundary. `mirrored` reverses the direction of traversal in time;
/// it never creates per-pixel variation. `phase_offset` shifts the time
/// origin so that segments can run desynchronized.
#[derive(Clone, Copy, PartialEq, Eq, Structural, Debug)]
pub struct Segment {
    pub length: u32,
    pub mirrored: bool,
    pub start_color: Color,
    pub end_color: Color,
    pub phase_offset: u32,
    pub period: u32,
    pub brightness: u8,
}

impl Segment {
    /// Structural invariant: a segment owns at least one pixel and has a
    /// strictly positive animation period.
    pub open spec fn wf(self) -> bool {
        self.length > 0 && self.period > 0
    }

    /// Phase of the animation at `now`: elapsed time shifted by the phase
    /// offset, reduced into one cycle.
    pub open spec fn spec_phase(self, now: nat) -> int
        recommends
            self.wf(),
    {
        (now + self.phase_offset) % (self.period as int)
    }

    /// Position within the cycle after applying the direction flag:
    /// a mirrored segment traverses the same curve backwards in time.
    pub open spec fn spec_pos(self, now: nat) -> int
        recommends
            self.wf(),
    {
        if self.mirrored {
            (self.period - self.spec_phase(now)) % (self.period as int)
        } else {
            self.spec_phase(now)
        }
    }

    /// The ping-pong curve over one cycle, defined for `0 <= t < period`:
    /// forward sweep on `[0, period/2]`, backward sweep on the rest.
    pub open spec fn spec_curve(self, t: int) -> Color
        recommends
            self.wf(),
            0 <= t < self.period,
    {
        let half = self.period as int / 2;
        if t <= half {
            spec_lerp(self.start_color, self.end_color, t as nat, half as nat)
        } else {
            spec_lerp(self.end_color, self.start_color, (t - half) as nat, (self.period - half) as nat)
        }
    }

    /// The color every pixel of this segment shows at elapsed time `now`.
    pub open spec fn spec_color_at(self, now: nat) -> Color
        recommends
            self.wf(),
    {
        self.spec_curve(self.spec_pos(now))
    }

    pub fn new(
        length: u32,
        mirrored: bool,
        start_color: Color,
        end_color: Color,
        phase_offset: u32,
        period: u32,
        brightness: u8,
    ) -> (s: Segment)
        ensures
            s == (Segment { length, mirrored, start_color, end_color, phase_offset, period, brightness }),
    {
        Segment { length, mirrored, start_color, end_color, phase_offset, period, brightness }
    }

    /// Pure, total animation function: the color this segment shows at
    /// elapsed time `now` (milliseconds).
    pub fn color_at(&self, now: u64) -> (c: Color)
        requires
            self.wf(),
        ensures
            c == self.spec_color_at(now as nat),
    {
        let p: u64 = self.period as u64;
        let ph: u64 = ((now % p) + ((self.phase_offset as u64) % p)) % p;
        proof {
            lemma_add_mod_noop(now as int, self.phase_offset as int, p as int);
            lemma_mod_bound((now + self.phase_offset) as int, p as int);
        }
        let pos: u64 = if self.mirrored {
            (p - ph) % p
        } else {
            ph
        };
        proof {
            lemma_mod_bound((p - ph) as int, p as int);
        }
        let t: u32 = pos as u32;
        let half: u32 = self.period / 2;
        if t <= half {
            lerp(self.start_color, self.end_color, t, half)
        } else {
            lerp(self.end_color, self.start_color, t - half, self.period - half)
        }
    }
}

/// Periodicity: a segment's animation repeats exactly once per period.
pub proof fn lemma_periodicity(seg: Segment, now: nat)
    requires
        seg.wf(),
    ensures
        seg.spec_color_at((now + seg.period) as nat) == seg.spec_color_at(now),
{
    let p = seg.period as int;
    assert(((now + seg.period) + seg.phase_offset) % p == ((now + seg.phase_offset) + p) % p);
    lemma_mod_add_multiples_vanish((now + seg.phase_offset) as int, p);
}

/// The animation curve is invariant in shape under a change of phase offset:
/// shifting the offset only shifts the time origin.
pub proof fn lemma_phase_shift(seg: Segment, now: nat)
    requires
        seg.wf(),
    ensures
        seg.spec_color_at(now) == (Segment { phase_offset: 0, ..seg }).spec_color_at((now + seg.phase_offset) as nat),
{
}

/// Every residue `r` modulo the period is hit by the phase function at some
/// instant within the first period.
proof fn lemma_phase_hits(seg: Segment, r: int) -> (t: nat)
    requires
        seg.wf(),
        0 <= r < seg.period,
    ensures
        t < seg.period,
        seg.spec_phase(t) == r,
{
    let p = seg.period as int;
    let off = seg.phase_offset as int;
    let o = off % p;
    lemma_mod_bound(off, p);
    let a = r + p - o;
    let t = a % p;
    lemma_mod_bound(a, p);
    lemma_fundamental_div_mod(off, p);
    let q = off / p;
    assert(seg.spec_phase(t as nat) == (t + off) % p);
    lemma_add_mod_noop_right(off, a, p);
    assert((t + off) % p == (a + off) % p);
    assert(a + off == p * (q + 1) + r) by {
        assert(off == p * q + o);
        assert(p * (q + 1) == p * q + p) by (nonlinear_arith);
    }
    lemma_mod_multiples_vanish(q + 1, r, p);
    lemma_small_mod(r as nat, p as nat);
    t as nat
}

/// A one-millisecond period has no distinct midpoint: such a segment shows
/// its start color at every instant (which is why endpoint containment below
/// asks for a period of at least two).
pub proof fn lemma_short_period_constant(seg: Segment, now: nat)
    requires
        seg.wf(),
        seg.period == 1,
    ensures
        seg.spec_color_at(now) == seg.start_color,
{
    let p = seg.period as int;
    lemma_mod_bound((now + seg.phase_offset) as int, p);
    assert(seg.spec_phase(now) == 0);
    if seg.mirrored {
        vstd::arithmetic::div_mod::lemma_mod_self_0(p);
    }
    assert(seg.spec_pos(now) == 0);
}

/// Endpoint containment: within one period there is an instant at which the
/// segment shows exactly its start color and an instant at which it shows
/// exactly its end color. (A period of one millisecond has no distinct
/// midpoint, so it is excluded: such a segment constantly shows its start
/// color.)
pub proof fn lemma_endpoint_containment(seg: Segment)
    requires
        seg.wf(),
        seg.period >= 2,
    ensures
        exists|t: nat| t < seg.period && seg.spec_color_at(t) == seg.start_color,
        exists|t: nat| t < seg.period && seg.spec_color_at(t) == seg.end_color,
{
    let p = seg.period as int;
    let half = p / 2;
    assert(1 <= half < p);

    // Start color: an instant whose in-cycle position is 0.
    let t1 = lemma_phase_hits(seg, 0);
    if seg.mirrored {
        assert((p - 0) % p == 0) by {
            vstd::arithmetic::div_mod::lemma_mod_self_0(p);
        }
    }
    assert(seg.spec_pos(t1) == 0);
    lemma_lerp_at_start(seg.start_color, seg.end_color, half as nat);
    assert(seg.spec_color_at(t1) == seg.start_color);

    // End color: an instant whose in-cycle position is period / 2.
    let r2 = if seg.mirrored { p - half } else { half };
    let t2 = lemma_phase_hits(seg, r2);
    if seg.mirrored {
        assert((p - (p - half)) % p == half % p);
        lemma_small_mod(half as nat, p as nat);
    }
    assert(seg.spec_pos(t2) == half);
    lemma_lerp_at_end(seg.start_color, seg.end_color, half as nat);
    assert(seg.spec_color_at(t2) == seg.end_color);
}

} // verus!
