//! Color ramps: fixed piecewise-linear functions from a normalized sample
//! to an RGB triple.

use vstd::prelude::*;
use vstd::string::StringExecFns;
use crate::text::{eq_ignoring_case, lowered};
use crate::fixed::{
    clamp_to_unit, clamp_unit, lemma_div_close, lemma_div_near, lemma_ramp_bounds, ramp,
    ramp_channel, ONE,
};

verus! {

/// The color ramps a heat layer can be drawn with.
#[derive(Debug, Clone, Copy, PartialEq, Eq, Structural)]
pub enum ColorMap {
    Red,
    Hot,
    Jet,
    Viridis,
    Plasma,
}

/// The ramp that a name stands for, whatever the case of its letters.
pub open spec fn colormap_named(s: Seq<char>) -> Option<ColorMap> {
    let t = lowered(s);
    if t == lowered("red"@) {
        Some(ColorMap::Red)
    } else if t == lowered("hot"@) {
        Some(ColorMap::Hot)
    } else if t == lowered("jet"@) {
        Some(ColorMap::Jet)
    } else if t == lowered("viridis"@) {
        Some(ColorMap::Viridis)
    } else if t == lowered("plasma"@) {
        Some(ColorMap::Plasma)
    } else {
        None
    }
}

/// What is reported for a name that stands for no ramp.
pub open spec fn unknown_colormap_message(s: Seq<char>) -> Seq<char> {
    "Unknown colormap: "@ + s + ". Available: red, hot, jet, viridis, plasma"@
}

impl ColorMap {
    /// Reads the name of a ramp. The error names the rejected text and
    /// lists the names that are accepted.
    pub fn from_str(s: &str) -> (r: Result<ColorMap, String>)
        ensures
            match r {
                Ok(kind) => colormap_named(s@) == Some(kind),
                Err(message) => colormap_named(s@) is None && message@
                    == unknown_colormap_message(s@),
            },
    {
        if eq_ignoring_case(s, "red") {
            Ok(ColorMap::Red)
        } else if eq_ignoring_case(s, "hot") {
            Ok(ColorMap::Hot)
        } else if eq_ignoring_case(s, "jet") {
            Ok(ColorMap::Jet)
        } else if eq_ignoring_case(s, "viridis") {
            Ok(ColorMap::Viridis)
        } else if eq_ignoring_case(s, "plasma") {
            Ok(ColorMap::Plasma)
        } else {
            let message = String::from_str("Unknown colormap: ").concat(s).concat(
                ". Available: red, hot, jet, viridis, plasma",
            );
            Err(message)
        }
    }
}

/// The sample of the single-precision number 0.33, where the first
/// segment of the hot and of the viridis ramp ends.
pub const THIRD: i32 = 21626;

/// The sample of the single-precision number 0.66, where the second
/// segment of the hot and of the viridis ramp ends.
pub const TWO_THIRDS: i32 = 43253;

/// The sample of 0.25.
pub const QUARTER: i32 = 16384;

/// The sample of 0.5.
pub const HALF: i32 = 32768;

/// The sample of 0.75.
pub const THREE_QUARTERS: i32 = 49152;

/// One channel on one segment of a ramp: the segment runs from the sample
/// `lo` to the sample `hi` while the channel goes from `from` to `to`.
pub open spec fn segment(v: int, lo: int, hi: int, from: int, to: int) -> int {
    ramp(from, to, v - lo, hi - lo)
}

/// The color of `value` under `kind`. Values outside the unit interval
/// take the color of the nearer end. Every segment begins at its
/// breakpoint with the published color of that breakpoint.
pub open spec fn color_of(kind: ColorMap, value: int) -> (int, int, int) {
    let v = clamp_unit(value);
    match kind {
        ColorMap::Red => (segment(v, 0, ONE as int, 0, 255), 0, 0),
        ColorMap::Hot => if v < THIRD {
            (segment(v, 0, THIRD as int, 0, 255), 0, 0)
        } else if v < TWO_THIRDS {
            (255, segment(v, THIRD as int, TWO_THIRDS as int, 0, 255), 0)
        } else {
            (255, 255, segment(v, TWO_THIRDS as int, ONE as int, 0, 255))
        },
        ColorMap::Jet => if v < QUARTER {
            (0, segment(v, 0, QUARTER as int, 0, 255), 255)
        } else if v < HALF {
            (0, 255, segment(v, QUARTER as int, HALF as int, 255, 0))
        } else if v < THREE_QUARTERS {
            (segment(v, HALF as int, THREE_QUARTERS as int, 0, 255), 255, 0)
        } else {
            (255, segment(v, THREE_QUARTERS as int, ONE as int, 255, 0), 0)
        },
        ColorMap::Viridis => if v < THIRD {
            (
                segment(v, 0, THIRD as int, 68, 59),
                segment(v, 0, THIRD as int, 1, 82),
                segment(v, 0, THIRD as int, 84, 139),
            )
        } else if v < TWO_THIRDS {
            (
                segment(v, THIRD as int, TWO_THIRDS as int, 59, 33),
                segment(v, THIRD as int, TWO_THIRDS as int, 82, 144),
                segment(v, THIRD as int, TWO_THIRDS as int, 139, 140),
            )
        } else {
            (
                segment(v, TWO_THIRDS as int, ONE as int, 33, 253),
                segment(v, TWO_THIRDS as int, ONE as int, 144, 231),
                segment(v, TWO_THIRDS as int, ONE as int, 140, 37),
            )
        },
        ColorMap::Plasma => if v < HALF {
            (
                segment(v, 0, HALF as int, 13, 190),
                segment(v, 0, HALF as int, 8, 84),
                segment(v, 0, HALF as int, 135, 160),
            )
        } else {
            (
                segment(v, HALF as int, ONE as int, 190, 240),
                segment(v, HALF as int, ONE as int, 84, 249),
                segment(v, HALF as int, ONE as int, 160, 33),
            )
        },
    }
}

fn segment_channel(v: i32, lo: i32, hi: i32, from: u8, to: u8) -> (r: u8)
    requires
        0 <= lo < hi <= ONE,
        lo <= v <= hi,
    ensures
        r == segment(v as int, lo as int, hi as int, from as int, to as int),
{
    ramp_channel(from, to, (v - lo) as i64, (hi - lo) as i64)
}

/// Maps a sample to its color. The sample is limited to the unit interval
/// first.
pub fn get_color_from_value(value: i32, colormap: &ColorMap) -> (rgb: (u8, u8, u8))
    ensures
        (rgb.0 as int, rgb.1 as int, rgb.2 as int) == color_of(*colormap, value as int),
{
    let v: i32 = clamp_to_unit(value);
    match colormap {
        ColorMap::Red => (segment_channel(v, 0, ONE, 0, 255), 0, 0),
        ColorMap::Hot => {
            if v < THIRD {
                (segment_channel(v, 0, THIRD, 0, 255), 0, 0)
            } else if v < TWO_THIRDS {
                (255, segment_channel(v, THIRD, TWO_THIRDS, 0, 255), 0)
            } else {
                (255, 255, segment_channel(v, TWO_THIRDS, ONE, 0, 255))
            }
        },
        ColorMap::Jet => {
            if v < QUARTER {
                (0, segment_channel(v, 0, QUARTER, 0, 255), 255)
            } else if v < HALF {
                (0, 255, segment_channel(v, QUARTER, HALF, 255, 0))
            } else if v < THREE_QUARTERS {
                (segment_channel(v, HALF, THREE_QUARTERS, 0, 255), 255, 0)
            } else {
                (255, segment_channel(v, THREE_QUARTERS, ONE, 255, 0), 0)
            }
        },
        ColorMap::Viridis => {
            if v < THIRD {
                (
                    segment_channel(v, 0, THIRD, 68, 59),
                    segment_channel(v, 0, THIRD, 1, 82),
                    segment_channel(v, 0, THIRD, 84, 139),
                )
            } else if v < TWO_THIRDS {
                (
                    segment_channel(v, THIRD, TWO_THIRDS, 59, 33),
                    segment_channel(v, THIRD, TWO_THIRDS, 82, 144),
                    segment_channel(v, THIRD, TWO_THIRDS, 139, 140),
                )
            } else {
                (
                    segment_channel(v, TWO_THIRDS, ONE, 33, 253),
                    segment_channel(v, TWO_THIRDS, ONE, 144, 231),
                    segment_channel(v, TWO_THIRDS, ONE, 140, 37),
                )
            }
        },
        ColorMap::Plasma => {
            if v < HALF {
                (
                    segment_channel(v, 0, HALF, 13, 190),
                    segment_channel(v, 0, HALF, 8, 84),
                    segment_channel(v, 0, HALF, 135, 160),
                )
            } else {
                (
                    segment_channel(v, HALF, ONE, 190, 240),
                    segment_channel(v, HALF, ONE, 84, 249),
                    segment_channel(v, HALF, ONE, 160, 33),
                )
            }
        },
    }
}

/// Whether two channel values differ by at most one.
pub open spec fn within_one(a: int, b: int) -> bool {
    -1 <= a - b <= 1
}

/// How one channel behaves on one segment: it stays a channel value, it
/// moves by at most one between neighbouring samples, it begins with its
/// first value, and one sample before its end it has its last value or one
/// less.
proof fn lemma_segment(v: int, lo: int, hi: int, from: int, to: int)
    requires
        0 <= lo < hi <= ONE,
        hi - lo >= 16384,
        0 <= from <= 255,
        0 <= to <= 255,
    ensures
        lo <= v <= hi ==> 0 <= segment(v, lo, hi, from, to) <= 255,
        lo <= v && v + 1 <= hi ==> within_one(
            segment(v, lo, hi, from, to),
            segment(v + 1, lo, hi, from, to),
        ),
        segment(lo, lo, hi, from, to) == from,
        segment(hi, lo, hi, from, to) == to,
        hi - 1 <= v <= hi ==> to - 1 <= segment(v, lo, hi, from, to) <= to,
{
    let den = hi - lo;
    let num = v - lo;
    let n = from * den + (to - from) * num;
    if lo <= v <= hi {
        lemma_ramp_bounds(from, to, num, den);
    }
    if lo <= v && v + 1 <= hi {
        let n2 = from * den + (to - from) * (num + 1);
        assert(n2 - n == to - from) by (nonlinear_arith)
            requires
                n2 == from * den + (to - from) * (num + 1),
                n == from * den + (to - from) * num,
        ;
        lemma_div_close(n, n2, den);
    }
    assert(segment(lo, lo, hi, from, to) == from) by {
        assert((to - from) * 0 == 0);
        assert(from * den == den * from) by (nonlinear_arith);
        vstd::arithmetic::div_mod::lemma_div_multiples_vanish(from, den);
    }
    assert(segment(hi, lo, hi, from, to) == to) by {
        assert(from * den + (to - from) * den == den * to) by (nonlinear_arith);
        vstd::arithmetic::div_mod::lemma_div_multiples_vanish(to, den);
    }
    if hi - 1 <= v <= hi {
        assert(n == to * den - (to - from) * (den - num)) by (nonlinear_arith)
            requires
                n == from * den + (to - from) * num,
        ;
        assert(-255 <= (to - from) * (den - num) <= 255) by (nonlinear_arith)
            requires
                -255 <= to - from <= 255,
                0 <= den - num <= 1,
        ;
        lemma_div_near(n, to, den);
        lemma_ramp_bounds(from, to, num, den);
    }
}

/// Every ramp is continuous, also across the points where two of its
/// segments meet: two neighbouring samples get colors that differ by at
/// most one in each channel.
pub proof fn lemma_color_continuous(kind: ColorMap, value: int)
    ensures
        within_one(color_of(kind, value).0, color_of(kind, value + 1).0),
        within_one(color_of(kind, value).1, color_of(kind, value + 1).1),
        within_one(color_of(kind, value).2, color_of(kind, value + 1).2),
{
    let x = clamp_unit(value);
    let y = clamp_unit(value + 1);
    let one = ONE as int;
    let a = THIRD as int;
    let b = TWO_THIRDS as int;
    let q = QUARTER as int;
    let h = HALF as int;
    let t = THREE_QUARTERS as int;
    if 0 <= value < ONE {
        assert(y == x + 1);
        match kind {
            ColorMap::Red => {
                lemma_segment(x, 0, one, 0, 255);
            },
            ColorMap::Hot => {
                lemma_segment(x, 0, a, 0, 255);
                lemma_segment(x, a, b, 0, 255);
                lemma_segment(x, b, one, 0, 255);
            },
            ColorMap::Jet => {
                lemma_segment(x, 0, q, 0, 255);
                lemma_segment(x, q, h, 255, 0);
                lemma_segment(x, h, t, 0, 255);
                lemma_segment(x, t, one, 255, 0);
            },
            ColorMap::Viridis => {
                lemma_segment(x, 0, a, 68, 59);
                lemma_segment(x, 0, a, 1, 82);
                lemma_segment(x, 0, a, 84, 139);
                lemma_segment(x, a, b, 59, 33);
                lemma_segment(x, a, b, 82, 144);
                lemma_segment(x, a, b, 139, 140);
                lemma_segment(x, b, one, 33, 253);
                lemma_segment(x, b, one, 144, 231);
                lemma_segment(x, b, one, 140, 37);
            },
            ColorMap::Plasma => {
                lemma_segment(x, 0, h, 13, 190);
                lemma_segment(x, 0, h, 8, 84);
                lemma_segment(x, 0, h, 135, 160);
                lemma_segment(x, h, one, 190, 240);
                lemma_segment(x, h, one, 84, 249);
                lemma_segment(x, h, one, 160, 33);
            },
        }
    } else {
        assert(x == y);
    }
}

/// At the point where two segments meet, and at both ends, a ramp has its
/// published color.
pub proof fn lemma_published_colors()
    ensures
        color_of(ColorMap::Hot, 0) == (0int, 0int, 0int),
        color_of(ColorMap::Hot, THIRD as int) == (255int, 0int, 0int),
        color_of(ColorMap::Hot, TWO_THIRDS as int) == (255int, 255int, 0int),
        color_of(ColorMap::Hot, ONE as int) == (255int, 255int, 255int),
        color_of(ColorMap::Viridis, 0) == (68int, 1int, 84int),
        color_of(ColorMap::Viridis, THIRD as int) == (59int, 82int, 139int),
        color_of(ColorMap::Viridis, TWO_THIRDS as int) == (33int, 144int, 140int),
        color_of(ColorMap::Viridis, ONE as int) == (253int, 231int, 37int),
        color_of(ColorMap::Plasma, 0) == (13int, 8int, 135int),
        color_of(ColorMap::Plasma, HALF as int) == (190int, 84int, 160int),
        color_of(ColorMap::Plasma, ONE as int) == (240int, 249int, 33int),
        color_of(ColorMap::Jet, 0) == (0int, 0int, 255int),
        color_of(ColorMap::Jet, QUARTER as int) == (0int, 255int, 255int),
        color_of(ColorMap::Jet, HALF as int) == (0int, 255int, 0int),
        color_of(ColorMap::Jet, THREE_QUARTERS as int) == (255int, 255int, 0int),
        color_of(ColorMap::Jet, ONE as int) == (255int, 0int, 0int),
{
}

} // verus!
