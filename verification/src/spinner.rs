//! The loading spinner's animation: which braille glyph to show after a
//! given number of elapsed milliseconds.

use vstd::prelude::*;
use crate::timefmt::chars_to_string;

verus! {

/// The glyph of animation step `i` (ten steps, then the cycle repeats).
pub open spec fn frame_glyph(i: nat) -> char {
    if i == 0 {
        '\u{280b}'
    } else if i == 1 {
        '\u{2819}'
    } else if i == 2 {
        '\u{2839}'
    } else if i == 3 {
        '\u{2838}'
    } else if i == 4 {
        '\u{283c}'
    } else if i == 5 {
        '\u{2834}'
    } else if i == 6 {
        '\u{2826}'
    } else if i == 7 {
        '\u{2827}'
    } else if i == 8 {
        '\u{2807}'
    } else {
        '\u{280f}'
    }
}

/// What the spinner shows: before the animation starts, its first glyph;
/// after, the frame advances every 80 milliseconds through the ten-step
/// cycle.
pub open spec fn spec_spinner_frame(elapsed_ms: Option<u64>) -> Seq<char> {
    match elapsed_ms {
        None => seq![frame_glyph(0)],
        Some(ms) => seq![frame_glyph(((ms / 80) % 10) as nat)],
    }
}

/// The spinner glyph for an animation that has run `elapsed_ms`
/// milliseconds, or the resting glyph when it has not started.
pub fn spinner_frame(elapsed_ms: Option<u64>) -> (r: String)
    ensures
        r@ == spec_spinner_frame(elapsed_ms),
{
    let idx: u64 = match elapsed_ms {
        None => 0,
        Some(ms) => (ms / 80) % 10,
    };
    let glyph: char = if idx == 0 {
        '\u{280b}'
    } else if idx == 1 {
        '\u{2819}'
    } else if idx == 2 {
        '\u{2839}'
    } else if idx == 3 {
        '\u{2838}'
    } else if idx == 4 {
        '\u{283c}'
    } else if idx == 5 {
        '\u{2834}'
    } else if idx == 6 {
        '\u{2826}'
    } else if idx == 7 {
        '\u{2827}'
    } else if idx == 8 {
        '\u{2807}'
    } else {
        '\u{280f}'
    };
    let mut v: Vec<char> = Vec::new();
    v.push(glyph);
    proof {
        assert(v@ =~= spec_spinner_frame(elapsed_ms));
    }
    chars_to_string(v)
}

} // verus!
