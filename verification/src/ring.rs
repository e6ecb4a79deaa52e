//! Sizing of the per-output rings that carry captured audio to the render
//! threads.

use vstd::prelude::*;

use crate::format::Format;

verus! {

/// Frames of one and a half seconds at `rate`: enough for the largest
/// offset plus drift headroom.
pub open spec fn ring_frames(rate: int) -> int {
    rate + rate / 2
}

/// The ring size in samples: one and a half seconds of interleaved audio,
/// but never less than 1024 frames.
pub open spec fn ring_samples(rate: int, channels: int) -> int {
    let depth = ring_frames(rate) * channels;
    let floor = channels * 1024;
    if depth >= floor {
        depth
    } else {
        floor
    }
}

/// The number of samples a ring for the source format `src` holds.
pub fn ring_capacity(src: &Format) -> (samples: usize)
    requires
        ring_frames(src.rate as int) * src.channels <= usize::MAX,
        src.channels * 1024 <= usize::MAX,
    ensures
        samples == ring_samples(src.rate as int, src.channels as int),
{
    if src.channels == 0 {
        return 0;
    }
    proof {
        let f = ring_frames(src.rate as int);
        assert(f <= f * src.channels) by (nonlinear_arith)
            requires
                src.channels > 0,
                f >= 0,
        ;
    }
    let rate = src.rate as usize;
    let frames = rate + rate / 2;
    let depth = frames * src.channels;
    let floor = src.channels * 1024;
    if depth >= floor {
        depth
    } else {
        floor
    }
}

/// A ring always holds whole frames, at least 1024 of them and at least a
/// second and a half of audio.
pub proof fn lemma_ring_holds_enough(rate: int, channels: int)
    requires
        rate >= 0,
        channels > 0,
    ensures
        ring_samples(rate, channels) >= channels * 1024,
        ring_samples(rate, channels) >= ring_frames(rate) * channels,
        ring_samples(rate, channels) % channels == 0,
        2 * ring_frames(rate) >= 3 * rate - 1,
{
    let depth = ring_frames(rate) * channels;
    assert(depth % channels == 0) by (nonlinear_arith)
        requires
            depth == ring_frames(rate) * channels,
            channels > 0,
            ring_frames(rate) >= 0,
    ;
    assert((channels * 1024) % channels == 0) by (nonlinear_arith)
        requires
            channels > 0,
    ;
}

} // verus!
