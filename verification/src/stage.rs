//! The render side's staging queue: converted output frames wait here until
//! the device asks for them. Nothing here allocates once it is built.

use vstd::prelude::*;

verus! {

/// Interleaved output samples; `data[head..len]` are written and not yet
/// handed to the device.
pub struct Stage<T> {
    pub data: Vec<T>,
    pub head: usize,
    pub len: usize,
    pub dst_channels: usize,
}

impl<T: Copy> Stage<T> {
    /// The cursors stay inside the buffer and on frame boundaries.
    pub open spec fn wf(&self) -> bool {
        &&& self.dst_channels > 0
        &&& self.head <= self.len <= self.data@.len()
        &&& self.head % self.dst_channels == 0
        &&& self.len % self.dst_channels == 0
    }

    /// The samples written and not yet taken, oldest first.
    pub open spec fn pending(&self) -> Seq<T> {
        self.data@.subrange(self.head as int, self.len as int)
    }

    /// A stage with room for `buffer_frames` plus four periods of frames,
    /// filled with `silence` and empty.
    pub fn new(silence: T, buffer_frames: usize, period_frames: usize, dst_channels: usize) -> (s: Self)
        requires
            dst_channels > 0,
            (buffer_frames + period_frames * 4) * dst_channels <= usize::MAX,
        ensures
            s.wf(),
            s.pending().len() == 0,
            s.head == 0,
            s.len == 0,
            s.data@.len() == (buffer_frames + period_frames * 4) * dst_channels,
            forall|i: int| 0 <= i < s.data@.len() ==> s.data@[i] == silence,
            s.dst_channels == dst_channels,
    {
        proof {
            let f = buffer_frames + period_frames * 4;
            assert(f <= f * dst_channels) by (nonlinear_arith)
                requires
                    dst_channels > 0,
                    f >= 0,
            ;
        }
        let capacity = (buffer_frames + period_frames * 4) * dst_channels;
        let mut data: Vec<T> = Vec::new();
        let mut i: usize = 0;
        while i < capacity
            invariant
                i <= capacity,
                data.len() == i,
                forall|k: int| 0 <= k < i ==> data@[k] == silence,
            decreases capacity - i,
        {
            data.push(silence);
            i = i + 1;
        }
        Stage { data, head: 0, len: 0, dst_channels }
    }

    /// Whole frames waiting.
    pub fn frames(&self) -> (n: usize)
        requires
            self.wf(),
        ensures
            n == self.pending().len() as int / self.dst_channels as int,
    {
        (self.len - self.head) / self.dst_channels
    }

    /// Whole frames that still fit behind the pending samples.
    pub fn room_frames(&self) -> (n: usize)
        requires
            self.wf(),
        ensures
            n == (self.data@.len() - self.len) as int / self.dst_channels as int,
    {
        (self.data.len() - self.len) / self.dst_channels
    }

    /// Hands out the oldest `frames` frames and moves past them.
    pub fn take(&mut self, frames: usize) -> (out: &[T])
        requires
            old(self).wf(),
            frames * old(self).dst_channels <= old(self).pending().len(),
        ensures
            final(self).wf(),
            final(self).data@ == old(self).data@,
            final(self).dst_channels == old(self).dst_channels,
            out@ == old(self).pending().subrange(0, frames * old(self).dst_channels),
            final(self).head == old(self).head + frames * old(self).dst_channels,
            final(self).len == old(self).len,
            final(self).pending() == old(self).pending().subrange(
                frames * old(self).dst_channels,
                old(self).pending().len() as int,
            ),
    {
        let samples = frames * self.dst_channels;
        let start = self.head;
        proof {
            let c = self.dst_channels as int;
            lemma_frame_aligned(start as int, frames as int, c);
        }
        self.head = self.head + samples;
        assert(self.pending() =~= old(self).pending().subrange(samples as int, old(self).pending().len() as int));
        let out = slice_range(self.data.as_slice(), start, start + samples);
        assert(out@ =~= old(self).pending().subrange(0, samples as int));
        out
    }

    /// Slides the unread samples to the front, so that a new chunk fits.
    pub fn compact(&mut self)
        requires
            old(self).wf(),
        ensures
            final(self).wf(),
            final(self).head == 0,
            final(self).len == old(self).len - old(self).head,
            final(self).pending() == old(self).pending(),
            old(self).head == 0 ==> final(self).data@ == old(self).data@ && final(self).len
                == old(self).len,
            final(self).data@.len() == old(self).data@.len(),
            final(self).dst_channels == old(self).dst_channels,
    {
        if self.head > 0 {
            let ghost before = self.data@;
            let head = self.head;
            let len = self.len;
            proof {
                let c = self.dst_channels as int;
                lemma_difference_aligned(head as int, len as int, c);
            }
            let mut i: usize = 0;
            while i < len - head
                invariant
                    head <= len <= before.len(),
                    self.dst_channels == old(self).dst_channels,
                    self.dst_channels > 0,
                    ((len - head) as int) % (self.dst_channels as int) == 0,
                    self.data@.len() == before.len(),
                    self.head == head,
                    self.len == len,
                    i <= len - head,
                    forall|k: int| 0 <= k < i ==> self.data@[k] == before[head + k],
                    forall|k: int| i <= k < before.len() ==> self.data@[k] == before[k],
                decreases len - head - i,
            {
                let v = self.data[head + i];
                self.data.set(i, v);
                i = i + 1;
            }
            self.len = len - head;
            self.head = 0;
            assert(self.pending() =~= before.subrange(head as int, len as int));
        }
    }

    /// Appends one frame, `frame.len()` equal to the channel count, which
    /// must fit behind the pending samples.
    pub fn push_frame(&mut self, frame: &[T])
        requires
            old(self).wf(),
            frame@.len() == old(self).dst_channels,
            old(self).len + old(self).dst_channels <= old(self).data@.len(),
        ensures
            final(self).wf(),
            final(self).pending() == old(self).pending() + frame@,
            final(self).data@.len() == old(self).data@.len(),
            final(self).dst_channels == old(self).dst_channels,
            final(self).head == old(self).head,
    {
        let ghost before = self.data@;
        let start = self.len;
        let room = self.data.len();
        let mut i: usize = 0;
        while i < frame.len()
            invariant
                self.dst_channels > 0,
                self.head <= self.len,
                (self.head as int) % (self.dst_channels as int) == 0,
                (start as int) % (self.dst_channels as int) == 0,
                self.len == start,
                self.head == old(self).head,
                self.dst_channels == old(self).dst_channels,
                frame@.len() == self.dst_channels,
                start + frame@.len() <= before.len(),
                before.len() == room,
                self.data@.len() == before.len(),
                i <= frame@.len(),
                forall|k: int| 0 <= k < start ==> self.data@[k] == before[k],
                forall|k: int| 0 <= k < i ==> self.data@[start + k] == frame@[k],
            decreases frame@.len() - i,
        {
            self.data.set(start + i, frame[i]);
            i = i + 1;
        }
        self.len = start + self.dst_channels;
        proof {
            lemma_frame_aligned(start as int, 1, self.dst_channels as int);
        }
        assert(self.pending() =~= old(self).pending() + frame@);
    }
}

proof fn lemma_frame_aligned(start: int, frames: int, c: int)
    requires
        c > 0,
        start % c == 0,
    ensures
        (start + frames * c) % c == 0,
{
    vstd::arithmetic::mul::lemma_mul_is_commutative(frames, c);
    vstd::arithmetic::div_mod::lemma_mod_multiples_vanish(frames, start, c);
}

proof fn lemma_difference_aligned(head: int, len: int, c: int)
    requires
        c > 0,
        head % c == 0,
        len % c == 0,
    ensures
        (len - head) % c == 0,
{
    vstd::arithmetic::div_mod::lemma_fundamental_div_mod(head, c);
    lemma_frame_aligned(len, -(head / c), c);
    assert(len + (-(head / c)) * c == len - head) by (nonlinear_arith)
        requires
            head == c * (head / c) + head % c,
            head % c == 0,
    ;
}

fn slice_range<T>(s: &[T], from: usize, to: usize) -> (r: &[T])
    requires
        from <= to <= s@.len(),
    ensures
        r@ == s@.subrange(from as int, to as int),
{
    &s[from..to]
}

} // verus!
