//! The capture side's list of rings: one sink per output device.

use vstd::prelude::*;

verus! {

/// Where captured audio goes for one output device; `payload` is whatever
/// the capture thread writes into (the ring's producer and the output's
/// shared counters).
pub struct Sink<P> {
    pub device_id: String,
    pub payload: P,
}

/// Changes to the sink list, sent by the supervisor.
pub enum CaptureCmd<P> {
    /// Start feeding this sink, replacing any sink of the same device.
    Add(Sink<P>),
    /// Stop feeding the sink of this device.
    Remove(String),
}

/// A sink as plain values.
pub open spec fn sink_view<P>(s: Sink<P>) -> (Seq<char>, P) {
    (s.device_id@, s.payload)
}

pub open spec fn sinks_view<P>(s: Seq<Sink<P>>) -> Seq<(Seq<char>, P)> {
    s.map_values(|x: Sink<P>| sink_view(x))
}

/// The sinks of every device but `id`, in their order.
pub open spec fn without<P>(sinks: Seq<(Seq<char>, P)>, id: Seq<char>) -> Seq<(Seq<char>, P)>
    decreases sinks.len(),
{
    if sinks.len() == 0 {
        Seq::empty()
    } else {
        let rest = without(sinks.drop_last(), id);
        if sinks.last().0 == id {
            rest
        } else {
            rest.push(sinks.last())
        }
    }
}

/// Whether no two sinks feed the same device.
pub open spec fn one_per_device<P>(sinks: Seq<(Seq<char>, P)>) -> bool {
    forall|i: int, j: int| 0 <= i < sinks.len() && 0 <= j < sinks.len() && i != j ==> sinks[i].0 != sinks[j].0
}

/// The sink list after a command.
pub open spec fn after_command<P>(sinks: Seq<(Seq<char>, P)>, cmd: CaptureCmd<P>) -> Seq<(Seq<char>, P)> {
    match cmd {
        CaptureCmd::Add(s) => without(sinks, s.device_id@).push(sink_view(s)),
        CaptureCmd::Remove(id) => without(sinks, id@),
    }
}

fn remove_device<P>(sinks: &mut Vec<Sink<P>>, id: &String)
    ensures
        sinks_view(final(sinks)@) == without(sinks_view(old(sinks)@), id@),
{
    let ghost orig = sinks_view(sinks@);
    let mut rest: Vec<Sink<P>> = Vec::new();
    std::mem::swap(sinks, &mut rest);
    let ghost mut j: int = 0;
    assert(sinks_view(rest@) =~= orig.subrange(0, orig.len() as int));
    assert(sinks_view(sinks@) =~= without(orig.subrange(0, 0), id@));
    while rest.len() > 0
        invariant
            0 <= j <= orig.len(),
            sinks_view(rest@) == orig.subrange(j, orig.len() as int),
            sinks_view(sinks@) == without(orig.subrange(0, j), id@),
        decreases rest.len(),
    {
        let ghost before_rest = rest@;
        let s = rest.remove(0);
        let ghost sv = sink_view(s);
        proof {
            assert(sinks_view(before_rest).len() == before_rest.len());
            assert(j < orig.len());
            assert(sinks_view(before_rest)[0] == sv);
            let next = orig.subrange(0, j + 1);
            assert(next.drop_last() =~= orig.subrange(0, j));
            assert(next.last() == sv);
            assert(sinks_view(rest@) =~= orig.subrange(j + 1, orig.len() as int)) by {
                assert forall|k: int| 0 <= k < rest@.len() implies sinks_view(rest@)[k]
                    == orig.subrange(j + 1, orig.len() as int)[k] by {
                    assert(rest@[k] == before_rest[k + 1]);
                    assert(sinks_view(before_rest)[k + 1] == orig.subrange(j, orig.len() as int)[k + 1]);
                }
            }
        }
        let ghost before = sinks_view(sinks@);
        if s.device_id != *id {
            sinks.push(s);
            assert(sinks_view(sinks@) =~= before.push(sv));
        }
        proof {
            j = j + 1;
        }
    }
    assert(orig.subrange(0, j) =~= orig);
}

/// Applies one command from the supervisor to the sink list.
pub fn apply_capture_cmd<P>(sinks: &mut Vec<Sink<P>>, cmd: CaptureCmd<P>)
    ensures
        sinks_view(final(sinks)@) == after_command(sinks_view(old(sinks)@), cmd),
{
    match cmd {
        CaptureCmd::Add(sink) => {
            remove_device(sinks, &sink.device_id);
            let ghost before = sinks_view(sinks@);
            let ghost sv = sink_view(sink);
            sinks.push(sink);
            assert(sinks_view(sinks@) =~= before.push(sv));
        },
        CaptureCmd::Remove(id) => {
            remove_device(sinks, &id);
        },
    }
}

proof fn lemma_without_ids<P>(sinks: Seq<(Seq<char>, P)>, id: Seq<char>, x: (Seq<char>, P))
    ensures
        without(sinks, id).contains(x) <==> (sinks.contains(x) && x.0 != id),
    decreases sinks.len(),
{
    if sinks.len() > 0 {
        let init = sinks.drop_last();
        lemma_without_ids(init, id, x);
        assert(sinks =~= init.push(sinks.last()));
        if sinks.contains(x) {
            let k = choose|k: int| 0 <= k < sinks.len() && sinks[k] == x;
            if k < init.len() {
                assert(init[k] == x);
            }
        }
        if init.contains(x) {
            let k = choose|k: int| 0 <= k < init.len() && init[k] == x;
            assert(sinks[k] == x);
        }
        let rest = without(init, id);
        if sinks.last().0 != id {
            if rest.push(sinks.last()).contains(x) {
                let k = choose|k: int| 0 <= k < rest.len() + 1 && rest.push(sinks.last())[k] == x;
                if k < rest.len() {
                    assert(rest[k] == x);
                }
            }
            if rest.contains(x) {
                let k = choose|k: int| 0 <= k < rest.len() && rest[k] == x;
                assert(rest.push(sinks.last())[k] == x);
            }
            assert(rest.push(sinks.last())[rest.len() as int] == sinks.last());
        }
    }
}

proof fn lemma_without_one_per_device<P>(sinks: Seq<(Seq<char>, P)>, id: Seq<char>)
    requires
        one_per_device(sinks),
    ensures
        one_per_device(without(sinks, id)),
        forall|k: int| 0 <= k < without(sinks, id).len() ==> (#[trigger] without(sinks, id)[k]).0 != id,
    decreases sinks.len(),
{
    if sinks.len() > 0 {
        let init = sinks.drop_last();
        assert(one_per_device(init)) by {
            assert forall|i: int, j: int| 0 <= i < init.len() && 0 <= j < init.len() && i != j
                implies init[i].0 != init[j].0 by {
                assert(init[i] == sinks[i] && init[j] == sinks[j]);
            }
        }
        lemma_without_one_per_device(init, id);
        let rest = without(init, id);
        if sinks.last().0 != id {
            assert forall|i: int| 0 <= i < rest.len() implies rest[i].0 != sinks.last().0 by {
                lemma_without_ids(init, id, rest[i]);
                assert(rest.contains(rest[i]));
                let k = choose|k: int| 0 <= k < init.len() && init[k] == rest[i];
                assert(sinks[k] == init[k]);
                assert(sinks[sinks.len() - 1] == sinks.last());
            }
            assert(one_per_device(rest.push(sinks.last())));
        }
    }
}

/// Each command leaves at most one sink per device: an added sink replaces
/// the old one of its device and comes last, and a removed device has no
/// sink left.
pub proof fn lemma_command_keeps_one_per_device<P>(sinks: Seq<(Seq<char>, P)>, cmd: CaptureCmd<P>)
    requires
        one_per_device(sinks),
    ensures
        one_per_device(after_command(sinks, cmd)),
        match cmd {
            CaptureCmd::Add(s) => after_command(sinks, cmd).last() == sink_view(s),
            CaptureCmd::Remove(id) => forall|k: int|
                0 <= k < after_command(sinks, cmd).len() ==> (#[trigger] after_command(
                    sinks,
                    cmd,
                )[k]).0 != id@,
        },
{
    match cmd {
        CaptureCmd::Add(s) => {
            lemma_without_one_per_device(sinks, s.device_id@);
            let rest = without(sinks, s.device_id@);
            assert(one_per_device(rest.push(sink_view(s)))) by {
                assert forall|i: int, j: int| 0 <= i < rest.len() + 1 && 0 <= j < rest.len() + 1 && i
                    != j implies rest.push(sink_view(s))[i].0 != rest.push(sink_view(s))[j].0 by {
                    if i < rest.len() && j < rest.len() {
                    } else if i < rest.len() {
                        assert(rest[i].0 != s.device_id@);
                    } else {
                        assert(rest[j].0 != s.device_id@);
                    }
                }
            }
        },
        CaptureCmd::Remove(id) => {
            lemma_without_one_per_device(sinks, id@);
        },
    }
}

/// The sink list after applying `cmds` in order, as the capture thread
/// does when it drains its command channel.
pub open spec fn after_commands<P>(sinks: Seq<(Seq<char>, P)>, cmds: Seq<CaptureCmd<P>>) -> Seq<
    (Seq<char>, P),
>
    decreases cmds.len(),
{
    if cmds.len() == 0 {
        sinks
    } else {
        after_command(after_commands(sinks, cmds.drop_last()), cmds.last())
    }
}

/// Draining any number of commands in order keeps at most one sink per
/// device, and the last command decides the fate of its device: after an
/// `Add` its sink comes last, after a `Remove` the device has no sink.
pub proof fn lemma_commands_keep_one_per_device<P>(
    sinks: Seq<(Seq<char>, P)>,
    cmds: Seq<CaptureCmd<P>>,
)
    requires
        one_per_device(sinks),
    ensures
        one_per_device(after_commands(sinks, cmds)),
        cmds.len() > 0 ==> match cmds.last() {
            CaptureCmd::Add(s) => after_commands(sinks, cmds).last() == sink_view(s),
            CaptureCmd::Remove(id) => forall|k: int|
                0 <= k < after_commands(sinks, cmds).len() ==> (#[trigger] after_commands(
                    sinks,
                    cmds,
                )[k]).0 != id@,
        },
    decreases cmds.len(),
{
    if cmds.len() > 0 {
        lemma_commands_keep_one_per_device(sinks, cmds.drop_last());
        lemma_command_keeps_one_per_device(after_commands(sinks, cmds.drop_last()), cmds.last());
    }
}

/// How many frames of silence a quiet wait must add, and the new count of
/// delivered frames: after audio flowed, the count catches up with the wall
/// clock; after a wait without audio, only a deficit of at least one period
/// is topped up, by at most one buffer.
pub open spec fn delivery_after(
    delivered: u64,
    expected: u64,
    emitted: bool,
    period_frames: usize,
    buffer_frames: usize,
) -> (u64, u64) {
    if emitted {
        (if delivered >= expected { delivered } else { expected }, 0)
    } else {
        let deficit: int = if expected > delivered { expected - delivered } else { 0 };
        if deficit >= period_frames {
            let frames: int = if deficit <= buffer_frames { deficit } else { buffer_frames as int };
            ((delivered + frames) as u64, frames as u64)
        } else {
            (delivered, 0)
        }
    }
}

/// Settles the capture clock after one wait. Frames handed to the rings
/// are weighed against the frames real time has called for, so that a
/// timed-out wait never injects silence that a late packet then covers too.
pub fn settle_delivery(
    delivered: u64,
    expected: u64,
    emitted: bool,
    period_frames: usize,
    buffer_frames: usize,
) -> (r: (u64, u64))
    requires
        delivered + buffer_frames <= u64::MAX,
    ensures
        r == delivery_after(delivered, expected, emitted, period_frames, buffer_frames),
        r.1 <= buffer_frames,
        !emitted ==> r.0 == delivered + r.1,
        r.0 <= if delivered >= expected { delivered } else { expected },
        emitted ==> r.0 >= expected,
{
    if emitted {
        let d = if delivered >= expected { delivered } else { expected };
        (d, 0)
    } else {
        let deficit = if expected > delivered { expected - delivered } else { 0 };
        if deficit >= period_frames as u64 {
            let frames = if deficit <= buffer_frames as u64 { deficit } else { buffer_frames as u64 };
            (delivered + frames, frames)
        } else {
            (delivered, 0)
        }
    }
}

} // verus!
