//! The supervisor's bookkeeping: which outputs have a render slot, when a
//! dead render thread may be retried, and how each event is answered.

use vstd::prelude::*;

use crate::text::{opt_text, texts};

verus! {

/// How long a dead or missing output waits before it is tried again, in
/// milliseconds.
pub const RETRY_MS: u64 = 2000;

/// One output of the running graph: its endpoint, whether its render
/// thread is alive, and the earliest time (milliseconds on the supervisor's
/// clock) at which a missing thread may be started again.
#[derive(Debug)]
pub struct Slot {
    pub device_id: String,
    pub running: bool,
    pub next_retry_ms: u64,
}

/// A slot as plain values.
pub type SlotView = (Seq<char>, bool, u64);

pub open spec fn slot_view(s: Slot) -> SlotView {
    (s.device_id@, s.running, s.next_retry_ms)
}

pub open spec fn slots_view(slots: Seq<Slot>) -> Seq<SlotView> {
    slots.map_values(|s: Slot| slot_view(s))
}

pub open spec fn ids_of(slots: Seq<SlotView>) -> Seq<Seq<char>> {
    slots.map_values(|s: SlotView| s.0)
}

/// The slots whose outputs are still wanted, in their order.
pub open spec fn kept(slots: Seq<SlotView>, wanted: Seq<Seq<char>>) -> Seq<SlotView>
    decreases slots.len(),
{
    if slots.len() == 0 {
        Seq::empty()
    } else {
        let rest = kept(slots.drop_last(), wanted);
        if wanted.contains(slots.last().0) {
            rest.push(slots.last())
        } else {
            rest
        }
    }
}

/// The slots whose outputs are no longer wanted, in their order.
pub open spec fn dropped(slots: Seq<SlotView>, wanted: Seq<Seq<char>>) -> Seq<SlotView>
    decreases slots.len(),
{
    if slots.len() == 0 {
        Seq::empty()
    } else {
        let rest = dropped(slots.drop_last(), wanted);
        if wanted.contains(slots.last().0) {
            rest
        } else {
            rest.push(slots.last())
        }
    }
}

/// New slots, without threads and due at `now`, for each wanted output
/// that had none, once each, in the order of `wanted`.
pub open spec fn added(existing: Seq<Seq<char>>, wanted: Seq<Seq<char>>, now: u64) -> Seq<SlotView>
    decreases wanted.len(),
{
    if wanted.len() == 0 {
        Seq::empty()
    } else {
        let rest = added(existing, wanted.drop_last(), now);
        let id = wanted.last();
        if existing.contains(id) || wanted.drop_last().contains(id) {
            rest
        } else {
            rest.push((id, false, now))
        }
    }
}

/// The slots after reconciling with the wanted outputs: the wanted ones
/// stay as they were, then the new ones follow.
pub open spec fn reconciled(slots: Seq<SlotView>, wanted: Seq<Seq<char>>, now: u64) -> Seq<
    SlotView,
> {
    kept(slots, wanted) + added(ids_of(slots), wanted, now)
}

proof fn lemma_ids_of_push(s: Seq<SlotView>, x: SlotView)
    ensures
        ids_of(s.push(x)) == ids_of(s).push(x.0),
{
    assert(ids_of(s.push(x)) =~= ids_of(s).push(x.0));
}

proof fn lemma_contains_push<A>(s: Seq<A>, x: A, y: A)
    ensures
        s.push(x).contains(y) <==> (s.contains(y) || x == y),
{
    if s.push(x).contains(y) {
        let k = choose|k: int| 0 <= k < s.push(x).len() && s.push(x)[k] == y;
        if k < s.len() {
            assert(s[k] == y);
        }
    }
    if s.contains(y) {
        let k = choose|k: int| 0 <= k < s.len() && s[k] == y;
        assert(s.push(x)[k] == y);
    }
    if x == y {
        assert(s.push(x)[s.len() as int] == y);
    }
}

proof fn lemma_ids_drop_last(s: Seq<SlotView>)
    requires
        s.len() > 0,
    ensures
        ids_of(s) == ids_of(s.drop_last()).push(s.last().0),
{
    assert(s =~= s.drop_last().push(s.last()));
    lemma_ids_of_push(s.drop_last(), s.last());
}

/// A kept slot's output was there before and is wanted.
proof fn lemma_kept_ids(s: Seq<SlotView>, w: Seq<Seq<char>>, x: Seq<char>)
    ensures
        ids_of(kept(s, w)).contains(x) <==> (ids_of(s).contains(x) && w.contains(x)),
    decreases s.len(),
{
    if s.len() > 0 {
        lemma_kept_ids(s.drop_last(), w, x);
        lemma_ids_drop_last(s);
        lemma_contains_push(ids_of(s.drop_last()), s.last().0, x);
        if w.contains(s.last().0) {
            lemma_ids_of_push(kept(s.drop_last(), w), s.last());
            lemma_contains_push(ids_of(kept(s.drop_last(), w)), s.last().0, x);
        }
    } else {
        assert(ids_of(kept(s, w)) =~= Seq::<Seq<char>>::empty());
        assert(ids_of(s) =~= Seq::<Seq<char>>::empty());
    }
}

/// An added slot's output is wanted and had no slot before.
proof fn lemma_added_ids(e: Seq<Seq<char>>, w: Seq<Seq<char>>, now: u64, x: Seq<char>)
    ensures
        ids_of(added(e, w, now)).contains(x) <==> (w.contains(x) && !e.contains(x)),
    decreases w.len(),
{
    if w.len() > 0 {
        let init = w.drop_last();
        lemma_added_ids(e, init, now, x);
        assert(w =~= init.push(w.last()));
        lemma_contains_push(init, w.last(), x);
        if !(e.contains(w.last()) || init.contains(w.last())) {
            lemma_ids_of_push(added(e, init, now), (w.last(), false, now));
            lemma_contains_push(ids_of(added(e, init, now)), w.last(), x);
        }
    } else {
        assert(ids_of(added(e, w, now)) =~= Seq::<Seq<char>>::empty());
    }
}

proof fn lemma_ids_of_add(a: Seq<SlotView>, b: Seq<SlotView>)
    ensures
        ids_of(a + b) == ids_of(a) + ids_of(b),
{
    assert(ids_of(a + b) =~= ids_of(a) + ids_of(b));
}

proof fn lemma_contains_add<A>(a: Seq<A>, b: Seq<A>, x: A)
    ensures
        (a + b).contains(x) <==> (a.contains(x) || b.contains(x)),
{
    if (a + b).contains(x) {
        let k = choose|k: int| 0 <= k < (a + b).len() && (a + b)[k] == x;
        if k < a.len() {
            assert(a[k] == x);
        } else {
            assert(b[k - a.len()] == x);
        }
    }
    if a.contains(x) {
        let k = choose|k: int| 0 <= k < a.len() && a[k] == x;
        assert((a + b)[k] == x);
    }
    if b.contains(x) {
        let k = choose|k: int| 0 <= k < b.len() && b[k] == x;
        assert((a + b)[a.len() + k] == x);
    }
}

/// After reconciling, an output has a slot exactly when it is wanted.
pub proof fn lemma_reconcile_covers_wanted(
    slots: Seq<SlotView>,
    wanted: Seq<Seq<char>>,
    now: u64,
    x: Seq<char>,
)
    ensures
        ids_of(reconciled(slots, wanted, now)).contains(x) <==> wanted.contains(x),
{
    lemma_ids_of_add(kept(slots, wanted), added(ids_of(slots), wanted, now));
    lemma_contains_add(ids_of(kept(slots, wanted)), ids_of(added(ids_of(slots), wanted, now)), x);
    lemma_kept_ids(slots, wanted, x);
    lemma_added_ids(ids_of(slots), wanted, now, x);
}

proof fn lemma_push_no_duplicates<A>(s: Seq<A>, x: A)
    requires
        s.no_duplicates(),
        !s.contains(x),
    ensures
        s.push(x).no_duplicates(),
{
    assert forall|i: int, j: int| 0 <= i < s.push(x).len() && 0 <= j < s.push(x).len() && i != j
        implies s.push(x)[i] != s.push(x)[j] by {
        if i < s.len() && j < s.len() {
        } else if i < s.len() {
            assert(s[i] == s.push(x)[i]);
        } else if j < s.len() {
            assert(s[j] == s.push(x)[j]);
        }
    }
}

proof fn lemma_kept_no_duplicates(s: Seq<SlotView>, w: Seq<Seq<char>>)
    requires
        ids_of(s).no_duplicates(),
    ensures
        ids_of(kept(s, w)).no_duplicates(),
    decreases s.len(),
{
    if s.len() > 0 {
        let init = s.drop_last();
        lemma_ids_drop_last(s);
        assert(ids_of(init) =~= ids_of(s).drop_last());
        assert(ids_of(init).no_duplicates()) by {
            assert forall|i: int, j: int| 0 <= i < ids_of(init).len() && 0 <= j < ids_of(init).len()
                && i != j implies ids_of(init)[i] != ids_of(init)[j] by {
                assert(ids_of(init)[i] == ids_of(s)[i]);
                assert(ids_of(init)[j] == ids_of(s)[j]);
            }
        }
        lemma_kept_no_duplicates(init, w);
        if w.contains(s.last().0) {
            lemma_kept_ids(init, w, s.last().0);
            if ids_of(init).contains(s.last().0) {
                let k = choose|k: int| 0 <= k < ids_of(init).len() && ids_of(init)[k] == s.last().0;
                assert(ids_of(s)[k] == ids_of(s)[s.len() - 1]);
            }
            lemma_ids_of_push(kept(init, w), s.last());
            lemma_push_no_duplicates(ids_of(kept(init, w)), s.last().0);
        }
    } else {
        assert(ids_of(kept(s, w)) =~= Seq::<Seq<char>>::empty());
    }
}

proof fn lemma_added_no_duplicates(e: Seq<Seq<char>>, w: Seq<Seq<char>>, now: u64)
    ensures
        ids_of(added(e, w, now)).no_duplicates(),
    decreases w.len(),
{
    if w.len() > 0 {
        let init = w.drop_last();
        lemma_added_no_duplicates(e, init, now);
        if !(e.contains(w.last()) || init.contains(w.last())) {
            lemma_added_ids(e, init, now, w.last());
            lemma_ids_of_push(added(e, init, now), (w.last(), false, now));
            lemma_push_no_duplicates(ids_of(added(e, init, now)), w.last());
        }
    } else {
        assert(ids_of(added(e, w, now)) =~= Seq::<Seq<char>>::empty());
    }
}

/// Reconciling never gives one output two slots, provided it had none
/// twice before.
pub proof fn lemma_reconcile_no_duplicates(slots: Seq<SlotView>, wanted: Seq<Seq<char>>, now: u64)
    requires
        ids_of(slots).no_duplicates(),
    ensures
        ids_of(reconciled(slots, wanted, now)).no_duplicates(),
{
    let a = ids_of(kept(slots, wanted));
    let b = ids_of(added(ids_of(slots), wanted, now));
    lemma_kept_no_duplicates(slots, wanted);
    lemma_added_no_duplicates(ids_of(slots), wanted, now);
    lemma_ids_of_add(kept(slots, wanted), added(ids_of(slots), wanted, now));
    assert forall|i: int, j: int| 0 <= i < (a + b).len() && 0 <= j < (a + b).len() && i != j
        implies (a + b)[i] != (a + b)[j] by {
        if i < a.len() && j >= a.len() {
            lemma_kept_ids(slots, wanted, a[i]);
            lemma_added_ids(ids_of(slots), wanted, now, b[j - a.len()]);
            assert(a.contains(a[i]));
            assert(b.contains(b[j - a.len()]));
        } else if j < a.len() && i >= a.len() {
            lemma_kept_ids(slots, wanted, a[j]);
            lemma_added_ids(ids_of(slots), wanted, now, b[i - a.len()]);
            assert(a.contains(a[j]));
            assert(b.contains(b[i - a.len()]));
        } else if i < a.len() {
        } else {
            assert((a + b)[i] == b[i - a.len()]);
            assert((a + b)[j] == b[j - a.len()]);
        }
    }
}

proof fn lemma_kept_contains(s: Seq<SlotView>, w: Seq<Seq<char>>, i: int)
    requires
        0 <= i < s.len(),
        w.contains(s[i].0),
    ensures
        kept(s, w).contains(s[i]),
    decreases s.len(),
{
    if i < s.len() - 1 {
        lemma_kept_contains(s.drop_last(), w, i);
        assert(s.drop_last()[i] == s[i]);
        if w.contains(s.last().0) {
            lemma_contains_push(kept(s.drop_last(), w), s.last(), s[i]);
        }
    } else {
        lemma_contains_push(kept(s.drop_last(), w), s.last(), s[i]);
    }
}

/// Slots whose outputs stay wanted are left exactly as they were: their
/// threads and retry times are not touched.
pub proof fn lemma_reconcile_keeps_wanted_slots(
    slots: Seq<SlotView>,
    wanted: Seq<Seq<char>>,
    now: u64,
    i: int,
)
    requires
        0 <= i < slots.len(),
        wanted.contains(slots[i].0),
    ensures
        reconciled(slots, wanted, now).contains(slots[i]),
{
    lemma_kept_contains(slots, wanted, i);
    lemma_contains_add(kept(slots, wanted), added(ids_of(slots), wanted, now), slots[i]);
}

fn wanted_contains(wanted: &[String], id: &String) -> (r: bool)
    ensures
        r == texts(wanted@).contains(id@),
{
    let mut i: usize = 0;
    while i < wanted.len()
        invariant
            i <= wanted.len(),
            forall|k: int| 0 <= k < i ==> (#[trigger] wanted@[k])@ != id@,
        decreases wanted.len() - i,
    {
        if wanted[i] == *id {
            assert(texts(wanted@)[i as int] == id@);
            return true;
        }
        i = i + 1;
    }
    assert(!texts(wanted@).contains(id@)) by {
        if texts(wanted@).contains(id@) {
            let k = choose|k: int| 0 <= k < texts(wanted@).len() && texts(wanted@)[k] == id@;
            assert(wanted@[k]@ == id@);
        }
    }
    false
}

fn has_slot(slots: &Vec<Slot>, id: &String) -> (r: bool)
    ensures
        r == ids_of(slots_view(slots@)).contains(id@),
{
    let ghost ids = ids_of(slots_view(slots@));
    let mut i: usize = 0;
    while i < slots.len()
        invariant
            i <= slots.len(),
            ids == ids_of(slots_view(slots@)),
            forall|k: int| 0 <= k < i ==> (#[trigger] slots@[k]).device_id@ != id@,
        decreases slots.len() - i,
    {
        if slots[i].device_id == *id {
            assert(ids[i as int] == id@);
            return true;
        }
        i = i + 1;
    }
    assert(!ids.contains(id@)) by {
        if ids.contains(id@) {
            let k = choose|k: int| 0 <= k < ids.len() && ids[k] == id@;
            assert(slots@[k].device_id@ == id@);
        }
    }
    false
}

/// Brings the slots in line with the wanted outputs without touching the
/// ones that stay: slots of outputs no longer wanted are taken out and
/// returned, so that their threads can be stopped, and each newly wanted
/// output gets a slot without a thread, due at `now_ms`.
pub fn reconcile(slots: &mut Vec<Slot>, wanted: &[String], now_ms: u64) -> (removed: Vec<Slot>)
    ensures
        slots_view(final(slots)@) == reconciled(slots_view(old(slots)@), texts(wanted@), now_ms),
        slots_view(removed@) == dropped(slots_view(old(slots)@), texts(wanted@)),
{
    let ghost orig = slots_view(slots@);
    let ghost w = texts(wanted@);
    let mut rest: Vec<Slot> = Vec::new();
    std::mem::swap(slots, &mut rest);
    let mut removed: Vec<Slot> = Vec::new();
    let ghost mut j: int = 0;
    assert(slots_view(rest@) =~= orig.subrange(0, orig.len() as int));
    assert(slots_view(slots@) =~= kept(orig.subrange(0, 0), w));
    assert(slots_view(removed@) =~= dropped(orig.subrange(0, 0), w));
    while rest.len() > 0
        invariant
            0 <= j <= orig.len(),
            w == texts(wanted@),
            slots_view(rest@) == orig.subrange(j, orig.len() as int),
            slots_view(slots@) == kept(orig.subrange(0, j), w),
            slots_view(removed@) == dropped(orig.subrange(0, j), w),
        decreases rest.len(),
    {
        let ghost before_rest = rest@;
        let s = rest.remove(0);
        let ghost sv = slot_view(s);
        proof {
            assert(slots_view(before_rest).len() == before_rest.len());
            assert(j < orig.len());
            assert(before_rest[0] == s);
            assert(slots_view(before_rest)[0] == sv);
            assert(orig.subrange(j, orig.len() as int)[0] == sv);
            let next = orig.subrange(0, j + 1);
            assert(next.drop_last() =~= orig.subrange(0, j));
            assert(next.last() == sv);
            assert(slots_view(rest@) =~= orig.subrange(j + 1, orig.len() as int)) by {
                assert forall|k: int| 0 <= k < rest@.len() implies slots_view(rest@)[k]
                    == orig.subrange(j + 1, orig.len() as int)[k] by {
                    assert(rest@[k] == before_rest[k + 1]);
                    assert(slots_view(before_rest)[k + 1] == orig.subrange(j, orig.len() as int)[k + 1]);
                }
            }
        }
        let keep = wanted_contains(wanted, &s.device_id);
        let ghost before_slots = slots_view(slots@);
        let ghost before_removed = slots_view(removed@);
        if keep {
            slots.push(s);
            assert(slots_view(slots@) =~= before_slots.push(sv));
        } else {
            removed.push(s);
            assert(slots_view(removed@) =~= before_removed.push(sv));
        }
        proof {
            j = j + 1;
        }
    }
    assert(orig.subrange(0, j) =~= orig);
    let mut k: usize = 0;
    assert(w.subrange(0, 0) =~= Seq::<Seq<char>>::empty());
    assert(slots_view(slots@) =~= kept(orig, w) + added(ids_of(orig), w.subrange(0, 0), now_ms));
    while k < wanted.len()
        invariant
            k <= wanted.len(),
            w == texts(wanted@),
            slots_view(slots@) == kept(orig, w) + added(ids_of(orig), w.subrange(0, k as int), now_ms),
        decreases wanted.len() - k,
    {
        let id = &wanted[k];
        let ghost x = id@;
        let ghost prefix = w.subrange(0, k as int);
        let ghost next = w.subrange(0, k + 1);
        proof {
            assert(next.drop_last() =~= prefix);
            assert(next.last() == x);
            assert(w.contains(x)) by {
                assert(w[k as int] == x);
            }
            lemma_ids_of_add(kept(orig, w), added(ids_of(orig), prefix, now_ms));
            lemma_contains_add(ids_of(kept(orig, w)), ids_of(added(ids_of(orig), prefix, now_ms)), x);
            lemma_kept_ids(orig, w, x);
            lemma_added_ids(ids_of(orig), prefix, now_ms, x);
        }
        let ghost before = slots_view(slots@);
        if !has_slot(slots, id) {
            slots.push(Slot { device_id: id.clone(), running: false, next_retry_ms: now_ms });
            assert(slots_view(slots@) =~= before.push((x, false, now_ms)));
        }
        k = k + 1;
    }
    assert(w.subrange(0, wanted.len() as int) =~= w);
    removed
}

/// Marks the slots of `device_id` due at once: the device is back, so its
/// render thread need not wait out the retry delay.
pub fn retry_now(slots: &mut Vec<Slot>, device_id: &String, now_ms: u64)
    ensures
        final(slots)@.len() == old(slots)@.len(),
        forall|i: int| 0 <= i < old(slots)@.len() ==> slot_view(#[trigger] final(slots)@[i]) == if old(slots)@[i].device_id@ == device_id@ {
            (device_id@, old(slots)@[i].running, now_ms)
        } else {
            slot_view(old(slots)@[i])
        },
{
    let mut i: usize = 0;
    while i < slots.len()
        invariant
            i <= slots.len(),
            slots@.len() == old(slots)@.len(),
            forall|k: int| i <= k < slots@.len() ==> #[trigger] slots@[k] == old(slots)@[k],
            forall|k: int| 0 <= k < i ==> slot_view(#[trigger] slots@[k]) == if old(slots)@[k].device_id@
                == device_id@ {
                (device_id@, old(slots)@[k].running, now_ms)
            } else {
                slot_view(old(slots)@[k])
            },
        decreases slots.len() - i,
    {
        if slots[i].device_id == *device_id {
            let mut s = slots.remove(i);
            s.next_retry_ms = now_ms;
            slots.insert(i, s);
        }
        i = i + 1;
    }
}

/// Takes the slots of a lost device off the air: their threads count as
/// stopped and the next attempt waits `RETRY_MS`. Returns whether any slot
/// had that device, so that its thread can be stopped and the capture side
/// told to drop its ring.
pub fn drop_output(slots: &mut Vec<Slot>, device_id: &String, now_ms: u64) -> (found: bool)
    requires
        now_ms + RETRY_MS <= u64::MAX,
    ensures
        found == ids_of(slots_view(old(slots)@)).contains(device_id@),
        final(slots)@.len() == old(slots)@.len(),
        forall|i: int| 0 <= i < old(slots)@.len() ==> slot_view(#[trigger] final(slots)@[i]) == if old(slots)@[i].device_id@ == device_id@ {
            (device_id@, false, (now_ms + RETRY_MS) as u64)
        } else {
            slot_view(old(slots)@[i])
        },
{
    let ghost ids = ids_of(slots_view(old(slots)@));
    let mut found = false;
    let mut i: usize = 0;
    while i < slots.len()
        invariant
            i <= slots.len(),
            now_ms + RETRY_MS <= u64::MAX,
            ids == ids_of(slots_view(old(slots)@)),
            slots@.len() == old(slots)@.len(),
            found == exists|k: int| 0 <= k < i && old(slots)@[k].device_id@ == device_id@,
            forall|k: int| i <= k < slots@.len() ==> #[trigger] slots@[k] == old(slots)@[k],
            forall|k: int| 0 <= k < i ==> slot_view(#[trigger] slots@[k]) == if old(slots)@[k].device_id@
                == device_id@ {
                (device_id@, false, (now_ms + RETRY_MS) as u64)
            } else {
                slot_view(old(slots)@[k])
            },
        decreases slots.len() - i,
    {
        if slots[i].device_id == *device_id {
            let mut s = slots.remove(i);
            s.running = false;
            s.next_retry_ms = now_ms + RETRY_MS;
            slots.insert(i, s);
            found = true;
        }
        i = i + 1;
    }
    proof {
        if found {
            let k = choose|k: int| 0 <= k < i && old(slots)@[k].device_id@ == device_id@;
            assert(ids[k] == device_id@);
        }
        if ids.contains(device_id@) {
            let k = choose|k: int| 0 <= k < ids.len() && ids[k] == device_id@;
            assert(old(slots)@[k].device_id@ == device_id@);
        }
    }
    found
}

impl Slot {
    /// The first half of a tick for this slot: a finished render thread is
    /// reaped and waits `RETRY_MS`; then the slot is due for a new thread
    /// when it has none and its retry time has come.
    pub fn tick(&mut self, thread_finished: bool, now_ms: u64) -> (due: bool)
        requires
            now_ms + RETRY_MS <= u64::MAX,
        ensures
            final(self).device_id == old(self).device_id,
            old(self).running && thread_finished ==> !final(self).running
                && final(self).next_retry_ms == now_ms + RETRY_MS,
            !(old(self).running && thread_finished) ==> slot_view(*final(self)) == slot_view(
                *old(self),
            ),
            due == (!final(self).running && now_ms >= final(self).next_retry_ms),
    {
        if self.running && thread_finished {
            self.running = false;
            self.next_retry_ms = now_ms + RETRY_MS;
        }
        !self.running && now_ms >= self.next_retry_ms
    }

    /// The second half, for a due slot: `started` tells whether the device
    /// was active and a render thread could be spawned. Either way the next
    /// attempt waits `RETRY_MS`.
    pub fn restarted(&mut self, started: bool, now_ms: u64)
        requires
            now_ms + RETRY_MS <= u64::MAX,
        ensures
            final(self).device_id == old(self).device_id,
            final(self).running == started,
            final(self).next_retry_ms == now_ms + RETRY_MS,
    {
        self.running = started;
        self.next_retry_ms = now_ms + RETRY_MS;
    }
}

fn same_text(a: &Option<String>, b: &Option<String>) -> (r: bool)
    ensures
        r == (opt_text(*a) == opt_text(*b)),
{
    match (a, b) {
        (Some(x), Some(y)) => *x == *y,
        (None, None) => true,
        _ => false,
    }
}

/// What reaches the supervisor: a new configuration (of which only the
/// capture source matters here), endpoint notifications, a stop request, a
/// closed command channel, or a tick without news.
#[derive(Debug)]
pub enum Event {
    Apply { source: Option<String> },
    DeviceAvailable(String),
    DeviceLost(String),
    DefaultRenderChanged(String),
    Stop,
    Disconnected,
    Timeout,
}

/// `DEVICE_STATE_ACTIVE`, the endpoint state of a usable device.
pub const DEVICE_STATE_ACTIVE: u32 = 1;

impl Event {
    /// A device changed state: it is available when it became active and
    /// lost otherwise.
    pub fn state_changed(device_id: String, new_state: u32) -> (e: Event)
        ensures
            new_state == DEVICE_STATE_ACTIVE ==> (e matches Event::DeviceAvailable(id) && id@
                == device_id@),
            new_state != DEVICE_STATE_ACTIVE ==> (e matches Event::DeviceLost(id) && id@
                == device_id@),
    {
        if new_state == DEVICE_STATE_ACTIVE {
            Event::DeviceAvailable(device_id)
        } else {
            Event::DeviceLost(device_id)
        }
    }

    /// The system default changed for some data flow and role; only a new
    /// default render endpoint concerns the engine.
    pub fn default_changed(render_flow: bool, device_id: String) -> (e: Option<Event>)
        ensures
            render_flow ==> (e matches Some(Event::DefaultRenderChanged(id)) && id@ == device_id@),
            !render_flow ==> e is None,
    {
        if render_flow {
            Some(Event::DefaultRenderChanged(device_id))
        } else {
            None
        }
    }
}

/// What the supervisor does about an event.
#[derive(Debug)]
pub enum Action {
    /// Leave the loop and shut everything down.
    Exit,
    /// Tear the graph down and build it again.
    Rebuild,
    /// Bring the outputs of the live graph in line with the configuration.
    Reconcile,
    /// Let the slots of this device try again at once.
    RetryNow(String),
    /// Stop the slots of this device.
    DropOutput(String),
    /// Nothing beyond the usual tick.
    Idle,
}

/// The supervisor's memory between events: the configured capture source
/// (`None` follows the system default), the source of the live graph if
/// there is one, and the earliest time for the next build.
#[derive(Debug)]
pub struct Supervisor {
    pub configured_source: Option<String>,
    pub graph_source: Option<String>,
    pub rebuild_at_ms: u64,
}

/// What follows an event once it has been answered.
#[derive(Debug, Clone, Copy, PartialEq, Eq, Structural)]
pub struct Settle {
    /// Shut the live graph down.
    pub shutdown: bool,
    /// Try to build a graph now.
    pub build: bool,
}

impl Supervisor {
    /// A supervisor before its first build, which is due at once.
    pub fn new(configured_source: Option<String>, now_ms: u64) -> (s: Supervisor)
        ensures
            opt_text(s.configured_source) == opt_text(configured_source),
            s.graph_source is None,
            s.rebuild_at_ms == now_ms,
    {
        Supervisor { configured_source, graph_source: None, rebuild_at_ms: now_ms }
    }

    /// Answers one event. A configuration whose capture source differs
    /// from the current one rebuilds the graph; otherwise a live graph
    /// reconciles its outputs. A new system default rebuilds only when the
    /// source follows the default, the new id is not empty and differs from
    /// the live graph's source. Device arrivals and losses concern a live
    /// graph only. A stop request or a closed channel ends the loop.
    pub fn on_event(&mut self, event: Event) -> (a: Action)
        ensures
            final(self).graph_source == old(self).graph_source,
            final(self).rebuild_at_ms == old(self).rebuild_at_ms,
            match event {
                Event::Apply { source } => opt_text(final(self).configured_source) == opt_text(source)
                    && if opt_text(source) != opt_text(old(self).configured_source) {
                    a is Rebuild
                } else if old(self).graph_source is Some {
                    a is Reconcile
                } else {
                    a is Idle
                },
                Event::DefaultRenderChanged(id) => opt_text(final(self).configured_source)
                    == opt_text(old(self).configured_source) && if old(self).configured_source is None && id@.len() > 0 && (old(self).graph_source matches Some(
                    g,
                ) && g@ != id@) {
                    a is Rebuild
                } else {
                    a is Idle
                },
                Event::DeviceAvailable(id) => opt_text(final(self).configured_source) == opt_text(
                    old(self).configured_source,
                ) && if old(self).graph_source is Some {
                    a matches Action::RetryNow(d) && d@ == id@
                } else {
                    a is Idle
                },
                Event::DeviceLost(id) => opt_text(final(self).configured_source) == opt_text(
                    old(self).configured_source,
                ) && if old(self).graph_source is Some {
                    a matches Action::DropOutput(d) && d@ == id@
                } else {
                    a is Idle
                },
                Event::Stop => a is Exit,
                Event::Disconnected => a is Exit,
                Event::Timeout => opt_text(final(self).configured_source) == opt_text(
                    old(self).configured_source,
                ) && a is Idle,
            },
    {
        match event {
            Event::Apply { source } => {
                let rebuild = !same_text(&source, &self.configured_source);
                self.configured_source = source;
                if rebuild {
                    Action::Rebuild
                } else if self.graph_source.is_some() {
                    Action::Reconcile
                } else {
                    Action::Idle
                }
            },
            Event::DefaultRenderChanged(id) => {
                let differs = match &self.graph_source {
                    Some(g) => *g != id,
                    None => false,
                };
                if self.configured_source.is_none() && !id.as_str().is_empty() && differs {
                    Action::Rebuild
                } else {
                    Action::Idle
                }
            },
            Event::DeviceAvailable(id) => {
                if self.graph_source.is_some() {
                    Action::RetryNow(id)
                } else {
                    Action::Idle
                }
            },
            Event::DeviceLost(id) => {
                if self.graph_source.is_some() {
                    Action::DropOutput(id)
                } else {
                    Action::Idle
                }
            },
            Event::Stop => Action::Exit,
            Event::Disconnected => Action::Exit,
            Event::Timeout => Action::Idle,
        }
    }

    /// After an event: a rebuild, or a capture thread that died with its
    /// source, tears the live graph down and makes a build due at once;
    /// without a graph, a build is tried once its time has come.
    pub fn settle(&mut self, rebuild: bool, capture_dead: bool, now_ms: u64) -> (s: Settle)
        ensures
            opt_text(final(self).configured_source) == opt_text(old(self).configured_source),
            ({
                let teardown = rebuild || (old(self).graph_source is Some && capture_dead);
                &&& s.shutdown == (teardown && old(self).graph_source is Some)
                &&& final(self).rebuild_at_ms == if teardown {
                    now_ms
                } else {
                    old(self).rebuild_at_ms
                }
                &&& if teardown {
                    final(self).graph_source is None
                } else {
                    opt_text(final(self).graph_source) == opt_text(old(self).graph_source)
                }
                &&& s.build == (final(self).graph_source is None
                    && now_ms >= final(self).rebuild_at_ms)
            }),
    {
        let teardown = rebuild || (self.graph_source.is_some() && capture_dead);
        let shutdown = teardown && self.graph_source.is_some();
        if teardown {
            self.graph_source = None;
            self.rebuild_at_ms = now_ms;
        }
        let build = self.graph_source.is_none() && now_ms >= self.rebuild_at_ms;
        Settle { shutdown, build }
    }

    /// Records the outcome of a build: the source of the new graph, or a
    /// failure, after which the next build waits `RETRY_MS`.
    pub fn built(&mut self, source: Option<String>, now_ms: u64)
        requires
            now_ms + RETRY_MS <= u64::MAX,
        ensures
            opt_text(final(self).configured_source) == opt_text(old(self).configured_source),
            opt_text(final(self).graph_source) == opt_text(source),
            source is None ==> final(self).rebuild_at_ms == now_ms + RETRY_MS,
            source is Some ==> final(self).rebuild_at_ms == old(self).rebuild_at_ms,
    {
        if source.is_none() {
            self.rebuild_at_ms = now_ms + RETRY_MS;
        }
        self.graph_source = source;
    }

    /// Whether a graph is live, which the engine reports as running.
    pub fn running(&self) -> (r: bool)
        ensures
            r == self.graph_source is Some,
    {
        self.graph_source.is_some()
    }
}

} // verus!
