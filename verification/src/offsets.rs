//! Output offsets are relative: the most negative one becomes zero extra
//! delay, and every other output is held back by its distance from it.

use vstd::prelude::*;

verus! {

/// The smallest of the offsets and zero.
pub open spec fn offset_floor(offsets: Seq<i32>) -> int
    decreases offsets.len(),
{
    if offsets.len() == 0 {
        0
    } else {
        let rest = offset_floor(offsets.drop_last());
        if offsets.last() < rest {
            offsets.last() as int
        } else {
            rest
        }
    }
}

/// The extra delay of output `i`, in milliseconds.
pub open spec fn delay_of(offsets: Seq<i32>, i: int) -> int {
    offsets[i] - offset_floor(offsets)
}

/// Whether every offset lies within `i32` range of the floor, so that the
/// delays can be computed without overflow.
pub open spec fn offsets_in_range(offsets: Seq<i32>) -> bool {
    forall|i: int| 0 <= i < offsets.len() ==> #[trigger] offsets[i] - offset_floor(offsets) <= i32::MAX
}

/// The floor is at most zero and at most every offset, and it is zero or
/// one of the offsets.
pub proof fn lemma_floor_bounds(offsets: Seq<i32>)
    ensures
        offset_floor(offsets) <= 0,
        offset_floor(offsets) >= i32::MIN,
        forall|i: int| 0 <= i < offsets.len() ==> offset_floor(offsets) <= #[trigger] offsets[i],
        offset_floor(offsets) == 0 || exists|i: int|
            0 <= i < offsets.len() && #[trigger] offsets[i] == offset_floor(offsets),
    decreases offsets.len(),
{
    if offsets.len() > 0 {
        let init = offsets.drop_last();
        lemma_floor_bounds(init);
        assert forall|i: int| 0 <= i < offsets.len() implies offset_floor(offsets) <= #[trigger] offsets[i] by {
            if i < init.len() {
                assert(offsets[i] == init[i]);
            }
        }
        if offset_floor(offsets) != 0 {
            if offsets.last() < offset_floor(init) {
                assert(offsets[offsets.len() - 1] == offset_floor(offsets));
            } else {
                let k = choose|k: int| 0 <= k < init.len() && #[trigger] init[k] == offset_floor(init);
                assert(offsets[k] == init[k]);
            }
        }
    }
}

/// The floor of the offsets: the smallest of them, or zero if none is
/// negative.
fn offset_floor_of(offsets: &[i32]) -> (floor: i32)
    ensures
        floor == offset_floor(offsets@),
{
    let mut floor: i32 = 0;
    let mut i: usize = 0;
    while i < offsets.len()
        invariant
            i <= offsets.len(),
            floor == offset_floor(offsets@.subrange(0, i as int)),
        decreases offsets.len() - i,
    {
        proof {
            let next = offsets@.subrange(0, i + 1);
            assert(next.drop_last() =~= offsets@.subrange(0, i as int));
        }
        if offsets[i] < floor {
            floor = offsets[i];
        }
        i = i + 1;
    }
    assert(offsets@.subrange(0, offsets.len() as int) =~= offsets@);
    floor
}

/// The extra delay of each output, in milliseconds, in the order of the
/// offsets: each offset minus the floor.
pub fn output_delays(offsets: &[i32]) -> (delays: Vec<u32>)
    requires
        offsets_in_range(offsets@),
    ensures
        delays.len() == offsets.len(),
        forall|i: int| 0 <= i < offsets.len() ==> #[trigger] delays@[i] == delay_of(offsets@, i),
{
    let floor = offset_floor_of(offsets);
    proof {
        lemma_floor_bounds(offsets@);
    }
    let mut delays: Vec<u32> = Vec::new();
    let mut i: usize = 0;
    while i < offsets.len()
        invariant
            i <= offsets.len(),
            floor == offset_floor(offsets@),
            floor <= 0,
            offsets_in_range(offsets@),
            forall|k: int| 0 <= k < offsets.len() ==> floor <= #[trigger] offsets@[k],
            delays.len() == i,
            forall|k: int| 0 <= k < i ==> #[trigger] delays@[k] == delay_of(offsets@, k),
        decreases offsets.len() - i,
    {
        assert(offsets@[i as int] - offset_floor(offsets@) <= i32::MAX);
        let d = offsets[i] - floor;
        delays.push(d as u32);
        i = i + 1;
    }
    delays
}

/// The delays keep the differences between the offsets: moving the floor
/// shifts every output by the same amount.
pub proof fn lemma_delays_keep_differences(offsets: Seq<i32>, i: int, j: int)
    requires
        0 <= i < offsets.len(),
        0 <= j < offsets.len(),
    ensures
        delay_of(offsets, i) - delay_of(offsets, j) == offsets[i] - offsets[j],
{
}

/// Delays are never negative, and the most negative offset, if there is a
/// negative or zero one, gets no extra delay at all.
pub proof fn lemma_most_negative_gets_zero(offsets: Seq<i32>)
    ensures
        forall|i: int| 0 <= i < offsets.len() ==> #[trigger] delay_of(offsets, i) >= 0,
        (exists|i: int| 0 <= i < offsets.len() && #[trigger] offsets[i] <= 0) ==> exists|i: int|
            0 <= i < offsets.len() && #[trigger] delay_of(offsets, i) == 0,
        (forall|i: int| 0 <= i < offsets.len() ==> #[trigger] offsets[i] >= 0) ==> forall|i: int|
            0 <= i < offsets.len() ==> #[trigger] delay_of(offsets, i) == offsets[i],
{
    lemma_floor_bounds(offsets);
    assert forall|i: int| 0 <= i < offsets.len() implies #[trigger] delay_of(offsets, i) >= 0 by {
        assert(offset_floor(offsets) <= offsets[i]);
    }
    if exists|i: int| 0 <= i < offsets.len() && #[trigger] offsets[i] <= 0 {
        let i = choose|i: int| 0 <= i < offsets.len() && #[trigger] offsets[i] <= 0;
        if offset_floor(offsets) == 0 {
            assert(offset_floor(offsets) <= offsets[i]);
            assert(delay_of(offsets, i) == 0);
        } else {
            let k = choose|k: int| 0 <= k < offsets.len() && #[trigger] offsets[k] == offset_floor(offsets);
            assert(delay_of(offsets, k) == 0);
        }
    }
    if forall|i: int| 0 <= i < offsets.len() ==> #[trigger] offsets[i] >= 0 {
        if offset_floor(offsets) != 0 {
            let k = choose|k: int| 0 <= k < offsets.len() && #[trigger] offsets[k] == offset_floor(offsets);
            assert(offsets[k] >= 0);
        }
    }
}

} // verus!
