//! Candidate step sequences: for one clock axis, the ordered offsets the
//! search will try, derived from the device's supported clock table.

use vstd::prelude::*;

verus! {

/// The candidate step sequence for one clock axis: every supported clock at
/// or below the baseline clock, visited from the highest down, each turned
/// into the signed offset `supported − baseline`. All offsets are at most 0
/// and the first is the smallest perturbation.
pub open spec fn step_seq(supported: Seq<u32>, base: u32) -> Seq<i32>
    decreases supported.len(),
{
    if supported.len() == 0 {
        Seq::empty()
    } else {
        let rest = step_seq(supported.subrange(1, supported.len() as int), base);
        if supported[0] <= base {
            rest.push((supported[0] - base) as i32)
        } else {
            rest
        }
    }
}

/// Computes the candidate step sequence for one axis from the supported
/// clock table (ascending, as the device reports it) and the baseline clock.
pub fn candidate_steps(supported: &Vec<u32>, base: u32) -> (steps: Vec<i32>)
    requires
        base <= i32::MAX as u32,
    ensures
        steps@ == step_seq(supported@, base),
{
    let mut steps: Vec<i32> = Vec::new();
    let mut i: usize = supported.len();
    while i > 0
        invariant
            i <= supported.len(),
            base <= i32::MAX as u32,
            steps@ == step_seq(supported@.subrange(i as int, supported@.len() as int), base),
        decreases i,
    {
        i = i - 1;
        let c = supported[i];
        proof {
            let whole = supported@.subrange(i as int, supported@.len() as int);
            assert(whole[0] == supported@[i as int]);
            assert(whole.subrange(1, whole.len() as int) =~= supported@.subrange(
                i as int + 1,
                supported@.len() as int,
            ));
        }
        if c <= base {
            let off: i32 = c as i32 - base as i32;
            steps.push(off);
        }
    }
    proof {
        assert(supported@.subrange(0, supported@.len() as int) =~= supported@);
    }
    steps
}

/// Offset ordering: over an ascending clock table every candidate step is at
/// most zero, the sequence is non-increasing — so the first step tried sits
/// closest to the baseline and later steps restrict more — and no step drops
/// below `−base`.
pub proof fn lemma_step_seq_ordered(supported: Seq<u32>, base: u32)
    requires
        base <= i32::MAX as u32,
        forall|i: int, j: int| 0 <= i < j < supported.len() ==> supported[i] <= supported[j],
    ensures
        forall|k: int|
            0 <= k < step_seq(supported, base).len() ==> #[trigger] step_seq(supported, base)[k]
                <= 0,
        forall|i: int, j: int|
            0 <= i < j < step_seq(supported, base).len() ==> step_seq(supported, base)[i]
                >= step_seq(supported, base)[j],
        forall|k: int|
            0 <= k < step_seq(supported, base).len() ==> #[trigger] step_seq(supported, base)[k]
                >= -(base as int),
    decreases supported.len(),
{
    if supported.len() > 0 {
        let tail = supported.subrange(1, supported.len() as int);
        lemma_step_seq_ordered(tail, base);
        lemma_step_seq_lower_bound(supported, base);
        let rest = step_seq(tail, base);
        if supported[0] <= base {
            assert forall|k: int|
                0 <= k < rest.len() implies #[trigger] rest[k] >= (supported[0] - base) as i32 by {
                lemma_step_seq_lower_bound(tail, base);
                if tail.len() > 0 {
                    assert(supported[0] <= tail[0]);
                }
            }
        }
    }
}

/// Whatever order the table came in, every candidate step lies in
/// `[−base, 0]`: only clocks at or below the baseline clock contribute.
pub proof fn lemma_step_seq_bounds(supported: Seq<u32>, base: u32)
    requires
        base <= i32::MAX as u32,
    ensures
        forall|k: int|
            0 <= k < step_seq(supported, base).len() ==> -(base as int)
                <= #[trigger] step_seq(supported, base)[k] <= 0,
    decreases supported.len(),
{
    if supported.len() > 0 {
        let tail = supported.subrange(1, supported.len() as int);
        lemma_step_seq_bounds(tail, base);
        let rest = step_seq(tail, base);
        let s = step_seq(supported, base);
        assert forall|k: int| 0 <= k < s.len() implies -(base as int) <= #[trigger] s[k] <= 0 by {
            if supported[0] <= base {
                assert(s == rest.push((supported[0] - base) as i32));
                assert((supported[0] - base) as i32 == supported[0] - base);
                if k < rest.len() {
                    assert(s[k] == rest[k]);
                }
            } else {
                assert(s == rest);
            }
        }
    }
}

/// Every candidate step is at least `first − base` where `first` is the
/// lowest clock in an ascending table.
proof fn lemma_step_seq_lower_bound(supported: Seq<u32>, base: u32)
    requires
        base <= i32::MAX as u32,
        forall|i: int, j: int| 0 <= i < j < supported.len() ==> supported[i] <= supported[j],
    ensures
        supported.len() > 0 ==> forall|k: int|
            0 <= k < step_seq(supported, base).len() ==> #[trigger] step_seq(supported, base)[k]
                >= supported[0] - base,
    decreases supported.len(),
{
    if supported.len() > 0 {
        let tail = supported.subrange(1, supported.len() as int);
        lemma_step_seq_lower_bound(tail, base);
        let rest = step_seq(tail, base);
        let s = step_seq(supported, base);
        assert forall|k: int| 0 <= k < s.len() implies #[trigger] s[k] >= supported[0] - base by {
            if tail.len() > 0 {
                assert(supported[0] <= tail[0]);
            }
            if supported[0] <= base {
                assert(s == rest.push((supported[0] - base) as i32));
                assert((supported[0] - base) as i32 == supported[0] - base);
                if k < rest.len() {
                    assert(s[k] == rest[k]);
                    assert(tail.len() > 0);
                }
            } else {
                assert(s == rest);
                assert(tail.len() > 0);
            }
        }
    }
}

} // verus!
