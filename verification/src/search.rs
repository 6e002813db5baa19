//! The search controller: capability traits for the device, the stability
//! probe and the record sink, the three tuning phases, and the run loop that
//! ties them together and always restores the baseline.

use vstd::prelude::*;

use crate::{
    restore_configuration, restore_of, Baseline, Configuration, Measurement, Record,
    SupportedClocks, CRASH_LIMIT, STEP_POWER,
};
use crate::steps::{candidate_steps, lemma_step_seq_bounds, step_seq};

verus! {

/// Device-control capability: writes whole candidate configurations to the
/// device, all-or-nothing. The ghost `writes` log is the chronological
/// sequence of every write issued, paired with whether the device took it.
pub trait DeviceControl {
    /// Every configuration write issued so far, oldest first, each with
    /// whether the device accepted it.
    spec fn writes(&self) -> Seq<(Configuration, bool)>;

    /// Attempts to write `cfg` to the device. Nothing is promised of the
    /// outcome; the log records the attempt and its result.
    fn apply(&mut self, cfg: &Configuration) -> (ok: bool)
        ensures
            final(self).writes() == old(self).writes().push((*cfg, ok)),
    ;
}

/// Stability-probe capability: runs a workload on the device as currently
/// configured and reports a measurement, or signals instability with `None`.
/// The ghost `outcomes` log is the chronological sequence of every report.
pub trait StabilityProbe {
    /// Every probe outcome so far, oldest first.
    spec fn outcomes(&self) -> Seq<Option<Measurement>>;

    /// Runs the workload once. Nothing is promised of the outcome; the log
    /// records it.
    fn probe(&mut self) -> (r: Option<Measurement>)
        ensures
            final(self).outcomes() == old(self).outcomes().push(r),
    ;
}

/// Record-sink capability: receives each record as it is produced, in
/// chronological order, for durable append-only storage.
pub trait RecordSink {
    /// Every record handed over so far, oldest first.
    spec fn rows(&self) -> Seq<Record>;

    /// Appends one record to the store.
    fn put(&mut self, rec: &Record)
        ensures
            final(self).rows() == old(self).rows().push(*rec),
    ;
}

/// How many probe outcomes in `s` signalled instability.
pub open spec fn nones(s: Seq<Option<Measurement>>) -> nat
    decreases s.len(),
{
    if s.len() == 0 {
        0
    } else {
        nones(s.drop_last()) + (if s.last() is None {
            1nat
        } else {
            0nat
        })
    }
}

/// The measurements of the successful probe outcomes in `s`, in order.
pub open spec fn successes(s: Seq<Option<Measurement>>) -> Seq<Measurement>
    decreases s.len(),
{
    if s.len() == 0 {
        Seq::empty()
    } else {
        match s.last() {
            Some(m) => successes(s.drop_last()).push(m),
            None => successes(s.drop_last()),
        }
    }
}

/// How many writes in `w` the device accepted.
pub open spec fn count_ok(w: Seq<(Configuration, bool)>) -> nat
    decreases w.len(),
{
    if w.len() == 0 {
        0
    } else {
        count_ok(w.drop_last()) + (if w.last().1 {
            1nat
        } else {
            0nat
        })
    }
}

/// The configurations of the writes the device accepted, in order.
pub open spec fn ok_configs(w: Seq<(Configuration, bool)>) -> Seq<Configuration>
    decreases w.len(),
{
    if w.len() == 0 {
        Seq::empty()
    } else if w.last().1 {
        ok_configs(w.drop_last()).push(w.last().0)
    } else {
        ok_configs(w.drop_last())
    }
}

/// The configurations at the positions where the outcome paired with them
/// reports success: what a search adopts when `cfgs` are the probed
/// candidates and `outs` their probe outcomes, in order.
pub open spec fn adopted(cfgs: Seq<Configuration>, outs: Seq<Option<Measurement>>) -> Seq<
    Configuration,
>
    recommends
        cfgs.len() == outs.len(),
    decreases outs.len(),
{
    if outs.len() == 0 {
        Seq::empty()
    } else {
        match outs.last() {
            Some(m) => adopted(cfgs.drop_last(), outs.drop_last()).push(cfgs.last()),
            None => adopted(cfgs.drop_last(), outs.drop_last()),
        }
    }
}

proof fn lemma_ok_configs_push(w: Seq<(Configuration, bool)>, x: (Configuration, bool))
    ensures
        ok_configs(w.push(x)) == (if x.1 {
            ok_configs(w).push(x.0)
        } else {
            ok_configs(w)
        }),
{
    assert(w.push(x).drop_last() =~= w);
    assert(w.push(x).last() == x);
}

proof fn lemma_ok_configs_len(w: Seq<(Configuration, bool)>)
    ensures
        ok_configs(w).len() == count_ok(w),
    decreases w.len(),
{
    if w.len() > 0 {
        lemma_ok_configs_len(w.drop_last());
    }
}

proof fn lemma_adopted_push(
    cfgs: Seq<Configuration>,
    outs: Seq<Option<Measurement>>,
    cand: Configuration,
    out: Option<Measurement>,
)
    ensures
        adopted(cfgs.push(cand), outs.push(out)) == (match out {
            Some(m) => adopted(cfgs, outs).push(cand),
            None => adopted(cfgs, outs),
        }),
{
    assert(cfgs.push(cand).drop_last() =~= cfgs);
    assert(outs.push(out).drop_last() =~= outs);
    assert(outs.push(out).last() == out);
    assert(cfgs.push(cand).last() == cand);
}

proof fn lemma_ok_configs_concat(a: Seq<(Configuration, bool)>, b: Seq<(Configuration, bool)>)
    ensures
        ok_configs(a + b) == ok_configs(a) + ok_configs(b),
    decreases b.len(),
{
    if b.len() == 0 {
        assert(a + b =~= a);
        assert(ok_configs(a) + Seq::<Configuration>::empty() =~= ok_configs(a));
    } else {
        lemma_ok_configs_concat(a, b.drop_last());
        assert((a + b).drop_last() =~= a + b.drop_last());
        assert((a + b).last() == b.last());
        if b.last().1 {
            assert(ok_configs(a) + ok_configs(b) =~= ok_configs(a) + ok_configs(
                b.drop_last(),
            ).push(b.last().0));
        }
    }
}

proof fn lemma_adopted_concat(
    c1: Seq<Configuration>,
    o1: Seq<Option<Measurement>>,
    c2: Seq<Configuration>,
    o2: Seq<Option<Measurement>>,
)
    requires
        c2.len() == o2.len(),
    ensures
        adopted(c1 + c2, o1 + o2) == adopted(c1, o1) + adopted(c2, o2),
    decreases o2.len(),
{
    if o2.len() == 0 {
        assert(c1 + c2 =~= c1);
        assert(o1 + o2 =~= o1);
        assert(adopted(c1, o1) + Seq::<Configuration>::empty() =~= adopted(c1, o1));
    } else {
        lemma_adopted_concat(c1, o1, c2.drop_last(), o2.drop_last());
        assert((c1 + c2).drop_last() =~= c1 + c2.drop_last());
        assert((o1 + o2).drop_last() =~= o1 + o2.drop_last());
        assert((o1 + o2).last() == o2.last());
        assert((c1 + c2).last() == c2.last());
        match o2.last() {
            Some(m) => {
                assert(adopted(c1, o1) + adopted(c2, o2) =~= adopted(c1, o1) + adopted(
                    c2.drop_last(),
                    o2.drop_last(),
                ).push(c2.last()));
            },
            None => {},
        }
    }
}

/// `cfg` with its power limit set to `k` whole steps below `from`.
pub open spec fn stepped_power(cfg: Configuration, from: u32, k: nat) -> Configuration {
    Configuration { power_limit: (from - k * STEP_POWER) as u32, ..cfg }
}

/// `cfg` with the core clock offset replaced.
pub open spec fn with_freq(cfg: Configuration, f: i32) -> Configuration {
    Configuration { freq_offset: f, ..cfg }
}

/// `cfg` with the memory clock offset replaced.
pub open spec fn with_mem(cfg: Configuration, m: i32) -> Configuration {
    Configuration { mem_offset: m, ..cfg }
}

proof fn lemma_successes_push(s: Seq<Option<Measurement>>, x: Option<Measurement>)
    ensures
        successes(s.push(x)) == (match x {
            Some(m) => successes(s).push(m),
            None => successes(s),
        }),
        nones(s.push(x)) == nones(s) + (if x is None {
            1nat
        } else {
            0nat
        }),
{
    assert(s.push(x).drop_last() =~= s);
    assert(s.push(x).last() == x);
}

proof fn lemma_count_ok_push(w: Seq<(Configuration, bool)>, x: (Configuration, bool))
    ensures
        count_ok(w.push(x)) == count_ok(w) + (if x.1 {
            1nat
        } else {
            0nat
        }),
{
    assert(w.push(x).drop_last() =~= w);
    assert(w.push(x).last() == x);
}

/// Power-limit descent: repeatedly lower the power limit by one step below
/// the lowest value attempted so far, apply and probe, and adopt each
/// candidate the probe validates. The phase ends at the first apply failure,
/// the first instability, or once the limit can descend no further. A power
/// value is never attempted twice in a run, so the phase resumes from
/// `floor`, the lowest value any earlier descent attempted.
///
/// Monotonic descent holds by contract: the records added by this phase
/// carry power limits that fall by exactly one step each, strictly below
/// every earlier attempt; all other fields of `cur` are unchanged. The
/// result carries the last adopted configuration, the new floor, and
/// whether the phase ended on an instability.
pub fn descend_power<D: DeviceControl, P: StabilityProbe, S: RecordSink>(
    cur: Configuration,
    floor: u32,
    device: &mut D,
    probe: &mut P,
    sink: &mut S,
    records: &mut Vec<Record>,
) -> (res: (Configuration, u32, bool))
    ensures
        old(records)@.is_prefix_of(final(records)@),
        old(device).writes().is_prefix_of(final(device).writes()),
        old(probe).outcomes().is_prefix_of(final(probe).outcomes()),
        // every record added was persisted at once, in order
        final(sink).rows() == old(sink).rows() + final(records)@.skip(old(records)@.len() as int),
        // the records added: power falls by exactly one step each, nothing else moves
        forall|j: int|
            old(records)@.len() <= j < final(records)@.len() ==> {
                &&& (#[trigger] final(records)@[j]).config == stepped_power(
                    cur,
                    floor,
                    (j - old(records)@.len() + 1) as nat,
                )
                &&& (j - old(records)@.len() + 1) * STEP_POWER <= floor
            },
        // every write this phase issued is the next candidate in the descent
        forall|j: int|
            old(device).writes().len() <= j < final(device).writes().len() ==> (
            #[trigger] final(device).writes()[j]).0 == stepped_power(
                cur,
                floor,
                (j - old(device).writes().len() + 1) as nat,
            ),
        // the records' measurements are exactly the successful probe outcomes
        final(records)@.skip(old(records)@.len() as int).map_values(|r: Record| r.result)
            == successes(final(probe).outcomes().skip(old(probe).outcomes().len() as int)),
        // each record's configuration is the accepted candidate its probe validated
        final(records)@.skip(old(records)@.len() as int).map_values(|r: Record| r.config)
            == adopted(
            ok_configs(final(device).writes().skip(old(device).writes().len() as int)),
            final(probe).outcomes().skip(old(probe).outcomes().len() as int),
        ),
        // each successfully applied candidate was probed exactly once
        final(probe).outcomes().len() - old(probe).outcomes().len() == count_ok(
            final(device).writes().skip(old(device).writes().len() as int),
        ),
        // the returned configuration is the last adopted one, or `cur` untouched
        final(records)@.len() == old(records)@.len() ==> res.0 == cur,
        final(records)@.len() > old(records)@.len() ==> res.0 == stepped_power(
            cur,
            floor,
            (final(records)@.len() - old(records)@.len()) as nat,
        ),
        // the new floor records every attempt, one step per write issued
        res.1 == floor - (final(device).writes().len() - old(device).writes().len())
            * STEP_POWER,
        (final(device).writes().len() - old(device).writes().len()) * STEP_POWER <= floor,
        // the flag reports instability; at most one instability per phase
        nones(final(probe).outcomes().skip(old(probe).outcomes().len() as int)) == (if res.2 {
            1nat
        } else {
            0nat
        }),
        res.2 ==> final(probe).outcomes().last() is None,
        res.2 ==> final(device).writes().len() > old(device).writes().len()
            && final(device).writes().last().1,
        // the phase makes progress: a floor with room below it is descended,
        // and the floor never reaches zero
        floor > STEP_POWER ==> final(device).writes().len() > old(device).writes().len(),
        floor > 0 ==> res.1 > 0,
        // the phase stops only for a reason: instability, an exhausted floor,
        // or a rejected write
        res.2 || res.1 <= STEP_POWER || (final(device).writes().len() > old(
            device,
        ).writes().len() && !final(device).writes().last().1),
        // the phase ends at the first rejection: every write but the last was
        // accepted by the device
        forall|j: int|
            old(device).writes().len() <= j < final(device).writes().len() - 1 ==> (
            #[trigger] final(device).writes()[j]).1,
{
    let ghost w0 = device.writes();
    let ghost o0 = probe.outcomes();
    let ghost r0 = records@;
    let ghost s0 = sink.rows();
    let mut attempt_floor: u32 = floor;
    let mut out_power: u32 = cur.power_limit;
    let mut crashed: bool = false;
    loop
        invariant_except_break
            r0.is_prefix_of(records@),
            floor > 0 ==> attempt_floor > 0,
            attempt_floor == floor - (records@.len() - r0.len()) * STEP_POWER,
            (records@.len() - r0.len()) * STEP_POWER <= floor,
            out_power == if records@.len() == r0.len() {
                cur.power_limit as int
            } else {
                attempt_floor as int
            },
            sink.rows() == s0 + records@.skip(r0.len() as int),
            device.writes().len() == w0.len() + records@.len() - r0.len(),
            w0.is_prefix_of(device.writes()),
            forall|j: int|
                w0.len() <= j < device.writes().len() ==> #[trigger] device.writes()[j] == (
                stepped_power(cur, floor, (j - w0.len() + 1) as nat),
                true,
            ),
            forall|j: int|
                r0.len() <= j < records@.len() ==> {
                    &&& (#[trigger] records@[j]).config == stepped_power(
                        cur,
                        floor,
                        (j - r0.len() + 1) as nat,
                    )
                    &&& (j - r0.len() + 1) * STEP_POWER <= floor
                },
            probe.outcomes().len() == o0.len() + records@.len() - r0.len(),
            o0.is_prefix_of(probe.outcomes()),
            records@.skip(r0.len() as int).map_values(|r: Record| r.result) == successes(
                probe.outcomes().skip(o0.len() as int),
            ),
            records@.skip(r0.len() as int).map_values(|r: Record| r.config) == adopted(
                ok_configs(device.writes().skip(w0.len() as int)),
                probe.outcomes().skip(o0.len() as int),
            ),
            nones(probe.outcomes().skip(o0.len() as int)) == 0,
            count_ok(device.writes().skip(w0.len() as int)) == records@.len() - r0.len(),
            !crashed,
        ensures
            r0.is_prefix_of(records@),
            w0.is_prefix_of(device.writes()),
            o0.is_prefix_of(probe.outcomes()),
            floor > 0 ==> attempt_floor > 0,
            attempt_floor == floor - (device.writes().len() - w0.len()) * STEP_POWER,
            (device.writes().len() - w0.len()) * STEP_POWER <= floor,
            out_power == if records@.len() == r0.len() {
                cur.power_limit as int
            } else {
                floor - (records@.len() - r0.len()) * STEP_POWER
            },
            records@.len() > r0.len() ==> (records@.len() - r0.len()) * STEP_POWER <= floor,
            sink.rows() == s0 + records@.skip(r0.len() as int),
            forall|j: int|
                r0.len() <= j < records@.len() ==> {
                    &&& (#[trigger] records@[j]).config == stepped_power(
                        cur,
                        floor,
                        (j - r0.len() + 1) as nat,
                    )
                    &&& (j - r0.len() + 1) * STEP_POWER <= floor
                },
            forall|j: int|
                w0.len() <= j < device.writes().len() ==> (#[trigger] device.writes()[j]).0
                    == stepped_power(cur, floor, (j - w0.len() + 1) as nat),
            records@.skip(r0.len() as int).map_values(|r: Record| r.result) == successes(
                probe.outcomes().skip(o0.len() as int),
            ),
            records@.skip(r0.len() as int).map_values(|r: Record| r.config) == adopted(
                ok_configs(device.writes().skip(w0.len() as int)),
                probe.outcomes().skip(o0.len() as int),
            ),
            probe.outcomes().len() - o0.len() == count_ok(device.writes().skip(w0.len() as int)),
            nones(probe.outcomes().skip(o0.len() as int)) == (if crashed {
                1nat
            } else {
                0nat
            }),
            crashed ==> probe.outcomes().last() is None,
            crashed ==> device.writes().len() > w0.len() && device.writes().last().1,
            crashed || attempt_floor <= STEP_POWER || (device.writes().len() > w0.len()
                && !device.writes().last().1),
            forall|j: int|
                w0.len() <= j < device.writes().len() - 1 ==> (#[trigger] device.writes()[j]).1,
        decreases attempt_floor,
    {
        if attempt_floor <= STEP_POWER {
            break;
        }
        let cand = Configuration { power_limit: attempt_floor - STEP_POWER, ..cur };
        proof {
            let n = records@.len() - r0.len();
            assert(cand == stepped_power(cur, floor, (n + 1) as nat));
        }
        let ghost wb = device.writes();
        let ok = device.apply(&cand);
        attempt_floor = cand.power_limit;
        proof {
            lemma_count_ok_push(wb.skip(w0.len() as int), (cand, ok));
            lemma_ok_configs_push(wb.skip(w0.len() as int), (cand, ok));
            assert(device.writes().skip(w0.len() as int) =~= wb.skip(w0.len() as int).push(
                (cand, ok),
            ));
        }
        if !ok {
            break;
        }
        let ghost ob = probe.outcomes();
        let ghost rb = records@;
        match probe.probe() {
            Some(m) => {
                out_power = cand.power_limit;
                let rec = Record { config: cand, result: m };
                records.push(rec);
                sink.put(&rec);
                proof {
                    lemma_successes_push(ob.skip(o0.len() as int), Some(m));
                    lemma_adopted_push(
                        ok_configs(wb.skip(w0.len() as int)),
                        ob.skip(o0.len() as int),
                        cand,
                        Some(m),
                    );
                    assert(records@.skip(r0.len() as int).map_values(|r: Record| r.config)
                        =~= rb.skip(r0.len() as int).map_values(|r: Record| r.config).push(cand));
                    assert(probe.outcomes().skip(o0.len() as int) =~= ob.skip(
                        o0.len() as int,
                    ).push(Some(m)));
                    assert(records@.skip(r0.len() as int) =~= rb.skip(r0.len() as int).push(rec));
                    assert(records@.skip(r0.len() as int).map_values(|r: Record| r.result)
                        =~= rb.skip(r0.len() as int).map_values(|r: Record| r.result).push(m));
                    assert(sink.rows() =~= s0 + records@.skip(r0.len() as int));
                }
            },
            None => {
                crashed = true;
                proof {
                    lemma_successes_push(ob.skip(o0.len() as int), None);
                    lemma_adopted_push(
                        ok_configs(wb.skip(w0.len() as int)),
                        ob.skip(o0.len() as int),
                        cand,
                        None,
                    );
                    assert(probe.outcomes().skip(o0.len() as int) =~= ob.skip(
                        o0.len() as int,
                    ).push(None));
                }
                break;
            },
        }
    }
    (Configuration { power_limit: out_power, ..cur }, attempt_floor, crashed)
}

/// Core-clock offset ascent: iterate the candidate step sequence for the core
/// clock axis, skipping its first element, applying `base + step` each time
/// with every other field of `cur` held fixed. The phase ends at the first
/// apply failure or instability; each validated candidate is adopted,
/// recorded and persisted. The result carries the last adopted
/// configuration and whether the phase ended on an instability.
pub fn ascend_freq<D: DeviceControl, P: StabilityProbe, S: RecordSink>(
    cur: Configuration,
    base: i32,
    steps: &Vec<i32>,
    device: &mut D,
    probe: &mut P,
    sink: &mut S,
    records: &mut Vec<Record>,
) -> (res: (Configuration, bool))
    requires
        forall|j: int| 1 <= j < steps@.len() ==> i32::MIN <= base + #[trigger] steps@[j] <= i32::MAX,
    ensures
        old(records)@.is_prefix_of(final(records)@),
        old(device).writes().is_prefix_of(final(device).writes()),
        old(probe).outcomes().is_prefix_of(final(probe).outcomes()),
        // every record added was persisted at once, in order
        final(sink).rows() == old(sink).rows() + final(records)@.skip(old(records)@.len() as int),
        // the records added walk the step sequence from its second element on
        forall|j: int|
            old(records)@.len() <= j < final(records)@.len() ==> {
                &&& j - old(records)@.len() + 1 < steps@.len()
                &&& (#[trigger] final(records)@[j]).config == with_freq(
                    cur,
                    (base + steps@[j - old(records)@.len() + 1]) as i32,
                )
            },
        // every write this phase issued is the next candidate on this axis
        forall|j: int|
            old(device).writes().len() <= j < final(device).writes().len() ==> {
                &&& j - old(device).writes().len() + 1 < steps@.len()
                &&& (#[trigger] final(device).writes()[j]).0 == with_freq(
                    cur,
                    (base + steps@[j - old(device).writes().len() + 1]) as i32,
                )
            },
        // the records' measurements are exactly the successful probe outcomes
        final(records)@.skip(old(records)@.len() as int).map_values(|r: Record| r.result)
            == successes(final(probe).outcomes().skip(old(probe).outcomes().len() as int)),
        // each record's configuration is the accepted candidate its probe validated
        final(records)@.skip(old(records)@.len() as int).map_values(|r: Record| r.config)
            == adopted(
            ok_configs(final(device).writes().skip(old(device).writes().len() as int)),
            final(probe).outcomes().skip(old(probe).outcomes().len() as int),
        ),
        // each successfully applied candidate was probed exactly once
        final(probe).outcomes().len() - old(probe).outcomes().len() == count_ok(
            final(device).writes().skip(old(device).writes().len() as int),
        ),
        // the returned configuration is the last adopted one, or `cur` untouched
        final(records)@.len() == old(records)@.len() ==> res.0 == cur,
        final(records)@.len() > old(records)@.len() ==> res.0
            == with_freq(
            cur,
            (base + steps@[final(records)@.len() - old(records)@.len()]) as i32,
        ),
        // the flag reports instability; at most one instability per phase
        nones(final(probe).outcomes().skip(old(probe).outcomes().len() as int)) == (if res.1 {
            1nat
        } else {
            0nat
        }),
        res.1 ==> final(probe).outcomes().last() is None,
        res.1 ==> final(device).writes().len() > old(device).writes().len()
            && final(device).writes().last().1,
        // the phase makes progress: with a step to try, a candidate is written,
        // and without one nothing is written
        steps@.len() > 1 ==> final(device).writes().len() > old(device).writes().len(),
        steps@.len() <= 1 ==> final(device).writes() == old(device).writes()
            && final(probe).outcomes() == old(probe).outcomes() && final(records)@
            == old(records)@,
        // the phase stops only for a reason: instability, a rejected write,
        // or every step after the first tried
        res.1 || (final(device).writes().len() > old(device).writes().len()
            && !final(device).writes().last().1) || final(device).writes().len() - old(
            device,
        ).writes().len() + 1 >= steps@.len(),
        // the phase ends at the first rejection: every write but the last was
        // accepted by the device
        forall|j: int|
            old(device).writes().len() <= j < final(device).writes().len() - 1 ==> (
            #[trigger] final(device).writes()[j]).1,
{
    let ghost w0 = device.writes();
    let ghost o0 = probe.outcomes();
    let ghost r0 = records@;
    let ghost s0 = sink.rows();
    let mut out_off: i32 = cur.freq_offset;
    let mut crashed: bool = false;
    let mut idx: usize = 1;
    while idx < steps.len()
        invariant_except_break
            forall|j: int| 1 <= j < steps@.len() ==> i32::MIN <= base + #[trigger] steps@[j] <= i32::MAX,
            1 <= idx,
            idx - 1 == records@.len() - r0.len(),
            steps@.len() > 0 ==> idx <= steps@.len(),
            steps@.len() == 0 ==> idx == 1,
            r0.is_prefix_of(records@),
            out_off as int == if records@.len() == r0.len() {
                cur.freq_offset as int
            } else {
                base + steps@[idx - 1]
            },
            sink.rows() == s0 + records@.skip(r0.len() as int),
            device.writes().len() == w0.len() + records@.len() - r0.len(),
            w0.is_prefix_of(device.writes()),
            forall|j: int|
                w0.len() <= j < device.writes().len() ==> {
                    &&& j - w0.len() + 1 < steps@.len()
                    &&& #[trigger] device.writes()[j] == (
                        with_freq(cur, (base + steps@[j - w0.len() + 1]) as i32),
                        true,
                    )
                },
            forall|j: int|
                r0.len() <= j < records@.len() ==> {
                    &&& j - r0.len() + 1 < steps@.len()
                    &&& (#[trigger] records@[j]).config == with_freq(
                        cur,
                        (base + steps@[j - r0.len() + 1]) as i32,
                    )
                },
            probe.outcomes().len() == o0.len() + records@.len() - r0.len(),
            o0.is_prefix_of(probe.outcomes()),
            records@.skip(r0.len() as int).map_values(|r: Record| r.result) == successes(
                probe.outcomes().skip(o0.len() as int),
            ),
            records@.skip(r0.len() as int).map_values(|r: Record| r.config) == adopted(
                ok_configs(device.writes().skip(w0.len() as int)),
                probe.outcomes().skip(o0.len() as int),
            ),
            nones(probe.outcomes().skip(o0.len() as int)) == 0,
            count_ok(device.writes().skip(w0.len() as int)) == records@.len() - r0.len(),
            !crashed,
        ensures
            r0.is_prefix_of(records@),
            w0.is_prefix_of(device.writes()),
            o0.is_prefix_of(probe.outcomes()),
            out_off as int == if records@.len() == r0.len() {
                cur.freq_offset as int
            } else {
                base + steps@[records@.len() - r0.len()]
            },
            records@.len() > r0.len() ==> records@.len() - r0.len() < steps@.len(),
            sink.rows() == s0 + records@.skip(r0.len() as int),
            forall|j: int|
                r0.len() <= j < records@.len() ==> {
                    &&& j - r0.len() + 1 < steps@.len()
                    &&& (#[trigger] records@[j]).config == with_freq(
                        cur,
                        (base + steps@[j - r0.len() + 1]) as i32,
                    )
                },
            forall|j: int|
                w0.len() <= j < device.writes().len() ==> {
                    &&& j - w0.len() + 1 < steps@.len()
                    &&& (#[trigger] device.writes()[j]).0 == with_freq(
                        cur,
                        (base + steps@[j - w0.len() + 1]) as i32,
                    )
                },
            records@.skip(r0.len() as int).map_values(|r: Record| r.result) == successes(
                probe.outcomes().skip(o0.len() as int),
            ),
            records@.skip(r0.len() as int).map_values(|r: Record| r.config) == adopted(
                ok_configs(device.writes().skip(w0.len() as int)),
                probe.outcomes().skip(o0.len() as int),
            ),
            probe.outcomes().len() - o0.len() == count_ok(device.writes().skip(w0.len() as int)),
            nones(probe.outcomes().skip(o0.len() as int)) == (if crashed {
                1nat
            } else {
                0nat
            }),
            crashed ==> probe.outcomes().last() is None,
            crashed ==> device.writes().len() > w0.len() && device.writes().last().1,
            steps@.len() > 1 ==> device.writes().len() > w0.len(),
            steps@.len() <= 1 ==> device.writes() == w0 && probe.outcomes() == o0 && records@
                == r0,
            crashed || (device.writes().len() > w0.len() && !device.writes().last().1) || (
            device.writes().len() - w0.len() + 1 >= steps@.len()),
            forall|j: int|
                w0.len() <= j < device.writes().len() - 1 ==> (#[trigger] device.writes()[j]).1,
        decreases steps.len() - idx,
    {
        let new_off: i32 = base + steps[idx];
        let cand = Configuration { freq_offset: new_off, ..cur };
        let ghost wb = device.writes();
        let ok = device.apply(&cand);
        proof {
            lemma_count_ok_push(wb.skip(w0.len() as int), (cand, ok));
            lemma_ok_configs_push(wb.skip(w0.len() as int), (cand, ok));
            assert(device.writes().skip(w0.len() as int) =~= wb.skip(w0.len() as int).push(
                (cand, ok),
            ));
        }
        if !ok {
            break;
        }
        let ghost ob = probe.outcomes();
        let ghost rb = records@;
        match probe.probe() {
            Some(m) => {
                out_off = new_off;
                let rec = Record { config: cand, result: m };
                records.push(rec);
                sink.put(&rec);
                proof {
                    lemma_successes_push(ob.skip(o0.len() as int), Some(m));
                    lemma_adopted_push(
                        ok_configs(wb.skip(w0.len() as int)),
                        ob.skip(o0.len() as int),
                        cand,
                        Some(m),
                    );
                    assert(records@.skip(r0.len() as int).map_values(|r: Record| r.config)
                        =~= rb.skip(r0.len() as int).map_values(|r: Record| r.config).push(cand));
                    assert(probe.outcomes().skip(o0.len() as int) =~= ob.skip(
                        o0.len() as int,
                    ).push(Some(m)));
                    assert(records@.skip(r0.len() as int) =~= rb.skip(r0.len() as int).push(rec));
                    assert(records@.skip(r0.len() as int).map_values(|r: Record| r.result)
                        =~= rb.skip(r0.len() as int).map_values(|r: Record| r.result).push(m));
                    assert(sink.rows() =~= s0 + records@.skip(r0.len() as int));
                }
            },
            None => {
                crashed = true;
                proof {
                    lemma_successes_push(ob.skip(o0.len() as int), None);
                    lemma_adopted_push(
                        ok_configs(wb.skip(w0.len() as int)),
                        ob.skip(o0.len() as int),
                        cand,
                        None,
                    );
                    assert(probe.outcomes().skip(o0.len() as int) =~= ob.skip(
                        o0.len() as int,
                    ).push(None));
                }
                break;
            },
        }
        idx = idx + 1;
    }
    (Configuration { freq_offset: out_off, ..cur }, crashed)
}

/// Memory-clock offset ascent: iterate the candidate step sequence for the memory
/// clock axis, skipping its first element, applying `base + step` each time
/// with every other field of `cur` held fixed. The phase ends at the first
/// apply failure or instability; each validated candidate is adopted,
/// recorded and persisted. The result carries the last adopted
/// configuration and whether the phase ended on an instability.
pub fn ascend_mem<D: DeviceControl, P: StabilityProbe, S: RecordSink>(
    cur: Configuration,
    base: i32,
    steps: &Vec<i32>,
    device: &mut D,
    probe: &mut P,
    sink: &mut S,
    records: &mut Vec<Record>,
) -> (res: (Configuration, bool))
    requires
        forall|j: int| 1 <= j < steps@.len() ==> i32::MIN <= base + #[trigger] steps@[j] <= i32::MAX,
    ensures
        old(records)@.is_prefix_of(final(records)@),
        old(device).writes().is_prefix_of(final(device).writes()),
        old(probe).outcomes().is_prefix_of(final(probe).outcomes()),
        // every record added was persisted at once, in order
        final(sink).rows() == old(sink).rows() + final(records)@.skip(old(records)@.len() as int),
        // the records added walk the step sequence from its second element on
        forall|j: int|
            old(records)@.len() <= j < final(records)@.len() ==> {
                &&& j - old(records)@.len() + 1 < steps@.len()
                &&& (#[trigger] final(records)@[j]).config == with_mem(
                    cur,
                    (base + steps@[j - old(records)@.len() + 1]) as i32,
                )
            },
        // every write this phase issued is the next candidate on this axis
        forall|j: int|
            old(device).writes().len() <= j < final(device).writes().len() ==> {
                &&& j - old(device).writes().len() + 1 < steps@.len()
                &&& (#[trigger] final(device).writes()[j]).0 == with_mem(
                    cur,
                    (base + steps@[j - old(device).writes().len() + 1]) as i32,
                )
            },
        // the records' measurements are exactly the successful probe outcomes
        final(records)@.skip(old(records)@.len() as int).map_values(|r: Record| r.result)
            == successes(final(probe).outcomes().skip(old(probe).outcomes().len() as int)),
        // each record's configuration is the accepted candidate its probe validated
        final(records)@.skip(old(records)@.len() as int).map_values(|r: Record| r.config)
            == adopted(
            ok_configs(final(device).writes().skip(old(device).writes().len() as int)),
            final(probe).outcomes().skip(old(probe).outcomes().len() as int),
        ),
        // each successfully applied candidate was probed exactly once
        final(probe).outcomes().len() - old(probe).outcomes().len() == count_ok(
            final(device).writes().skip(old(device).writes().len() as int),
        ),
        // the returned configuration is the last adopted one, or `cur` untouched
        final(records)@.len() == old(records)@.len() ==> res.0 == cur,
        final(records)@.len() > old(records)@.len() ==> res.0
            == with_mem(
            cur,
            (base + steps@[final(records)@.len() - old(records)@.len()]) as i32,
        ),
        // the flag reports instability; at most one instability per phase
        nones(final(probe).outcomes().skip(old(probe).outcomes().len() as int)) == (if res.1 {
            1nat
        } else {
            0nat
        }),
        res.1 ==> final(probe).outcomes().last() is None,
        res.1 ==> final(device).writes().len() > old(device).writes().len()
            && final(device).writes().last().1,
        // the phase makes progress: with a step to try, a candidate is written,
        // and without one nothing is written
        steps@.len() > 1 ==> final(device).writes().len() > old(device).writes().len(),
        steps@.len() <= 1 ==> final(device).writes() == old(device).writes()
            && final(probe).outcomes() == old(probe).outcomes() && final(records)@
            == old(records)@,
        // the phase stops only for a reason: instability, a rejected write,
        // or every step after the first tried
        res.1 || (final(device).writes().len() > old(device).writes().len()
            && !final(device).writes().last().1) || final(device).writes().len() - old(
            device,
        ).writes().len() + 1 >= steps@.len(),
        // the phase ends at the first rejection: every write but the last was
        // accepted by the device
        forall|j: int|
            old(device).writes().len() <= j < final(device).writes().len() - 1 ==> (
            #[trigger] final(device).writes()[j]).1,
{
    let ghost w0 = device.writes();
    let ghost o0 = probe.outcomes();
    let ghost r0 = records@;
    let ghost s0 = sink.rows();
    let mut out_off: i32 = cur.mem_offset;
    let mut crashed: bool = false;
    let mut idx: usize = 1;
    while idx < steps.len()
        invariant_except_break
            forall|j: int| 1 <= j < steps@.len() ==> i32::MIN <= base + #[trigger] steps@[j] <= i32::MAX,
            1 <= idx,
            idx - 1 == records@.len() - r0.len(),
            steps@.len() > 0 ==> idx <= steps@.len(),
            steps@.len() == 0 ==> idx == 1,
            r0.is_prefix_of(records@),
            out_off as int == if records@.len() == r0.len() {
                cur.mem_offset as int
            } else {
                base + steps@[idx - 1]
            },
            sink.rows() == s0 + records@.skip(r0.len() as int),
            device.writes().len() == w0.len() + records@.len() - r0.len(),
            w0.is_prefix_of(device.writes()),
            forall|j: int|
                w0.len() <= j < device.writes().len() ==> {
                    &&& j - w0.len() + 1 < steps@.len()
                    &&& #[trigger] device.writes()[j] == (
                        with_mem(cur, (base + steps@[j - w0.len() + 1]) as i32),
                        true,
                    )
                },
            forall|j: int|
                r0.len() <= j < records@.len() ==> {
                    &&& j - r0.len() + 1 < steps@.len()
                    &&& (#[trigger] records@[j]).config == with_mem(
                        cur,
                        (base + steps@[j - r0.len() + 1]) as i32,
                    )
                },
            probe.outcomes().len() == o0.len() + records@.len() - r0.len(),
            o0.is_prefix_of(probe.outcomes()),
            records@.skip(r0.len() as int).map_values(|r: Record| r.result) == successes(
                probe.outcomes().skip(o0.len() as int),
            ),
            records@.skip(r0.len() as int).map_values(|r: Record| r.config) == adopted(
                ok_configs(device.writes().skip(w0.len() as int)),
                probe.outcomes().skip(o0.len() as int),
            ),
            nones(probe.outcomes().skip(o0.len() as int)) == 0,
            count_ok(device.writes().skip(w0.len() as int)) == records@.len() - r0.len(),
            !crashed,
        ensures
            r0.is_prefix_of(records@),
            w0.is_prefix_of(device.writes()),
            o0.is_prefix_of(probe.outcomes()),
            out_off as int == if records@.len() == r0.len() {
                cur.mem_offset as int
            } else {
                base + steps@[records@.len() - r0.len()]
            },
            records@.len() > r0.len() ==> records@.len() - r0.len() < steps@.len(),
            sink.rows() == s0 + records@.skip(r0.len() as int),
            forall|j: int|
                r0.len() <= j < records@.len() ==> {
                    &&& j - r0.len() + 1 < steps@.len()
                    &&& (#[trigger] records@[j]).config == with_mem(
                        cur,
                        (base + steps@[j - r0.len() + 1]) as i32,
                    )
                },
            forall|j: int|
                w0.len() <= j < device.writes().len() ==> {
                    &&& j - w0.len() + 1 < steps@.len()
                    &&& (#[trigger] device.writes()[j]).0 == with_mem(
                        cur,
                        (base + steps@[j - w0.len() + 1]) as i32,
                    )
                },
            records@.skip(r0.len() as int).map_values(|r: Record| r.result) == successes(
                probe.outcomes().skip(o0.len() as int),
            ),
            records@.skip(r0.len() as int).map_values(|r: Record| r.config) == adopted(
                ok_configs(device.writes().skip(w0.len() as int)),
                probe.outcomes().skip(o0.len() as int),
            ),
            probe.outcomes().len() - o0.len() == count_ok(device.writes().skip(w0.len() as int)),
            nones(probe.outcomes().skip(o0.len() as int)) == (if crashed {
                1nat
            } else {
                0nat
            }),
            crashed ==> probe.outcomes().last() is None,
            crashed ==> device.writes().len() > w0.len() && device.writes().last().1,
            steps@.len() > 1 ==> device.writes().len() > w0.len(),
            steps@.len() <= 1 ==> device.writes() == w0 && probe.outcomes() == o0 && records@
                == r0,
            crashed || (device.writes().len() > w0.len() && !device.writes().last().1) || (
            device.writes().len() - w0.len() + 1 >= steps@.len()),
            forall|j: int|
                w0.len() <= j < device.writes().len() - 1 ==> (#[trigger] device.writes()[j]).1,
        decreases steps.len() - idx,
    {
        let new_off: i32 = base + steps[idx];
        let cand = Configuration { mem_offset: new_off, ..cur };
        let ghost wb = device.writes();
        let ok = device.apply(&cand);
        proof {
            lemma_count_ok_push(wb.skip(w0.len() as int), (cand, ok));
            lemma_ok_configs_push(wb.skip(w0.len() as int), (cand, ok));
            assert(device.writes().skip(w0.len() as int) =~= wb.skip(w0.len() as int).push(
                (cand, ok),
            ));
        }
        if !ok {
            break;
        }
        let ghost ob = probe.outcomes();
        let ghost rb = records@;
        match probe.probe() {
            Some(m) => {
                out_off = new_off;
                let rec = Record { config: cand, result: m };
                records.push(rec);
                sink.put(&rec);
                proof {
                    lemma_successes_push(ob.skip(o0.len() as int), Some(m));
                    lemma_adopted_push(
                        ok_configs(wb.skip(w0.len() as int)),
                        ob.skip(o0.len() as int),
                        cand,
                        Some(m),
                    );
                    assert(records@.skip(r0.len() as int).map_values(|r: Record| r.config)
                        =~= rb.skip(r0.len() as int).map_values(|r: Record| r.config).push(cand));
                    assert(probe.outcomes().skip(o0.len() as int) =~= ob.skip(
                        o0.len() as int,
                    ).push(Some(m)));
                    assert(records@.skip(r0.len() as int) =~= rb.skip(r0.len() as int).push(rec));
                    assert(records@.skip(r0.len() as int).map_values(|r: Record| r.result)
                        =~= rb.skip(r0.len() as int).map_values(|r: Record| r.result).push(m));
                    assert(sink.rows() =~= s0 + records@.skip(r0.len() as int));
                }
            },
            None => {
                crashed = true;
                proof {
                    lemma_successes_push(ob.skip(o0.len() as int), None);
                    lemma_adopted_push(
                        ok_configs(wb.skip(w0.len() as int)),
                        ob.skip(o0.len() as int),
                        cand,
                        None,
                    );
                    assert(probe.outcomes().skip(o0.len() as int) =~= ob.skip(
                        o0.len() as int,
                    ).push(None));
                }
                break;
            },
        }
        idx = idx + 1;
    }
    (Configuration { mem_offset: out_off, ..cur }, crashed)
}

/// After a phase extended the logs, the run's whole-suffix views of them are
/// the views before the phase extended by the phase's own suffix.
proof fn lemma_run_bookkeeping(
    w: Seq<(Configuration, bool)>,
    o: Seq<Option<Measurement>>,
    r: Seq<Record>,
    wb: Seq<(Configuration, bool)>,
    ob: Seq<Option<Measurement>>,
    rb: Seq<Record>,
    w0: int,
    o0: int,
)
    requires
        0 <= w0 <= wb.len(),
        0 <= o0 <= ob.len(),
        wb.is_prefix_of(w),
        ob.is_prefix_of(o),
        rb.is_prefix_of(r),
        o.skip(ob.len() as int).len() == count_ok(w.skip(wb.len() as int)),
    ensures
        w.skip(w0) == wb.skip(w0) + w.skip(wb.len() as int),
        o.skip(o0) == ob.skip(o0) + o.skip(ob.len() as int),
        r == rb + r.skip(rb.len() as int),
        r.map_values(|x: Record| x.result) == rb.map_values(|x: Record| x.result) + r.skip(
            rb.len() as int,
        ).map_values(|x: Record| x.result),
        r.map_values(|x: Record| x.config) == rb.map_values(|x: Record| x.config) + r.skip(
            rb.len() as int,
        ).map_values(|x: Record| x.config),
        count_ok(w.skip(w0)) == count_ok(wb.skip(w0)) + count_ok(w.skip(wb.len() as int)),
        nones(o.skip(o0)) == nones(ob.skip(o0)) + nones(o.skip(ob.len() as int)),
        successes(o.skip(o0)) == successes(ob.skip(o0)) + successes(o.skip(ob.len() as int)),
        ok_configs(w.skip(w0)) == ok_configs(wb.skip(w0)) + ok_configs(w.skip(wb.len() as int)),
        adopted(ok_configs(w.skip(w0)), o.skip(o0)) == adopted(
            ok_configs(wb.skip(w0)),
            ob.skip(o0),
        ) + adopted(ok_configs(w.skip(wb.len() as int)), o.skip(ob.len() as int)),
{
    assert(w.skip(w0) =~= wb.skip(w0) + w.skip(wb.len() as int));
    assert(o.skip(o0) =~= ob.skip(o0) + o.skip(ob.len() as int));
    assert(r =~= rb + r.skip(rb.len() as int));
    assert(r.map_values(|x: Record| x.result) =~= rb.map_values(|x: Record| x.result) + r.skip(
        rb.len() as int,
    ).map_values(|x: Record| x.result));
    assert(r.map_values(|x: Record| x.config) =~= rb.map_values(|x: Record| x.config) + r.skip(
        rb.len() as int,
    ).map_values(|x: Record| x.config));
    lemma_count_ok_concat(wb.skip(w0), w.skip(wb.len() as int));
    lemma_nones_concat(ob.skip(o0), o.skip(ob.len() as int));
    lemma_ok_configs_concat(wb.skip(w0), w.skip(wb.len() as int));
    lemma_ok_configs_len(w.skip(wb.len() as int));
    lemma_adopted_concat(
        ok_configs(wb.skip(w0)),
        ob.skip(o0),
        ok_configs(w.skip(wb.len() as int)),
        o.skip(ob.len() as int),
    );
}

proof fn lemma_nones_concat(a: Seq<Option<Measurement>>, b: Seq<Option<Measurement>>)
    ensures
        nones(a + b) == nones(a) + nones(b),
        successes(a + b) == successes(a) + successes(b),
    decreases b.len(),
{
    if b.len() == 0 {
        assert(a + b =~= a);
        assert(successes(a) + Seq::<Measurement>::empty() =~= successes(a));
    } else {
        lemma_nones_concat(a, b.drop_last());
        assert((a + b).drop_last() =~= a + b.drop_last());
        assert((a + b).last() == b.last());
        match b.last() {
            Some(m) => {
                assert(successes(a) + successes(b) =~= successes(a) + successes(
                    b.drop_last(),
                ).push(m));
            },
            None => {},
        }
    }
}

proof fn lemma_count_ok_concat(a: Seq<(Configuration, bool)>, b: Seq<(Configuration, bool)>)
    ensures
        count_ok(a + b) == count_ok(a) + count_ok(b),
    decreases b.len(),
{
    if b.len() == 0 {
        assert(a + b =~= a);
    } else {
        lemma_count_ok_concat(a, b.drop_last());
        assert((a + b).drop_last() =~= a + b.drop_last());
        assert((a + b).last() == b.last());
    }
}

/// The relaxation step: gives back one step of power headroom for the next
/// macro-iteration, or reports that the search has converged because the
/// relaxed limit would reach or pass the baseline power limit again.
pub fn relax_power(cur: u32, baseline_power: u32) -> (r: Option<u32>)
    requires
        cur <= baseline_power,
    ensures
        r is Some <==> baseline_power - cur > STEP_POWER,
        r matches Some(p) ==> p == cur + STEP_POWER,
{
    if baseline_power - cur <= STEP_POWER {
        None
    } else {
        Some(cur + STEP_POWER)
    }
}

/// What one tuning run produced.
pub struct RunOutcome {
    /// The adopted records, in chronological order.
    pub records: Vec<Record>,
    /// How many instability events the probe reported.
    pub crash_cycles: u32,
    /// Whether the device took the final restoration write.
    pub restored: bool,
    /// The operating configuration the search ended on, before restoration.
    pub ending: Configuration,
}

/// One full tuning run over an exclusively owned device.
///
/// The macro-loop repeats the power-limit descent, the core-clock ascent and
/// the memory-clock ascent, then relaxes the power limit by one step, until
/// the relaxed limit would reach the baseline again, the limit can descend
/// no further, or the crash budget is spent. Each power value is attempted
/// at most once in a run, so later descents resume below the lowest value
/// already tried, while the offset axes are re-validated at every relaxed
/// power limit, as `relax_power` decides. The returned outcome carries the
/// adopted records in chronological order, the number of instability events
/// the probe reported, whether the device took the final restoration write —
/// reported so a caller can warn, never an error of the run itself — and the
/// operating configuration the search ended on.
///
/// The contract states the run's safety guarantees:
/// - baseline restoration: whatever the injected apply failures and
///   instabilities, the last write issued to the device is exactly the
///   baseline configuration;
/// - crash budget: the count of instabilities never passes one beyond
///   `CRASH_LIMIT`, and when it reaches that bound the last probe outcome is
///   the instability itself and the only write after the write it probed is
///   the final restoration;
/// - record integrity: each record pairs the configuration of an accepted
///   candidate write with the measurement of the probe that validated it, in
///   order, each persisted to the sink as it was made, and every
///   successfully applied candidate was probed exactly once;
/// - progress: with any room under the baseline power limit, the first write
///   issued is the candidate one step below it, the run ends only with the
///   crash budget spent or the operating limit within one step of exhaustion
///   or of the baseline, and an undisturbed run with no clock table writes
///   exactly the candidates of the whole power ladder, all carrying the
///   baseline clock offsets.
#[verifier::rlimit(100)]
pub fn run<D: DeviceControl, P: StabilityProbe, S: RecordSink>(
    baseline: &Baseline,
    supported: &SupportedClocks,
    device: &mut D,
    probe: &mut P,
    sink: &mut S,
) -> (res: RunOutcome)
    requires
        baseline.graphics_clock <= i32::MAX as u32,
        baseline.memory_clock <= i32::MAX as u32,
        baseline.freq_offset - baseline.graphics_clock >= i32::MIN,
        baseline.mem_offset - baseline.memory_clock >= i32::MIN,
    ensures
        old(device).writes().is_prefix_of(final(device).writes()),
        old(probe).outcomes().is_prefix_of(final(probe).outcomes()),
        // baseline restoration
        final(device).writes().len() > old(device).writes().len(),
        final(device).writes().last().0 == restore_of(*baseline),
        res.restored == final(device).writes().last().1,
        // every record was persisted as it was made, in order
        final(sink).rows() == old(sink).rows() + res.records@,
        // record integrity
        res.records@.map_values(|r: Record| r.result) == successes(
            final(probe).outcomes().skip(old(probe).outcomes().len() as int),
        ),
        // each record's configuration is the accepted candidate its probe validated
        res.records@.map_values(|r: Record| r.config) == adopted(
            ok_configs(
                final(device).writes().skip(old(device).writes().len() as int).drop_last(),
            ),
            final(probe).outcomes().skip(old(probe).outcomes().len() as int),
        ),
        forall|j: int|
            0 <= j < res.records@.len() ==> {
                &&& (#[trigger] res.records@[j]).config.power_limit <= baseline.power_limit
                &&& res.records@[j].config.min_clock == 0
                &&& res.records@[j].config.max_clock == baseline.max_clock
            },
        // every successfully applied candidate before the restoration was probed once
        final(probe).outcomes().len() - old(probe).outcomes().len() == count_ok(
            final(device).writes().skip(old(device).writes().len() as int).drop_last(),
        ),
        // crash budget
        res.crash_cycles == nones(final(probe).outcomes().skip(old(probe).outcomes().len() as int)),
        res.crash_cycles <= CRASH_LIMIT + 1,
        res.crash_cycles == CRASH_LIMIT + 1 ==> {
            &&& final(probe).outcomes().last() is None
            &&& final(device).writes().len() >= old(device).writes().len() + 2
            &&& final(device).writes()[final(device).writes().len() - 2].1
        },
        // work begins at once: the first write issued is the candidate one
        // step below the baseline power limit, and the restoration follows it
        baseline.power_limit > STEP_POWER ==> final(device).writes().len() >= old(
            device,
        ).writes().len() + 2 && (final(device).writes()[old(device).writes().len() as int]).0
            == stepped_power(restore_of(*baseline), baseline.power_limit, 1),
        // the operating limit the search ended on, and why it stopped there:
        // the crash budget spent, the power axis exhausted, or the relaxed
        // limit back at the baseline
        res.ending.power_limit <= baseline.power_limit,
        res.ending.min_clock == 0 && res.ending.max_clock == baseline.max_clock,
        res.crash_cycles == CRASH_LIMIT + 1 || res.ending.power_limit <= STEP_POWER
            || baseline.power_limit - res.ending.power_limit <= STEP_POWER,
        // with no supported-clock table, only the power axis moves: every
        // write carries the baseline clock offsets
        supported.graphics@.len() == 0 && supported.memory@.len() == 0 ==> forall|j: int|
            old(device).writes().len() <= j < final(device).writes().len() ==> (
            #[trigger] final(device).writes()[j]).0.freq_offset == baseline.freq_offset
                && final(device).writes()[j].0.mem_offset == baseline.mem_offset,
        // an undisturbed run with no clock table drives the power ladder all
        // the way down: the count of candidate writes is pinned
        ({
            &&& supported.graphics@.len() == 0
            &&& supported.memory@.len() == 0
            &&& baseline.power_limit > STEP_POWER
            &&& nones(final(probe).outcomes().skip(old(probe).outcomes().len() as int)) == 0
            &&& forall|j: int|
                old(device).writes().len() <= j < final(device).writes().len() - 1 ==> (
                #[trigger] final(device).writes()[j]).1
        }) ==> 0 < baseline.power_limit - (final(device).writes().len() - old(
            device,
        ).writes().len() - 1) * STEP_POWER <= STEP_POWER,
{
    let ghost w0 = device.writes();
    let ghost o0 = probe.outcomes();
    let ghost s0 = sink.rows();
    let restore = restore_configuration(baseline);
    let freq_steps = candidate_steps(&supported.graphics, baseline.graphics_clock);
    let mem_steps = candidate_steps(&supported.memory, baseline.memory_clock);
    let mut records: Vec<Record> = Vec::new();
    let mut cfg = Configuration {
        power_limit: baseline.power_limit,
        freq_offset: baseline.freq_offset,
        mem_offset: baseline.mem_offset,
        min_clock: 0,
        max_clock: baseline.max_clock,
    };
    let mut floor: u32 = baseline.power_limit;
    let mut crash_cycles: u32 = 0;
    while cfg.power_limit > STEP_POWER && crash_cycles <= CRASH_LIMIT
        invariant_except_break
            freq_steps@ == step_seq(supported.graphics@, baseline.graphics_clock),
            mem_steps@ == step_seq(supported.memory@, baseline.memory_clock),
            baseline.graphics_clock <= i32::MAX as u32,
            baseline.memory_clock <= i32::MAX as u32,
            baseline.freq_offset - baseline.graphics_clock >= i32::MIN,
            baseline.mem_offset - baseline.memory_clock >= i32::MIN,
            crash_cycles <= CRASH_LIMIT,
            floor <= baseline.power_limit,
            cfg.power_limit <= baseline.power_limit,
            cfg.min_clock == 0,
            cfg.max_clock == baseline.max_clock,
            device.writes().len() == w0.len() ==> cfg == restore_of(*baseline) && floor
                == baseline.power_limit,
            device.writes().len() > w0.len() ==> (device.writes()[w0.len() as int]).0
                == stepped_power(restore_of(*baseline), baseline.power_limit, 1),
            supported.graphics@.len() == 0 && supported.memory@.len() == 0 ==> {
                &&& cfg.freq_offset == baseline.freq_offset
                &&& cfg.mem_offset == baseline.mem_offset
                &&& forall|j: int|
                    w0.len() <= j < device.writes().len() ==> (
                    #[trigger] device.writes()[j]).0.freq_offset == baseline.freq_offset
                        && device.writes()[j].0.mem_offset == baseline.mem_offset
            },
            supported.graphics@.len() == 0 && supported.memory@.len() == 0 ==> floor
                == baseline.power_limit - (device.writes().len() - w0.len()) * STEP_POWER,
            baseline.power_limit > 0 ==> floor > 0,
            ({
                &&& supported.graphics@.len() == 0
                &&& supported.memory@.len() == 0
                &&& nones(probe.outcomes().skip(o0.len() as int)) == 0
                &&& forall|j: int|
                    w0.len() <= j < device.writes().len() ==> (#[trigger] device.writes()[j]).1
            }) ==> floor <= cfg.power_limit,
            w0.is_prefix_of(device.writes()),
            o0.is_prefix_of(probe.outcomes()),
            sink.rows() == s0 + records@,
            records@.map_values(|r: Record| r.result) == successes(
                probe.outcomes().skip(o0.len() as int),
            ),
            records@.map_values(|r: Record| r.config) == adopted(
                ok_configs(device.writes().skip(w0.len() as int)),
                probe.outcomes().skip(o0.len() as int),
            ),
            forall|j: int|
                0 <= j < records@.len() ==> {
                    &&& (#[trigger] records@[j]).config.power_limit <= baseline.power_limit
                    &&& records@[j].config.min_clock == 0
                    &&& records@[j].config.max_clock == baseline.max_clock
                },
            probe.outcomes().len() - o0.len() == count_ok(device.writes().skip(w0.len() as int)),
            crash_cycles == nones(probe.outcomes().skip(o0.len() as int)),
        ensures
            w0.is_prefix_of(device.writes()),
            o0.is_prefix_of(probe.outcomes()),
            sink.rows() == s0 + records@,
            records@.map_values(|r: Record| r.result) == successes(
                probe.outcomes().skip(o0.len() as int),
            ),
            records@.map_values(|r: Record| r.config) == adopted(
                ok_configs(device.writes().skip(w0.len() as int)),
                probe.outcomes().skip(o0.len() as int),
            ),
            forall|j: int|
                0 <= j < records@.len() ==> {
                    &&& (#[trigger] records@[j]).config.power_limit <= baseline.power_limit
                    &&& records@[j].config.min_clock == 0
                    &&& records@[j].config.max_clock == baseline.max_clock
                },
            probe.outcomes().len() - o0.len() == count_ok(device.writes().skip(w0.len() as int)),
            crash_cycles == nones(probe.outcomes().skip(o0.len() as int)),
            crash_cycles <= CRASH_LIMIT + 1,
            crash_cycles == CRASH_LIMIT + 1 ==> {
                &&& probe.outcomes().last() is None
                &&& device.writes().len() > w0.len()
                &&& device.writes().last().1
            },
            cfg.power_limit <= baseline.power_limit,
            cfg.min_clock == 0,
            cfg.max_clock == baseline.max_clock,
            baseline.power_limit > STEP_POWER ==> device.writes().len() > w0.len() && (
            device.writes()[w0.len() as int]).0 == stepped_power(
                restore_of(*baseline),
                baseline.power_limit,
                1,
            ),
            cfg.power_limit <= STEP_POWER || baseline.power_limit - cfg.power_limit <= STEP_POWER
                || crash_cycles == CRASH_LIMIT + 1,
            supported.graphics@.len() == 0 && supported.memory@.len() == 0 ==> forall|j: int|
                w0.len() <= j < device.writes().len() ==> (
                #[trigger] device.writes()[j]).0.freq_offset == baseline.freq_offset
                    && device.writes()[j].0.mem_offset == baseline.mem_offset,
            supported.graphics@.len() == 0 && supported.memory@.len() == 0 ==> floor
                == baseline.power_limit - (device.writes().len() - w0.len()) * STEP_POWER,
            baseline.power_limit > 0 ==> floor > 0,
            ({
                &&& supported.graphics@.len() == 0
                &&& supported.memory@.len() == 0
                &&& baseline.power_limit > STEP_POWER
                &&& nones(probe.outcomes().skip(o0.len() as int)) == 0
                &&& forall|j: int|
                    w0.len() <= j < device.writes().len() ==> (#[trigger] device.writes()[j]).1
            }) ==> floor <= STEP_POWER,
        decreases
            CRASH_LIMIT + 1 - crash_cycles,
            floor,
            baseline.power_limit - cfg.power_limit,
    {
        let ghost wb1 = device.writes();
        let ghost ob1 = probe.outcomes();
        let ghost rb1 = records@;
        let (c1, f1, crashed1) = descend_power(cfg, floor, device, probe, sink, &mut records);
        proof {
            lemma_run_bookkeeping(
                device.writes(),
                probe.outcomes(),
                records@,
                wb1,
                ob1,
                rb1,
                w0.len() as int,
                o0.len() as int,
            );
            if records@.len() > rb1.len() {
                let j = records@.len() - 1;
                assert((records@[j]).config == stepped_power(
                    cfg,
                    floor,
                    (j - rb1.len() + 1) as nat,
                ));
                assert((records@.len() - rb1.len()) * STEP_POWER <= floor);
                assert(c1 == stepped_power(cfg, floor, (records@.len() - rb1.len()) as nat));
            }
            assert(c1.power_limit <= baseline.power_limit);
            assert(c1.min_clock == 0 && c1.max_clock == baseline.max_clock);
            assert(f1 <= floor);
            if wb1.len() == w0.len() {
                assert(cfg == restore_of(*baseline) && floor == baseline.power_limit);
                assert((device.writes()[w0.len() as int]).0 == stepped_power(cfg, floor, 1nat));
            } else {
                assert(device.writes().subrange(0, wb1.len() as int) == wb1);
                assert(device.writes()[w0.len() as int] == wb1[w0.len() as int]);
            }
            assert(device.writes().len() > w0.len());
            if supported.graphics@.len() == 0 && supported.memory@.len() == 0 {
                assert(device.writes().subrange(0, wb1.len() as int) == wb1);
                assert forall|j: int|
                    w0.len() <= j < device.writes().len() implies (
                #[trigger] device.writes()[j]).0.freq_offset == baseline.freq_offset
                    && device.writes()[j].0.mem_offset == baseline.mem_offset by {
                    if j < wb1.len() {
                        assert(device.writes()[j] == wb1[j]);
                    } else {
                        assert((device.writes()[j]).0 == stepped_power(
                            cfg,
                            floor,
                            (j - wb1.len() + 1) as nat,
                        ));
                    }
                }
                assert(c1.freq_offset == cfg.freq_offset && c1.mem_offset == cfg.mem_offset);
            }
        }
        cfg = c1;
        floor = f1;
        if crashed1 {
            crash_cycles = crash_cycles + 1;
        }
        if crash_cycles > CRASH_LIMIT {
            break;
        }
        let ghost wb2 = device.writes();
        let ghost ob2 = probe.outcomes();
        let ghost rb2 = records@;
        proof {
            lemma_step_seq_bounds(supported.graphics@, baseline.graphics_clock);
        }
        let (c2, crashed2) = ascend_freq(
            cfg,
            baseline.freq_offset,
            &freq_steps,
            device,
            probe,
            sink,
            &mut records,
        );
        proof {
            lemma_run_bookkeeping(
                device.writes(),
                probe.outcomes(),
                records@,
                wb2,
                ob2,
                rb2,
                w0.len() as int,
                o0.len() as int,
            );
            assert(c2.power_limit == cfg.power_limit);
            assert(c2.min_clock == 0 && c2.max_clock == baseline.max_clock);
            assert(device.writes().subrange(0, wb2.len() as int) == wb2);
            assert(device.writes()[w0.len() as int] == wb2[w0.len() as int]);
            if supported.graphics@.len() == 0 {
                assert(freq_steps@ == step_seq(supported.graphics@, baseline.graphics_clock));
                assert(freq_steps@.len() == 0);
                assert(device.writes() == wb2);
            }
        }
        cfg = c2;
        if crashed2 {
            crash_cycles = crash_cycles + 1;
        }
        if crash_cycles > CRASH_LIMIT {
            break;
        }
        let ghost wb3 = device.writes();
        let ghost ob3 = probe.outcomes();
        let ghost rb3 = records@;
        proof {
            lemma_step_seq_bounds(supported.memory@, baseline.memory_clock);
        }
        let (c3, crashed3) = ascend_mem(
            cfg,
            baseline.mem_offset,
            &mem_steps,
            device,
            probe,
            sink,
            &mut records,
        );
        proof {
            lemma_run_bookkeeping(
                device.writes(),
                probe.outcomes(),
                records@,
                wb3,
                ob3,
                rb3,
                w0.len() as int,
                o0.len() as int,
            );
            assert(c3.power_limit == cfg.power_limit);
            assert(c3.min_clock == 0 && c3.max_clock == baseline.max_clock);
            assert(device.writes().subrange(0, wb3.len() as int) == wb3);
            assert(device.writes()[w0.len() as int] == wb3[w0.len() as int]);
            if supported.memory@.len() == 0 {
                assert(mem_steps@ == step_seq(supported.memory@, baseline.memory_clock));
                assert(mem_steps@.len() == 0);
                assert(device.writes() == wb3);
            }
        }
        cfg = c3;
        if crashed3 {
            crash_cycles = crash_cycles + 1;
        }
        if crash_cycles > CRASH_LIMIT {
            break;
        }
        // relaxation: give back one step of power headroom, or stop once the
        // relaxed limit would reach the baseline again
        match relax_power(cfg.power_limit, baseline.power_limit) {
            Some(relaxed) => {
                cfg.power_limit = relaxed;
            },
            None => {
                break;
            },
        }
    }
    let ghost wr = device.writes();
    let restored = device.apply(&restore);
    proof {
        assert(device.writes().skip(w0.len() as int).drop_last() =~= wr.skip(w0.len() as int));
        if baseline.power_limit > STEP_POWER {
            assert(device.writes()[w0.len() as int] == wr[w0.len() as int]);
        }
        if supported.graphics@.len() == 0 && supported.memory@.len() == 0
            && baseline.power_limit > STEP_POWER && nones(
            probe.outcomes().skip(o0.len() as int),
        ) == 0 && (forall|j: int|
            w0.len() <= j < device.writes().len() - 1 ==> (#[trigger] device.writes()[j]).1) {
            assert(device.writes().len() - 1 == wr.len());
            assert forall|j: int| w0.len() <= j < wr.len() implies (#[trigger] wr[j]).1 by {
                assert(wr[j] == device.writes()[j]);
            }
            assert(floor <= STEP_POWER);
            assert(floor == baseline.power_limit - (wr.len() - w0.len()) * STEP_POWER);
            assert(floor > 0);
        }
    }
    RunOutcome { records, crash_cycles, restored, ending: cfg }
}

/// Monotonic descent: the records one power-limit descent phase adopts carry
/// power limits that strictly decrease from one record to the next, and each
/// sits a whole number of steps below the value the descent began from.
pub proof fn lemma_monotonic_descent(records: Seq<Record>, cur: Configuration, floor: u32)
    requires
        forall|j: int|
            0 <= j < records.len() ==> (#[trigger] records[j]).config == stepped_power(
                cur,
                floor,
                (j + 1) as nat,
            ),
        records.len() * STEP_POWER <= floor,
    ensures
        forall|i: int, j: int|
            0 <= i < j < records.len() ==> records[i].config.power_limit
                > records[j].config.power_limit,
        forall|j: int|
            0 <= j < records.len() ==> (#[trigger] records[j]).config.power_limit == floor - (j
                + 1) * STEP_POWER,
{
    assert forall|j: int|
        0 <= j < records.len() implies (#[trigger] records[j]).config.power_limit == floor - (j
        + 1) * STEP_POWER by {
        assert((j + 1) * STEP_POWER <= records.len() * STEP_POWER) by (nonlinear_arith)
            requires
                0 <= j < records.len(),
        ;
    }
}

} // verus!
