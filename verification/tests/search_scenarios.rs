use nvidia_oc::search::{relax_power, run};
use nvidia_oc::sim::{ScriptedDevice, ScriptedProbe, VecSink};
use nvidia_oc::{Baseline, Configuration, Measurement, SupportedClocks};

fn baseline_150() -> Baseline {
    Baseline {
        power_limit: 150_000,
        freq_offset: 0,
        mem_offset: 0,
        graphics_clock: 0,
        memory_clock: 0,
        max_clock: 2100,
    }
}

fn restore_of(b: &Baseline) -> Configuration {
    Configuration {
        power_limit: b.power_limit,
        freq_offset: b.freq_offset,
        mem_offset: b.mem_offset,
        min_clock: 0,
        max_clock: b.max_clock,
    }
}

fn no_clocks() -> SupportedClocks {
    SupportedClocks { graphics: Vec::new(), memory: Vec::new() }
}

fn meas(score: i64, avg_power_cw: u64) -> Measurement {
    Measurement { score, avg_power_cw }
}

#[test]
fn full_power_descent_when_probe_always_succeeds() {
    let baseline = baseline_150();
    let clocks = no_clocks();
    let mut device = ScriptedDevice::new(Vec::new());
    let mut probe = ScriptedProbe::new(Vec::new(), meas(1000, 25000));
    let mut sink = VecSink::new();
    let outcome = run(&baseline, &clocks, &mut device, &mut probe, &mut sink);
    let (records, crashes, restored) = (outcome.records, outcome.crash_cycles, outcome.restored);
    assert!(restored);
    assert_eq!(crashes, 0);
    // the descent adopts 145000, 140000, ..., 5000: one step at a time
    assert_eq!(records.len(), 29);
    for (i, rec) in records.iter().enumerate() {
        assert_eq!(rec.config.power_limit, 150_000 - 5_000 * (i as u32 + 1));
        assert_eq!(rec.config.freq_offset, 0);
        assert_eq!(rec.config.mem_offset, 0);
        assert_eq!(rec.config.min_clock, 0);
        assert_eq!(rec.config.max_clock, 2100);
        assert_eq!(rec.result, meas(1000, 25000));
    }
    // every adopted power limit is strictly below the previous one
    for pair in records.windows(2) {
        assert!(pair[1].config.power_limit < pair[0].config.power_limit);
    }
    // the search ended with the relaxed limit one step under the baseline
    assert_eq!(outcome.ending.power_limit, 145_000);
    // 29 candidate writes, then exactly the restoration
    assert_eq!(device.log.len(), 30);
    let last = device.log.last().unwrap();
    assert_eq!(last.0, restore_of(&baseline));
}

#[test]
fn instability_on_first_candidate_restores_baseline() {
    let baseline = baseline_150();
    let clocks = no_clocks();
    let mut device = ScriptedDevice::new(Vec::new());
    let mut probe = ScriptedProbe::new(vec![None], meas(1000, 25000));
    let mut sink = VecSink::new();
    let outcome = run(&baseline, &clocks, &mut device, &mut probe, &mut sink);
    let (records, crashes, restored) = (outcome.records, outcome.crash_cycles, outcome.restored);
    assert!(restored);
    assert_eq!(records.len(), 0);
    assert_eq!(crashes, 1);
    // nothing was adopted: the run ended still at the baseline limit
    assert_eq!(outcome.ending.power_limit, 150_000);
    // the unstable candidate write, then the restoration, nothing else
    assert_eq!(device.log.len(), 2);
    assert_eq!(device.log[0].0.power_limit, 145_000);
    assert!(device.log[0].1);
    assert_eq!(device.log[1].0, restore_of(&baseline));
    assert_eq!(probe.log, vec![None]);
}

#[test]
fn crash_budget_stops_the_run_after_three_instabilities() {
    let baseline = Baseline {
        power_limit: 150_000,
        freq_offset: 0,
        mem_offset: 0,
        graphics_clock: 2100,
        memory_clock: 3000,
        max_clock: 2100,
    };
    let clocks = SupportedClocks {
        graphics: vec![2000, 2100],
        memory: vec![2900, 3000],
    };
    let mut device = ScriptedDevice::new(Vec::new());
    let mut probe = ScriptedProbe::new(vec![None, None, None], meas(1000, 25000));
    let mut sink = VecSink::new();
    let outcome = run(&baseline, &clocks, &mut device, &mut probe, &mut sink);
    let (records, crashes, restored) = (outcome.records, outcome.crash_cycles, outcome.restored);
    assert!(restored);
    assert_eq!(records.len(), 0);
    assert_eq!(crashes, 3);
    // exactly three probes, all unstable; no probe after the third
    assert_eq!(probe.log, vec![None, None, None]);
    // one candidate per phase, then only the restoration
    assert_eq!(device.log.len(), 4);
    assert_eq!(device.log[0].0.power_limit, 145_000);
    assert_eq!(device.log[1].0.freq_offset, -100);
    assert_eq!(device.log[2].0.mem_offset, -100);
    assert!(device.log[2].1);
    assert_eq!(device.log[3].0, restore_of(&baseline));
}

#[test]
fn apply_failure_ends_the_phase_without_a_crash() {
    let baseline = baseline_150();
    let clocks = no_clocks();
    // first candidate applies, second is rejected by the device
    let mut device = ScriptedDevice::new(vec![true, false]);
    let mut probe = ScriptedProbe::new(Vec::new(), meas(777, 20000));
    let mut sink = VecSink::new();
    let outcome = run(&baseline, &clocks, &mut device, &mut probe, &mut sink);
    let (records, crashes, restored) = (outcome.records, outcome.crash_cycles, outcome.restored);
    assert!(restored);
    assert_eq!(crashes, 0);
    assert_eq!(records.len(), 1);
    assert_eq!(records[0].config.power_limit, 145_000);
    assert_eq!(device.log.len(), 3);
    assert_eq!(device.log[1].0.power_limit, 140_000);
    assert!(!device.log[1].1);
    assert_eq!(device.log[2].0, restore_of(&baseline));
}

#[test]
fn rejected_apply_on_the_very_first_candidate_still_restores() {
    let baseline = baseline_150();
    let clocks = no_clocks();
    let mut device = ScriptedDevice::new(vec![false]);
    let mut probe = ScriptedProbe::new(Vec::new(), meas(1, 1));
    let mut sink = VecSink::new();
    let outcome = run(&baseline, &clocks, &mut device, &mut probe, &mut sink);
    let (records, crashes, restored) = (outcome.records, outcome.crash_cycles, outcome.restored);
    assert!(restored);
    assert_eq!(records.len(), 0);
    assert_eq!(crashes, 0);
    assert_eq!(device.log.len(), 2);
    assert_eq!(device.log.last().unwrap().0, restore_of(&baseline));
}

#[test]
fn records_hold_exactly_the_successful_probe_outcomes() {
    let baseline = baseline_150();
    let clocks = no_clocks();
    let mut device = ScriptedDevice::new(Vec::new());
    let mut probe = ScriptedProbe::new(vec![Some(meas(42, 12345)), None], meas(0, 0));
    let mut sink = VecSink::new();
    let outcome = run(&baseline, &clocks, &mut device, &mut probe, &mut sink);
    let (records, crashes, restored) = (outcome.records, outcome.crash_cycles, outcome.restored);
    assert!(restored);
    assert_eq!(crashes, 1);
    assert_eq!(records.len(), 1);
    assert_eq!(records[0].result, meas(42, 12345));
    assert_eq!(records[0].config.power_limit, 145_000);
    // the sink received exactly the records, in order
    assert_eq!(sink.items, records);
    assert_eq!(device.log.last().unwrap().0, restore_of(&baseline));
}

#[test]
fn offset_phases_revalidate_at_the_adopted_power_limit() {
    let baseline = Baseline {
        power_limit: 10_000,
        freq_offset: 50,
        mem_offset: -20,
        graphics_clock: 2100,
        memory_clock: 3000,
        max_clock: 2200,
    };
    let clocks = SupportedClocks {
        graphics: vec![1900, 2000, 2100],
        memory: vec![2800, 3000],
    };
    let mut device = ScriptedDevice::new(Vec::new());
    let mut probe = ScriptedProbe::new(Vec::new(), meas(9, 900));
    let mut sink = VecSink::new();
    let outcome = run(&baseline, &clocks, &mut device, &mut probe, &mut sink);
    let (records, crashes, restored) = (outcome.records, outcome.crash_cycles, outcome.restored);
    assert!(restored);
    assert_eq!(crashes, 0);
    // descent adopts 5000; the core axis tries offsets -100 and -200 relative
    // to the baseline offset; the memory axis tries -200; all at power 5000
    assert_eq!(records.len(), 4);
    assert_eq!(records[0].config.power_limit, 5_000);
    assert_eq!(records[1].config.freq_offset, 50 - 100);
    assert_eq!(records[1].config.power_limit, 5_000);
    assert_eq!(records[2].config.freq_offset, 50 - 200);
    assert_eq!(records[3].config.mem_offset, -20 - 200);
    assert_eq!(records[3].config.freq_offset, 50 - 200);
    assert_eq!(device.log.last().unwrap().0, restore_of(&baseline));
}

#[test]
fn a_rejected_restoration_is_reported_but_still_attempted_last() {
    let baseline = baseline_150();
    let clocks = no_clocks();
    // the candidate applies, the restoration write is rejected
    let mut device = ScriptedDevice::new(vec![true, false]);
    let mut probe = ScriptedProbe::new(vec![None], meas(0, 0));
    let mut sink = VecSink::new();
    let outcome = run(&baseline, &clocks, &mut device, &mut probe, &mut sink);
    let (records, crashes, restored) = (outcome.records, outcome.crash_cycles, outcome.restored);
    assert!(!restored);
    assert_eq!(records.len(), 0);
    assert_eq!(crashes, 1);
    assert_eq!(device.log.len(), 2);
    assert_eq!(device.log[1].0, restore_of(&baseline));
    assert!(!device.log[1].1);
}

#[test]
fn relaxation_retries_a_failed_offset_at_higher_power() {
    let baseline = Baseline {
        power_limit: 15_000,
        freq_offset: 0,
        mem_offset: 0,
        graphics_clock: 2100,
        memory_clock: 0,
        max_clock: 2100,
    };
    let clocks = SupportedClocks { graphics: vec![2000, 2100], memory: Vec::new() };
    // the two power candidates apply; the first try of the core offset is
    // rejected; everything after is accepted
    let mut device = ScriptedDevice::new(vec![true, true, false]);
    let mut probe = ScriptedProbe::new(Vec::new(), meas(10, 100));
    let mut sink = VecSink::new();
    let outcome = run(&baseline, &clocks, &mut device, &mut probe, &mut sink);
    let (records, crashes, restored) = (outcome.records, outcome.crash_cycles, outcome.restored);
    assert!(restored);
    assert_eq!(crashes, 0);
    assert_eq!(records.len(), 3);
    assert_eq!(records[0].config.power_limit, 10_000);
    assert_eq!(records[1].config.power_limit, 5_000);
    // the core offset rejected at power 5000 is accepted after the power
    // limit relaxes back to 10000
    assert_eq!(records[2].config.freq_offset, -100);
    assert_eq!(records[2].config.power_limit, 10_000);
    assert_eq!(device.log.last().unwrap().0, restore_of(&baseline));
}

#[test]
fn a_baseline_at_one_step_of_power_only_restores() {
    let baseline = Baseline {
        power_limit: 5_000,
        freq_offset: 0,
        mem_offset: 0,
        graphics_clock: 0,
        memory_clock: 0,
        max_clock: 1000,
    };
    let clocks = no_clocks();
    let mut device = ScriptedDevice::new(Vec::new());
    let mut probe = ScriptedProbe::new(Vec::new(), meas(1, 1));
    let mut sink = VecSink::new();
    let outcome = run(&baseline, &clocks, &mut device, &mut probe, &mut sink);
    let (records, crashes, restored) = (outcome.records, outcome.crash_cycles, outcome.restored);
    assert!(restored);
    assert_eq!(records.len(), 0);
    assert_eq!(crashes, 0);
    assert_eq!(device.log.len(), 1);
    assert_eq!(device.log[0].0, restore_of(&baseline));
}

#[test]
fn an_instability_in_the_core_phase_still_runs_the_memory_phase() {
    let baseline = Baseline {
        power_limit: 10_000,
        freq_offset: 0,
        mem_offset: 0,
        graphics_clock: 2100,
        memory_clock: 3000,
        max_clock: 2100,
    };
    let clocks = SupportedClocks { graphics: vec![2000, 2100], memory: vec![2900, 3000] };
    let mut device = ScriptedDevice::new(Vec::new());
    // power candidate succeeds, the core offset is unstable, memory succeeds
    let mut probe = ScriptedProbe::new(vec![Some(meas(5, 50)), None], meas(6, 60));
    let mut sink = VecSink::new();
    let outcome = run(&baseline, &clocks, &mut device, &mut probe, &mut sink);
    let (records, crashes, restored) = (outcome.records, outcome.crash_cycles, outcome.restored);
    assert!(restored);
    assert_eq!(crashes, 1);
    assert_eq!(records.len(), 2);
    assert_eq!(records[0].config.power_limit, 5_000);
    assert_eq!(records[1].config.mem_offset, -100);
    assert_eq!(records[1].config.freq_offset, 0);
    assert_eq!(device.log.last().unwrap().0, restore_of(&baseline));
}

#[test]
fn relaxation_gives_back_one_step_until_the_baseline() {
    assert_eq!(relax_power(140_000, 150_000), Some(145_000));
    assert_eq!(relax_power(145_000, 150_000), None);
    assert_eq!(relax_power(150_000, 150_000), None);
    assert_eq!(relax_power(0, 5_000), None);
    assert_eq!(relax_power(0, 5_001), Some(5_000));
}
