//! Stability-bounded autotuning for a GPU's power limit and clock offsets.
//!
//! The search controller lowers the power limit, then pushes the core and
//! memory clock offsets, validating every candidate configuration against a
//! stability probe and recording each accepted one. Whatever happens, the
//! device is restored to its baseline configuration before the run ends.

use vstd::prelude::*;

pub mod clocks;
pub mod csv;
pub mod nvml;
pub mod search;
pub mod sim;
pub mod steps;

verus! {

/// Milliwatts by which the power limit moves in one step.
pub const STEP_POWER: u32 = 5000;

/// Instability events tolerated before the run aborts: the run ends as soon
/// as the count exceeds this bound.
pub const CRASH_LIMIT: u32 = 2;

/// The tunable state of one device at one point in time: a power limit in
/// milliwatts, signed clock offsets in MHz, and a locked clock range in MHz.
#[derive(Clone, Copy, Debug, PartialEq, Eq, Structural)]
pub struct Configuration {
    pub power_limit: u32,
    pub freq_offset: i32,
    pub mem_offset: i32,
    pub min_clock: u32,
    pub max_clock: u32,
}

/// The device's configuration at the moment the search begins, captured once
/// and never mutated: the rollback target and the origin for candidate steps.
/// Fields the device does not report default to 0.
#[derive(Clone, Copy, Debug, PartialEq, Eq, Structural)]
pub struct Baseline {
    /// Power limit in milliwatts.
    pub power_limit: u32,
    /// Core clock offset in MHz.
    pub freq_offset: i32,
    /// Memory clock offset in MHz.
    pub mem_offset: i32,
    /// Observed current graphics clock in MHz.
    pub graphics_clock: u32,
    /// Observed current memory clock in MHz.
    pub memory_clock: u32,
    /// The device's maximum graphics clock in MHz.
    pub max_clock: u32,
}

/// What a successful stability probe reports. The probe's score is kept
/// rounded to an integer and its average power in hundredths of a watt,
/// which is the precision the record store keeps.
#[derive(Clone, Copy, Debug, PartialEq, Eq, Structural)]
pub struct Measurement {
    /// Benchmark score, higher is better.
    pub score: i64,
    /// Average power draw in hundredths of a watt.
    pub avg_power_cw: u64,
}

/// An immutable observation: the configuration that was tested together with
/// the probe's result. Created exactly once per successful probe.
#[derive(Clone, Copy, Debug, PartialEq, Eq, Structural)]
pub struct Record {
    pub config: Configuration,
    pub result: Measurement,
}

/// The clock tables the device reports: two sequences of MHz values,
/// ascending as reported by the data source.
#[derive(Debug, Default)]
pub struct SupportedClocks {
    pub graphics: Vec<u32>,
    pub memory: Vec<u32>,
}

/// The configuration that restores a device to its baseline: all offsets and
/// the power limit reset, the locked clock range opened to the full range.
pub open spec fn restore_of(b: Baseline) -> Configuration {
    Configuration {
        power_limit: b.power_limit,
        freq_offset: b.freq_offset,
        mem_offset: b.mem_offset,
        min_clock: 0,
        max_clock: b.max_clock,
    }
}

/// Builds the restoration target for a baseline.
pub fn restore_configuration(b: &Baseline) -> (c: Configuration)
    ensures
        c == restore_of(*b),
{
    Configuration {
        power_limit: b.power_limit,
        freq_offset: b.freq_offset,
        mem_offset: b.mem_offset,
        min_clock: 0,
        max_clock: b.max_clock,
    }
}

} // verus!
