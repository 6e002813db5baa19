//! The real device behind the capability traits: thin trusted wrappers
//! around the NVML device handle, a `DeviceControl` implementation that
//! writes whole configurations through them, the baseline reader, and the
//! one-shot parameter setter of the command-line tool.

use vstd::prelude::*;

use crate::search::DeviceControl;
use crate::{Baseline, Configuration};

verus! {

#[verifier::external_type_specification]
#[verifier::external_body]
pub struct ExDevice<'nvml>(nvml_wrapper::Device<'nvml>);

/// Relies on `Device::set_power_management_limit`: writes the power limit in
/// milliwatts; the result only says whether the driver took it.
#[verifier::external_body]
fn set_power_limit_mw(dev: &mut nvml_wrapper::Device<'_>, limit: u32) -> bool {
    dev.set_power_management_limit(limit).is_ok()
}

/// Relies on `Device::set_gpc_clock_vf_offset`: writes the core clock offset
/// in MHz; the result only says whether the driver took it.
#[verifier::external_body]
fn set_core_offset(dev: &nvml_wrapper::Device<'_>, offset: i32) -> bool {
    dev.set_gpc_clock_vf_offset(offset).is_ok()
}

/// Relies on `Device::set_mem_clock_vf_offset`: writes the memory clock
/// offset in MHz; the result only says whether the driver took it.
#[verifier::external_body]
fn set_memory_offset(dev: &nvml_wrapper::Device<'_>, offset: i32) -> bool {
    dev.set_mem_clock_vf_offset(offset).is_ok()
}

/// Relies on `Device::set_gpu_locked_clocks`: clamps the graphics clock to
/// the numeric range; the result only says whether the driver took it.
#[verifier::external_body]
fn set_locked_clocks(dev: &mut nvml_wrapper::Device<'_>, min_clock: u32, max_clock: u32) -> bool {
    dev.set_gpu_locked_clocks(nvml_wrapper::enums::device::GpuLockedClocksSetting::Numeric {
        min_clock_mhz: min_clock,
        max_clock_mhz: max_clock,
    }).is_ok()
}

/// Relies on `Device::set_mem_locked_clocks`: clamps the memory clock to the
/// range; the result only says whether the driver took it.
#[verifier::external_body]
fn set_mem_locked_clocks(
    dev: &mut nvml_wrapper::Device<'_>,
    min_clock: u32,
    max_clock: u32,
) -> bool {
    dev.set_mem_locked_clocks(min_clock, max_clock).is_ok()
}

/// Relies on `Device::enforced_power_limit`: reads the enforced power limit
/// in milliwatts, or nothing when the device cannot report it.
#[verifier::external_body]
fn read_power_limit(dev: &nvml_wrapper::Device<'_>) -> Option<u32> {
    dev.enforced_power_limit().ok()
}

/// Relies on `Device::gpc_clock_vf_offset`: reads the core clock offset in
/// MHz, or nothing when the device cannot report it.
#[verifier::external_body]
fn read_core_offset(dev: &nvml_wrapper::Device<'_>) -> Option<i32> {
    dev.gpc_clock_vf_offset().ok()
}

/// Relies on `Device::mem_clock_vf_offset`: reads the memory clock offset in
/// MHz, or nothing when the device cannot report it.
#[verifier::external_body]
fn read_memory_offset(dev: &nvml_wrapper::Device<'_>) -> Option<i32> {
    dev.mem_clock_vf_offset().ok()
}

/// Relies on `Device::clock_info` with the graphics clock domain: reads the
/// current graphics clock in MHz, or nothing when unavailable.
#[verifier::external_body]
fn read_graphics_clock(dev: &nvml_wrapper::Device<'_>) -> Option<u32> {
    dev.clock_info(nvml_wrapper::enum_wrappers::device::Clock::Graphics).ok()
}

/// Relies on `Device::clock_info` with the memory clock domain: reads the
/// current memory clock in MHz, or nothing when unavailable.
#[verifier::external_body]
fn read_memory_clock(dev: &nvml_wrapper::Device<'_>) -> Option<u32> {
    dev.clock_info(nvml_wrapper::enum_wrappers::device::Clock::Memory).ok()
}

/// Relies on `Device::max_clock_info` with the graphics clock domain: reads
/// the device's maximum graphics clock in MHz, or nothing when unavailable.
#[verifier::external_body]
fn read_max_graphics_clock(dev: &nvml_wrapper::Device<'_>) -> Option<u32> {
    dev.max_clock_info(nvml_wrapper::enum_wrappers::device::Clock::Graphics).ok()
}

/// A reported value, or the neutral default when the device does not report
/// one.
fn or_zero_u32(v: Option<u32>) -> (r: u32)
    ensures
        r == (match v {
            Some(x) => x,
            None => 0u32,
        }),
{
    match v {
        Some(x) => x,
        None => 0,
    }
}

/// A reported offset, or the neutral default when the device does not report
/// one.
fn or_zero_i32(v: Option<i32>) -> (r: i32)
    ensures
        r == (match v {
            Some(x) => x,
            None => 0i32,
        }),
{
    match v {
        Some(x) => x,
        None => 0,
    }
}

/// The device-control capability over a real NVML device handle.
pub struct NvmlDevice<'nvml> {
    dev: nvml_wrapper::Device<'nvml>,
    log: Ghost<Seq<(Configuration, bool)>>,
}

impl<'nvml> NvmlDevice<'nvml> {
    /// Wraps an exclusively owned device handle.
    pub fn new(dev: nvml_wrapper::Device<'nvml>) -> (d: NvmlDevice<'nvml>)
        ensures
            d.writes() == Seq::<(Configuration, bool)>::empty(),
    {
        NvmlDevice { dev, log: Ghost(Seq::empty()) }
    }

    /// Captures the device's current configuration as the baseline of a run:
    /// power limit, both clock offsets, the observed graphics and memory
    /// clocks, and the maximum graphics clock. A value the device does not
    /// report defaults to 0, silently.
    pub fn read_baseline(&self) -> Baseline {
        Baseline {
            power_limit: or_zero_u32(read_power_limit(&self.dev)),
            freq_offset: or_zero_i32(read_core_offset(&self.dev)),
            mem_offset: or_zero_i32(read_memory_offset(&self.dev)),
            graphics_clock: or_zero_u32(read_graphics_clock(&self.dev)),
            memory_clock: or_zero_u32(read_memory_clock(&self.dev)),
            max_clock: or_zero_u32(read_max_graphics_clock(&self.dev)),
        }
    }
}

impl<'nvml> DeviceControl for NvmlDevice<'nvml> {
    closed spec fn writes(&self) -> Seq<(Configuration, bool)> {
        self.log@
    }

    fn apply(&mut self, cfg: &Configuration) -> (ok: bool) {
        let ok = set_power_limit_mw(&mut self.dev, cfg.power_limit) && set_core_offset(
            &self.dev,
            cfg.freq_offset,
        ) && set_memory_offset(&self.dev, cfg.mem_offset) && set_locked_clocks(
            &mut self.dev,
            cfg.min_clock,
            cfg.max_clock,
        );
        proof {
            self.log@ = self.log@.push((*cfg, ok));
        }
        ok
    }
}

/// The parameters of a one-shot set command; absent fields are not written.
/// The two halves of a locked clock range only ever arrive together.
#[derive(Clone, Copy, Debug)]
pub struct Sets {
    pub freq_offset: Option<i32>,
    pub mem_offset: Option<i32>,
    pub power_limit: Option<u32>,
    pub min_clock: Option<u32>,
    pub max_clock: Option<u32>,
    pub min_mem_clock: Option<u32>,
    pub max_mem_clock: Option<u32>,
}

/// What a one-shot set command did: for each parameter group, nothing when
/// it was absent, else whether the device took the write.
#[derive(Clone, Copy, Debug, PartialEq, Eq, Structural)]
pub struct SetOutcome {
    pub freq_offset: Option<bool>,
    pub mem_offset: Option<bool>,
    pub power_limit: Option<bool>,
    pub locked_clocks: Option<bool>,
    pub mem_locked_clocks: Option<bool>,
}

impl Sets {
    /// Writes the present parameters to the device in a fixed order — core
    /// offset, memory offset, power limit, locked clocks, memory locked
    /// clocks — stopping at the first write the device rejects, as the
    /// one-shot command aborts there. Each outcome field reports whether the
    /// group was attempted and how the device answered.
    pub fn apply(&self, dev: &mut nvml_wrapper::Device<'_>) -> (r: SetOutcome)
        ensures
            r.freq_offset is Some <==> self.freq_offset is Some,
            r.mem_offset is Some <==> (self.mem_offset is Some && r.freq_offset != Some(false)),
            r.power_limit is Some <==> (self.power_limit is Some && r.freq_offset != Some(false)
                && r.mem_offset != Some(false)),
            r.locked_clocks is Some <==> (self.min_clock is Some && self.max_clock is Some
                && r.freq_offset != Some(false) && r.mem_offset != Some(false) && r.power_limit
                != Some(false)),
            r.mem_locked_clocks is Some <==> (self.min_mem_clock is Some
                && self.max_mem_clock is Some && r.freq_offset != Some(false) && r.mem_offset
                != Some(false) && r.power_limit != Some(false) && r.locked_clocks != Some(false)),
    {
        let mut r = SetOutcome {
            freq_offset: None,
            mem_offset: None,
            power_limit: None,
            locked_clocks: None,
            mem_locked_clocks: None,
        };
        if let Some(off) = self.freq_offset {
            let ok = set_core_offset(dev, off);
            r.freq_offset = Some(ok);
            if !ok {
                return r;
            }
        }
        if let Some(off) = self.mem_offset {
            let ok = set_memory_offset(dev, off);
            r.mem_offset = Some(ok);
            if !ok {
                return r;
            }
        }
        if let Some(limit) = self.power_limit {
            let ok = set_power_limit_mw(dev, limit);
            r.power_limit = Some(ok);
            if !ok {
                return r;
            }
        }
        if let (Some(min_clock), Some(max_clock)) = (self.min_clock, self.max_clock) {
            let ok = set_locked_clocks(dev, min_clock, max_clock);
            r.locked_clocks = Some(ok);
            if !ok {
                return r;
            }
        }
        if let (Some(min_clock), Some(max_clock)) = (self.min_mem_clock, self.max_mem_clock) {
            let ok = set_mem_locked_clocks(dev, min_clock, max_clock);
            r.mem_locked_clocks = Some(ok);
            if !ok {
                return r;
            }
        }
        r
    }
}

/// Whether every attempted write of a one-shot set command succeeded.
pub fn all_succeeded(r: &SetOutcome) -> (ok: bool)
    ensures
        ok <==> {
            &&& r.freq_offset != Some(false)
            &&& r.mem_offset != Some(false)
            &&& r.power_limit != Some(false)
            &&& r.locked_clocks != Some(false)
            &&& r.mem_locked_clocks != Some(false)
        },
{
    r.freq_offset != Some(false) && r.mem_offset != Some(false) && r.power_limit != Some(false)
        && r.locked_clocks != Some(false) && r.mem_locked_clocks != Some(false)
}

} // verus!
