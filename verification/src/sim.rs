//! Scripted collaborators: a simulated device, probe and sink that answer
//! from fixed scripts, so a search run can be exercised deterministically
//! without hardware.

use vstd::prelude::*;

use crate::search::{DeviceControl, RecordSink, StabilityProbe};
use crate::{Configuration, Measurement, Record};

verus! {

/// A simulated device: each apply is answered from a script of outcomes, in
/// order, and accepted once the script runs out. Every write issued to it is
/// kept in `log`, so a harness can inspect what the search did.
pub struct ScriptedDevice {
    /// Apply outcomes still to hand out.
    pub script: Vec<bool>,
    /// How many script entries were consumed.
    pub used: usize,
    /// Every write issued, oldest first, with the answer it got.
    pub log: Vec<(Configuration, bool)>,
}

impl ScriptedDevice {
    /// A fresh device that answers applies from `script`, then accepts all.
    pub fn new(script: Vec<bool>) -> (d: ScriptedDevice)
        ensures
            d.writes() == Seq::<(Configuration, bool)>::empty(),
            d.script == script,
            d.used == 0,
    {
        ScriptedDevice { script, used: 0, log: Vec::new() }
    }
}

impl DeviceControl for ScriptedDevice {
    open spec fn writes(&self) -> Seq<(Configuration, bool)> {
        self.log@
    }

    fn apply(&mut self, cfg: &Configuration) -> (ok: bool)
        ensures
            ok == (if old(self).used < old(self).script@.len() {
                old(self).script@[old(self).used as int]
            } else {
                true
            }),
            final(self).script == old(self).script,
            final(self).used == (if old(self).used < old(self).script@.len() {
                old(self).used + 1
            } else {
                old(self).used as int
            }),
    {
        let ok: bool = if self.used < self.script.len() {
            let v = self.script[self.used];
            self.used = self.used + 1;
            v
        } else {
            true
        };
        self.log.push((*cfg, ok));
        ok
    }
}

/// A simulated probe: each call is answered from a script of outcomes, in
/// order; once the script runs out every probe succeeds with `fallback`.
pub struct ScriptedProbe {
    /// Probe outcomes still to hand out.
    pub script: Vec<Option<Measurement>>,
    /// How many script entries were consumed.
    pub used: usize,
    /// What every probe reports once the script runs out.
    pub fallback: Measurement,
    /// Every outcome reported, oldest first.
    pub log: Vec<Option<Measurement>>,
}

impl ScriptedProbe {
    /// A fresh probe that answers from `script`, then reports `fallback`.
    pub fn new(script: Vec<Option<Measurement>>, fallback: Measurement) -> (p: ScriptedProbe)
        ensures
            p.outcomes() == Seq::<Option<Measurement>>::empty(),
            p.script == script,
            p.used == 0,
            p.fallback == fallback,
    {
        ScriptedProbe { script, used: 0, fallback, log: Vec::new() }
    }
}

impl StabilityProbe for ScriptedProbe {
    open spec fn outcomes(&self) -> Seq<Option<Measurement>> {
        self.log@
    }

    fn probe(&mut self) -> (r: Option<Measurement>)
        ensures
            r == (if old(self).used < old(self).script@.len() {
                old(self).script@[old(self).used as int]
            } else {
                Some(old(self).fallback)
            }),
            final(self).script == old(self).script,
            final(self).fallback == old(self).fallback,
            final(self).used == (if old(self).used < old(self).script@.len() {
                old(self).used + 1
            } else {
                old(self).used as int
            }),
    {
        let r: Option<Measurement> = if self.used < self.script.len() {
            let v = self.script[self.used];
            self.used = self.used + 1;
            v
        } else {
            Some(self.fallback)
        };
        self.log.push(r);
        r
    }
}

/// A sink that keeps the records it is handed in memory, in order.
pub struct VecSink {
    /// Every record received, oldest first.
    pub items: Vec<Record>,
}

impl VecSink {
    /// A fresh, empty sink.
    pub fn new() -> (s: VecSink)
        ensures
            s.rows() == Seq::<Record>::empty(),
    {
        VecSink { items: Vec::new() }
    }
}

impl RecordSink for VecSink {
    open spec fn rows(&self) -> Seq<Record> {
        self.items@
    }

    fn put(&mut self, rec: &Record) {
        self.items.push(*rec);
    }
}

} // verus!
