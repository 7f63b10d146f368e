//! Bus performance statistics computed from simulation traces.
//!
//! The library turns the per-cycle state of a bus into statistics
//! (counts of busy/free/... cycles, burst lengths, delays between
//! transactions, command-to-completion latencies) and decides, from
//! trigger activation times, in which time intervals an analyzer works.
use vstd::prelude::*;

pub mod analyzer;
pub mod axi;
pub mod axi_config;
pub mod bus;
pub mod bus_usage;
pub mod config;
pub mod config_triggers;
pub mod data_file;
pub mod control;
pub mod fsm;
pub mod graph;
pub mod run;
pub mod schedule;
pub mod show;
pub mod signal;
pub mod sources;
pub mod text;
pub mod trigger;
pub mod yaml;

verus! {

/// State in which a bus was in during a clock cycle.
///
/// | busperf        | busy                  | free               | no transaction     | backpressure      |  no data        | unknown        |
/// |----------------|-----------------------|--------------------|--------------------|-------------------|-----------------|----------------|
/// | axi            | ready && valid        | !ready && !valid   | not used           | !ready && valid   | ready && !valid | no used        |
/// | ahb            | seq / no seq          | idle               | not used           | hready            | trans=BUSY      | other          |
/// | credit valid   | credit>0 && valid     | credit>0 && !valid | credit=0 && !valid | not used          | not used        | other          |
/// | apb            | setup or access phase | !psel              | not used           | access && !pready | not used        | other          |
#[derive(Clone, Copy, PartialEq, Eq, Debug, Structural)]
pub enum CycleType {
    Busy,
    Free,
    NoTransaction,
    Backpressure,
    NoData,
    Reset,
    Unknown,
}

/// Number of clock cycles.
pub type CyclesNum = i32;

/// Waveform scope path for a signal.
#[derive(Debug)]
pub struct SignalPath {
    pub scope: Vec<String>,
    pub name: String,
}

impl SignalPath {
    /// The path as a sequence of scope names followed by the signal name.
    pub open spec fn full_path(&self) -> Seq<Seq<char>> {
        self.scope@.map_values(|s: String| s@).push(self.name@)
    }

    /// Tells whether two paths name the same signal.
    pub fn same_as(&self, other: &SignalPath) -> (r: bool)
        ensures
            r == (self.full_path() == other.full_path()),
    {
        if self.scope.len() != other.scope.len() {
            assert(self.full_path().len() != other.full_path().len());
            return false;
        }
        let mut i: usize = 0;
        while i < self.scope.len()
            invariant
                i <= self.scope@.len(),
                self.scope@.len() == other.scope@.len(),
                forall|j: int| 0 <= j < i ==> self.scope@[j]@ == other.scope@[j]@,
            decreases self.scope@.len() - i,
        {
            if !crate::text::str_eq(self.scope[i].as_str(), other.scope[i].as_str()) {
                assert(self.full_path()[i as int] != other.full_path()[i as int]);
                return false;
            }
            i = i + 1;
        }
        let r = crate::text::str_eq(self.name.as_str(), other.name.as_str());
        if r {
            assert(self.full_path() =~= other.full_path());
        } else {
            assert(self.full_path().last() != other.full_path().last());
        }
        r
    }

    /// Makes an equal copy of the path.
    pub fn duplicate(&self) -> (r: SignalPath)
        ensures
            r.full_path() == self.full_path(),
            r.scope@.len() == self.scope@.len(),
            forall|i: int| 0 <= i < r.scope@.len() ==> r.scope@[i]@ == self.scope@[i]@,
            r.name@ == self.name@,
    {
        let mut scope: Vec<String> = Vec::new();
        let mut i: usize = 0;
        while i < self.scope.len()
            invariant
                i <= self.scope@.len(),
                scope@.len() == i,
                forall|j: int| 0 <= j < i ==> scope@[j]@ == self.scope@[j]@,
            decreases self.scope@.len() - i,
        {
            scope.push(self.scope[i].clone());
            i = i + 1;
        }
        let r = SignalPath { scope, name: self.name.clone() };
        assert(r.full_path() =~= self.full_path());
        r
    }
}

/// Waveform timescale: time unit is `factor * 10^order` seconds.
#[derive(Debug, Clone, Copy, PartialEq, Eq, Structural)]
pub struct Timescale {
    pub factor: u32,
    pub order: i8,
}

} // verus!
