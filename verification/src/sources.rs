//! Trigger sources that an analyzer provides: triggers on the value of a bus signal,
//! on the state of the bus, on the transactions it found, and their combinations.
use vstd::prelude::*;
use vstd::string::StringExecFns;
use crate::{CycleType, SignalPath};
use crate::bus::{arity, lockstep_cycle, LockstepAnalyzer};
use crate::bus_usage::{period_views, BusUsage, Period, PeriodView};
use crate::signal::{
    get_two_state_number, rising_edges_spec, two_state_number, value_before_spec, Change, Signal,
    SignalValue, TimeTable,
};
use crate::trigger::{
    all_ascending, all_strictly_ascending, ascending, copy_times, count_in_lists, dedup_spec, dedup_times,
    dedup_times_with_count, flatten_times, in_all, in_any, kmerge_times, kmerged, lemma_count_in_all, lemma_dedup,
    lemma_flatten_times, lemma_runs, outcome_view, runs_spec, strictly_ascending, views_of, TriggerName,
    TriggerOutcome,
};

verus! {

/// What to do with a clock edge at some time, walking an analyzer's intervals in order.
#[derive(PartialEq, Eq, Structural)]
pub enum Admission {
    /// The time is past the last interval: stop.
    Stop,
    /// The time is before the current interval: skip it.
    Skip,
    /// The time is in the current interval.
    Take,
}

/// Admission of time `t` with interval `k` current, and the interval current after it:
/// past the current interval's end the next interval becomes current (only its start is
/// checked for this time); past the last one the walk stops.
pub open spec fn admission_spec(intervals: Seq<[u64; 2]>, k: int, t: u64) -> (Admission, int) {
    if t > intervals[k][1] {
        if k + 1 < intervals.len() {
            (if t < intervals[k + 1][0] { Admission::Skip } else { Admission::Take }, k + 1)
        } else {
            (Admission::Stop, k)
        }
    } else {
        (if t < intervals[k][0] { Admission::Skip } else { Admission::Take }, k)
    }
}

/// Admission of time `t` with interval `k` current, and the interval current after it.
pub fn admission(intervals: &Vec<[u64; 2]>, k: usize, t: u64) -> (r: (Admission, usize))
    requires
        k < intervals@.len(),
    ensures
        (r.0, r.1 as int) == admission_spec(intervals@, k as int, t),
        r.1 < intervals@.len(),
{
    if t > intervals[k][1] {
        if k < intervals.len() - 1 {
            (if t < intervals[k + 1][0] { Admission::Skip } else { Admission::Take }, k + 1)
        } else {
            (Admission::Stop, k)
        }
    } else {
        (if t < intervals[k][0] { Admission::Skip } else { Admission::Take }, k)
    }
}

/// The loaded signals are well formed and all their changes are at indices of the time table.
pub open spec fn trace_ok(loaded: Seq<(SignalPath, Signal)>, tt: Seq<u64>) -> bool {
    forall|i: int| 0 <= i < loaded.len() ==> (#[trigger] loaded[i]).1.wf() && forall|j: int|
        0 <= j < loaded[i].1.changes@.len() ==> (#[trigger] loaded[i].1.changes@[j]).0 < tt.len()
}

/// Tells whether the loaded signals are well formed and all their changes are at indices
/// of the time table.
pub fn trace_fits(loaded: &Vec<(SignalPath, Signal)>, tt: &TimeTable) -> (r: bool)
    ensures
        r == trace_ok(loaded@, tt@),
{
    let n = tt.len();
    let mut i: usize = 0;
    while i < loaded.len()
        invariant
            i <= loaded@.len(),
            n == tt@.len(),
            forall|q: int| 0 <= q < i ==> (#[trigger] loaded@[q]).1.wf() && forall|j: int|
                0 <= j < loaded@[q].1.changes@.len() ==> (#[trigger] loaded@[q].1.changes@[j]).0 < tt@.len(),
        decreases loaded@.len() - i,
    {
        let c = &loaded[i].1.changes;
        let mut j: usize = 0;
        while j < c.len()
            invariant
                j <= c@.len(),
                *c == loaded@[i as int].1.changes,
                i < loaded@.len(),
                n == tt@.len(),
                forall|a: int| 0 <= a < j ==> (#[trigger] c@[a]).0 < n,
                forall|a: int, b: int| 0 <= a <= b < j ==> c@[a].0 <= c@[b].0,
            decreases c@.len() - j,
        {
            if c[j].0 as usize >= n {
                assert(loaded@[i as int].1.changes@[j as int].0 >= tt@.len());
                return false;
            }
            if j > 0 && c[j - 1].0 > c[j].0 {
                assert(!loaded@[i as int].1.wf());
                return false;
            }
            j = j + 1;
        }
        i = i + 1;
    }
    true
}

/// Index of the first loaded signal with the given path.
pub open spec fn find_loaded(loaded: Seq<(SignalPath, Signal)>, path: SignalPath) -> Option<int>
    decreases loaded.len(),
{
    if loaded.len() == 0 {
        None
    } else {
        match find_loaded(loaded.drop_last(), path) {
            Some(i) => Some(i),
            None => if loaded.last().0.full_path() == path.full_path() {
                Some(loaded.len() - 1)
            } else {
                None
            },
        }
    }
}

proof fn lemma_find_loaded_range(loaded: Seq<(SignalPath, Signal)>, path: SignalPath)
    ensures
        find_loaded(loaded, path) matches Some(i) ==> 0 <= i < loaded.len(),
    decreases loaded.len(),
{
    if loaded.len() > 0 {
        lemma_find_loaded_range(loaded.drop_last(), path);
    }
}

/// Index of the first loaded signal with the given path.
pub fn find_signal(loaded: &Vec<(SignalPath, Signal)>, path: &SignalPath) -> (r: Option<usize>)
    ensures
        r matches Some(i) ==> find_loaded(loaded@, *path) == Some(i as int) && i < loaded@.len(),
        r is None ==> find_loaded(loaded@, *path) is None,
{
    let mut i: usize = 0;
    while i < loaded.len()
        invariant
            i <= loaded@.len(),
            find_loaded(loaded@.take(i as int), *path) is None,
        decreases loaded@.len() - i,
    {
        assert(loaded@.take(i + 1).drop_last() =~= loaded@.take(i as int));
        if loaded[i].0.same_as(path) {
            proof {
                lemma_find_loaded_prefix(loaded@, *path, i as int + 1);
            }
            return Some(i);
        }
        i = i + 1;
    }
    assert(loaded@.take(i as int) =~= loaded@);
    None
}

proof fn lemma_find_loaded_prefix(loaded: Seq<(SignalPath, Signal)>, path: SignalPath, k: int)
    requires
        0 < k <= loaded.len(),
        find_loaded(loaded.take(k - 1), path) is None,
        loaded[k - 1].0.full_path() == path.full_path(),
    ensures
        find_loaded(loaded, path) == Some(k - 1),
    decreases loaded.len() - k,
{
    assert(loaded.take(k).drop_last() =~= loaded.take(k - 1));
    if k < loaded.len() {
        assert(loaded.take(k + 1).take(k) =~= loaded.take(k));
        lemma_find_loaded_prefix_extend(loaded, path, k, k - 1);
    } else {
        assert(loaded.take(k) =~= loaded);
    }
}

proof fn lemma_find_loaded_prefix_extend(loaded: Seq<(SignalPath, Signal)>, path: SignalPath, k: int, i: int)
    requires
        0 < k <= loaded.len(),
        find_loaded(loaded.take(k), path) == Some(i),
    ensures
        find_loaded(loaded, path) == Some(i),
    decreases loaded.len() - k,
{
    if k < loaded.len() {
        assert(loaded.take(k + 1).drop_last() =~= loaded.take(k));
        lemma_find_loaded_prefix_extend(loaded, path, k + 1, i);
    } else {
        assert(loaded.take(k) =~= loaded);
    }
}

/// A mask over the bits of a signal and the value those bits must have.
pub struct BitFilter {
    pub mask: i64,
    pub value: i64,
}

/// Bit patterns that a signal value must all match.
pub struct BitMatch {
    pub filter: Vec<BitFilter>,
}

/// `v` matches every filter: its bits under the mask equal the filter's value.
pub open spec fn bits_match(filter: Seq<BitFilter>, v: i64) -> bool {
    forall|i: int| 0 <= i < filter.len() ==> v & (#[trigger] filter[i]).mask == filter[i].value
}

/// The signal value is a two-state bit vector of at most 64 bits that matches every filter.
pub open spec fn value_matches(filter: Seq<BitFilter>, v: SignalValue) -> bool {
    match two_state_number(v) {
        Some(n) => bits_match(filter, n),
        None => false,
    }
}

impl BitMatch {
    /// Tells whether `signal_value` matches every filter.
    pub fn matches(&self, signal_value: i64) -> (r: bool)
        ensures
            r == bits_match(self.filter@, signal_value),
    {
        let mut i: usize = 0;
        while i < self.filter.len()
            invariant
                i <= self.filter@.len(),
                forall|j: int| 0 <= j < i ==> signal_value & (#[trigger] self.filter@[j]).mask == self.filter@[j].value,
            decreases self.filter@.len() - i,
        {
            let f = &self.filter[i];
            if signal_value & f.mask != f.value {
                return false;
            }
            i = i + 1;
        }
        true
    }

    /// Tells whether a signal value is a two-state bit vector of at most 64 bits whose
    /// number matches every filter.
    pub fn compare_with_value(&self, signal: &SignalValue) -> (r: bool)
        ensures
            r == value_matches(self.filter@, *signal),
    {
        match get_two_state_number(signal) {
            Some(n) => self.matches(n),
            None => false,
        }
    }
}

/// `r` with `prefix` put before its times.
pub open spec fn prepend(prefix: Seq<u64>, r: Result<Seq<u64>, Seq<char>>) -> Result<Seq<u64>, Seq<char>> {
    match r {
        Ok(s) => Ok(prefix + s),
        Err(e) => Err(e),
    }
}

/// Activation times of a signal trigger from clock edge `i` on, with interval `k` current.
pub open spec fn signal_trigger_rec(
    edges: Seq<u32>,
    i: int,
    k: int,
    sig: Seq<Change>,
    intervals: Seq<[u64; 2]>,
    tt: Seq<u64>,
    filter: Seq<BitFilter>,
) -> Result<Seq<u64>, Seq<char>>
    decreases edges.len() - i,
{
    if i < 0 || i >= edges.len() {
        Ok(Seq::empty())
    } else {
        let t = tt[edges[i] as int];
        let (a, k2) = admission_spec(intervals, k, t);
        match a {
            Admission::Stop => Ok(Seq::empty()),
            Admission::Skip => signal_trigger_rec(edges, i + 1, k2, sig, intervals, tt, filter),
            Admission::Take => match value_before_spec(sig, edges[i]) {
                None => Err("signal has no value at"@),
                Some(v) => prepend(
                    if value_matches(filter, v) { seq![t] } else { Seq::empty() },
                    signal_trigger_rec(edges, i + 1, k2, sig, intervals, tt, filter),
                ),
            },
        }
    }
}

/// A trigger that activates at each rising clock edge, within the analyzer's intervals,
/// at which a signal matches a bit pattern.
pub struct SignalTrigger {
    pub name: String,
    pub clk_path: SignalPath,
    pub signal: SignalPath,
    pub bit_match: BitMatch,
}

impl SignalTrigger {
    /// Outcome of the trigger over a trace.
    pub open spec fn outcome(&self, loaded: Seq<(SignalPath, Signal)>, intervals: Seq<[u64; 2]>, tt: Seq<u64>) -> Result<Seq<u64>, Seq<char>> {
        match (find_loaded(loaded, self.clk_path), find_loaded(loaded, self.signal)) {
            (Some(c), Some(s)) => if intervals.len() == 0 {
                Ok(Seq::empty())
            } else {
                signal_trigger_rec(
                    rising_edges_spec(loaded[c].1.changes@),
                    0,
                    0,
                    loaded[s].1.changes@,
                    intervals,
                    tt,
                    self.bit_match.filter@,
                )
            },
            _ => Err("signal not loaded"@),
        }
    }

    /// Times of the rising clock edges within the intervals at which the signal's value
    /// just before the edge matches the bit pattern.
    pub fn analyze_internal(&self, loaded: &Vec<(SignalPath, Signal)>, intervals: &Vec<[u64; 2]>, tt: &TimeTable) -> (r: Result<Vec<u64>, String>)
        requires
            trace_ok(loaded@, tt@),
        ensures
            outcome_view(r) == self.outcome(loaded@, intervals@, tt@),
    {
        proof {
            reveal_strlit("signal not loaded");
            reveal_strlit("signal has no value at");
        }
        let c = match find_signal(loaded, &self.clk_path) {
            Some(c) => c,
            None => {
                return Err(String::from_str("signal not loaded"));
            },
        };
        let s = match find_signal(loaded, &self.signal) {
            Some(s) => s,
            None => {
                return Err(String::from_str("signal not loaded"));
            },
        };
        if intervals.len() == 0 {
            let r: Vec<u64> = Vec::new();
            assert(r@ =~= Seq::<u64>::empty());
            return Ok(r);
        }
        let clk = &loaded[c].1;
        let sig = &loaded[s].1;
        let edges = clk.rising_edges();
        proof {
            assert(loaded@[c as int].1.wf());
            crate::signal::lemma_rising_edges_bound(clk.changes@, 0, tt@.len() as int);
        }
        let ghost whole = signal_trigger_rec(edges@, 0, 0, sig.changes@, intervals@, tt@, self.bit_match.filter@);
        assert(whole == self.outcome(loaded@, intervals@, tt@));
        let mut out: Vec<u64> = Vec::new();
        let mut k: usize = 0;
        let mut i: usize = 0;
        assert(prepend(out@, whole) == whole) by {
            assert(Seq::<u64>::empty() + Seq::<u64>::empty() =~= Seq::<u64>::empty());
            if whole is Ok {
                assert(Seq::<u64>::empty() + whole->Ok_0 =~= whole->Ok_0);
            }
        }
        while i < edges.len()
            invariant
                i <= edges@.len(),
                k < intervals@.len(),
                sig.wf(),
                forall|q: int| 0 <= q < edges@.len() ==> edges@[q] < tt@.len(),
                whole == self.outcome(loaded@, intervals@, tt@),
                whole == prepend(out@, signal_trigger_rec(edges@, i as int, k as int, sig.changes@, intervals@, tt@, self.bit_match.filter@)),
            decreases edges@.len() - i,
        {
            let t = tt.at(edges[i] as usize);
            let (a, k2) = admission(intervals, k, t);
            match a {
                Admission::Stop => {
                    assert(out@ + Seq::<u64>::empty() =~= out@);
                    return Ok(out);
                },
                Admission::Skip => {},
                Admission::Take => {
                    match sig.value_before(edges[i]) {
                        None => {
                            return Err(String::from_str("signal has no value at"));
                        },
                        Some(v) => {
                            let ghost before = out@;
                            let ghost rest = signal_trigger_rec(edges@, i + 1, k2 as int, sig.changes@, intervals@, tt@, self.bit_match.filter@);
                            if self.bit_match.compare_with_value(v) {
                                out.push(t);
                                proof {
                                    if rest is Ok {
                                        assert(before + (seq![t] + rest->Ok_0) =~= out@ + rest->Ok_0);
                                    }
                                }
                            } else {
                                proof {
                                    if rest is Ok {
                                        assert(before + (Seq::<u64>::empty() + rest->Ok_0) =~= out@ + rest->Ok_0);
                                    }
                                }
                            }
                        },
                    }
                },
            }
            k = k2;
            i = i + 1;
        }
        assert(out@ + Seq::<u64>::empty() =~= out@);
        Ok(out)
    }
}

/// The values of the signals set by their last changes before time `t`, when all have one.
pub open spec fn values_before(sigs: Seq<Seq<Change>>, t: u32) -> Option<Seq<SignalValue>>
    decreases sigs.len(),
{
    if sigs.len() == 0 {
        Some(Seq::empty())
    } else {
        match (values_before(sigs.drop_last(), t), value_before_spec(sigs.last(), t)) {
            (Some(vs), Some(v)) => Some(vs.push(v)),
            _ => None,
        }
    }
}

/// The time is in one of the intervals (ends included).
pub open spec fn in_some_interval(intervals: Seq<[u64; 2]>, t: u64) -> bool {
    exists|i: int| 0 <= i < intervals.len() && (#[trigger] intervals[i])[0] <= t && t <= intervals[i][1]
}

/// What a bus state trigger reads at a clock edge at time table index `e`: the times it
/// activates at (none or `e`'s time), or why it fails; and the state of the bus's rule after it.
pub open spec fn channel_edge_spec(
    e: u32,
    sigs: Seq<Seq<Change>>,
    intervals: Seq<[u64; 2]>,
    tt: Seq<u64>,
    a: LockstepAnalyzer,
    ty: CycleType,
) -> (Result<Seq<u64>, Seq<char>>, LockstepAnalyzer) {
    match values_before(sigs, e) {
        None => (Err("missing value"@), a),
        Some(vals) => {
            let t = tt[e as int];
            if in_some_interval(intervals, t) {
                if !a.can_interpret(vals) {
                    (Err("credit counter overflow"@), a)
                } else {
                    let (ct, a2) = lockstep_cycle(a, vals);
                    (Ok(if ct == ty { seq![t] } else { Seq::empty() }), a2)
                }
            } else {
                (Ok(Seq::empty()), a)
            }
        },
    }
}

/// Activation times of a bus state trigger from clock edge `i` on, and the state of the
/// bus's rule after them.
pub open spec fn channel_trigger_rec(
    edges: Seq<u32>,
    i: int,
    sigs: Seq<Seq<Change>>,
    intervals: Seq<[u64; 2]>,
    tt: Seq<u64>,
    a: LockstepAnalyzer,
    ty: CycleType,
) -> (Result<Seq<u64>, Seq<char>>, LockstepAnalyzer)
    decreases edges.len() - i,
{
    if i < 0 || i >= edges.len() {
        (Ok(Seq::empty()), a)
    } else {
        match channel_edge_spec(edges[i], sigs, intervals, tt, a, ty) {
            (Err(e), a2) => (Err(e), a2),
            (Ok(p), a2) => {
                let (rest, a3) = channel_trigger_rec(edges, i + 1, sigs, intervals, tt, a2, ty);
                (prepend(p, rest), a3)
            },
        }
    }
}

/// The changes of the bus signals (all loaded signals after the clock and the reset).
pub open spec fn bus_signal_changes(loaded: Seq<(SignalPath, Signal)>) -> Seq<Seq<Change>> {
    loaded.skip(2).map_values(|l: (SignalPath, Signal)| l.1.changes@)
}

/// A trigger that activates at each rising clock edge, within the analyzer's intervals,
/// at which the bus is in a given state.
pub struct ChannelTrigger {
    pub name: String,
    pub type_: CycleType,
}

fn values_before_all(loaded: &Vec<(SignalPath, Signal)>, t: u32) -> (r: Option<Vec<SignalValue>>)
    requires
        loaded@.len() >= 2,
        forall|i: int| 0 <= i < loaded@.len() ==> (#[trigger] loaded@[i]).1.wf(),
    ensures
        r matches Some(v) ==> values_before(bus_signal_changes(loaded@), t) is Some && same_values(
            v@,
            values_before(bus_signal_changes(loaded@), t)->Some_0,
        ),
        r is None ==> values_before(bus_signal_changes(loaded@), t) is None,
{
    let ghost sigs = bus_signal_changes(loaded@);
    let mut vals: Vec<SignalValue> = Vec::new();
    let mut i: usize = 2;
    while i < loaded.len()
        invariant
            2 <= i <= loaded@.len(),
            sigs == bus_signal_changes(loaded@),
            sigs.len() == loaded@.len() - 2,
            forall|q: int| 0 <= q < loaded@.len() ==> (#[trigger] loaded@[q]).1.wf(),
            values_before(sigs.take(i - 2), t) is Some,
            same_values(vals@, values_before(sigs.take(i - 2), t)->Some_0),
        decreases loaded@.len() - i,
    {
        assert(sigs.take(i - 1).drop_last() =~= sigs.take(i - 2));
        assert(sigs.take(i - 1).last() == loaded@[i as int].1.changes@);
        match loaded[i].1.value_before(t) {
            Some(v) => {
                let ghost before = vals@;
                vals.push(clone_value(v));
                assert(same_values(vals@, values_before(sigs.take(i - 1), t)->Some_0)) by {
                    let w = values_before(sigs.take(i - 1), t)->Some_0;
                    assert forall|q: int| 0 <= q < vals@.len() implies same_value(#[trigger] vals@[q], w[q]) by {
                        if q < before.len() {
                            assert(vals@[q] == before[q]);
                        }
                    }
                }
            },
            None => {
                proof {
                    lemma_values_before_none(sigs, t, i - 1);
                }
                return None;
            },
        }
        i = i + 1;
    }
    assert(sigs.take(i - 2) =~= sigs);
    assert(sigs.take(0) =~= Seq::<Seq<Change>>::empty());
    Some(vals)
}

proof fn lemma_values_before_none(sigs: Seq<Seq<Change>>, t: u32, k: int)
    requires
        0 < k <= sigs.len(),
        values_before(sigs.take(k), t) is None,
    ensures
        values_before(sigs, t) is None,
    decreases sigs.len() - k,
{
    if k < sigs.len() {
        assert(sigs.take(k + 1).drop_last() =~= sigs.take(k));
        lemma_values_before_none(sigs, t, k + 1);
    } else {
        assert(sigs.take(k) =~= sigs);
    }
}

/// Two signal values hold the same thing.
pub open spec fn same_value(a: SignalValue, b: SignalValue) -> bool {
    match (a, b) {
        (SignalValue::BitVec(x), SignalValue::BitVec(y)) => x.two_state == y.two_state && x.bits@ == y.bits@,
        (SignalValue::Text(x), SignalValue::Text(y)) => x@ == y@,
        (SignalValue::Event, SignalValue::Event) => true,
        (SignalValue::Real, SignalValue::Real) => true,
        _ => false,
    }
}

/// Two lists of signal values hold the same things.
pub open spec fn same_values(a: Seq<SignalValue>, b: Seq<SignalValue>) -> bool {
    a.len() == b.len() && forall|i: int| 0 <= i < a.len() ==> same_value(#[trigger] a[i], b[i])
}

pub proof fn lemma_same_value_reads(a: SignalValue, b: SignalValue)
    requires
        same_value(a, b),
    ensures
        crate::signal::value_of(a) == crate::signal::value_of(b),
        crate::signal::single_byte(a) == crate::signal::single_byte(b),
        crate::bus::is_two_state_vec(a) == crate::bus::is_two_state_vec(b),
{
}

/// The bus's rule reads the same from lists of values that hold the same things.
pub proof fn lemma_lockstep_same(a: LockstepAnalyzer, s1: Seq<SignalValue>, s2: Seq<SignalValue>)
    requires
        same_values(s1, s2),
        s1.len() >= arity(a),
    ensures
        lockstep_cycle(a, s1) == lockstep_cycle(a, s2),
        a.can_interpret(s1) == a.can_interpret(s2),
{
    lemma_same_value_reads(s1[0], s2[0]);
    lemma_same_value_reads(s1[1], s2[1]);
    if s1.len() > 2 {
        lemma_same_value_reads(s1[2], s2[2]);
    }
}

/// A copy of a signal value.
pub fn clone_value(v: &SignalValue) -> (r: SignalValue)
    ensures
        same_value(r, *v),
{
    match v {
        SignalValue::Event => SignalValue::Event,
        SignalValue::Real => SignalValue::Real,
        SignalValue::Text(s) => SignalValue::Text(s.clone()),
        SignalValue::BitVec(b) => {
            let mut bits: Vec<u8> = Vec::new();
            let mut i: usize = 0;
            while i < b.bits.len()
                invariant
                    i <= b.bits@.len(),
                    bits@ == b.bits@.take(i as int),
                decreases b.bits@.len() - i,
            {
                bits.push(b.bits[i]);
                assert(bits@ =~= b.bits@.take(i + 1));
                i = i + 1;
            }
            assert(b.bits@.take(b.bits@.len() as int) =~= b.bits@);
            SignalValue::BitVec(crate::signal::BitVecValue { two_state: b.two_state, bits })
        },
    }
}

impl ChannelTrigger {
    pub fn new(name: String, type_: CycleType) -> (r: Self)
        ensures
            r == (ChannelTrigger { name, type_ }),
    {
        ChannelTrigger { name, type_ }
    }

    /// Outcome of the trigger over a trace, with the state of the bus's rule after it.
    pub open spec fn outcome(
        &self,
        loaded: Seq<(SignalPath, Signal)>,
        intervals: Seq<[u64; 2]>,
        tt: Seq<u64>,
        a: LockstepAnalyzer,
    ) -> (Result<Seq<u64>, Seq<char>>, LockstepAnalyzer) {
        channel_trigger_rec(
            rising_edges_spec(loaded[0].1.changes@),
            0,
            bus_signal_changes(loaded),
            intervals,
            tt,
            a,
            self.type_,
        )
    }

    /// Times of the rising clock edges within the intervals at which the bus's rule,
    /// given the bus signals' values just before the edge, finds the bus in this
    /// trigger's state. The rule's state carries over from cycle to cycle.
    pub fn analyze_internal(
        &self,
        analyzer: &mut LockstepAnalyzer,
        loaded: &Vec<(SignalPath, Signal)>,
        intervals: &Vec<[u64; 2]>,
        tt: &TimeTable,
    ) -> (r: Result<Vec<u64>, String>)
        requires
            trace_ok(loaded@, tt@),
            loaded@.len() >= 2 + arity(*old(analyzer)),
            arity(*old(analyzer)) >= 2,
        ensures
            (outcome_view(r), *final(analyzer)) == self.outcome(loaded@, intervals@, tt@, *old(analyzer)),
    {
        proof {
            reveal_strlit("missing value");
            reveal_strlit("credit counter overflow");
        }
        let ghost sigs = bus_signal_changes(loaded@);
        let ghost a0 = *analyzer;
        let clk = &loaded[0].1;
        let edges = clk.rising_edges();
        proof {
            assert(loaded@[0].1.wf());
            crate::signal::lemma_rising_edges_bound(clk.changes@, 0, tt@.len() as int);
        }
        let ghost whole = channel_trigger_rec(edges@, 0, sigs, intervals@, tt@, a0, self.type_);
        assert(whole == self.outcome(loaded@, intervals@, tt@, a0));
        let mut out: Vec<u64> = Vec::new();
        let mut i: usize = 0;
        proof {
            if whole.0 is Ok {
                assert(Seq::<u64>::empty() + whole.0->Ok_0 =~= whole.0->Ok_0);
            }
        }
        let mut failure: Option<String> = None;
        while i < edges.len() && failure.is_none()
            invariant
                i <= edges@.len(),
                trace_ok(loaded@, tt@),
                loaded@.len() >= 2 + arity(*analyzer),
                arity(*analyzer) == arity(a0),
                arity(a0) >= 2,
                sigs == bus_signal_changes(loaded@),
                forall|q: int| 0 <= q < edges@.len() ==> edges@[q] < tt@.len(),
                whole == self.outcome(loaded@, intervals@, tt@, a0),
                failure matches Some(e) ==> whole == (Err::<Seq<u64>, Seq<char>>(e@), *analyzer),
                failure is None ==> whole.1 == channel_trigger_rec(edges@, i as int, sigs, intervals@, tt@, *analyzer, self.type_).1,
                failure is None ==> whole.0 == prepend(out@, channel_trigger_rec(edges@, i as int, sigs, intervals@, tt@, *analyzer, self.type_).0),
            decreases edges@.len() - i + (if failure is None { 1int } else { 0int }),
        {
            let ghost before = out@;
            let ghost a_before = *analyzer;
            let res = self.edge(analyzer, loaded, intervals, tt, edges[i]);
            match res {
                Err(e) => {
                    proof {
                        let es = channel_edge_spec(edges@[i as int], sigs, intervals@, tt@, a_before, self.type_);
                        assert(es.0 == Err::<Seq<u64>, Seq<char>>(e@));
                        assert(channel_trigger_rec(edges@, i as int, sigs, intervals@, tt@, a_before, self.type_) == (
                        Err::<Seq<u64>, Seq<char>>(e@), *analyzer));
                    }
                    failure = Some(e);
                },
                Ok(hit) => {
                    let ghost p = channel_edge_spec(edges@[i as int], sigs, intervals@, tt@, a_before, self.type_).0->Ok_0;
                    let ghost rest = channel_trigger_rec(edges@, i + 1, sigs, intervals@, tt@, *analyzer, self.type_);
                    match hit {
                        Some(t) => {
                            out.push(t);
                        },
                        None => {},
                    }
                    proof {
                        if rest.0 is Ok {
                            assert(before + (p + rest.0->Ok_0) =~= out@ + rest.0->Ok_0);
                        }
                    }
                    i = i + 1;
                },
            }
        }
        match failure {
            Some(e) => Err(e),
            None => {
                assert(out@ + Seq::<u64>::empty() =~= out@);
                Ok(out)
            },
        }
    }

    /// What the trigger reads at a clock edge at time table index `e`: the edge's time
    /// when the trigger activates at it.
    fn edge(
        &self,
        analyzer: &mut LockstepAnalyzer,
        loaded: &Vec<(SignalPath, Signal)>,
        intervals: &Vec<[u64; 2]>,
        tt: &TimeTable,
        e: u32,
    ) -> (r: Result<Option<u64>, String>)
        requires
            trace_ok(loaded@, tt@),
            loaded@.len() >= 2 + arity(*old(analyzer)),
            e < tt@.len(),
        ensures
            channel_edge_spec(e, bus_signal_changes(loaded@), intervals@, tt@, *old(analyzer), self.type_).1 == *final(analyzer),
            arity(*final(analyzer)) == arity(*old(analyzer)),
            match r {
                Err(m) => channel_edge_spec(e, bus_signal_changes(loaded@), intervals@, tt@, *old(analyzer), self.type_).0 == Err::<Seq<u64>, Seq<char>>(m@),
                Ok(None) => channel_edge_spec(e, bus_signal_changes(loaded@), intervals@, tt@, *old(analyzer), self.type_).0 == Ok::<Seq<u64>, Seq<char>>(Seq::empty()),
                Ok(Some(t)) => channel_edge_spec(e, bus_signal_changes(loaded@), intervals@, tt@, *old(analyzer), self.type_).0 == Ok::<Seq<u64>, Seq<char>>(seq![t]),
            },
    {
        proof {
            reveal_strlit("missing value");
            reveal_strlit("credit counter overflow");
            assert forall|q: int| 0 <= q < loaded@.len() implies (#[trigger] loaded@[q]).1.wf() by {
                assert(loaded@[q].1.wf());
            }
        }
        let ghost sigs = bus_signal_changes(loaded@);
        let vals = match values_before_all(loaded, e) {
            Some(v) => v,
            None => {
                return Err(String::from_str("missing value"));
            },
        };
        let t = tt.at(e as usize);
        let mut inside = false;
        let mut j: usize = 0;
        while j < intervals.len()
            invariant
                j <= intervals@.len(),
                inside == exists|q: int| 0 <= q < j && (#[trigger] intervals@[q])[0] <= t && t <= intervals@[q][1],
            decreases intervals@.len() - j,
        {
            if intervals[j][0] <= t && t <= intervals[j][1] {
                inside = true;
            }
            j = j + 1;
        }
        if !inside {
            return Ok(None);
        }
        assert(vals@.len() == loaded@.len() - 2) by {
            lemma_values_before_len(sigs, e);
        }
        proof {
            lemma_lockstep_same(*analyzer, vals@, values_before(sigs, e)->Some_0);
            lemma_arity_kept(*analyzer, vals@);
        }
        if !analyzer.ready_for_cycle(&vals) {
            return Err(String::from_str("credit counter overflow"));
        }
        let ct = analyzer.interpret_cycle(&vals);
        if ct == self.type_ {
            Ok(Some(t))
        } else {
            Ok(None)
        }
    }
}

proof fn lemma_values_before_len(sigs: Seq<Seq<Change>>, t: u32)
    ensures
        values_before(sigs, t) matches Some(v) ==> v.len() == sigs.len(),
    decreases sigs.len(),
{
    if sigs.len() > 0 {
        lemma_values_before_len(sigs.drop_last(), t);
    }
}

proof fn lemma_arity_kept(a: LockstepAnalyzer, s: Seq<SignalValue>)
    ensures
        arity(lockstep_cycle(a, s).1) == arity(a),
{
}

/// Which moment of each transaction a transaction trigger activates at.
#[derive(PartialEq, Eq, Structural, Clone, Copy)]
pub enum TransactionMoment {
    Start,
    End,
}

/// A trigger that activates at the start or at the end of each transaction the analyzer found
/// (of each burst, for a single channel bus).
pub struct TransactionTrigger {
    pub name: String,
    pub moment: TransactionMoment,
}

/// Starts or ends of periods.
pub open spec fn period_times(p: Seq<PeriodView>, m: TransactionMoment) -> Seq<u64> {
    p.map_values(|x: PeriodView| if m == TransactionMoment::Start { x.start } else { x.end })
}

/// Outcome of a transaction trigger, given the analyzer's result.
pub open spec fn transaction_outcome(m: TransactionMoment, usage: Result<BusUsage, String>) -> Result<Seq<u64>, Seq<char>> {
    match usage {
        Err(e) => Err("required analyzer failed "@ + e@),
        Ok(BusUsage::SingleChannel(u)) => Ok(period_times(u@.burst_lengths, m)),
        Ok(BusUsage::MultiChannel(u)) => Ok(period_times(u@.cmd_to_completion, m)),
    }
}

fn times_of_periods(p: &Vec<Period>, m: TransactionMoment) -> (r: Vec<u64>)
    ensures
        r@ == period_times(crate::bus_usage::period_views(p@), m),
{
    let mut r: Vec<u64> = Vec::new();
    let mut i: usize = 0;
    while i < p.len()
        invariant
            i <= p@.len(),
            r@ == period_times(crate::bus_usage::period_views(p@), m).take(i as int),
        decreases p@.len() - i,
    {
        let t = if m == TransactionMoment::Start { p[i].start() } else { p[i].end() };
        r.push(t);
        assert(r@ =~= period_times(crate::bus_usage::period_views(p@), m).take(i + 1));
        i = i + 1;
    }
    assert(period_times(crate::bus_usage::period_views(p@), m).take(i as int) =~= period_times(crate::bus_usage::period_views(p@), m));
    r
}

impl TransactionTrigger {
    pub fn new(name: String, moment: TransactionMoment) -> (r: Self)
        ensures
            r == (TransactionTrigger { name, moment }),
    {
        TransactionTrigger { name, moment }
    }

    /// Start or end times of the transactions the analyzer found; a failure when the
    /// analyzer failed.
    pub fn analyze(&self, bus_usage: &Result<BusUsage, String>) -> (r: TriggerOutcome)
        ensures
            outcome_view(r) == transaction_outcome(self.moment, *bus_usage),
    {
        match bus_usage {
            Err(e) => {
                proof {
                    reveal_strlit("required analyzer failed ");
                }
                let mut m = String::from_str("required analyzer failed ");
                m.append(e.as_str());
                Err(m)
            },
            Ok(BusUsage::SingleChannel(u)) => Ok(times_of_periods(u.get_bursts_start_end(), self.moment)),
            Ok(BusUsage::MultiChannel(u)) => Ok(times_of_periods(u.get_transactions_start_end(), self.moment)),
        }
    }
}

/// A trigger whose activation times a plugin reports.
pub struct PythonTrigger {
    pub result: (TriggerName, TriggerOutcome),
}

impl PythonTrigger {
    /// A trigger whose plugin has not reported its times: it fails unless they are reported.
    pub fn new(name: String) -> (r: Self)
        ensures
            r.result.0 == name,
            outcome_view(r.result.1) == Err::<Seq<u64>, Seq<char>>(
                "plugin defined a trigger but did not return its activation times"@,
            ),
    {
        proof {
            reveal_strlit("plugin defined a trigger but did not return its activation times");
        }
        PythonTrigger {
            result: (name, Err(String::from_str("plugin defined a trigger but did not return its activation times"))),
        }
    }

    /// A trigger with no activation time yet.
    pub fn new_empty(name: String) -> (r: Self)
        ensures
            r.result.0 == name,
            outcome_view(r.result.1) == Ok::<Seq<u64>, Seq<char>>(Seq::empty()),
    {
        let v: Vec<u64> = Vec::new();
        assert(v@ =~= Seq::<u64>::empty());
        PythonTrigger { result: (name, Ok(v)) }
    }

    /// Adds an activation time; a trigger that had failed now has this time only.
    pub fn add_time(&mut self, time: u64)
        ensures
            final(self).result.0 == old(self).result.0,
            outcome_view(final(self).result.1) == Ok::<Seq<u64>, Seq<char>>(match outcome_view(old(self).result.1) {
                Ok(v) => v.push(time),
                Err(_) => seq![time],
            }),
    {
        match &mut self.result.1 {
            Ok(times) => {
                times.push(time);
            },
            Err(_) => {
                let v = vec![time];
                assert(v@ =~= seq![time]);
                self.result.1 = Ok(v);
            },
        }
    }

    /// Sets the activation times.
    pub fn set_result(&mut self, times: Vec<u64>)
        ensures
            final(self).result.0 == old(self).result.0,
            outcome_view(final(self).result.1) == Ok::<Seq<u64>, Seq<char>>(times@),
    {
        self.result.1 = Ok(times);
    }

    /// Name of the trigger.
    pub fn name(&self) -> (r: &str)
        ensures
            r@ == self.result.0@,
    {
        self.result.0.as_str()
    }
}

/// A copy of a trigger outcome.
pub fn copy_outcome(o: &TriggerOutcome) -> (r: TriggerOutcome)
    ensures
        outcome_view(r) == outcome_view(*o),
{
    match o {
        Ok(v) => Ok(copy_times(v)),
        Err(e) => Err(e.clone()),
    }
}

/// How a combination of trigger sources joins its parts' times.
#[derive(PartialEq, Eq, Structural, Clone, Copy, Debug)]
pub enum CombinationType {
    /// At any part's times.
    Any,
    /// At the times at which every part activates.
    All,
}

/// Times that come in runs of `num` equal times.
pub open spec fn runs_of(runs: Seq<(usize, u64)>, num: nat) -> Seq<u64>
    decreases runs.len(),
{
    if runs.len() == 0 {
        Seq::empty()
    } else if runs.last().0 == num {
        runs_of(runs.drop_last(), num).push(runs.last().1)
    } else {
        runs_of(runs.drop_last(), num)
    }
}

/// Times of a combination from its parts' times: an any-combination activates at the
/// merged times, repetitions dropped; an all-combination at the times that come, merged,
/// in runs as long as the number of parts.
pub open spec fn combine_spec(ty: CombinationType, rs: Seq<Seq<u64>>) -> Seq<u64> {
    combine_merged(ty, rs.len(), kmerged(rs))
}

/// Times of a combination of `num` parts from the parts' times merged.
pub open spec fn combine_merged(ty: CombinationType, num: nat, merged: Seq<u64>) -> Seq<u64> {
    match ty {
        CombinationType::Any => dedup_spec(merged),
        CombinationType::All => runs_of(runs_spec(merged), num),
    }
}

/// The times of the runs counted `num` times are those of such runs; strictly ascending
/// where the runs' times are.
pub proof fn lemma_runs_of(runs: Seq<(usize, u64)>, num: nat)
    ensures
        forall|t: u64| runs_of(runs, num).contains(t) <==> exists|i: int| 0 <= i < runs.len() && (#[trigger] runs[i]).1 == t && runs[i].0 == num,
        (forall|i: int, j: int| 0 <= i < j < runs.len() ==> runs[i].1 < runs[j].1) ==> strictly_ascending(runs_of(runs, num)),
    decreases runs.len(),
{
    if runs.len() > 0 {
        let init = runs.drop_last();
        lemma_runs_of(init, num);
        let p = runs_of(init, num);
        assert forall|t: u64| runs_of(runs, num).contains(t) <==> exists|i: int| 0 <= i < runs.len() && (#[trigger] runs[i]).1 == t && runs[i].0 == num by {
            if runs_of(runs, num).contains(t) {
                let k = choose|k: int| 0 <= k < runs_of(runs, num).len() && runs_of(runs, num)[k] == t;
                if k < p.len() {
                    assert(p[k] == t);
                    assert(p.contains(t));
                    let i = choose|i: int| 0 <= i < init.len() && (#[trigger] init[i]).1 == t && init[i].0 == num;
                    assert(runs[i] == init[i]);
                } else {
                    assert(runs[runs.len() - 1].1 == t);
                }
            }
            if exists|i: int| 0 <= i < runs.len() && (#[trigger] runs[i]).1 == t && runs[i].0 == num {
                let i = choose|i: int| 0 <= i < runs.len() && (#[trigger] runs[i]).1 == t && runs[i].0 == num;
                if i < runs.len() - 1 {
                    assert(init[i] == runs[i]);
                    assert(p.contains(t));
                    let k = choose|k: int| 0 <= k < p.len() && p[k] == t;
                    assert(runs_of(runs, num)[k] == t);
                } else {
                    assert(runs_of(runs, num)[p.len() as int] == t);
                }
            }
        }
        if forall|i: int, j: int| 0 <= i < j < runs.len() ==> runs[i].1 < runs[j].1 {
            assert(forall|i: int, j: int| 0 <= i < j < init.len() ==> init[i].1 < init[j].1) by {
                assert forall|i: int, j: int| 0 <= i < j < init.len() implies init[i].1 < init[j].1 by {
                    assert(init[i] == runs[i] && init[j] == runs[j]);
                }
            }
            assert forall|i: int, j: int| 0 <= i < j < runs_of(runs, num).len() implies runs_of(runs, num)[i] < runs_of(runs, num)[j] by {
                if j == p.len() {
                    assert(p.contains(p[i]));
                    let k = choose|k: int| 0 <= k < init.len() && (#[trigger] init[k]).1 == p[i] && init[k].0 == num;
                    assert(runs[k] == init[k]);
                }
            }
        }
    }
}

/// What combining the parts' times promises: an any-combination holds the times of any part,
/// strictly ascending when each part is ascending; an all-combination of strictly ascending
/// parts holds, strictly ascending, the times that are in every part (none without parts).
pub open spec fn combination_laws(ty: CombinationType, rs: Seq<Seq<u64>>, r: Seq<u64>) -> bool {
    match ty {
        CombinationType::Any => {
            &&& forall|t: u64| r.contains(t) <==> in_any(rs, t)
            &&& all_ascending(rs) ==> strictly_ascending(r)
        },
        CombinationType::All => all_strictly_ascending(rs) ==> {
            &&& strictly_ascending(r)
            &&& forall|t: u64| r.contains(t) <==> (rs.len() > 0 && in_all(rs, t))
        },
    }
}

/// The laws of combining hold of any merge of the parts that keeps their times, in
/// ascending order when every part is ascending.
pub proof fn lemma_combination_laws(ty: CombinationType, rs: Seq<Seq<u64>>, merged: Seq<u64>)
    requires
        merged.to_multiset() == flatten_times(rs).to_multiset(),
        all_ascending(rs) ==> ascending(merged),
        merged.len() <= usize::MAX,
    ensures
        combination_laws(ty, rs, combine_merged(ty, rs.len(), merged)),
{
    broadcast use vstd::seq_lib::group_to_multiset_ensures;
    assert forall|t: u64| merged.contains(t) <==> in_any(rs, t) by {
        lemma_flatten_times(rs, t);
    }
    match ty {
        CombinationType::Any => {
            lemma_dedup(merged);
        },
        CombinationType::All => {
            if all_strictly_ascending(rs) {
                assert(all_ascending(rs)) by {
                    assert forall|i: int| 0 <= i < rs.len() implies ascending(#[trigger] rs[i]) by {
                        assert(strictly_ascending(rs[i]));
                    }
                }
                lemma_runs(merged);
                let runs = runs_spec(merged);
                lemma_runs_of(runs, rs.len() as nat);
                assert forall|t: u64| runs_of(runs, rs.len() as nat).contains(t) <==> (rs.len() > 0 && in_all(rs, t)) by {
                    lemma_flatten_times(rs, t);
                    lemma_count_in_all(rs, t);
                    if runs_of(runs, rs.len() as nat).contains(t) {
                        let i = choose|i: int| 0 <= i < runs.len() && (#[trigger] runs[i]).1 == t && runs[i].0 == rs.len();
                        assert(merged.contains(runs[i].1));
                    }
                    if rs.len() > 0 && in_all(rs, t) {
                        assert(rs[0].contains(t));
                        assert(in_any(rs, t));
                        let i = choose|i: int| 0 <= i < runs.len() && (#[trigger] runs[i]).1 == t;
                    }
                }
            }
        },
    }
}

fn keep_runs(runs: &Vec<(usize, u64)>, num: usize) -> (r: Vec<u64>)
    ensures
        r@ == runs_of(runs@, num as nat),
{
    let mut r: Vec<u64> = Vec::new();
    let mut i: usize = 0;
    while i < runs.len()
        invariant
            i <= runs@.len(),
            r@ == runs_of(runs@.take(i as int), num as nat),
        decreases runs@.len() - i,
    {
        assert(runs@.take(i + 1).drop_last() =~= runs@.take(i as int));
        if runs[i].0 == num {
            r.push(runs[i].1);
        }
        i = i + 1;
    }
    assert(runs@.take(i as int) =~= runs@);
    r
}

/// Trigger sources that an analyzer provides.
pub enum TriggerSource {
    Signal(SignalTrigger),
    Channel(ChannelTrigger),
    Transaction(TransactionTrigger),
    Python(PythonTrigger),
    Combination(TriggerSourceCombination),
}

/// Trigger sources joined into one trigger.
pub struct TriggerSourceCombination {
    pub name: String,
    pub triggers: Vec<TriggerSource>,
    pub combination_type: CombinationType,
}

/// Outcome of a trigger source over a trace, and the state of the bus's rule after it.
pub open spec fn source_outcome(
    src: TriggerSource,
    loaded: Seq<(SignalPath, Signal)>,
    intervals: Seq<[u64; 2]>,
    tt: Seq<u64>,
    usage: Result<BusUsage, String>,
    a: LockstepAnalyzer,
) -> (Result<Seq<u64>, Seq<char>>, LockstepAnalyzer)
    decreases src, 0nat,
{
    match src {
        TriggerSource::Signal(t) => (t.outcome(loaded, intervals, tt), a),
        TriggerSource::Channel(t) => t.outcome(loaded, intervals, tt, a),
        TriggerSource::Transaction(t) => (transaction_outcome(t.moment, usage), a),
        TriggerSource::Python(t) => (outcome_view(t.result.1), a),
        TriggerSource::Combination(c) => match sources_outcome(c.triggers@, c.triggers@.len() as int, loaded, intervals, tt, usage, a) {
            (Ok(rs), a2) => (Ok(combine_spec(c.combination_type, rs)), a2),
            (Err(e), a2) => (Err(e), a2),
        },
    }
}

/// Outcomes of the first `k` trigger sources of a list, analyzed in order until one fails.
pub open spec fn sources_outcome(
    srcs: Seq<TriggerSource>,
    k: int,
    loaded: Seq<(SignalPath, Signal)>,
    intervals: Seq<[u64; 2]>,
    tt: Seq<u64>,
    usage: Result<BusUsage, String>,
    a: LockstepAnalyzer,
) -> (Result<Seq<Seq<u64>>, Seq<char>>, LockstepAnalyzer)
    decreases srcs, 1nat, k,
{
    if k <= 0 || k > srcs.len() {
        (Ok(Seq::empty()), a)
    } else {
        match sources_outcome(srcs, k - 1, loaded, intervals, tt, usage, a) {
            (Err(e), a2) => (Err(e), a2),
            (Ok(rs), a2) => match source_outcome(srcs[k - 1], loaded, intervals, tt, usage, a2) {
                (Ok(r), a3) => (Ok(rs.push(r)), a3),
                (Err(e), a3) => (Err(e), a3),
            },
        }
    }
}

impl TriggerSource {
    /// Name of the trigger.
    pub open spec fn name_view(&self) -> Seq<char> {
        match self {
            TriggerSource::Signal(t) => t.name@,
            TriggerSource::Channel(t) => t.name@,
            TriggerSource::Transaction(t) => t.name@,
            TriggerSource::Python(t) => t.result.0@,
            TriggerSource::Combination(t) => t.name@,
        }
    }

    /// Name of the trigger.
    pub fn name(&self) -> (r: &str)
        ensures
            r@ == self.name_view(),
    {
        match self {
            TriggerSource::Signal(t) => t.name.as_str(),
            TriggerSource::Channel(t) => t.name.as_str(),
            TriggerSource::Transaction(t) => t.name.as_str(),
            TriggerSource::Python(t) => t.name(),
            TriggerSource::Combination(t) => t.name.as_str(),
        }
    }

    /// Activation times of the trigger over a trace, given the analyzer's intervals and
    /// result; the bus's rule keeps its state from cycle to cycle.
    pub fn analyze(
        &self,
        analyzer: &mut LockstepAnalyzer,
        loaded: &Vec<(SignalPath, Signal)>,
        intervals: &Vec<[u64; 2]>,
        tt: &TimeTable,
        bus_usage: &Result<BusUsage, String>,
    ) -> (r: TriggerOutcome)
        requires
            trace_ok(loaded@, tt@),
            loaded@.len() >= 2 + arity(*old(analyzer)),
        ensures
            (outcome_view(r), *final(analyzer)) == source_outcome(*self, loaded@, intervals@, tt@, *bus_usage, *old(analyzer)),
            arity(*final(analyzer)) == arity(*old(analyzer)),
            self matches TriggerSource::Combination(c) ==> match sources_outcome(
                c.triggers@,
                c.triggers@.len() as int,
                loaded@,
                intervals@,
                tt@,
                *bus_usage,
                *old(analyzer),
            ).0 {
                Ok(rs) => outcome_view(r) matches Ok(t) && combination_laws(c.combination_type, rs, t),
                Err(_) => true,
            },
        decreases self, 0nat,
    {
        match self {
            TriggerSource::Signal(t) => t.analyze_internal(loaded, intervals, tt),
            TriggerSource::Channel(t) => {
                proof {
                    lemma_channel_arity(*t, loaded@, intervals@, tt@, *analyzer);
                }
                t.analyze_internal(analyzer, loaded, intervals, tt)
            },
            TriggerSource::Transaction(t) => t.analyze(bus_usage),
            TriggerSource::Python(t) => copy_outcome(&t.result.1),
            TriggerSource::Combination(c) => {
                let num = c.triggers.len();
                match analyze_sources(&c.triggers, analyzer, loaded, intervals, tt, bus_usage) {
                    Err(e) => Err(e),
                    Ok(parts) => {
                        let ghost rs = views_of(parts@);
                        proof {
                            lemma_sources_len(c.triggers@, c.triggers@.len() as int, loaded@, intervals@, tt@, *bus_usage, *old(analyzer));
                        }
                        assert(rs.len() == num);
                        let merged = kmerge_times(parts);
                        proof {
                            assert(merged@.len() == merged.len());
                            lemma_combination_laws(c.combination_type, rs, merged@);
                        }
                        match c.combination_type {
                            CombinationType::Any => Ok(dedup_times(merged)),
                            CombinationType::All => {
                                let runs = dedup_times_with_count(merged);
                                Ok(keep_runs(&runs, num))
                            },
                        }
                    },
                }
            },
        }
    }
}

proof fn lemma_channel_arity(t: ChannelTrigger, loaded: Seq<(SignalPath, Signal)>, intervals: Seq<[u64; 2]>, tt: Seq<u64>, a: LockstepAnalyzer)
    ensures
        arity(t.outcome(loaded, intervals, tt, a).1) == arity(a),
{
    lemma_channel_rec_arity(rising_edges_spec(loaded[0].1.changes@), 0, bus_signal_changes(loaded), intervals, tt, a, t.type_);
}

proof fn lemma_channel_rec_arity(edges: Seq<u32>, i: int, sigs: Seq<Seq<Change>>, intervals: Seq<[u64; 2]>, tt: Seq<u64>, a: LockstepAnalyzer, ty: CycleType)
    ensures
        arity(channel_trigger_rec(edges, i, sigs, intervals, tt, a, ty).1) == arity(a),
    decreases edges.len() - i,
{
    if 0 <= i < edges.len() {
        let (_, a2) = channel_edge_spec(edges[i], sigs, intervals, tt, a, ty);
        assert(arity(a2) == arity(a));
        lemma_channel_rec_arity(edges, i + 1, sigs, intervals, tt, a2, ty);
    }
}

/// Outcomes of trigger sources analyzed in order, or the first failure.
fn analyze_sources(
    v: &Vec<TriggerSource>,
    analyzer: &mut LockstepAnalyzer,
    loaded: &Vec<(SignalPath, Signal)>,
    intervals: &Vec<[u64; 2]>,
    tt: &TimeTable,
    bus_usage: &Result<BusUsage, String>,
) -> (r: Result<Vec<Vec<u64>>, String>)
    requires
        trace_ok(loaded@, tt@),
        loaded@.len() >= 2 + arity(*old(analyzer)),
    ensures
        arity(*final(analyzer)) == arity(*old(analyzer)),
        sources_outcome(v@, v@.len() as int, loaded@, intervals@, tt@, *bus_usage, *old(analyzer)).1 == *final(analyzer),
        match r {
            Ok(parts) => sources_outcome(v@, v@.len() as int, loaded@, intervals@, tt@, *bus_usage, *old(analyzer)).0
                == Ok::<Seq<Seq<u64>>, Seq<char>>(views_of(parts@)),
            Err(e) => sources_outcome(v@, v@.len() as int, loaded@, intervals@, tt@, *bus_usage, *old(analyzer)).0
                == Err::<Seq<Seq<u64>>, Seq<char>>(e@),
        },
    decreases v, 1nat,
{
    let ghost a0 = *analyzer;
    let mut parts: Vec<Vec<u64>> = Vec::new();
    let mut failure: Option<String> = None;
    let mut i: usize = 0;
    assert(views_of(parts@) =~= Seq::<Seq<u64>>::empty());
    while i < v.len() && failure.is_none()
        invariant
            i <= v@.len(),
            trace_ok(loaded@, tt@),
            loaded@.len() >= 2 + arity(*analyzer),
            arity(*analyzer) == arity(a0),
            failure is None ==> sources_outcome(v@, i as int, loaded@, intervals@, tt@, *bus_usage, a0) == (
            Ok::<Seq<Seq<u64>>, Seq<char>>(views_of(parts@)), *analyzer),
            failure matches Some(e) ==> sources_outcome(v@, v@.len() as int, loaded@, intervals@, tt@, *bus_usage, a0) == (
            Err::<Seq<Seq<u64>>, Seq<char>>(e@), *analyzer),
        decreases v@.len() - i + (if failure is None { 1int } else { 0int }),
    {
        proof {
            assert(decreases_to!(v => v[i as int]));
        }
        let res = v[i].analyze(analyzer, loaded, intervals, tt, bus_usage);
        match res {
            Ok(t) => {
                let ghost before = views_of(parts@);
                parts.push(t);
                assert(views_of(parts@) =~= before.push(t@));
                i = i + 1;
            },
            Err(e) => {
                proof {
                    lemma_sources_fail_stays(v@, i as int, v@.len() as int, loaded@, intervals@, tt@, *bus_usage, a0);
                }
                failure = Some(e);
            },
        }
    }
    match failure {
        Some(e) => Err(e),
        None => Ok(parts),
    }
}

proof fn lemma_sources_fail_stays(
    srcs: Seq<TriggerSource>,
    i: int,
    k: int,
    loaded: Seq<(SignalPath, Signal)>,
    intervals: Seq<[u64; 2]>,
    tt: Seq<u64>,
    usage: Result<BusUsage, String>,
    a: LockstepAnalyzer,
)
    requires
        0 <= i < k <= srcs.len(),
        sources_outcome(srcs, i, loaded, intervals, tt, usage, a).0 is Ok,
        sources_outcome(srcs, i + 1, loaded, intervals, tt, usage, a).0 is Err,
    ensures
        sources_outcome(srcs, k, loaded, intervals, tt, usage, a) == sources_outcome(srcs, i + 1, loaded, intervals, tt, usage, a),
    decreases k,
{
    if k > i + 1 {
        lemma_sources_fail_stays(srcs, i, k - 1, loaded, intervals, tt, usage, a);
    }
}

proof fn lemma_sources_len(
    srcs: Seq<TriggerSource>,
    k: int,
    loaded: Seq<(SignalPath, Signal)>,
    intervals: Seq<[u64; 2]>,
    tt: Seq<u64>,
    usage: Result<BusUsage, String>,
    a: LockstepAnalyzer,
)
    requires
        0 <= k <= srcs.len(),
    ensures
        sources_outcome(srcs, k, loaded, intervals, tt, usage, a).0 matches Ok(rs) ==> rs.len() == k,
    decreases k,
{
    if k > 0 {
        lemma_sources_len(srcs, k - 1, loaded, intervals, tt, usage, a);
    }
}

/// Law: walking the intervals, a clock edge at time `t` is taken only when it is not before
/// the start of the interval current after it; an edge before that start is skipped; the
/// current interval stays while `t` is not past its end (and an edge taken there is within
/// it), moves to the next one only past the current one's end, and past the end of the
/// last interval the walk stops.
pub proof fn lemma_admission_within_intervals(intervals: Seq<[u64; 2]>, k: int, t: u64)
    requires
        0 <= k < intervals.len(),
    ensures
        admission_spec(intervals, k, t).0 == Admission::Take ==> intervals[admission_spec(intervals, k, t).1][0] <= t,
        admission_spec(intervals, k, t).0 == Admission::Skip ==> t < intervals[admission_spec(intervals, k, t).1][0],
        t <= intervals[k][1] ==> admission_spec(intervals, k, t).1 == k,
        t <= intervals[k][1] && t < intervals[k][0] ==> admission_spec(intervals, k, t).0 == Admission::Skip,
        t <= intervals[k][1] && intervals[k][0] <= t ==> admission_spec(intervals, k, t).0 == Admission::Take,
        t > intervals[k][1] && k + 1 < intervals.len() ==> admission_spec(intervals, k, t).1 == k + 1
            && admission_spec(intervals, k, t).0 != Admission::Stop,
        t > intervals[k][1] && k + 1 == intervals.len() ==> admission_spec(intervals, k, t).0 == Admission::Stop,
        admission_spec(intervals, k, t).0 == Admission::Stop ==> t > intervals[k][1] && k + 1 == intervals.len(),
{
}

} // verus!
