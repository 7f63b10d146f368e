//! The default analyzer, which reads a single channel bus cycle by cycle, and the
//! rules that decide in which order analyzers and control triggers are analyzed.
use vstd::prelude::*;
use crate::{CycleType, CyclesNum, SignalPath};
use crate::bus::{arity, lockstep_cycle, BusDescription, LockstepAnalyzer, reset_value};
use crate::bus_usage::{cycle_step, cycle_step_ok, BusUsage, SingleChannelBusUsage, SingleChannelView};
use crate::signal::{is_low_clock, is_low_clock_level, value_at_spec, value_of, Change, Signal, SignalValue, TimeTable};
use crate::sources::{
    admission, admission_spec, bus_signal_changes, clone_value, same_value, same_values, trace_ok, Admission,
    TriggerSource,
};
use crate::trigger::{DoneTriggers, TriggerName, TriggerSink};
use crate::text::{decimal_nat, decimal_u64, str_eq};
use crate::config::concat;
use vstd::string::StringExecFns;

verus! {

/// Why the statistics of a bus could not be calculated.
#[derive(PartialEq, Eq, Structural, Clone, Copy, Debug)]
pub enum CalculateError {
    /// The trace has fewer than 3 time indices, so the clock period is unknown.
    TraceTooShort,
    /// The reset signal has no value at this time.
    ResetValueInvalid(u64),
    /// A bus signal has no value at this time.
    SignalValueMissing(u64),
    /// A counter of the statistics would overflow.
    Overflow,
}

/// The message that tells why the statistics of a bus could not be calculated.
pub open spec fn calculate_error_text(e: CalculateError) -> Seq<char> {
    match e {
        CalculateError::TraceTooShort => "trace is too short (less than 3 time indices), cannot calculate clock period"@,
        CalculateError::ResetValueInvalid(t) => "reset value is invalid at "@ + decimal_nat(t as nat),
        CalculateError::SignalValueMissing(t) => "signal does not have value at "@ + decimal_nat(t as nat),
        CalculateError::Overflow => "a statistic does not fit its counter"@,
    }
}

impl CalculateError {
    /// The message that tells why the statistics could not be calculated.
    pub fn message(&self) -> (r: String)
        ensures
            r@ == calculate_error_text(*self),
    {
        proof {
            reveal_strlit("trace is too short (less than 3 time indices), cannot calculate clock period");
            reveal_strlit("reset value is invalid at ");
            reveal_strlit("signal does not have value at ");
            reveal_strlit("a statistic does not fit its counter");
        }
        match self {
            CalculateError::TraceTooShort => String::from_str(
                "trace is too short (less than 3 time indices), cannot calculate clock period",
            ),
            CalculateError::ResetValueInvalid(t) => concat("reset value is invalid at ", decimal_u64(*t).as_str()),
            CalculateError::SignalValueMissing(t) => concat("signal does not have value at ", decimal_u64(*t).as_str()),
            CalculateError::Overflow => String::from_str("a statistic does not fit its counter"),
        }
    }
}

/// The values of the signals at time `t`, when all have one.
pub open spec fn values_at(sigs: Seq<Seq<Change>>, t: u32) -> Option<Seq<SignalValue>>
    decreases sigs.len(),
{
    if sigs.len() == 0 {
        Some(Seq::empty())
    } else {
        match (values_at(sigs.drop_last(), t), value_at_spec(sigs.last(), t)) {
            (Some(vs), Some(v)) => Some(vs.push(v)),
            _ => None,
        }
    }
}

/// The time table index just before `t` (or 0).
pub open spec fn before_index(t: u32) -> u32 {
    if t > 0 { (t - 1) as u32 } else { 0 }
}

/// Statistics of a cycle of type `t` added, or an overflow.
pub open spec fn counted_cycle(u: SingleChannelView, t: CycleType) -> Result<SingleChannelView, CalculateError> {
    if cycle_step_ok(u, t) { Ok(cycle_step(u, t)) } else { Err(CalculateError::Overflow) }
}

/// What the default analyzer does at a clock change that it counts, at time table index
/// `idx`: it reads the reset and bus signals just before the change and counts a reset
/// cycle while the reset is active, else the cycle its rule finds. On a failure the rule
/// keeps its state.
pub open spec fn cycle_at(
    idx: u32,
    reset: Seq<Change>,
    sigs: Seq<Seq<Change>>,
    tt: Seq<u64>,
    rst: ValueTypeSpec,
    u: SingleChannelView,
    a: LockstepAnalyzer,
) -> (Result<SingleChannelView, CalculateError>, LockstepAnalyzer) {
    let time = before_index(idx);
    match value_at_spec(reset, time) {
        None => (Err(CalculateError::ResetValueInvalid(tt[time as int])), a),
        Some(rv) => match values_at(sigs, time) {
            None => (Err(CalculateError::SignalValueMissing(tt[time as int])), a),
            Some(vals) => if value_of(rv) == Some(rst) {
                (counted_cycle(u, CycleType::Reset), a)
            } else if !a.can_interpret(vals) {
                (Err(CalculateError::Overflow), a)
            } else {
                let (ct, a2) = lockstep_cycle(a, vals);
                match counted_cycle(u, ct) {
                    Ok(u2) => (Ok(u2), a2),
                    Err(e) => (Err(e), a),
                }
            },
        },
    }
}

/// Logic value of a reset signal.
pub type ValueTypeSpec = crate::signal::ValueType;

/// Statistics from clock change `i` on, with interval `k` current, and the state of the
/// rule after them: changes to a low clock level are not cycles; cycles before the current
/// interval are not counted; the first past the last interval ends the count.
pub open spec fn calc_rec(
    clock: Seq<Change>,
    i: int,
    k: int,
    reset: Seq<Change>,
    sigs: Seq<Seq<Change>>,
    intervals: Seq<[u64; 2]>,
    tt: Seq<u64>,
    rst: ValueTypeSpec,
    u: SingleChannelView,
    a: LockstepAnalyzer,
) -> (Result<SingleChannelView, CalculateError>, LockstepAnalyzer)
    decreases clock.len() - i,
{
    if i < 0 || i >= clock.len() {
        (Ok(u), a)
    } else if is_low_clock_level(clock[i].1) {
        calc_rec(clock, i + 1, k, reset, sigs, intervals, tt, rst, u, a)
    } else {
        let (adm, k2) = admission_spec(intervals, k, tt[clock[i].0 as int]);
        match adm {
            Admission::Stop => (Ok(u), a),
            Admission::Skip => calc_rec(clock, i + 1, k2, reset, sigs, intervals, tt, rst, u, a),
            Admission::Take => match cycle_at(clock[i].0, reset, sigs, tt, rst, u, a) {
                (Err(e), a2) => (Err(e), a2),
                (Ok(u2), a2) => calc_rec(clock, i + 1, k2, reset, sigs, intervals, tt, rst, u2, a2),
            },
        }
    }
}

/// The statistics of a bus named `name`, before any cycle.
pub open spec fn empty_usage(name: Seq<char>, max_burst_delay: CyclesNum, clk: u64) -> SingleChannelView {
    SingleChannelView {
        bus_name: name,
        busy: 0,
        backpressure: 0,
        no_data: 0,
        no_transaction: 0,
        free: 0,
        reset: 0,
        transaction_delays: Seq::empty(),
        burst_lengths: Seq::empty(),
        current: crate::bus_usage::CurrentlyCalculating::Idle,
        max_burst_delay,
        clk_period: clk,
    }
}

/// What the default analyzer calculates over a trace: the statistics of its bus, with the
/// clock period taken as the time of the trace's third time index, and the state its rule
/// is left in.
pub open spec fn calculate_spec(
    name: Seq<char>,
    max_burst_delay: CyclesNum,
    rst: ValueTypeSpec,
    loaded: Seq<(SignalPath, Signal)>,
    intervals: Seq<[u64; 2]>,
    tt: Seq<u64>,
    a: LockstepAnalyzer,
) -> (Result<SingleChannelView, CalculateError>, LockstepAnalyzer) {
    if tt.len() < 3 {
        (Err(CalculateError::TraceTooShort), a)
    } else {
        let u = empty_usage(name, max_burst_delay, tt[2]);
        if intervals.len() == 0 {
            (Ok(u), a)
        } else {
            calc_rec(loaded[0].1.changes@, 0, 0, loaded[1].1.changes@, bus_signal_changes(loaded), intervals, tt, rst, u, a)
        }
    }
}

fn values_at_all(loaded: &Vec<(SignalPath, Signal)>, t: u32) -> (r: Option<Vec<SignalValue>>)
    requires
        loaded@.len() >= 2,
        forall|i: int| 0 <= i < loaded@.len() ==> (#[trigger] loaded@[i]).1.wf(),
    ensures
        r matches Some(v) ==> values_at(bus_signal_changes(loaded@), t) is Some && same_values(
            v@,
            values_at(bus_signal_changes(loaded@), t)->Some_0,
        ),
        r is None ==> values_at(bus_signal_changes(loaded@), t) is None,
{
    let ghost sigs = bus_signal_changes(loaded@);
    let mut vals: Vec<SignalValue> = Vec::new();
    let mut i: usize = 2;
    assert(sigs.take(0) =~= Seq::<Seq<Change>>::empty());
    while i < loaded.len()
        invariant
            2 <= i <= loaded@.len(),
            sigs == bus_signal_changes(loaded@),
            sigs.len() == loaded@.len() - 2,
            forall|q: int| 0 <= q < loaded@.len() ==> (#[trigger] loaded@[q]).1.wf(),
            values_at(sigs.take(i - 2), t) is Some,
            same_values(vals@, values_at(sigs.take(i - 2), t)->Some_0),
        decreases loaded@.len() - i,
    {
        assert(sigs.take(i - 1).drop_last() =~= sigs.take(i - 2));
        assert(sigs.take(i - 1).last() == loaded@[i as int].1.changes@);
        match loaded[i].1.value_at_time(t) {
            Some(v) => {
                let ghost before = vals@;
                vals.push(clone_value(v));
                assert(same_values(vals@, values_at(sigs.take(i - 1), t)->Some_0)) by {
                    let w = values_at(sigs.take(i - 1), t)->Some_0;
                    assert forall|q: int| 0 <= q < vals@.len() implies same_value(#[trigger] vals@[q], w[q]) by {
                        if q < before.len() {
                            assert(vals@[q] == before[q]);
                        }
                    }
                }
            },
            None => {
                proof {
                    lemma_values_at_none(sigs, t, i - 1);
                }
                return None;
            },
        }
        i = i + 1;
    }
    assert(sigs.take(i - 2) =~= sigs);
    Some(vals)
}

proof fn lemma_values_at_none(sigs: Seq<Seq<Change>>, t: u32, k: int)
    requires
        0 < k <= sigs.len(),
        values_at(sigs.take(k), t) is None,
    ensures
        values_at(sigs, t) is None,
    decreases sigs.len() - k,
{
    if k < sigs.len() {
        assert(sigs.take(k + 1).drop_last() =~= sigs.take(k));
        lemma_values_at_none(sigs, t, k + 1);
    } else {
        assert(sigs.take(k) =~= sigs);
    }
}

proof fn lemma_values_at_len(sigs: Seq<Seq<Change>>, t: u32)
    ensures
        values_at(sigs, t) matches Some(v) ==> v.len() == sigs.len(),
    decreases sigs.len(),
{
    if sigs.len() > 0 {
        lemma_values_at_len(sigs.drop_last(), t);
    }
}

/// Counts one cycle read at time table index `idx` into `usage`.
fn count_cycle(
    usage: &mut SingleChannelBusUsage,
    analyzer: &mut LockstepAnalyzer,
    idx: u32,
    loaded: &Vec<(SignalPath, Signal)>,
    tt: &TimeTable,
    rst: crate::signal::ValueType,
) -> (r: Result<(), CalculateError>)
    requires
        trace_ok(loaded@, tt@),
        loaded@.len() >= 2 + arity(*old(analyzer)),
        idx < tt@.len(),
    ensures
        arity(*final(analyzer)) == arity(*old(analyzer)),
        cycle_at(idx, loaded@[1].1.changes@, bus_signal_changes(loaded@), tt@, rst, old(usage)@, *old(analyzer)).1 == *final(analyzer),
        match cycle_at(idx, loaded@[1].1.changes@, bus_signal_changes(loaded@), tt@, rst, old(usage)@, *old(analyzer)).0 {
            Ok(u) => r is Ok && final(usage)@ == u,
            Err(e) => r == Err::<(), CalculateError>(e),
        },
{
    proof {
        assert forall|q: int| 0 <= q < loaded@.len() implies (#[trigger] loaded@[q]).1.wf() by {
            assert(loaded@[q].1.wf());
        }
    }
    let time: u32 = if idx > 0 { idx - 1 } else { 0 };
    let reset = match loaded[1].1.value_at_time(time) {
        Some(v) => v,
        None => {
            return Err(CalculateError::ResetValueInvalid(tt.at(time as usize)));
        },
    };
    let vals = match values_at_all(loaded, time) {
        Some(v) => v,
        None => {
            return Err(CalculateError::SignalValueMissing(tt.at(time as usize)));
        },
    };
    if crate::signal::is_value_of_type(reset, rst) {
        if !usage.can_add_cycle(CycleType::Reset) {
            return Err(CalculateError::Overflow);
        }
        usage.add_cycle(CycleType::Reset);
        Ok(())
    } else {
        let ghost sigs = bus_signal_changes(loaded@);
        assert(vals@.len() == loaded@.len() - 2) by {
            lemma_values_at_len(sigs, time);
        }
        proof {
            crate::sources::lemma_lockstep_same(*analyzer, vals@, values_at(sigs, time)->Some_0);
        }
        if !analyzer.ready_for_cycle(&vals) {
            return Err(CalculateError::Overflow);
        }
        let mut probe = *analyzer;
        let ct = probe.interpret_cycle(&vals);
        if !usage.can_add_cycle(ct) {
            return Err(CalculateError::Overflow);
        }
        usage.add_cycle(ct);
        *analyzer = probe;
        Ok(())
    }
}

/// The analyzer of a single channel bus: it counts the bus's state at each clock cycle
/// within the intervals its trigger sink gives.
pub struct DefaultAnalyzer {
    pub description: BusDescription,
    pub analyzer: LockstepAnalyzer,
    pub max_burst_delay: CyclesNum,
    pub required: Vec<TriggerName>,
    pub sink: TriggerSink,
    pub provided: Vec<TriggerSource>,
}

impl DefaultAnalyzer {
    /// The analyzer's rule reads its bus's handshake signals.
    pub open spec fn wf(&self) -> bool {
        arity(self.analyzer) == self.description.unique_signals_spec().len()
    }

    /// Name of the bus.
    pub fn bus_name(&self) -> (r: &str)
        ensures
            r@ == self.description.common_spec().name_spec(),
    {
        self.description.name()
    }

    /// Signal paths the analyzer reads, in the order it expects them loaded: clock, reset,
    /// the handshake's signals, then the extra ones.
    pub fn get_signals(&self) -> (r: Vec<&SignalPath>)
        ensures
            r@.len() == self.description.signals_spec().len(),
            forall|i: int| 0 <= i < r@.len() ==> *r@[i] == self.description.signals_spec()[i],
    {
        self.description.get_signals()
    }

    /// Statistics of the bus over a trace whose signals are loaded in the order of
    /// [DefaultAnalyzer::get_signals], counting only within the given intervals.
    pub fn calculate(&mut self, loaded: &Vec<(SignalPath, Signal)>, intervals: &Vec<[u64; 2]>, tt: &TimeTable) -> (r: Result<BusUsage, CalculateError>)
        requires
            trace_ok(loaded@, tt@),
            loaded@.len() >= 2 + arity(old(self).analyzer),
        ensures
            final(self).description == old(self).description,
            final(self).max_burst_delay == old(self).max_burst_delay,
            arity(final(self).analyzer) == arity(old(self).analyzer),
            final(self).provided == old(self).provided,
            final(self).sink == old(self).sink,
            final(self).required == old(self).required,
            final(self).analyzer == calculate_spec(
                old(self).description.common_spec().name_spec(),
                old(self).max_burst_delay,
                reset_value(old(self).description.common_spec().rst_active_spec()),
                loaded@,
                intervals@,
                tt@,
                old(self).analyzer,
            ).1,
            match calculate_spec(
                old(self).description.common_spec().name_spec(),
                old(self).max_burst_delay,
                reset_value(old(self).description.common_spec().rst_active_spec()),
                loaded@,
                intervals@,
                tt@,
                old(self).analyzer,
            ).0 {
                Ok(u) => r matches Ok(BusUsage::SingleChannel(usage)) && usage@ == u,
                Err(e) => r == Err::<BusUsage, CalculateError>(e),
            },
    {
        let clk_period = match tt.get(2) {
            Some(t) => *t,
            None => {
                return Err(CalculateError::TraceTooShort);
            },
        };
        let rst = self.description.common().rst_active_value();
        let mut usage = SingleChannelBusUsage::new(self.description.name(), self.max_burst_delay, clk_period);
        if intervals.len() == 0 {
            return Ok(BusUsage::SingleChannel(usage));
        }
        let ghost whole = calculate_spec(
            self.description.common_spec().name_spec(),
            self.max_burst_delay,
            rst,
            loaded@,
            intervals@,
            tt@,
            self.analyzer,
        );
        let clock = &loaded[0].1;
        let ghost reset = loaded@[1].1.changes@;
        let ghost sigs = bus_signal_changes(loaded@);
        let mut failure: Option<CalculateError> = None;
        let mut k: usize = 0;
        let mut i: usize = 0;
        while i < clock.changes.len() && failure.is_none()
            invariant
                i <= clock.changes@.len(),
                k < intervals@.len(),
                trace_ok(loaded@, tt@),
                *clock == loaded@[0].1,
                loaded@.len() >= 2 + arity(self.analyzer),
                arity(self.analyzer) == arity(old(self).analyzer),
                self.provided == old(self).provided,
                self.sink == old(self).sink,
                self.required == old(self).required,
                reset == loaded@[1].1.changes@,
                sigs == bus_signal_changes(loaded@),
                self.description == old(self).description,
                self.max_burst_delay == old(self).max_burst_delay,
                rst == reset_value(old(self).description.common_spec().rst_active_spec()),
                whole == calculate_spec(
                    old(self).description.common_spec().name_spec(),
                    old(self).max_burst_delay,
                    rst,
                    loaded@,
                    intervals@,
                    tt@,
                    old(self).analyzer,
                ),
                tt@.len() >= 3,
                failure is None ==> whole == calc_rec(clock.changes@, i as int, k as int, reset, sigs, intervals@, tt@, rst, usage@, self.analyzer),
                failure matches Some(e) ==> whole == (Err::<SingleChannelView, CalculateError>(e), self.analyzer),
            decreases clock.changes@.len() - i + (if failure is None { 1int } else { 0int }),
        {
            let idx = clock.changes[i].0;
            if is_low_clock(&clock.changes[i].1) {
                i = i + 1;
            } else {
                proof {
                    assert(loaded@[0].1.changes@[i as int].0 < tt@.len());
                }
                let t = tt.at(idx as usize);
                let (adm, k2) = admission(intervals, k, t);
                match adm {
                    Admission::Stop => {
                        i = clock.changes.len();
                        proof {
                            assert(calc_rec(clock.changes@, i as int, k as int, reset, sigs, intervals@, tt@, rst, usage@, self.analyzer)
                                == (Ok::<SingleChannelView, CalculateError>(usage@), self.analyzer));
                        }
                    },
                    Admission::Skip => {
                        k = k2;
                        i = i + 1;
                    },
                    Admission::Take => {
                        let res = count_cycle(&mut usage, &mut self.analyzer, idx, loaded, tt, rst);
                        match res {
                            Ok(()) => {
                                k = k2;
                                i = i + 1;
                            },
                            Err(e) => {
                                failure = Some(e);
                            },
                        }
                    },
                }
            }
        }
        match failure {
            Some(e) => Err(e),
            None => Ok(BusUsage::SingleChannel(usage)),
        }
    }
}

/// Names as mathematical strings.
pub open spec fn names_view(v: Seq<String>) -> Seq<Seq<char>> {
    v.map_values(|s: String| s@)
}

/// Tells whether `name` is one of `names`.
pub fn contains_name(names: &Vec<String>, name: &str) -> (r: bool)
    ensures
        r == names_view(names@).contains(name@),
{
    let mut i: usize = 0;
    while i < names.len()
        invariant
            i <= names@.len(),
            forall|j: int| 0 <= j < i ==> names@[j]@ != name@,
        decreases names@.len() - i,
    {
        if str_eq(names[i].as_str(), name) {
            assert(names_view(names@)[i as int] == name@);
            return true;
        }
        i = i + 1;
    }
    proof {
        if names_view(names@).contains(name@) {
            let w = choose|w: int| 0 <= w < names_view(names@).len() && names_view(names@)[w] == name@;
            assert(names@[w]@ == name@);
        }
    }
    false
}

/// The first of `reqs` that is not among `existing`.
pub open spec fn first_missing_in(existing: Seq<Seq<char>>, reqs: Seq<Seq<char>>) -> Option<Seq<char>>
    decreases reqs.len(),
{
    if reqs.len() == 0 {
        None
    } else {
        match first_missing_in(existing, reqs.drop_last()) {
            Some(m) => Some(m),
            None => if existing.contains(reqs.last()) { None } else { Some(reqs.last()) },
        }
    }
}

/// Among the first `k` of `needs` (each a name and the triggers it requires), the first
/// requirement that is not among `existing`, with the name of who requires it.
pub open spec fn first_missing(existing: Seq<Seq<char>>, needs: Seq<(String, Vec<String>)>, k: int) -> Option<(Seq<char>, Seq<char>)>
    decreases k,
{
    if k <= 0 || k > needs.len() {
        None
    } else {
        match first_missing(existing, needs, k - 1) {
            Some(m) => Some(m),
            None => match first_missing_in(existing, names_view(needs[k - 1].1@)) {
                Some(r) => Some((needs[k - 1].0@, r)),
                None => None,
            },
        }
    }
}

proof fn lemma_first_missing_stays(existing: Seq<Seq<char>>, needs: Seq<(String, Vec<String>)>, i: int, k: int)
    requires
        0 <= i < k <= needs.len(),
        first_missing(existing, needs, i) is None,
        first_missing(existing, needs, i + 1) is Some,
    ensures
        first_missing(existing, needs, k) == first_missing(existing, needs, i + 1),
    decreases k,
{
    if k > i + 1 {
        lemma_first_missing_stays(existing, needs, i, k - 1);
    }
}

/// Checks that every trigger that analyzers and control triggers require is provided:
/// `existing` are the names of all provided triggers, `needs` each analyzer's and then each
/// control trigger's name with the triggers it requires. Returns the first missing one,
/// with the name of who requires it.
pub fn check_dependencies(existing: &Vec<String>, needs: &Vec<(String, Vec<String>)>) -> (r: Result<(), (String, String)>)
    ensures
        r is Ok <==> first_missing(names_view(existing@), needs@, needs@.len() as int) is None,
        r matches Err((who, req)) ==> first_missing(names_view(existing@), needs@, needs@.len() as int) == Some((who@, req@)),
{
    let ghost ex = names_view(existing@);
    let mut i: usize = 0;
    while i < needs.len()
        invariant
            i <= needs@.len(),
            ex == names_view(existing@),
            first_missing(ex, needs@, i as int) is None,
        decreases needs@.len() - i,
    {
        let reqs = &needs[i].1;
        let mut j: usize = 0;
        while j < reqs.len()
            invariant
                i < needs@.len(),
                *reqs == needs@[i as int].1,
                j <= reqs@.len(),
                ex == names_view(existing@),
                first_missing(ex, needs@, i as int) is None,
                first_missing_in(ex, names_view(reqs@).take(j as int)) is None,
            decreases reqs@.len() - j,
        {
            assert(names_view(reqs@).take(j + 1).drop_last() =~= names_view(reqs@).take(j as int));
            if !contains_name(existing, reqs[j].as_str()) {
                proof {
                    lemma_first_missing_in_stays(ex, names_view(reqs@), j as int, reqs@.len() as int);
                    assert(names_view(reqs@).take(reqs@.len() as int) =~= names_view(reqs@));
                    lemma_first_missing_stays(ex, needs@, i as int, needs@.len() as int);
                }
                return Err((needs[i].0.clone(), reqs[j].clone()));
            }
            j = j + 1;
        }
        assert(names_view(reqs@).take(j as int) =~= names_view(reqs@));
        i = i + 1;
    }
    Ok(())
}

proof fn lemma_first_missing_in_stays(existing: Seq<Seq<char>>, reqs: Seq<Seq<char>>, j: int, k: int)
    requires
        0 <= j < k <= reqs.len(),
        first_missing_in(existing, reqs.take(j)) is None,
        !existing.contains(reqs[j]),
    ensures
        first_missing_in(existing, reqs.take(k)) == Some(reqs[j]),
    decreases k,
{
    if k > j + 1 {
        lemma_first_missing_in_stays(existing, reqs, j, k - 1);
        assert(reqs.take(k).drop_last() =~= reqs.take(k - 1));
    } else {
        assert(reqs.take(k).drop_last() =~= reqs.take(j));
    }
}

/// Every required trigger has been analyzed.
pub open spec fn requirements_done(reqs: Seq<Seq<char>>, done: DoneTriggers) -> bool {
    forall|i: int| 0 <= i < reqs.len() ==> done.lookup(#[trigger] reqs[i]) is Some
}

/// Which of the pending analyzers or control triggers can be analyzed now: those whose
/// required triggers have all been analyzed.
pub fn ready_set(pending: &Vec<Vec<String>>, done: &DoneTriggers) -> (r: Vec<bool>)
    ensures
        r@.len() == pending@.len(),
        forall|i: int| 0 <= i < r@.len() ==> #[trigger] r@[i] == requirements_done(names_view(pending@[i]@), *done),
{
    let mut r: Vec<bool> = Vec::new();
    let mut i: usize = 0;
    while i < pending.len()
        invariant
            i <= pending@.len(),
            r@.len() == i,
            forall|q: int| 0 <= q < i ==> #[trigger] r@[q] == requirements_done(names_view(pending@[q]@), *done),
        decreases pending@.len() - i,
    {
        let reqs = &pending[i];
        let mut ok = true;
        let mut j: usize = 0;
        while j < reqs.len()
            invariant
                j <= reqs@.len(),
                ok == forall|q: int| 0 <= q < j ==> done.lookup(#[trigger] names_view(reqs@)[q]) is Some,
            decreases reqs@.len() - j,
        {
            let c = done.contains(reqs[j].as_str());
            assert(names_view(reqs@)[j as int] == reqs@[j as int]@);
            ok = ok && c;
            j = j + 1;
        }
        r.push(ok);
        i = i + 1;
    }
    r
}

} // verus!
