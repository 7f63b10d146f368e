//! Running one analyzer on the signals loaded for it: the interval in which it is active,
//! its statistics and the triggers it provides.
use vstd::prelude::*;
use vstd::string::StringExecFns;
use crate::SignalPath;
use crate::analyzer::{calculate_error_text, calculate_spec, ready_set, requirements_done};
use crate::axi::{axi_arity, axi_calc, axi_error_text, AxiKind};
use crate::bus::{arity, reset_value, LockstepAnalyzer};
use crate::bus_usage::{BusData, BusUsage};
use crate::config::concat;
use crate::graph::BusAnalyzer;
use crate::signal::{Signal, TimeTable};
use crate::sources::{source_outcome, trace_fits, trace_ok, TriggerSource};
use crate::trigger::{
    all_done, first_error, intervals_spec, names_of, outcome_view, times_ok, DoneTriggers, TriggerOutcome,
    TriggerSink,
};

verus! {

/// What analyzing one bus gives: its name, its statistics or why there are none, and the
/// outcome of each trigger it provides.
pub struct AnalyzerResult {
    pub name: String,
    pub result: Result<BusData, String>,
    pub triggers: Vec<(String, TriggerOutcome)>,
}

/// The statistics of a result, or why there are none.
pub open spec fn usage_of(r: Result<BusData, String>) -> Result<BusUsage, String> {
    match r {
        Ok(d) => Ok(d.usage),
        Err(e) => Err(e),
    }
}

/// The triggers that decide when the analyzer is active.
pub open spec fn sink_of(a: BusAnalyzer) -> TriggerSink {
    match a {
        BusAnalyzer::Default(d) => d.sink,
        BusAnalyzer::AxiRead(x) => x.sink,
        BusAnalyzer::AxiWrite(x) => x.sink,
    }
}

/// The signals the analyzer reads, in the order it reads them.
pub open spec fn signals_of(a: BusAnalyzer) -> Seq<SignalPath> {
    match a {
        BusAnalyzer::Default(d) => d.description.signals_spec(),
        BusAnalyzer::AxiRead(x) => x.signals_spec(),
        BusAnalyzer::AxiWrite(x) => x.signals_spec(),
    }
}

/// How many loaded signals the analyzer's calculation reads.
pub open spec fn signals_needed(a: BusAnalyzer) -> int {
    match a {
        BusAnalyzer::Default(d) => 2 + arity(d.analyzer) as int,
        BusAnalyzer::AxiRead(x) => axi_arity(x.kind_spec()),
        BusAnalyzer::AxiWrite(x) => axi_arity(x.kind_spec()),
    }
}

/// The last time of the trace, 0 for an empty one.
pub open spec fn time_end(tt: Seq<u64>) -> u64 {
    if tt.len() == 0 {
        0
    } else {
        tt.last()
    }
}

/// `v` are the intervals in which the sink keeps its analyzer active, for activation and
/// deactivation times that its triggers give once they are `done`.
pub open spec fn sink_intervals(s: TriggerSink, done: DoneTriggers, end: u64, v: Seq<[u64; 2]>) -> bool {
    exists|starts: Seq<u64>, ends: Seq<u64>|
        times_ok(s.activate, done, starts) && times_ok(s.deactivate, done, ends) && v == #[trigger] intervals_spec(
            starts,
            ends,
            end,
        )
}

/// Why the analyzer does not run on the loaded signals, if it does not: a trigger it waits
/// on is not analyzed yet, the signals do not fit the trace, too few are loaded, or a
/// trigger it waits on failed.
pub open spec fn run_failure(a: BusAnalyzer, loaded: Seq<(SignalPath, Signal)>, done: DoneTriggers, tt: Seq<u64>) -> Option<Seq<char>> {
    let s = sink_of(a);
    if !requirements_done(names_of(s.activate) + names_of(s.deactivate), done) {
        Some("required triggers were not analyzed"@)
    } else if !trace_ok(loaded, tt) {
        Some("signal changes do not fit the trace's time table"@)
    } else if tt.len() > u32::MAX {
        Some("trace has too many time indices"@)
    } else if loaded.len() < signals_needed(a) {
        Some("bus description lacks handshake signals"@)
    } else {
        match first_error(s.activate, done) {
            Some(e) => Some("bad intervals: "@ + e),
            None => match first_error(s.deactivate, done) {
                Some(e) => Some("bad intervals: "@ + e),
                None => None,
            },
        }
    }
}

/// The outcomes of the triggers `srcs`, analyzed in order, each from the state of the bus
/// rule that the one before left; with the state the last one leaves.
pub open spec fn provided_outcomes(
    srcs: Seq<TriggerSource>,
    loaded: Seq<(SignalPath, Signal)>,
    intervals: Seq<[u64; 2]>,
    tt: Seq<u64>,
    usage: Result<BusUsage, String>,
    st: LockstepAnalyzer,
) -> (Seq<Result<Seq<u64>, Seq<char>>>, LockstepAnalyzer)
    decreases srcs.len(),
{
    if srcs.len() == 0 {
        (Seq::empty(), st)
    } else {
        let before = provided_outcomes(srcs.drop_last(), loaded, intervals, tt, usage, st);
        let last = source_outcome(srcs.last(), loaded, intervals, tt, usage, before.1);
        (before.0.push(last.0), last.1)
    }
}

/// The triggers `r` carry the names `names` with the outcomes `outs`, in order.
pub open spec fn named_outcomes(r: Seq<(String, TriggerOutcome)>, names: Seq<Seq<char>>, outs: Seq<Result<Seq<u64>, Seq<char>>>) -> bool {
    &&& r.len() == names.len()
    &&& outs.len() == names.len()
    &&& forall|i: int| 0 <= i < r.len() ==> (#[trigger] r[i]).0@ == names[i] && outcome_view(r[i].1) == outs[i]
}

/// The same failure for each of `n` triggers.
pub open spec fn all_failed(n: nat, m: Seq<char>) -> Seq<Result<Seq<u64>, Seq<char>>> {
    Seq::new(n, |i: int| Err::<Seq<u64>, Seq<char>>(m))
}

/// `r` holds the statistics the analyzer calculates within the intervals `iv`, and the
/// outcomes of the triggers it provides, analyzed with those statistics.
pub open spec fn ran_with(a: BusAnalyzer, loaded: Seq<(SignalPath, Signal)>, iv: Seq<[u64; 2]>, tt: Seq<u64>, r: AnalyzerResult) -> bool {
    match a {
        BusAnalyzer::Default(d) => {
            let calc = calculate_spec(
                d.description.common_spec().name_spec(),
                d.max_burst_delay,
                reset_value(d.description.common_spec().rst_active_spec()),
                loaded,
                iv,
                tt,
                d.analyzer,
            );
            &&& match calc.0 {
                Ok(u) => r.result matches Ok(bd) && bd.usage matches BusUsage::SingleChannel(x) && x@ == u,
                Err(e) => r.result matches Err(m) && m@ == calculate_error_text(e),
            }
            &&& named_outcomes(
                r.triggers@,
                a.provided_view(),
                provided_outcomes(d.provided@, loaded, iv, tt, usage_of(r.result), calc.1).0,
            )
        },
        BusAnalyzer::AxiRead(x) => {
            &&& match axi_calc(
                x.kind_spec(),
                x.common.name_spec(),
                x.window_length,
                reset_value(x.common.rst_active_spec()),
                loaded,
                iv,
                tt,
            ) {
                Ok(u) => r.result matches Ok(bd) && bd.usage matches BusUsage::MultiChannel(m) && m@ == u,
                Err(e) => r.result matches Err(m) && m@ == axi_error_text(e),
            }
            &&& r.triggers@.len() == 0
        },
        BusAnalyzer::AxiWrite(x) => {
            &&& match axi_calc(
                x.kind_spec(),
                x.common.name_spec(),
                x.window_length,
                reset_value(x.common.rst_active_spec()),
                loaded,
                iv,
                tt,
            ) {
                Ok(u) => r.result matches Ok(bd) && bd.usage matches BusUsage::MultiChannel(m) && m@ == u,
                Err(e) => r.result matches Err(m) && m@ == axi_error_text(e),
            }
            &&& r.triggers@.len() == 0
        },
    }
}

/// The paths `v` name the signals `s`, in order.
pub open spec fn same_paths(v: Seq<SignalPath>, s: Seq<SignalPath>) -> bool {
    v.len() == s.len() && forall|i: int| 0 <= i < v.len() ==> (#[trigger] v[i]).full_path() == s[i].full_path()
}

fn copy_paths(v: &Vec<&SignalPath>) -> (r: Vec<SignalPath>)
    ensures
        r@.len() == v@.len(),
        forall|i: int| 0 <= i < r@.len() ==> (#[trigger] r@[i]).full_path() == v@[i].full_path(),
{
    let mut r: Vec<SignalPath> = Vec::new();
    let mut i: usize = 0;
    while i < v.len()
        invariant
            i <= v@.len(),
            r@.len() == i,
            forall|k: int| 0 <= k < i ==> (#[trigger] r@[k]).full_path() == v@[k].full_path(),
        decreases v@.len() - i,
    {
        r.push(v[i].duplicate());
        i = i + 1;
    }
    r
}

fn needed(a: &BusAnalyzer) -> (r: usize)
    ensures
        r == signals_needed(*a),
{
    match a {
        BusAnalyzer::Default(d) => match d.analyzer {
            LockstepAnalyzer::Apb(_) => 5,
            _ => 4,
        },
        BusAnalyzer::AxiRead(x) => match x.kind() {
            AxiKind::ReadFull => 10,
            _ => 7,
        },
        BusAnalyzer::AxiWrite(x) => match x.kind() {
            AxiKind::WriteFull => 12,
            _ => 9,
        },
    }
}

proof fn lemma_sink_done(s: TriggerSink, done: DoneTriggers)
    requires
        requirements_done(names_of(s.activate) + names_of(s.deactivate), done),
    ensures
        all_done(s.activate, done),
        all_done(s.deactivate, done),
{
    let a = names_of(s.activate);
    let d = names_of(s.deactivate);
    assert forall|i: int| 0 <= i < a.len() implies done.lookup(#[trigger] a[i]) is Some by {
        assert((a + d)[i] == a[i]);
    }
    assert forall|i: int| 0 <= i < d.len() implies done.lookup(#[trigger] d[i]) is Some by {
        assert((a + d)[a.len() + i] == d[i]);
    }
}

/// Each of the names, with the same failure.
pub(crate) fn fail_each(names: &Vec<String>, m: &String) -> (r: Vec<(String, TriggerOutcome)>)
    ensures
        named_outcomes(r@, names@.map_values(|s: String| s@), all_failed(names@.len(), m@)),
{
    let mut r: Vec<(String, TriggerOutcome)> = Vec::new();
    let mut i: usize = 0;
    while i < names.len()
        invariant
            i <= names@.len(),
            r@.len() == i,
            forall|k: int| 0 <= k < i ==> (#[trigger] r@[k]).0@ == names@[k]@ && outcome_view(r@[k].1) == Err::<
                Seq<u64>,
                Seq<char>,
            >(m@),
        decreases names@.len() - i,
    {
        r.push((String::from_str(names[i].as_str()), Err(String::from_str(m.as_str()))));
        i = i + 1;
    }
    r
}

impl BusAnalyzer {
    /// Analyzes the bus on the signals loaded for it (those of [BusAnalyzer::get_signals],
    /// in that order), once the triggers it waits on are in `done`: its statistics within
    /// the intervals its sink gives, and the triggers it provides, analyzed with them.
    /// When it cannot run, every trigger it provides fails as it does.
    pub fn analyze(self, loaded: &Vec<(SignalPath, Signal)>, done: &DoneTriggers, tt: &TimeTable) -> (r: AnalyzerResult)
        ensures
            r.name@ == self.name_view(),
            r.result matches Ok(bd) ==> same_paths(bd.signals@, signals_of(self)),
            match run_failure(self, loaded@, *done, tt@) {
                Some(m) => r.result matches Err(e) && e@ == m && named_outcomes(
                    r.triggers@,
                    self.provided_view(),
                    all_failed(self.provided_view().len(), m),
                ),
                None => exists|iv: Seq<[u64; 2]>|
                    sink_intervals(sink_of(self), *done, time_end(tt@), iv) && #[trigger] ran_with(self, loaded@, iv, tt@, r),
            },
    {
        proof {
            reveal_strlit("required triggers were not analyzed");
            reveal_strlit("signal changes do not fit the trace's time table");
            reveal_strlit("trace has too many time indices");
            reveal_strlit("bus description lacks handshake signals");
            reveal_strlit("bad intervals: ");
        }
        let name = String::from_str(self.bus_name());
        let names = self.provides();
        let paths = copy_paths(&self.get_signals());
        let ghost a0 = self;
        let failure: Result<Vec<[u64; 2]>, String> = {
            let sink = match &self {
                BusAnalyzer::Default(d) => &d.sink,
                BusAnalyzer::AxiRead(x) => &x.sink,
                BusAnalyzer::AxiWrite(x) => &x.sink,
            };
            let pending = vec![sink.required()];
            let ready = ready_set(&pending, done);
            if !ready[0] {
                Err(String::from_str("required triggers were not analyzed"))
            } else if !trace_fits(loaded, tt) {
                Err(String::from_str("signal changes do not fit the trace's time table"))
            } else if tt.len() > 0xffff_ffff {
                Err(String::from_str("trace has too many time indices"))
            } else if loaded.len() < needed(&self) {
                Err(String::from_str("bus description lacks handshake signals"))
            } else {
                proof {
                    lemma_sink_done(*sink, *done);
                }
                match sink.get_intervals(done, tt.last()) {
                    Ok(iv) => {
                        assert(sink_intervals(sink_of(a0), *done, time_end(tt@), iv@));
                        Ok(iv)
                    },
                    Err(e) => Err(concat("bad intervals: ", e.as_str())),
                }
            }
        };
        let intervals = match failure {
            Ok(iv) => iv,
            Err(m) => {
                let triggers = fail_each(&names, &m);
                return AnalyzerResult { name, result: Err(m), triggers };
            },
        };
        match self {
            BusAnalyzer::Default(mut d) => {
                let usage: Result<BusUsage, String> = match d.calculate(loaded, &intervals, tt) {
                    Ok(u) => Ok(u),
                    Err(e) => Err(e.message()),
                };
                let ghost st0 = d.analyzer;
                let mut triggers: Vec<(String, TriggerOutcome)> = Vec::new();
                let mut i: usize = 0;
                while i < d.provided.len()
                    invariant
                        i <= d.provided@.len(),
                        triggers@.len() == i,
                        trace_ok(loaded@, tt@),
                        loaded@.len() >= 2 + arity(d.analyzer),
                        arity(d.analyzer) == arity(st0),
                        d.provided@ == a0->Default_0.provided@,
                        provided_outcomes(d.provided@.take(i as int), loaded@, intervals@, tt@, usage, st0).1 == d.analyzer,
                        provided_outcomes(d.provided@.take(i as int), loaded@, intervals@, tt@, usage, st0).0.len() == i,
                        forall|k: int| 0 <= k < i ==> (#[trigger] triggers@[k]).0@ == d.provided@[k].name_view()
                            && outcome_view(triggers@[k].1) == provided_outcomes(
                            d.provided@.take(i as int),
                            loaded@,
                            intervals@,
                            tt@,
                            usage,
                            st0,
                        ).0[k],
                    decreases d.provided@.len() - i,
                {
                    let ghost before = provided_outcomes(d.provided@.take(i as int), loaded@, intervals@, tt@, usage, st0);
                    let outcome = d.provided[i].analyze(&mut d.analyzer, loaded, &intervals, tt, &usage);
                    let ghost ov = outcome_view(outcome);
                    proof {
                        let s1 = d.provided@.take(i + 1);
                        assert(s1.drop_last() =~= d.provided@.take(i as int));
                        assert(s1.last() == d.provided@[i as int]);
                        assert(provided_outcomes(s1, loaded@, intervals@, tt@, usage, st0) == (before.0.push(ov), d.analyzer));
                    }
                    let ghost old_triggers = triggers@;
                    triggers.push((String::from_str(d.provided[i].name()), outcome));
                    proof {
                        let now = provided_outcomes(d.provided@.take(i + 1), loaded@, intervals@, tt@, usage, st0);
                        assert forall|k: int| 0 <= k < i + 1 implies (#[trigger] triggers@[k]).0@ == d.provided@[k].name_view()
                            && outcome_view(triggers@[k].1) == now.0[k] by {
                            if k < i {
                                assert(triggers@[k] == old_triggers[k]);
                                assert(now.0[k] == before.0[k]);
                            }
                        }
                    }
                    i = i + 1;
                }
                proof {
                    assert(d.provided@.take(i as int) =~= d.provided@);
                }
                let result = match usage {
                    Ok(u) => Ok(BusData::new(u, paths)),
                    Err(e) => Err(e),
                };
                let r = AnalyzerResult { name, result, triggers };
                assert(usage_of(r.result) == usage);
                assert(ran_with(a0, loaded@, intervals@, tt@, r));
                r
            },
            BusAnalyzer::AxiRead(x) => {
                let result = match x.calculate(loaded, &intervals, tt) {
                    Ok(u) => Ok(BusData::new(u, paths)),
                    Err(e) => Err(e.message()),
                };
                let r = AnalyzerResult { name, result, triggers: Vec::new() };
                assert(ran_with(a0, loaded@, intervals@, tt@, r));
                r
            },
            BusAnalyzer::AxiWrite(x) => {
                let result = match x.calculate(loaded, &intervals, tt) {
                    Ok(u) => Ok(BusData::new(u, paths)),
                    Err(e) => Err(e.message()),
                };
                let r = AnalyzerResult { name, result, triggers: Vec::new() };
                assert(ran_with(a0, loaded@, intervals@, tt@, r));
                r
            },
        }
    }
}

} // verus!
