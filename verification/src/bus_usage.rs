//! Statistics gathered for buses.
use vstd::prelude::*;

use crate::{CycleType, CyclesNum, SignalPath};
use std::collections::HashMap;
use vstd::string::{StrSliceExecFns, StringExecFns};
use crate::text::{decimal, decimal_i64};
use vstd::arithmetic::power2::{pow2, lemma_pow2_unfold, lemma_pow2_strictly_increases, lemma2_to64};

verus! {

/// Waveform time.
pub type RealTime = u64;

/// Truncating integer division (rounds toward zero), for a positive divisor.
pub open spec fn trunc_div(a: int, b: int) -> int
    recommends
        b > 0,
{
    if a >= 0 {
        a / b
    } else {
        -((-a) / b)
    }
}

/// What a [Period] holds.
pub struct PeriodView {
    pub start: RealTime,
    pub end: RealTime,
    pub duration: CyclesNum,
}

/// Contains waveform times of start and end of some period and its duration in clock cycles.
#[derive(PartialEq, Eq, Debug, Clone, Copy, Structural)]
pub struct Period {
    start: RealTime,
    end: RealTime,
    duration: CyclesNum,
}

impl View for Period {
    type V = PeriodView;

    closed spec fn view(&self) -> PeriodView {
        PeriodView { start: self.start, end: self.end, duration: self.duration }
    }
}

/// The period that starts at `start` and lasts `duration` cycles of length `clk`:
/// its last cycle begins at `start + (duration - 1) * clk`.
pub open spec fn period_with_duration(start: int, duration: int, clk: int) -> PeriodView {
    PeriodView {
        start: start as RealTime,
        end: (start + (duration - 1) * clk) as RealTime,
        duration: duration as CyclesNum,
    }
}

/// `p` lengthened by `n` cycles of length `clk`.
pub open spec fn period_extended(p: PeriodView, n: int, clk: int) -> PeriodView {
    PeriodView {
        start: p.start,
        end: (p.end + n * clk) as RealTime,
        duration: (p.duration + n) as CyclesNum,
    }
}

impl Period {
    /// Period from `start` to `end`; its duration is the time between them
    /// in whole clock cycles, rounded toward zero.
    pub fn new(start: RealTime, end: RealTime, clk_period: RealTime) -> (r: Self)
        requires
            0 < clk_period <= i64::MAX,
            start <= i64::MAX,
            end <= i64::MAX,
        ensures
            r@ == (PeriodView {
                start,
                end,
                duration: trunc_div(end - start, clk_period as int) as CyclesNum,
            }),
    {
        let duration: CyclesNum = if end >= start {
            let q: u64 = (end - start) / clk_period;
            q as CyclesNum
        } else {
            let q: u64 = (start - end) / clk_period;
            assert(q <= i64::MAX) by (nonlinear_arith)
                requires
                    q == (start - end) / (clk_period as int),
                    start - end <= i64::MAX,
                    clk_period > 0,
            ;
            let neg: i64 = -(q as i64);
            neg as CyclesNum
        };
        Period { start, end, duration }
    }

    /// Period of `duration` cycles starting at `start`.
    pub fn with_duration(start: RealTime, duration: CyclesNum, clk_period: RealTime) -> (r: Self)
        requires
            duration >= 1,
            start + (duration - 1) * clk_period <= u64::MAX,
        ensures
            r@ == period_with_duration(start as int, duration as int, clk_period as int),
    {
        let d: u64 = (duration - 1) as u64;
        assert(d * clk_period <= u64::MAX) by (nonlinear_arith)
            requires
                start + d * clk_period <= u64::MAX,
                start >= 0,
        ;
        let end = start + d * clk_period;
        Period { start, end, duration }
    }

    /// Creates a period holding exactly the given values.
    pub fn literal(start: RealTime, end: RealTime, duration: CyclesNum) -> (r: Self)
        ensures
            r@ == (PeriodView { start, end, duration }),
    {
        Period { start, end, duration }
    }

    /// Lengthens the period by one clock cycle.
    pub fn add_cycle(&mut self, clk_period: RealTime)
        requires
            old(self)@.end + clk_period <= u64::MAX,
            old(self)@.duration + 1 <= i32::MAX,
        ensures
            final(self)@ == period_extended(old(self)@, 1, clk_period as int),
    {
        self.add_n_cycles(1, clk_period);
    }

    /// Lengthens the period by `n` clock cycles.
    pub fn add_n_cycles(&mut self, n: CyclesNum, clk_period: RealTime)
        requires
            n >= 0,
            old(self)@.end + n * clk_period <= u64::MAX,
            old(self)@.duration + n <= i32::MAX,
        ensures
            final(self)@ == period_extended(old(self)@, n as int, clk_period as int),
    {
        let m: u64 = n as u64;
        assert(m * clk_period <= u64::MAX) by (nonlinear_arith)
            requires
                self.end + m * clk_period <= u64::MAX,
        ;
        let added_time = m * clk_period;
        self.end = self.end + added_time;
        self.duration = self.duration + n;
    }

    pub fn start(&self) -> (r: RealTime)
        ensures
            r == self@.start,
    {
        self.start
    }

    pub fn end(&self) -> (r: RealTime)
        ensures
            r == self@.end,
    {
        self.end
    }

    pub fn duration(&self) -> (r: CyclesNum)
        ensures
            r == self@.duration,
    {
        self.duration
    }
}


/// Stores in what state is the bus currently.
#[derive(PartialEq, Eq, Debug, Clone, Copy, Structural)]
pub enum CurrentlyCalculating {
    /// Nothing counted yet
    Idle,
    Burst,
    Delay,
    /// Delay during burst
    Pause(CyclesNum),
}

/// What a [SingleChannelBusUsage] holds.
pub struct SingleChannelView {
    pub bus_name: Seq<char>,
    pub busy: CyclesNum,
    pub backpressure: CyclesNum,
    pub no_data: CyclesNum,
    pub no_transaction: CyclesNum,
    pub free: CyclesNum,
    pub reset: CyclesNum,
    pub transaction_delays: Seq<PeriodView>,
    pub burst_lengths: Seq<PeriodView>,
    pub current: CurrentlyCalculating,
    pub max_burst_delay: CyclesNum,
    pub clk_period: RealTime,
}

/// Contains statistics for a single channel bus.
#[derive(PartialEq, Eq, Debug)]
pub struct SingleChannelBusUsage {
    pub bus_name: String,
    busy: CyclesNum,
    backpressure: CyclesNum,
    no_data: CyclesNum,
    no_transaction: CyclesNum,
    free: CyclesNum,
    reset: CyclesNum,
    transaction_delays: Vec<Period>,
    burst_lengths: Vec<Period>,
    current: CurrentlyCalculating,
    max_burst_delay: CyclesNum,
    clk_period: RealTime,
}

impl View for SingleChannelBusUsage {
    type V = SingleChannelView;

    closed spec fn view(&self) -> SingleChannelView {
        SingleChannelView {
            bus_name: self.bus_name@,
            busy: self.busy,
            backpressure: self.backpressure,
            no_data: self.no_data,
            no_transaction: self.no_transaction,
            free: self.free,
            reset: self.reset,
            transaction_delays: self.transaction_delays@.map_values(|p: Period| p@),
            burst_lengths: self.burst_lengths@.map_values(|p: Period| p@),
            current: self.current,
            max_burst_delay: self.max_burst_delay,
            clk_period: self.clk_period,
        }
    }
}

/// Number of cycles counted in any state.
pub open spec fn total_cycles(s: SingleChannelView) -> int {
    s.busy + s.backpressure + s.no_data + s.no_transaction + s.free + s.reset
}

/// The counter that a cycle of type `t` increments (unknown cycles count as no transaction).
pub open spec fn counter_of(s: SingleChannelView, t: CycleType) -> CyclesNum {
    match t {
        CycleType::Busy => s.busy,
        CycleType::Free => s.free,
        CycleType::NoTransaction => s.no_transaction,
        CycleType::Backpressure => s.backpressure,
        CycleType::NoData => s.no_data,
        CycleType::Reset => s.reset,
        CycleType::Unknown => s.no_transaction,
    }
}

/// `s` with the counter for cycle type `t` incremented.
pub open spec fn counted(s: SingleChannelView, t: CycleType) -> SingleChannelView {
    match t {
        CycleType::Busy => SingleChannelView { busy: (s.busy + 1) as CyclesNum, ..s },
        CycleType::Free => SingleChannelView { free: (s.free + 1) as CyclesNum, ..s },
        CycleType::NoTransaction | CycleType::Unknown => SingleChannelView {
            no_transaction: (s.no_transaction + 1) as CyclesNum,
            ..s
        },
        CycleType::Backpressure => SingleChannelView {
            backpressure: (s.backpressure + 1) as CyclesNum,
            ..s
        },
        CycleType::NoData => SingleChannelView { no_data: (s.no_data + 1) as CyclesNum, ..s },
        CycleType::Reset => SingleChannelView { reset: (s.reset + 1) as CyclesNum, ..s },
    }
}

/// Bursts and delays after a busy cycle.
pub open spec fn busy_step(s: SingleChannelView) -> SingleChannelView {
    let clk = s.clk_period as int;
    let bursts = s.burst_lengths;
    match s.current {
        CurrentlyCalculating::Idle => SingleChannelView {
            burst_lengths: bursts.push(period_with_duration(0, 1, clk)),
            current: CurrentlyCalculating::Burst,
            ..s
        },
        CurrentlyCalculating::Burst => SingleChannelView {
            burst_lengths: bursts.update(bursts.len() - 1, period_extended(bursts.last(), 1, clk)),
            ..s
        },
        CurrentlyCalculating::Delay => SingleChannelView {
            burst_lengths: bursts.push(
                period_with_duration(s.transaction_delays.last().end + clk, 1, clk),
            ),
            current: CurrentlyCalculating::Burst,
            ..s
        },
        CurrentlyCalculating::Pause(d) => SingleChannelView {
            burst_lengths: bursts.update(
                bursts.len() - 1,
                period_extended(bursts.last(), d + 1, clk),
            ),
            current: CurrentlyCalculating::Burst,
            ..s
        },
    }
}

/// Bursts and delays after a cycle in which no data was transferred.
pub open spec fn wasted_step(s: SingleChannelView) -> SingleChannelView {
    let clk = s.clk_period as int;
    let delays = s.transaction_delays;
    match s.current {
        CurrentlyCalculating::Idle => SingleChannelView {
            transaction_delays: delays.push(period_with_duration(0, 1, clk)),
            current: CurrentlyCalculating::Delay,
            ..s
        },
        CurrentlyCalculating::Burst => if s.max_burst_delay == 0 {
            SingleChannelView {
                transaction_delays: delays.push(
                    period_with_duration(s.burst_lengths.last().end + clk, 1, clk),
                ),
                current: CurrentlyCalculating::Delay,
                ..s
            }
        } else {
            SingleChannelView { current: CurrentlyCalculating::Pause(1), ..s }
        },
        CurrentlyCalculating::Delay => SingleChannelView {
            transaction_delays: delays.update(
                delays.len() - 1,
                period_extended(delays.last(), 1, clk),
            ),
            ..s
        },
        CurrentlyCalculating::Pause(d) => if d + 1 > s.max_burst_delay {
            SingleChannelView {
                transaction_delays: delays.push(
                    period_with_duration(s.burst_lengths.last().end + clk, d + 1, clk),
                ),
                current: CurrentlyCalculating::Delay,
                ..s
            }
        } else {
            SingleChannelView { current: CurrentlyCalculating::Pause((d + 1) as CyclesNum), ..s }
        },
    }
}

/// The statistics after one more cycle of type `t`.
pub open spec fn cycle_step(s: SingleChannelView, t: CycleType) -> SingleChannelView {
    if t == CycleType::Busy {
        busy_step(counted(s, t))
    } else {
        wasted_step(counted(s, t))
    }
}

/// A busy cycle can be added without overflow and on a consistent state.
pub open spec fn busy_step_ok(s: SingleChannelView) -> bool {
    let clk = s.clk_period as int;
    &&& s.busy < i32::MAX
    &&& match s.current {
        CurrentlyCalculating::Idle => true,
        CurrentlyCalculating::Burst => {
            &&& s.burst_lengths.len() > 0
            &&& s.burst_lengths.last().end + clk <= u64::MAX
            &&& s.burst_lengths.last().duration + 1 <= i32::MAX
        },
        CurrentlyCalculating::Delay => {
            &&& s.transaction_delays.len() > 0
            &&& s.transaction_delays.last().end + clk <= u64::MAX
        },
        CurrentlyCalculating::Pause(d) => {
            &&& s.burst_lengths.len() > 0
            &&& 0 <= d < i32::MAX
            &&& s.burst_lengths.last().end + (d + 1) * clk <= u64::MAX
            &&& s.burst_lengths.last().duration + d + 1 <= i32::MAX
        },
    }
}

/// A non busy cycle of type `t` can be added without overflow and on a consistent state.
pub open spec fn wasted_step_ok(s: SingleChannelView, t: CycleType) -> bool {
    let clk = s.clk_period as int;
    &&& counter_of(s, t) < i32::MAX
    &&& match s.current {
        CurrentlyCalculating::Idle => true,
        CurrentlyCalculating::Burst => s.max_burst_delay == 0 ==> {
            &&& s.burst_lengths.len() > 0
            &&& s.burst_lengths.last().end + clk <= u64::MAX
        },
        CurrentlyCalculating::Delay => {
            &&& s.transaction_delays.len() > 0
            &&& s.transaction_delays.last().end + clk <= u64::MAX
            &&& s.transaction_delays.last().duration + 1 <= i32::MAX
        },
        CurrentlyCalculating::Pause(d) => {
            &&& d < i32::MAX
            &&& d + 1 > s.max_burst_delay ==> {
                &&& s.burst_lengths.len() > 0
                &&& d >= 0
                &&& s.burst_lengths.last().end + clk + d * clk <= u64::MAX
            }
        },
    }
}

/// A cycle of type `t` can be added.
pub open spec fn cycle_step_ok(s: SingleChannelView, t: CycleType) -> bool {
    if t == CycleType::Busy {
        busy_step_ok(s)
    } else {
        wasted_step_ok(s, t)
    }
}


impl SingleChannelBusUsage {
    /// Creates SingleChannelBusUsage with all statistics initialized to 0.
    /// To fill it with data use add_cycle() method for every cycle in the simulation.
    pub fn new(name: &str, max_burst_delay: CyclesNum, clk_to_time: u64) -> (r: SingleChannelBusUsage)
        ensures
            r@ == (SingleChannelView {
                bus_name: name@,
                busy: 0,
                backpressure: 0,
                no_data: 0,
                no_transaction: 0,
                free: 0,
                reset: 0,
                transaction_delays: Seq::empty(),
                burst_lengths: Seq::empty(),
                current: CurrentlyCalculating::Idle,
                max_burst_delay,
                clk_period: clk_to_time,
            }),
    {
        let r = SingleChannelBusUsage {
            bus_name: name.to_owned(),
            busy: 0,
            backpressure: 0,
            no_data: 0,
            no_transaction: 0,
            free: 0,
            reset: 0,
            transaction_delays: Vec::new(),
            burst_lengths: Vec::new(),
            current: CurrentlyCalculating::Idle,
            max_burst_delay,
            clk_period: clk_to_time,
        };
        assert(r@.transaction_delays =~= Seq::empty());
        assert(r@.burst_lengths =~= Seq::empty());
        r
    }

    /// Updates statistics by adding a cycle of given type.
    pub fn add_cycle(&mut self, t: CycleType)
        requires
            cycle_step_ok(old(self)@, t),
        ensures
            final(self)@ == cycle_step(old(self)@, t),
    {
        if let CycleType::Busy = t {
            self.add_busy_cycle();
        } else {
            self.add_wasted_cycle(t);
        }
    }

    fn add_busy_cycle(&mut self)
        requires
            busy_step_ok(old(self)@),
        ensures
            final(self)@ == busy_step(counted(old(self)@, CycleType::Busy)),
    {
        let ghost s = counted(self@, CycleType::Busy);
        let clk = self.clk_period;
        match self.current {
            CurrentlyCalculating::Idle => {
                let p = Period::with_duration(0, 1, clk);
                self.burst_lengths.push(p);
                self.current = CurrentlyCalculating::Burst;
            },
            CurrentlyCalculating::Burst => {
                let n = self.burst_lengths.len();
                let mut p = self.burst_lengths[n - 1];
                p.add_cycle(clk);
                self.burst_lengths.set(n - 1, p);
            },
            CurrentlyCalculating::Delay => {
                let n = self.transaction_delays.len();
                let delay_end = self.transaction_delays[n - 1].end();
                let p = Period::with_duration(delay_end + clk, 1, clk);
                self.burst_lengths.push(p);
                self.current = CurrentlyCalculating::Burst;
            },
            CurrentlyCalculating::Pause(duration) => {
                let n = self.burst_lengths.len();
                let mut p = self.burst_lengths[n - 1];
                p.add_n_cycles(duration + 1, clk);
                self.burst_lengths.set(n - 1, p);
                self.current = CurrentlyCalculating::Burst;
            },
        }
        self.busy = self.busy + 1;
        assert(self@.burst_lengths =~= busy_step(s).burst_lengths);
        assert(self@.transaction_delays =~= busy_step(s).transaction_delays);
    }

    fn add_wasted_cycle(&mut self, t: CycleType)
        requires
            t != CycleType::Busy,
            wasted_step_ok(old(self)@, t),
        ensures
            final(self)@ == wasted_step(counted(old(self)@, t)),
    {
        let ghost s = counted(self@, t);
        match t {
            CycleType::Free => self.free = self.free + 1,
            CycleType::NoTransaction => self.no_transaction = self.no_transaction + 1,
            CycleType::Backpressure => self.backpressure = self.backpressure + 1,
            CycleType::NoData => self.no_data = self.no_data + 1,
            CycleType::Reset => self.reset = self.reset + 1,
            CycleType::Busy => {},
            CycleType::Unknown => self.no_transaction = self.no_transaction + 1,
        }
        let clk = self.clk_period;
        match self.current {
            CurrentlyCalculating::Idle => {
                let p = Period::with_duration(0, 1, clk);
                self.transaction_delays.push(p);
                self.current = CurrentlyCalculating::Delay;
            },
            CurrentlyCalculating::Burst => {
                if self.max_burst_delay == 0 {
                    let n = self.burst_lengths.len();
                    let transaction_end = self.burst_lengths[n - 1].end();
                    let p = Period::with_duration(transaction_end + clk, 1, clk);
                    self.transaction_delays.push(p);
                    self.current = CurrentlyCalculating::Delay;
                } else {
                    self.current = CurrentlyCalculating::Pause(1);
                }
            },
            CurrentlyCalculating::Delay => {
                let n = self.transaction_delays.len();
                let mut p = self.transaction_delays[n - 1];
                p.add_cycle(clk);
                self.transaction_delays.set(n - 1, p);
            },
            CurrentlyCalculating::Pause(duration) => {
                if duration + 1 > self.max_burst_delay {
                    let n = self.burst_lengths.len();
                    let transaction_end = self.burst_lengths[n - 1].end();
                    let p = Period::with_duration(transaction_end + clk, duration + 1, clk);
                    self.transaction_delays.push(p);
                    self.current = CurrentlyCalculating::Delay;
                } else {
                    self.current = CurrentlyCalculating::Pause(duration + 1);
                }
            },
        }
        assert(self@.burst_lengths =~= wasted_step(s).burst_lengths);
        assert(self@.transaction_delays =~= wasted_step(s).transaction_delays);
    }

    /// Creates SingleChannelBusUsage with given values - for tests purposes.
    #[allow(clippy::too_many_arguments)]
    pub fn literal(
        bus_name: &str,
        busy: CyclesNum,
        backpressure: CyclesNum,
        no_data: CyclesNum,
        no_transaction: CyclesNum,
        free: CyclesNum,
        reset: CyclesNum,
        transaction_delays: Vec<Period>,
        burst_lengths: Vec<Period>,
        max_burst_delay: CyclesNum,
        current: CurrentlyCalculating,
        clk_to_time: u64,
    ) -> (r: SingleChannelBusUsage)
        ensures
            r@ == (SingleChannelView {
                bus_name: bus_name@,
                busy,
                backpressure,
                no_data,
                no_transaction,
                free,
                reset,
                transaction_delays: transaction_delays@.map_values(|p: Period| p@),
                burst_lengths: burst_lengths@.map_values(|p: Period| p@),
                current,
                max_burst_delay,
                clk_period: clk_to_time,
            }),
    {
        SingleChannelBusUsage {
            bus_name: bus_name.to_owned(),
            busy,
            backpressure,
            no_data,
            no_transaction,
            free,
            reset,
            transaction_delays,
            burst_lengths,
            max_burst_delay,
            current,
            clk_period: clk_to_time,
        }
    }
}

} // verus!

verus! {

/// Sum of the durations of `s`.
pub open spec fn sum_durations(s: Seq<PeriodView>) -> int
    decreases s.len(),
{
    if s.len() == 0 {
        0
    } else {
        sum_durations(s.drop_last()) + s.last().duration
    }
}

/// Cycles of a pause inside a burst that no period holds yet.
pub open spec fn pending_cycles(c: CurrentlyCalculating) -> int {
    match c {
        CurrentlyCalculating::Pause(d) => d as int,
        _ => 0,
    }
}

/// Every counted cycle lies in exactly one burst or delay, or in the pending pause.
pub open spec fn all_cycles_accounted(s: SingleChannelView) -> bool {
    sum_durations(s.burst_lengths) + sum_durations(s.transaction_delays) + pending_cycles(s.current)
        == total_cycles(s)
}

/// A period of at least one cycle whose last cycle starts `duration - 1` cycles after its start.
pub open spec fn period_well_formed(p: PeriodView, clk: int) -> bool {
    &&& p.duration >= 1
    &&& p.end == p.start + (p.duration - 1) * clk
}

pub open spec fn periods_well_formed(s: Seq<PeriodView>, clk: int) -> bool {
    forall|i: int| 0 <= i < s.len() ==> #[trigger] period_well_formed(s[i], clk)
}

/// The most recent period ends where the timeline of counted cycles says it does:
/// cycle number `k` (from 0) starts at time `k * clk`.
pub open spec fn on_timeline(s: SingleChannelView) -> bool {
    let clk = s.clk_period as int;
    let n = total_cycles(s);
    match s.current {
        CurrentlyCalculating::Idle => n == 0 && s.burst_lengths.len() == 0
            && s.transaction_delays.len() == 0,
        CurrentlyCalculating::Burst => s.burst_lengths.len() > 0 && s.burst_lengths.last().end == (
        n - 1) * clk,
        CurrentlyCalculating::Delay => s.transaction_delays.len() > 0
            && s.transaction_delays.last().end == (n - 1) * clk,
        CurrentlyCalculating::Pause(d) => d >= 1 && s.burst_lengths.len() > 0
            && s.burst_lengths.last().end == (n - 1 - d) * clk,
    }
}

/// What holds of every bus usage built by `new` and `add_cycle`.
pub open spec fn usage_invariant(s: SingleChannelView) -> bool {
    &&& s.busy >= 0
    &&& s.backpressure >= 0
    &&& s.no_data >= 0
    &&& s.no_transaction >= 0
    &&& s.free >= 0
    &&& s.reset >= 0
    &&& all_cycles_accounted(s)
    &&& periods_well_formed(s.burst_lengths, s.clk_period as int)
    &&& periods_well_formed(s.transaction_delays, s.clk_period as int)
    &&& on_timeline(s)
}

proof fn lemma_sum_push(s: Seq<PeriodView>, p: PeriodView)
    ensures
        sum_durations(s.push(p)) == sum_durations(s) + p.duration,
{
    assert(s.push(p).drop_last() =~= s);
}

proof fn lemma_sum_update_last(s: Seq<PeriodView>, p: PeriodView)
    requires
        s.len() > 0,
    ensures
        sum_durations(s.update(s.len() - 1, p)) == sum_durations(s) - s.last().duration
            + p.duration,
{
    assert(s.update(s.len() - 1, p).drop_last() =~= s.drop_last());
}

proof fn lemma_sum_nonneg(s: Seq<PeriodView>, clk: int)
    requires
        periods_well_formed(s, clk),
    ensures
        sum_durations(s) >= 0,
        s.len() > 0 ==> sum_durations(s) >= s.last().duration,
    decreases s.len(),
{
    if s.len() > 0 {
        assert(period_well_formed(s[s.len() - 1], clk));
        assert(periods_well_formed(s.drop_last(), clk)) by {
            assert forall|i: int| 0 <= i < s.drop_last().len() implies #[trigger] period_well_formed(
                s.drop_last()[i],
                clk,
            ) by {
                assert(period_well_formed(s[i], clk));
            }
        }
        lemma_sum_nonneg(s.drop_last(), clk);
    }
}

proof fn lemma_well_formed_push(s: Seq<PeriodView>, p: PeriodView, clk: int)
    requires
        periods_well_formed(s, clk),
        period_well_formed(p, clk),
    ensures
        periods_well_formed(s.push(p), clk),
{
    assert forall|i: int| 0 <= i < s.push(p).len() implies #[trigger] period_well_formed(
        s.push(p)[i],
        clk,
    ) by {
        if i < s.len() {
            assert(period_well_formed(s[i], clk));
        }
    }
}

proof fn lemma_well_formed_update_last(s: Seq<PeriodView>, p: PeriodView, clk: int)
    requires
        s.len() > 0,
        periods_well_formed(s, clk),
        period_well_formed(p, clk),
    ensures
        periods_well_formed(s.update(s.len() - 1, p), clk),
{
    assert forall|i: int| 0 <= i < s.len() implies #[trigger] period_well_formed(
        s.update(s.len() - 1, p)[i],
        clk,
    ) by {
        if i < s.len() - 1 {
            assert(period_well_formed(s[i], clk));
        }
    }
}

proof fn lemma_extended_well_formed(p: PeriodView, n: int, clk: int)
    requires
        period_well_formed(p, clk),
        n >= 0,
        p.end + n * clk <= u64::MAX,
        p.duration + n <= i32::MAX,
        clk >= 0,
    ensures
        period_well_formed(period_extended(p, n, clk), clk),
        period_extended(p, n, clk).end == p.end + n * clk,
{
    assert(p.start + (p.duration - 1) * clk + n * clk == p.start + (p.duration + n - 1) * clk)
        by (nonlinear_arith);
    assert(n * clk >= 0) by (nonlinear_arith)
        requires
            n >= 0,
            clk >= 0,
    ;
}

proof fn lemma_with_duration_well_formed(start: int, d: int, clk: int)
    requires
        d >= 1,
        d <= i32::MAX,
        start >= 0,
        start + (d - 1) * clk <= u64::MAX,
        clk >= 0,
    ensures
        period_well_formed(period_with_duration(start, d, clk), clk),
{
    assert((d - 1) * clk >= 0) by (nonlinear_arith)
        requires
            d >= 1,
            clk >= 0,
    ;
}

/// Law: every cycle is counted once, in the counter of its state (unknown cycles
/// are counted as no transaction); the other counters stay as they were.
pub proof fn lemma_cycle_counted(s: SingleChannelView, t: CycleType)
    requires
        cycle_step_ok(s, t),
    ensures
        total_cycles(cycle_step(s, t)) == total_cycles(s) + 1,
        counter_of(cycle_step(s, t), t) == counter_of(s, t) + 1,
        t != CycleType::Busy ==> cycle_step(s, t).busy == s.busy,
        t == CycleType::Busy ==> cycle_step(s, t).busy == s.busy + 1,
        cycle_step(s, t).bus_name == s.bus_name,
        cycle_step(s, t).max_burst_delay == s.max_burst_delay,
        cycle_step(s, t).clk_period == s.clk_period,
{
}

/// Law: a usage created by `new` satisfies the invariant.
pub proof fn lemma_new_usage_invariant(name: Seq<char>, max_burst_delay: CyclesNum, clk: RealTime)
    ensures
        usage_invariant(
            SingleChannelView {
                bus_name: name,
                busy: 0,
                backpressure: 0,
                no_data: 0,
                no_transaction: 0,
                free: 0,
                reset: 0,
                transaction_delays: Seq::empty(),
                burst_lengths: Seq::empty(),
                current: CurrentlyCalculating::Idle,
                max_burst_delay,
                clk_period: clk,
            },
        ),
{
}

} // verus!

verus! {

/// Law: adding a cycle keeps the invariant: the cycles stay accounted for exactly once,
/// the periods stay well formed and the most recent one stays on the timeline.
pub proof fn lemma_cycle_step_invariant(s: SingleChannelView, t: CycleType)
    requires
        usage_invariant(s),
        cycle_step_ok(s, t),
    ensures
        usage_invariant(cycle_step(s, t)),
{
    let c = counted(s, t);
    let r = cycle_step(s, t);
    let clk = s.clk_period as int;
    let n = total_cycles(s);
    assert(total_cycles(c) == n + 1);
    assert(clk >= 0);
    if t == CycleType::Busy {
        match s.current {
            CurrentlyCalculating::Idle => {
                lemma_sum_push(c.burst_lengths, period_with_duration(0, 1, clk));
                lemma_with_duration_well_formed(0, 1, clk);
                lemma_well_formed_push(c.burst_lengths, period_with_duration(0, 1, clk), clk);
            },
            CurrentlyCalculating::Burst => {
                let last = c.burst_lengths.last();
                assert(period_well_formed(c.burst_lengths[c.burst_lengths.len() - 1], clk));
                lemma_extended_well_formed(last, 1, clk);
                lemma_sum_update_last(c.burst_lengths, period_extended(last, 1, clk));
                lemma_well_formed_update_last(
                    c.burst_lengths,
                    period_extended(last, 1, clk),
                    clk,
                );
                assert((n - 1) * clk + 1 * clk == ((n + 1) - 1) * clk) by (nonlinear_arith);
            },
            CurrentlyCalculating::Delay => {
                let start = c.transaction_delays.last().end + clk;
                lemma_sum_push(c.burst_lengths, period_with_duration(start, 1, clk));
                lemma_with_duration_well_formed(start, 1, clk);
                lemma_well_formed_push(c.burst_lengths, period_with_duration(start, 1, clk), clk);
                assert((n - 1) * clk + clk == ((n + 1) - 1) * clk) by (nonlinear_arith);
            },
            CurrentlyCalculating::Pause(d) => {
                let last = c.burst_lengths.last();
                assert(period_well_formed(c.burst_lengths[c.burst_lengths.len() - 1], clk));
                lemma_extended_well_formed(last, d + 1, clk);
                lemma_sum_update_last(c.burst_lengths, period_extended(last, d + 1, clk));
                lemma_well_formed_update_last(
                    c.burst_lengths,
                    period_extended(last, d + 1, clk),
                    clk,
                );
                assert((n - 1 - d) * clk + (d + 1) * clk == ((n + 1) - 1) * clk)
                    by (nonlinear_arith);
            },
        }
    } else {
        match s.current {
            CurrentlyCalculating::Idle => {
                lemma_sum_push(c.transaction_delays, period_with_duration(0, 1, clk));
                lemma_with_duration_well_formed(0, 1, clk);
                lemma_well_formed_push(
                    c.transaction_delays,
                    period_with_duration(0, 1, clk),
                    clk,
                );
            },
            CurrentlyCalculating::Burst => {
                if s.max_burst_delay == 0 {
                    let start = c.burst_lengths.last().end + clk;
                    lemma_sum_push(c.transaction_delays, period_with_duration(start, 1, clk));
                    lemma_with_duration_well_formed(start, 1, clk);
                    lemma_well_formed_push(
                        c.transaction_delays,
                        period_with_duration(start, 1, clk),
                        clk,
                    );
                    assert((n - 1) * clk + clk == ((n + 1) - 1) * clk) by (nonlinear_arith);
                } else {
                    assert((n - 1) * clk == ((n + 1) - 1 - 1) * clk);
                }
            },
            CurrentlyCalculating::Delay => {
                let last = c.transaction_delays.last();
                assert(period_well_formed(
                    c.transaction_delays[c.transaction_delays.len() - 1],
                    clk,
                ));
                lemma_extended_well_formed(last, 1, clk);
                lemma_sum_update_last(c.transaction_delays, period_extended(last, 1, clk));
                lemma_well_formed_update_last(
                    c.transaction_delays,
                    period_extended(last, 1, clk),
                    clk,
                );
                assert((n - 1) * clk + 1 * clk == ((n + 1) - 1) * clk) by (nonlinear_arith);
            },
            CurrentlyCalculating::Pause(d) => {
                if d + 1 > s.max_burst_delay {
                    let start = c.burst_lengths.last().end + clk;
                    let p = period_with_duration(start, d + 1, clk);
                    assert(start + (d + 1 - 1) * clk == start + d * clk);
                    lemma_sum_push(c.transaction_delays, p);
                    lemma_with_duration_well_formed(start, d + 1, clk);
                    lemma_well_formed_push(c.transaction_delays, p, clk);
                    assert((n - 1 - d) * clk + clk + d * clk == ((n + 1) - 1) * clk)
                        by (nonlinear_arith);
                } else {
                    assert((n - 1 - d) * clk == ((n + 1) - 1 - (d + 1)) * clk);
                }
            },
        }
    }
}

/// `first` and `second` take turns from time 0: `first` starts at 0, each period of
/// `second` starts one clock period after the period of `first` before it ends, and each
/// next period of `first` one clock period after the period of `second` before it ends.
pub open spec fn alternate(first: Seq<PeriodView>, second: Seq<PeriodView>, clk: int) -> bool {
    &&& second.len() <= first.len() <= second.len() + 1
    &&& first.len() > 0 ==> first[0].start == 0
    &&& forall|i: int| 0 <= i < second.len() ==> #[trigger] second[i].start == first[i].end + clk
    &&& forall|i: int, j: int|
        #![trigger first[j], second[i]]
        0 <= i < second.len() && j == i + 1 && j < first.len() ==> first[j].start == second[i].end + clk
}

/// The bursts and the delays between transactions tile the timeline of counted cycles from
/// time 0, taking turns, each starting one clock period after the other ends; the last one
/// started is the one being calculated.
pub open spec fn timeline_tiled(s: SingleChannelView) -> bool {
    let clk = s.clk_period as int;
    let b = s.burst_lengths;
    let e = s.transaction_delays;
    match s.current {
        CurrentlyCalculating::Idle => b.len() == 0 && e.len() == 0,
        CurrentlyCalculating::Delay => (alternate(b, e, clk) && b.len() == e.len()) || (alternate(e, b, clk)
            && e.len() == b.len() + 1),
        _ => (alternate(b, e, clk) && b.len() == e.len() + 1) || (alternate(e, b, clk) && b.len() == e.len()),
    }
}

proof fn lemma_alternate_push_first(f: Seq<PeriodView>, s: Seq<PeriodView>, p: PeriodView, clk: int)
    requires
        alternate(f, s, clk),
        s.len() == f.len(),
        f.len() == 0 ==> p.start == 0,
        f.len() > 0 ==> p.start == s.last().end + clk,
    ensures
        alternate(f.push(p), s, clk),
{
    let g = f.push(p);
    assert forall|i: int| 0 <= i < s.len() implies #[trigger] s[i].start == g[i].end + clk by {
        assert(g[i] == f[i]);
    }
    assert forall|i: int, j: int| 0 <= i < s.len() && j == i + 1 && j < g.len() implies g[j].start == s[i].end + clk by {
        if j < f.len() {
            assert(g[j] == f[j]);
        }
    }
    if f.len() > 0 {
        assert(g[0] == f[0]);
    }
}

proof fn lemma_alternate_push_second(f: Seq<PeriodView>, s: Seq<PeriodView>, p: PeriodView, clk: int)
    requires
        alternate(f, s, clk),
        s.len() + 1 == f.len(),
        p.start == f.last().end + clk,
    ensures
        alternate(f, s.push(p), clk),
{
    let t = s.push(p);
    assert forall|i: int| 0 <= i < t.len() implies #[trigger] t[i].start == f[i].end + clk by {
        if i < s.len() {
            assert(t[i] == s[i]);
        }
    }
    assert forall|i: int, j: int| 0 <= i < t.len() && j == i + 1 && j < f.len() implies f[j].start == t[i].end + clk by {
        assert(t[i] == s[i]);
    }
}

proof fn lemma_alternate_update_first(f: Seq<PeriodView>, s: Seq<PeriodView>, p: PeriodView, clk: int)
    requires
        alternate(f, s, clk),
        f.len() > 0,
        s.len() + 1 == f.len(),
        p.start == f.last().start,
    ensures
        alternate(f.update(f.len() - 1, p), s, clk),
{
    let g = f.update(f.len() - 1, p);
    assert forall|i: int| 0 <= i < s.len() implies #[trigger] s[i].start == g[i].end + clk by {
        assert(g[i] == f[i]);
    }
    assert forall|i: int, j: int| 0 <= i < s.len() && j == i + 1 && j < g.len() implies g[j].start == s[i].end + clk by {
        if j < f.len() - 1 {
            assert(g[j] == f[j]);
        }
    }
    if f.len() > 1 {
        assert(g[0] == f[0]);
    }
}

proof fn lemma_alternate_update_second(f: Seq<PeriodView>, s: Seq<PeriodView>, p: PeriodView, clk: int)
    requires
        alternate(f, s, clk),
        s.len() > 0,
        s.len() == f.len(),
        p.start == s.last().start,
    ensures
        alternate(f, s.update(s.len() - 1, p), clk),
{
    let t = s.update(s.len() - 1, p);
    assert forall|i: int| 0 <= i < t.len() implies #[trigger] t[i].start == f[i].end + clk by {
        if i < s.len() - 1 {
            assert(t[i] == s[i]);
        }
    }
    assert forall|i: int, j: int| 0 <= i < t.len() && j == i + 1 && j < f.len() implies f[j].start == t[i].end + clk by {
        assert(t[i] == s[i]);
    }
}

/// Law: a usage created by `new` tiles its (empty) timeline.
pub proof fn lemma_new_usage_tiled(name: Seq<char>, max_burst_delay: CyclesNum, clk: RealTime)
    ensures
        timeline_tiled(
            SingleChannelView {
                bus_name: name,
                busy: 0,
                backpressure: 0,
                no_data: 0,
                no_transaction: 0,
                free: 0,
                reset: 0,
                transaction_delays: Seq::empty(),
                burst_lengths: Seq::empty(),
                current: CurrentlyCalculating::Idle,
                max_burst_delay,
                clk_period: clk,
            },
        ),
{
}

/// Law: adding a cycle keeps the bursts and delays tiling the timeline: they take turns from
/// time 0, each starting one clock period after the one before ends.
pub proof fn lemma_cycle_step_tiled(s: SingleChannelView, t: CycleType)
    requires
        usage_invariant(s),
        timeline_tiled(s),
        cycle_step_ok(s, t),
    ensures
        timeline_tiled(cycle_step(s, t)),
{
    let c = counted(s, t);
    let clk = s.clk_period as int;
    let b = s.burst_lengths;
    let e = s.transaction_delays;
    assert(c.burst_lengths == b && c.transaction_delays == e && c.current == s.current);
    if t == CycleType::Busy {
        match s.current {
            CurrentlyCalculating::Idle => {
                lemma_alternate_push_first(b, e, period_with_duration(0, 1, clk), clk);
            },
            CurrentlyCalculating::Delay => {
                let p = period_with_duration(e.last().end + clk, 1, clk);
                if alternate(b, e, clk) && b.len() == e.len() {
                    lemma_alternate_push_first(b, e, p, clk);
                } else {
                    lemma_alternate_push_second(e, b, p, clk);
                }
            },
            CurrentlyCalculating::Burst => {
                let p = period_extended(b.last(), 1, clk);
                if alternate(b, e, clk) && b.len() == e.len() + 1 {
                    lemma_alternate_update_first(b, e, p, clk);
                } else {
                    lemma_alternate_update_second(e, b, p, clk);
                }
            },
            CurrentlyCalculating::Pause(d) => {
                let p = period_extended(b.last(), d + 1, clk);
                if alternate(b, e, clk) && b.len() == e.len() + 1 {
                    lemma_alternate_update_first(b, e, p, clk);
                } else {
                    lemma_alternate_update_second(e, b, p, clk);
                }
            },
        }
    } else {
        match s.current {
            CurrentlyCalculating::Idle => {
                lemma_alternate_push_first(e, b, period_with_duration(0, 1, clk), clk);
            },
            CurrentlyCalculating::Burst => {
                if s.max_burst_delay == 0 {
                    let p = period_with_duration(b.last().end + clk, 1, clk);
                    if alternate(b, e, clk) && b.len() == e.len() + 1 {
                        lemma_alternate_push_second(b, e, p, clk);
                    } else {
                        lemma_alternate_push_first(e, b, p, clk);
                    }
                }
            },
            CurrentlyCalculating::Delay => {
                let p = period_extended(e.last(), 1, clk);
                if alternate(b, e, clk) && b.len() == e.len() {
                    lemma_alternate_update_second(b, e, p, clk);
                } else {
                    lemma_alternate_update_first(e, b, p, clk);
                }
            },
            CurrentlyCalculating::Pause(d) => {
                if d + 1 > s.max_burst_delay {
                    let p = period_with_duration(b.last().end + clk, d + 1, clk);
                    if alternate(b, e, clk) && b.len() == e.len() + 1 {
                        lemma_alternate_push_second(b, e, p, clk);
                    } else {
                        lemma_alternate_push_first(e, b, p, clk);
                    }
                }
            },
        }
    }
}

/// Law: a usage that satisfies the invariant accepts any further cycle as long as the
/// number of counted cycles fits `CyclesNum` and the time of the next cycle fits `RealTime`.
pub proof fn lemma_cycle_step_ok_in_range(s: SingleChannelView, t: CycleType)
    requires
        usage_invariant(s),
        total_cycles(s) + 1 < i32::MAX,
        (total_cycles(s) + 1) * s.clk_period <= u64::MAX,
    ensures
        cycle_step_ok(s, t),
{
    let clk = s.clk_period as int;
    let n = total_cycles(s);
    lemma_sum_nonneg(s.burst_lengths, clk);
    lemma_sum_nonneg(s.transaction_delays, clk);
    assert(n * clk <= (n + 1) * clk) by (nonlinear_arith)
        requires
            clk >= 0,
    ;
    match s.current {
        CurrentlyCalculating::Idle => {},
        CurrentlyCalculating::Burst => {
            assert((n - 1) * clk + clk == n * clk) by (nonlinear_arith);
        },
        CurrentlyCalculating::Delay => {
            assert((n - 1) * clk + clk == n * clk) by (nonlinear_arith);
        },
        CurrentlyCalculating::Pause(d) => {
            assert((n - 1 - d) * clk + (d + 1) * clk == n * clk) by (nonlinear_arith);
            assert((n - 1 - d) * clk + clk + d * clk == n * clk) by (nonlinear_arith);
        },
    }
}

} // verus!

verus! {

/// With no pause allowed inside a burst, bursts hold exactly the busy cycles and
/// delays hold exactly the other cycles.
pub open spec fn bursts_are_busy_cycles(s: SingleChannelView) -> bool {
    &&& s.current !is Pause
    &&& sum_durations(s.burst_lengths) == s.busy
    &&& sum_durations(s.transaction_delays) == total_cycles(s) - s.busy
}

/// Law: when `max_burst_delay` is 0, the burst lengths add up to the busy cycles and the
/// delays between transactions add up to all other cycles, after any cycle.
pub proof fn lemma_no_pause_bursts_are_busy(s: SingleChannelView, t: CycleType)
    requires
        s.max_burst_delay == 0,
        bursts_are_busy_cycles(s),
        cycle_step_ok(s, t),
    ensures
        bursts_are_busy_cycles(cycle_step(s, t)),
{
    let c = counted(s, t);
    let clk = s.clk_period as int;
    if t == CycleType::Busy {
        match s.current {
            CurrentlyCalculating::Idle => {
                lemma_sum_push(c.burst_lengths, period_with_duration(0, 1, clk));
            },
            CurrentlyCalculating::Burst => {
                lemma_sum_update_last(
                    c.burst_lengths,
                    period_extended(c.burst_lengths.last(), 1, clk),
                );
            },
            CurrentlyCalculating::Delay => {
                lemma_sum_push(
                    c.burst_lengths,
                    period_with_duration(c.transaction_delays.last().end + clk, 1, clk),
                );
            },
            CurrentlyCalculating::Pause(_) => {},
        }
    } else {
        match s.current {
            CurrentlyCalculating::Idle => {
                lemma_sum_push(c.transaction_delays, period_with_duration(0, 1, clk));
            },
            CurrentlyCalculating::Burst => {
                lemma_sum_push(
                    c.transaction_delays,
                    period_with_duration(c.burst_lengths.last().end + clk, 1, clk),
                );
            },
            CurrentlyCalculating::Delay => {
                lemma_sum_update_last(
                    c.transaction_delays,
                    period_extended(c.transaction_delays.last(), 1, clk),
                );
            },
            CurrentlyCalculating::Pause(_) => {},
        }
    }
}

} // verus!

verus! {

broadcast use vstd::std_specs::hash::group_hash_axioms;

/// Number of periods in `s` that last `v` cycles.
pub open spec fn count_duration(s: Seq<PeriodView>, v: int) -> nat
    decreases s.len(),
{
    if s.len() == 0 {
        0
    } else {
        count_duration(s.drop_last(), v) + if s.last().duration == v {
            1nat
        } else {
            0nat
        }
    }
}

proof fn lemma_count_duration_le_len(s: Seq<PeriodView>, v: int)
    ensures
        count_duration(s, v) <= s.len(),
    decreases s.len(),
{
    if s.len() > 0 {
        lemma_count_duration_le_len(s.drop_last(), v);
    }
}

proof fn lemma_count_bucket_le_len(s: Seq<PeriodView>, b: int)
    ensures
        count_bucket(s, b) <= s.len(),
    decreases s.len(),
{
    if s.len() > 0 {
        lemma_count_bucket_le_len(s.drop_last(), b);
    }
}

/// The buckets that hold at least one period of `s`.
pub open spec fn distinct_buckets(s: Seq<PeriodView>) -> Set<CyclesNum> {
    Set::new(|b: CyclesNum| count_bucket(s, b as int) > 0)
}

/// Shortest duration in `s` (meaningful for a non empty `s`).
pub open spec fn min_duration(s: Seq<PeriodView>) -> int
    decreases s.len(),
{
    if s.len() <= 1 {
        s[0].duration as int
    } else if s.last().duration < min_duration(s.drop_last()) {
        s.last().duration as int
    } else {
        min_duration(s.drop_last())
    }
}

/// Longest duration in `s` (meaningful for a non empty `s`).
pub open spec fn max_duration(s: Seq<PeriodView>) -> int
    decreases s.len(),
{
    if s.len() <= 1 {
        s[0].duration as int
    } else if s.last().duration > max_duration(s.drop_last()) {
        s.last().duration as int
    } else {
        max_duration(s.drop_last())
    }
}

/// `name: min-max clock cycles`, or `name: no data` when there are no periods.
pub open spec fn range_display(name: Seq<char>, s: Seq<PeriodView>) -> Seq<char> {
    if s.len() == 0 {
        name + ": no data"@
    } else {
        name + ": "@ + decimal(min_duration(s)) + "-"@ + decimal(max_duration(s))
            + " clock cycles"@
    }
}

/// Floor of the base 2 logarithm (0 for 0 and 1).
pub open spec fn floor_log2(n: nat) -> nat
    decreases n,
{
    if n <= 1 {
        0
    } else {
        1 + floor_log2(n / 2)
    }
}

/// Logarithmic bucket of a duration: 0 for 0; `k` for `2^(k-1) <= v < 2^k`;
/// `-k` for `2^(k-1) <= -v < 2^k`.
pub open spec fn bucket_of(v: int) -> int {
    if v == 0 {
        0
    } else if v > 0 {
        (floor_log2(v as nat) + 1) as int
    } else {
        -(floor_log2((-v) as nat) + 1)
    }
}

/// Number of periods in `s` whose duration falls in bucket `b`.
pub open spec fn count_bucket(s: Seq<PeriodView>, b: int) -> nat
    decreases s.len(),
{
    if s.len() == 0 {
        0
    } else {
        count_bucket(s.drop_last(), b) + if bucket_of(s.last().duration as int) == b {
            1nat
        } else {
            0nat
        }
    }
}

/// The periods of `s` that last `v` cycles, in order.
pub open spec fn periods_of_duration(s: Seq<PeriodView>, v: int) -> Seq<PeriodView>
    decreases s.len(),
{
    if s.len() == 0 {
        Seq::empty()
    } else if s.last().duration == v {
        periods_of_duration(s.drop_last(), v).push(s.last())
    } else {
        periods_of_duration(s.drop_last(), v)
    }
}

/// The periods of `s` whose duration falls in bucket `b`, in order.
pub open spec fn periods_in_bucket(s: Seq<PeriodView>, b: int) -> Seq<PeriodView>
    decreases s.len(),
{
    if s.len() == 0 {
        Seq::empty()
    } else if bucket_of(s.last().duration as int) == b {
        periods_in_bucket(s.drop_last(), b).push(s.last())
    } else {
        periods_in_bucket(s.drop_last(), b)
    }
}

/// No duration in `s` is `i32::MIN` (whose magnitude does not fit `CyclesNum`).
pub open spec fn durations_have_magnitude(s: Seq<PeriodView>) -> bool {
    forall|i: int| 0 <= i < s.len() ==> #[trigger] s[i].duration != i32::MIN
}

pub open spec fn period_views(v: Seq<Period>) -> Seq<PeriodView> {
    v.map_values(|p: Period| p@)
}

/// `floor_log2(n)` is the exponent of the largest power of two not above `n`.
pub proof fn lemma_floor_log2_bounds(n: nat)
    requires
        n >= 1,
    ensures
        pow2(floor_log2(n)) <= n < pow2(floor_log2(n) + 1),
    decreases n,
{
    reveal(pow2);
    if n <= 1 {
        lemma_pow2_unfold(1);
        assert(pow2(0) == 1) by {
            reveal(vstd::arithmetic::power::pow);
        }
    } else {
        lemma_floor_log2_bounds(n / 2);
        let k = floor_log2(n / 2);
        lemma_pow2_unfold(k + 1);
        lemma_pow2_unfold(k + 2);
    }
}

/// A positive number below `2^k` has a logarithm below `k`.
pub proof fn lemma_floor_log2_below(n: nat, k: nat)
    requires
        1 <= n < pow2(k),
    ensures
        floor_log2(n) < k,
{
    lemma_floor_log2_bounds(n);
    if floor_log2(n) >= k {
        if floor_log2(n) > k {
            lemma_pow2_strictly_increases(k, floor_log2(n));
        }
    }
}

/// Floor of the base 2 logarithm of a positive number.
pub fn ilog2(v: u32) -> (r: u32)
    requires
        v > 0,
    ensures
        r == floor_log2(v as nat),
        r < 32,
{
    proof {
        lemma2_to64();
        lemma_floor_log2_below(v as nat, 32);
    }
    let mut x: u32 = v;
    let mut r: u32 = 0;
    while x > 1
        invariant
            x >= 1,
            r + floor_log2(x as nat) == floor_log2(v as nat),
            floor_log2(v as nat) < 32,
        decreases x,
    {
        x = x / 2;
        r = r + 1;
    }
    r
}

} // verus!

verus! {

/// Statistic that groups the periods by their duration and counts how many of them are in each bucket.
#[derive(PartialEq, Eq, Debug)]
pub struct BucketsStatistic<'a> {
    pub name: &'static str,
    pub data: &'a Vec<Period>,
    /// Clock period.
    pub clk_to_time: u64,
    pub color: &'static str,
    pub description: &'static str,
}

impl<'a> BucketsStatistic<'a> {
    pub fn new(
        name: &'static str,
        data: &'a Vec<Period>,
        clk_to_time: u64,
        color: &'static str,
        description: &'static str,
    ) -> (r: BucketsStatistic<'a>)
        ensures
            r.name == name,
            r.data == data,
            r.clk_to_time == clk_to_time,
            r.color == color,
            r.description == description,
    {
        BucketsStatistic { name, data, clk_to_time, color, description }
    }

    /// The durations' data as seen by contracts.
    pub open spec fn periods(&self) -> Seq<PeriodView> {
        period_views(self.data@)
    }

    /// Returns counts of periods that are of each size.
    pub fn get_data(&self) -> (r: HashMap<CyclesNum, usize>)
        ensures
            forall|v: CyclesNum| #[trigger]
                r@.contains_key(v) <==> count_duration(self.periods(), v as int) > 0,
            forall|v: CyclesNum| #[trigger]
                r@.contains_key(v) ==> r@[v] == count_duration(self.periods(), v as int),
    {
        let ghost s = self.periods();
        let mut buckets: HashMap<CyclesNum, usize> = HashMap::new();
        let mut i: usize = 0;
        while i < self.data.len()
            invariant
                i <= s.len(),
                s == self.periods(),
                s.len() == self.data@.len(),
                forall|v: CyclesNum| #[trigger]
                    buckets@.contains_key(v) <==> count_duration(s.take(i as int), v as int) > 0,
                forall|v: CyclesNum| #[trigger]
                    buckets@.contains_key(v) ==> buckets@[v] == count_duration(
                        s.take(i as int),
                        v as int,
                    ),
            decreases s.len() - i,
        {
            let v = self.data[i].duration();
            proof {
                assert(s.take(i + 1).drop_last() =~= s.take(i as int));
                assert(s.take(i + 1).last() == s[i as int]);
                lemma_count_duration_le_len(s.take(i as int), v as int);
            }
            match buckets.get(&v) {
                Some(num) => {
                    let n = *num;
                    buckets.insert(v, n + 1);
                },
                None => {
                    buckets.insert(v, 1);
                },
            }
            i = i + 1;
        }
        assert(s.take(s.len() as int) =~= s);
        buckets
    }

    /// Returns counts of periods in each bucket of logarithmic scale size.
    pub fn get_buckets(&self) -> (r: HashMap<CyclesNum, usize>)
        requires
            durations_have_magnitude(self.periods()),
        ensures
            forall|b: CyclesNum| #[trigger]
                r@.contains_key(b) <==> count_bucket(self.periods(), b as int) > 0,
            forall|b: CyclesNum| #[trigger]
                r@.contains_key(b) ==> r@[b] == count_bucket(self.periods(), b as int),
    {
        let ghost s = self.periods();
        let mut buckets: HashMap<CyclesNum, usize> = HashMap::new();
        let mut i: usize = 0;
        while i < self.data.len()
            invariant
                i <= s.len(),
                s == self.periods(),
                s.len() == self.data@.len(),
                durations_have_magnitude(s),
                forall|b: CyclesNum| #[trigger]
                    buckets@.contains_key(b) <==> count_bucket(s.take(i as int), b as int) > 0,
                forall|b: CyclesNum| #[trigger]
                    buckets@.contains_key(b) ==> buckets@[b] == count_bucket(
                        s.take(i as int),
                        b as int,
                    ),
            decreases s.len() - i,
        {
            assert(s[i as int].duration != i32::MIN);
            let bucket = Self::bucket_num(self.data[i].duration());
            proof {
                assert(s.take(i + 1).drop_last() =~= s.take(i as int));
                assert(s.take(i + 1).last() == s[i as int]);
                lemma_count_bucket_le_len(s.take(i as int), bucket as int);
            }
            match buckets.get(&bucket) {
                Some(num) => {
                    let n = *num;
                    buckets.insert(bucket, n + 1);
                },
                None => {
                    buckets.insert(bucket, 1);
                },
            }
            i = i + 1;
        }
        assert(s.take(s.len() as int) =~= s);
        buckets
    }

    /// Logarithmic bucket of a number of cycles.
    fn bucket_num(cycle_num: CyclesNum) -> (r: i32)
        requires
            cycle_num != i32::MIN,
        ensures
            r == bucket_of(cycle_num as int),
    {
        if cycle_num == 0 {
            0
        } else if cycle_num > 0 {
            (ilog2(cycle_num as u32) + 1) as i32
        } else {
            let magnitude: i32 = -cycle_num;
            -(ilog2(magnitude as u32) as i32 + 1)
        }
    }

    /// Number of non empty buckets.
    pub fn buckets_num(&self) -> (r: u32)
        requires
            durations_have_magnitude(self.periods()),
        ensures
            r == distinct_buckets(self.periods()).len() as u32,
    {
        let m = self.get_buckets();
        assert(m@.dom() =~= distinct_buckets(self.periods()));
        m.len() as u32
    }

    /// Short description: the range of durations, or that there is no data.
    pub fn display(&self) -> (r: String)
        ensures
            r@ == range_display(self.name@, self.periods()),
    {
        let ghost s = self.periods();
        let mut s_out = String::from_str(self.name);
        proof {
            reveal_strlit(": no data");
            reveal_strlit(": ");
            reveal_strlit("-");
            reveal_strlit(" clock cycles");
        }
        if self.data.len() == 0 {
            s_out.append(": no data");
            return s_out;
        }
        let mut min: CyclesNum = self.data[0].duration();
        let mut max: CyclesNum = self.data[0].duration();
        let mut i: usize = 1;
        assert(s.take(1).drop_last() =~= s.take(0));
        while i < self.data.len()
            invariant
                1 <= i <= s.len(),
                s == self.periods(),
                s.len() == self.data@.len(),
                min == min_duration(s.take(i as int)),
                max == max_duration(s.take(i as int)),
            decreases s.len() - i,
        {
            let d = self.data[i].duration();
            proof {
                assert(s.take(i + 1).drop_last() =~= s.take(i as int));
                assert(s.take(i + 1).last() == s[i as int]);
            }
            if d < min {
                min = d;
            }
            if d > max {
                max = d;
            }
            i = i + 1;
        }
        assert(s.take(s.len() as int) =~= s);
        s_out.append(": ");
        let min_text = decimal_i64(min as i64);
        s_out.append(min_text.as_str());
        s_out.append("-");
        let max_text = decimal_i64(max as i64);
        s_out.append(max_text.as_str());
        s_out.append(" clock cycles");
        s_out
    }

    /// Returns periods that have specified duration.
    pub fn get_data_of_value(&self, value: CyclesNum) -> (r: Vec<Period>)
        ensures
            period_views(r@) == periods_of_duration(self.periods(), value as int),
    {
        let ghost s = self.periods();
        let mut r: Vec<Period> = Vec::new();
        let mut i: usize = 0;
        while i < self.data.len()
            invariant
                i <= s.len(),
                s == self.periods(),
                s.len() == self.data@.len(),
                period_views(r@) == periods_of_duration(s.take(i as int), value as int),
            decreases s.len() - i,
        {
            let d = self.data[i];
            proof {
                assert(s.take(i + 1).drop_last() =~= s.take(i as int));
                assert(s.take(i + 1).last() == s[i as int]);
            }
            if d.duration() == value {
                r.push(d);
                assert(period_views(r@) =~= periods_of_duration(s.take(i + 1), value as int));
            } else {
                assert(period_views(r@) =~= periods_of_duration(s.take(i + 1), value as int));
            }
            i = i + 1;
        }
        assert(s.take(s.len() as int) =~= s);
        r
    }

    /// Returns periods that belong to bucket nr `bucket_num`.
    pub fn get_data_for_bucket(&self, bucket_num: i32) -> (r: Vec<Period>)
        requires
            durations_have_magnitude(self.periods()),
        ensures
            period_views(r@) == periods_in_bucket(self.periods(), bucket_num as int),
    {
        let ghost s = self.periods();
        let mut r: Vec<Period> = Vec::new();
        let mut i: usize = 0;
        while i < self.data.len()
            invariant
                i <= s.len(),
                s == self.periods(),
                s.len() == self.data@.len(),
                durations_have_magnitude(s),
                period_views(r@) == periods_in_bucket(s.take(i as int), bucket_num as int),
            decreases s.len() - i,
        {
            let d = self.data[i];
            assert(s[i as int].duration != i32::MIN);
            proof {
                assert(s.take(i + 1).drop_last() =~= s.take(i as int));
                assert(s.take(i + 1).last() == s[i as int]);
            }
            let bucket = Self::bucket_num(d.duration());
            if bucket == bucket_num {
                r.push(d);
                assert(period_views(r@) =~= periods_in_bucket(s.take(i + 1), bucket_num as int));
            } else {
                assert(period_views(r@) =~= periods_in_bucket(s.take(i + 1), bucket_num as int));
            }
            i = i + 1;
        }
        assert(s.take(s.len() as int) =~= s);
        r
    }
}

} // verus!

verus! {

/// Law: a positive number of cycles `v` lies in bucket `b` exactly when
/// `2^(b-1) <= v < 2^b`; a negative one when `2^(b'-1) <= -v < 2^b'` for `b = -b'`;
/// 0 alone lies in bucket 0.
pub proof fn lemma_bucket_bounds(v: int)
    ensures
        v > 0 ==> bucket_of(v) >= 1 && pow2((bucket_of(v) - 1) as nat) <= v < pow2(
            bucket_of(v) as nat,
        ),
        v < 0 ==> bucket_of(v) <= -1 && pow2((-bucket_of(v) - 1) as nat) <= -v < pow2(
            (-bucket_of(v)) as nat,
        ),
        (bucket_of(v) == 0) <==> (v == 0),
{
    if v > 0 {
        lemma_floor_log2_bounds(v as nat);
    } else if v < 0 {
        lemma_floor_log2_bounds((-v) as nat);
    }
}

/// Law: the periods returned for a duration are as many as the count of that duration,
/// and all of them last that long.
pub proof fn lemma_periods_of_duration_counted(s: Seq<PeriodView>, v: int)
    ensures
        periods_of_duration(s, v).len() == count_duration(s, v),
        forall|i: int| 0 <= i < periods_of_duration(s, v).len()
            ==> #[trigger] periods_of_duration(s, v)[i].duration == v,
    decreases s.len(),
{
    if s.len() > 0 {
        lemma_periods_of_duration_counted(s.drop_last(), v);
    }
}

/// Law: the periods returned for a bucket are as many as that bucket's count, and
/// all of them lie in that bucket.
pub proof fn lemma_periods_in_bucket_counted(s: Seq<PeriodView>, b: int)
    ensures
        periods_in_bucket(s, b).len() == count_bucket(s, b),
        forall|i: int| 0 <= i < periods_in_bucket(s, b).len()
            ==> bucket_of(#[trigger] periods_in_bucket(s, b)[i].duration as int) == b,
    decreases s.len(),
{
    if s.len() > 0 {
        lemma_periods_in_bucket_counted(s.drop_last(), b);
    }
}

/// Sum of the counts of the buckets from `lo` up to, but not including, `hi`.
pub open spec fn buckets_total(s: Seq<PeriodView>, lo: int, hi: int) -> nat
    decreases hi - lo,
{
    if lo >= hi {
        0
    } else {
        count_bucket(s, lo) + buckets_total(s, lo + 1, hi)
    }
}

proof fn lemma_buckets_total_step(s: Seq<PeriodView>, lo: int, hi: int)
    requires
        s.len() > 0,
    ensures
        buckets_total(s, lo, hi) == buckets_total(s.drop_last(), lo, hi) + if lo <= bucket_of(s.last().duration as int) < hi {
            1nat
        } else {
            0nat
        },
    decreases hi - lo,
{
    if lo < hi {
        lemma_buckets_total_step(s, lo + 1, hi);
    }
}

proof fn lemma_buckets_total_empty(s: Seq<PeriodView>, lo: int, hi: int)
    requires
        s.len() == 0,
    ensures
        buckets_total(s, lo, hi) == 0,
    decreases hi - lo,
{
    if lo < hi {
        lemma_buckets_total_empty(s, lo + 1, hi);
    }
}

/// Law: every duration lies in one of the buckets from -32 to 32, so the counts of those
/// buckets add up to the number of periods.
pub proof fn lemma_buckets_total(s: Seq<PeriodView>)
    ensures
        buckets_total(s, -32, 33) == s.len(),
    decreases s.len(),
{
    if s.len() > 0 {
        lemma_buckets_total(s.drop_last());
        lemma_buckets_total_step(s, -32, 33);
        let d = s.last().duration as int;
        lemma2_to64();
        if d > 0 {
            lemma_floor_log2_below(d as nat, 32);
        } else if d < 0 {
            lemma_floor_log2_below((-d) as nat, 32);
        }
        assert(-32 <= bucket_of(d) < 33);
    } else {
        lemma_buckets_total_empty(s, -32, 33);
    }
}

} // verus!

verus! {

impl SingleChannelBusUsage {
    /// Number of cycles in each state, with the state's name, in the order
    /// busy, backpressure, no data, no transaction, free, reset.
    pub fn get_cycles(&self) -> (r: Vec<(CyclesNum, &'static str)>)
        ensures
            r@.len() == 6,
            r@[0].0 == self@.busy && r@[0].1@ == "Busy"@,
            r@[1].0 == self@.backpressure && r@[1].1@ == "Backpressure"@,
            r@[2].0 == self@.no_data && r@[2].1@ == "No data"@,
            r@[3].0 == self@.no_transaction && r@[3].1@ == "No transaction"@,
            r@[4].0 == self@.free && r@[4].1@ == "Free"@,
            r@[5].0 == self@.reset && r@[5].1@ == "Reset"@,
    {
        vec![
            (self.busy, "Busy"),
            (self.backpressure, "Backpressure"),
            (self.no_data, "No data"),
            (self.no_transaction, "No transaction"),
            (self.free, "Free"),
            (self.reset, "Reset"),
        ]
    }

    /// Delays between transactions.
    pub fn transaction_delays(&self) -> (r: &Vec<Period>)
        ensures
            period_views(r@) == self@.transaction_delays,
    {
        &self.transaction_delays
    }

    /// Bursts, each from its first to its last cycle.
    pub fn get_bursts_start_end(&self) -> (r: &Vec<Period>)
        ensures
            period_views(r@) == self@.burst_lengths,
    {
        &self.burst_lengths
    }

    /// Tells whether a cycle of type `t` can be added without overflowing a counter or a time.
    pub fn can_add_cycle(&self, t: CycleType) -> (r: bool)
        ensures
            r == cycle_step_ok(self@, t),
    {
        let clk = self.clk_period as u128;
        let max = u64::MAX as u128;
        if let CycleType::Busy = t {
            if self.busy >= i32::MAX {
                return false;
            }
            match self.current {
                CurrentlyCalculating::Idle => true,
                CurrentlyCalculating::Burst => {
                    let n = self.burst_lengths.len();
                    if n == 0 {
                        return false;
                    }
                    let last = &self.burst_lengths[n - 1];
                    last.end as u128 + clk <= max && last.duration as i64 + 1 <= i32::MAX as i64
                },
                CurrentlyCalculating::Delay => {
                    let n = self.transaction_delays.len();
                    if n == 0 {
                        return false;
                    }
                    self.transaction_delays[n - 1].end as u128 + clk <= max
                },
                CurrentlyCalculating::Pause(d) => {
                    let n = self.burst_lengths.len();
                    if n == 0 || d < 0 || d >= i32::MAX {
                        return false;
                    }
                    let last = &self.burst_lengths[n - 1];
                    let steps = (d as u128) + 1;
                    assert(steps * clk <= 0x8000_0000u128 * 0x1_0000_0000_0000_0000u128) by (nonlinear_arith)
                        requires
                            steps <= 0x8000_0000u128,
                            clk < 0x1_0000_0000_0000_0000u128,
                    ;
                    last.end as u128 + steps * clk <= max && last.duration as i64 + d as i64 + 1 <= i32::MAX as i64
                },
            }
        } else {
            let counter = match t {
                CycleType::Free => self.free,
                CycleType::NoTransaction | CycleType::Unknown => self.no_transaction,
                CycleType::Backpressure => self.backpressure,
                CycleType::NoData => self.no_data,
                CycleType::Reset => self.reset,
                CycleType::Busy => self.busy,
            };
            if counter >= i32::MAX {
                return false;
            }
            match self.current {
                CurrentlyCalculating::Idle => true,
                CurrentlyCalculating::Burst => {
                    if self.max_burst_delay != 0 {
                        return true;
                    }
                    let n = self.burst_lengths.len();
                    n > 0 && self.burst_lengths[n - 1].end as u128 + clk <= max
                },
                CurrentlyCalculating::Delay => {
                    let n = self.transaction_delays.len();
                    if n == 0 {
                        return false;
                    }
                    let last = &self.transaction_delays[n - 1];
                    last.end as u128 + clk <= max && last.duration as i64 + 1 <= i32::MAX as i64
                },
                CurrentlyCalculating::Pause(d) => {
                    if d >= i32::MAX {
                        return false;
                    }
                    if !(d as i64 + 1 > self.max_burst_delay as i64) {
                        return true;
                    }
                    let n = self.burst_lengths.len();
                    if n == 0 || d < 0 {
                        return false;
                    }
                    let steps = d as u128;
                    assert(steps * clk <= 0x8000_0000u128 * 0x1_0000_0000_0000_0000u128) by (nonlinear_arith)
                        requires
                            steps <= 0x8000_0000u128,
                            clk < 0x1_0000_0000_0000_0000u128,
                    ;
                    self.burst_lengths[n - 1].end as u128 + clk + steps * clk <= max
                },
            }
        }
    }

    /// Length of a clock cycle in waveform time.
    pub fn clk_period(&self) -> (r: RealTime)
        ensures
            r == self@.clk_period,
    {
        self.clk_period
    }

    /// Number of non busy cycles that do not end a burst.
    pub fn max_burst_delay(&self) -> (r: CyclesNum)
        ensures
            r == self@.max_burst_delay,
    {
        self.max_burst_delay
    }

    /// What the bus was doing at the last cycle counted.
    pub fn current(&self) -> (r: CurrentlyCalculating)
        ensures
            r == self@.current,
    {
        self.current
    }
}

/// What a [MultiChannelBusUsage] holds.
pub struct MultiChannelView {
    pub bus_name: Seq<char>,
    pub cmd_to_completion: Seq<PeriodView>,
    pub cmd_to_first_data: Seq<PeriodView>,
    pub last_data_to_completion: Seq<PeriodView>,
    pub transaction_delays: Seq<PeriodView>,
    pub errors: Seq<RealTime>,
    pub correct_num: u32,
    pub window_length: u32,
    pub clock_period: RealTime,
    pub time: RealTime,
    pub time_in_reset: u32,
    pub intervals: Seq<[u64; 2]>,
}

/// Contains the transactions of a multichannel bus.
#[derive(PartialEq, Eq, Debug)]
pub struct MultiChannelBusUsage {
    pub bus_name: String,
    cmd_to_completion: Vec<Period>,
    cmd_to_first_data: Vec<Period>,
    last_data_to_completion: Vec<Period>,
    transaction_delays: Vec<Period>,
    errors: Vec<RealTime>,
    correct_num: u32,
    window_length: u32,
    clock_period: RealTime,
    time: RealTime,
    time_in_reset: u32,
    intervals: Vec<[u64; 2]>,
}

impl View for MultiChannelBusUsage {
    type V = MultiChannelView;

    closed spec fn view(&self) -> MultiChannelView {
        MultiChannelView {
            bus_name: self.bus_name@,
            cmd_to_completion: period_views(self.cmd_to_completion@),
            cmd_to_first_data: period_views(self.cmd_to_first_data@),
            last_data_to_completion: period_views(self.last_data_to_completion@),
            transaction_delays: period_views(self.transaction_delays@),
            errors: self.errors@,
            correct_num: self.correct_num,
            window_length: self.window_length,
            clock_period: self.clock_period,
            time: self.time,
            time_in_reset: self.time_in_reset,
            intervals: self.intervals@,
        }
    }
}

/// A response code that reports success: it ends in `00` (OKAY) or `01` (EXOKAY).
pub open spec fn response_ok(resp: Seq<char>) -> bool {
    resp.len() >= 2 && resp[resp.len() - 2] == '0' && (resp[resp.len() - 1] == '0'
        || resp[resp.len() - 1] == '1')
}

/// The period from `start` to `end` measured in whole cycles of `clk`.
pub open spec fn period_between(start: RealTime, end: RealTime, clk: RealTime) -> PeriodView {
    PeriodView { start, end, duration: trunc_div(end - start, clk as int) as CyclesNum }
}

/// `x` is a waveform time that `Period::new` accepts.
pub open spec fn time_in_range(x: RealTime) -> bool {
    x <= i64::MAX
}

/// Whether `resp` reports success (ends in `00` or `01`).
pub fn is_response_ok(resp: &str) -> (r: bool)
    ensures
        r == response_ok(resp@),
{
    let n = resp.unicode_len();
    if n < 2 {
        return false;
    }
    let a = resp.get_char(n - 2);
    let b = resp.get_char(n - 1);
    a == '0' && (b == '0' || b == '1')
}

impl MultiChannelBusUsage {
    /// Creates an empty MultiChannelBusUsage. Should be filled with add_transaction().
    pub fn new(bus_name: &str, window_length: u32, clock_period: RealTime) -> (r: Self)
        ensures
            r@ == (MultiChannelView {
                bus_name: bus_name@,
                cmd_to_completion: Seq::empty(),
                cmd_to_first_data: Seq::empty(),
                last_data_to_completion: Seq::empty(),
                transaction_delays: Seq::empty(),
                errors: Seq::empty(),
                correct_num: 0,
                window_length,
                clock_period,
                time: 0,
                time_in_reset: 0,
                intervals: Seq::empty(),
            }),
    {
        let r = MultiChannelBusUsage {
            bus_name: bus_name.to_owned(),
            cmd_to_completion: Vec::new(),
            cmd_to_first_data: Vec::new(),
            last_data_to_completion: Vec::new(),
            transaction_delays: Vec::new(),
            errors: Vec::new(),
            correct_num: 0,
            window_length,
            clock_period,
            time: 0,
            time_in_reset: 0,
            intervals: Vec::new(),
        };
        assert(r@.cmd_to_completion =~= Seq::empty());
        assert(r@.cmd_to_first_data =~= Seq::empty());
        assert(r@.last_data_to_completion =~= Seq::empty());
        assert(r@.transaction_delays =~= Seq::empty());
        r
    }

    /// Updates statistics given a new transaction: command at `time`, response at
    /// `resp_time`, data from `first_data` to `last_write`, next command at `next`.
    pub fn add_transaction(
        &mut self,
        time: RealTime,
        resp_time: RealTime,
        last_write: RealTime,
        first_data: RealTime,
        resp: &str,
        next: RealTime,
    )
        requires
            0 < old(self)@.clock_period <= i64::MAX,
            time_in_range(time),
            time_in_range(resp_time),
            time_in_range(last_write),
            time_in_range(first_data),
            time_in_range(next),
            response_ok(resp@) ==> old(self)@.correct_num < u32::MAX,
        ensures
            ({
                let o = old(self)@;
                let clk = o.clock_period;
                final(self)@ == MultiChannelView {
                    cmd_to_completion: o.cmd_to_completion.push(period_between(time, resp_time, clk)),
                    cmd_to_first_data: o.cmd_to_first_data.push(period_between(time, first_data, clk)),
                    last_data_to_completion: o.last_data_to_completion.push(
                        period_between(last_write, resp_time, clk),
                    ),
                    transaction_delays: o.transaction_delays.push(period_between(resp_time, next, clk)),
                    correct_num: if response_ok(resp@) {
                        (o.correct_num + 1) as u32
                    } else {
                        o.correct_num
                    },
                    errors: if response_ok(resp@) {
                        o.errors
                    } else {
                        o.errors.push(time)
                    },
                    ..o
                }
            }),
    {
        let clk = self.clock_period;
        self.cmd_to_completion.push(Period::new(time, resp_time, clk));
        self.cmd_to_first_data.push(Period::new(time, first_data, clk));
        self.last_data_to_completion.push(Period::new(last_write, resp_time, clk));
        if is_response_ok(resp) {
            self.correct_num = self.correct_num + 1;
        } else {
            self.errors.push(time);
        }
        self.transaction_delays.push(Period::new(resp_time, next, clk));
        assert(self@.cmd_to_completion =~= old(self)@.cmd_to_completion.push(period_between(time, resp_time, clk)));
        assert(self@.cmd_to_first_data =~= old(self)@.cmd_to_first_data.push(period_between(time, first_data, clk)));
        assert(self@.last_data_to_completion =~= old(self)@.last_data_to_completion.push(period_between(last_write, resp_time, clk)));
        assert(self@.transaction_delays =~= old(self)@.transaction_delays.push(period_between(resp_time, next, clk)));
    }

    /// Adds `time` to the analysed time.
    pub fn add_time(&mut self, time: RealTime)
        requires
            old(self)@.time + time <= u64::MAX,
        ensures
            final(self)@ == (MultiChannelView { time: (old(self)@.time + time) as RealTime, ..old(self)@ }),
    {
        self.time = self.time + time;
    }

    /// Finishes gathering: records the cycles spent in reset and the analysed intervals.
    pub fn end(&mut self, time_in_reset: u32, intervals: Vec<[u64; 2]>)
        ensures
            final(self)@ == (MultiChannelView { time_in_reset, intervals: intervals@, ..old(self)@ }),
    {
        self.time_in_reset = time_in_reset;
        self.intervals = intervals;
    }

    /// Periods from each command to its response.
    pub fn get_transactions_start_end(&self) -> (r: &Vec<Period>)
        ensures
            period_views(r@) == self@.cmd_to_completion,
    {
        &self.cmd_to_completion
    }

    pub fn cmd_to_first_data(&self) -> (r: &Vec<Period>)
        ensures
            period_views(r@) == self@.cmd_to_first_data,
    {
        &self.cmd_to_first_data
    }

    pub fn last_data_to_completion(&self) -> (r: &Vec<Period>)
        ensures
            period_views(r@) == self@.last_data_to_completion,
    {
        &self.last_data_to_completion
    }

    pub fn transaction_delays(&self) -> (r: &Vec<Period>)
        ensures
            period_views(r@) == self@.transaction_delays,
    {
        &self.transaction_delays
    }

    /// Times of the commands whose response reported an error.
    pub fn errors(&self) -> (r: &Vec<RealTime>)
        ensures
            r@ == self@.errors,
    {
        &self.errors
    }

    /// Number of transactions whose response reported success.
    pub fn correct_num(&self) -> (r: u32)
        ensures
            r == self@.correct_num,
    {
        self.correct_num
    }

    pub fn window_length(&self) -> (r: u32)
        ensures
            r == self@.window_length,
    {
        self.window_length
    }

    pub fn clock_period(&self) -> (r: RealTime)
        ensures
            r == self@.clock_period,
    {
        self.clock_period
    }

    /// Analysed time.
    pub fn time(&self) -> (r: RealTime)
        ensures
            r == self@.time,
    {
        self.time
    }

    /// Cycles spent in reset.
    pub fn time_in_reset(&self) -> (r: u32)
        ensures
            r == self@.time_in_reset,
    {
        self.time_in_reset
    }

    /// Analysed intervals.
    pub fn intervals(&self) -> (r: &Vec<[u64; 2]>)
        ensures
            r@ == self@.intervals,
    {
        &self.intervals
    }

    /// Creates statistics holding exactly the given values.
    #[allow(clippy::too_many_arguments)]
    pub fn literal(
        bus_name: &str,
        cmd_to_completion: Vec<Period>,
        cmd_to_first_data: Vec<Period>,
        last_data_to_completion: Vec<Period>,
        transaction_delays: Vec<Period>,
        errors: Vec<RealTime>,
        correct_num: u32,
        window_length: u32,
        clock_period: RealTime,
        time: RealTime,
        time_in_reset: u32,
        intervals: Vec<[u64; 2]>,
    ) -> (r: Self)
        ensures
            r@ == (MultiChannelView {
                bus_name: bus_name@,
                cmd_to_completion: period_views(cmd_to_completion@),
                cmd_to_first_data: period_views(cmd_to_first_data@),
                last_data_to_completion: period_views(last_data_to_completion@),
                transaction_delays: period_views(transaction_delays@),
                errors: errors@,
                correct_num,
                window_length,
                clock_period,
                time,
                time_in_reset,
                intervals: intervals@,
            }),
    {
        MultiChannelBusUsage {
            bus_name: bus_name.to_owned(),
            cmd_to_completion,
            cmd_to_first_data,
            last_data_to_completion,
            transaction_delays,
            errors,
            correct_num,
            window_length,
            clock_period,
            time,
            time_in_reset,
            intervals,
        }
    }
}

} // verus!

verus! {

/// Window starts `from, from + step, ...` below `limit`.
pub open spec fn window_starts_from(from: int, limit: int, step: int) -> Seq<u64>
    decreases (if from < limit {
        limit - from
    } else {
        0
    }),
{
    if step <= 0 || from >= limit {
        Seq::empty()
    } else {
        seq![from as u64] + window_starts_from(from + step, limit, step)
    }
}

/// Starts of the bandwidth windows over the intervals: in each interval `[start, end]`,
/// every half window from `start` while below `end` plus half a window.
pub open spec fn window_starts(intervals: Seq<[u64; 2]>, window_length: int, clk: int) -> Seq<u64>
    decreases intervals.len(),
{
    if intervals.len() == 0 {
        Seq::empty()
    } else {
        window_starts(intervals.drop_last(), window_length, clk) + window_starts_from(
            intervals.last()[0] as int,
            intervals.last()[1] + (window_length * clk) / 2,
            (window_length / 2) * clk,
        )
    }
}

/// Windows can be laid over the intervals without overflow.
pub open spec fn windows_in_range(s: MultiChannelView) -> bool {
    let clk = s.clock_period as int;
    let wl = s.window_length as int;
    &&& (wl / 2) * clk > 0
    &&& wl * clk <= u64::MAX
    &&& forall|i: int| 0 <= i < s.intervals.len() ==> #[trigger] s.intervals[i][1] + wl * clk
        + (wl / 2) * clk <= u64::MAX
}

/// Share of the window `[window_start, window_start + window)` that `p` covers,
/// as a numerator and a denominator; a period of one instant counts fully when it lies
/// strictly inside the window.
pub open spec fn coverage(p: PeriodView, window_start: int, window: int) -> (int, int) {
    let win_end = window_start + window;
    if p.start == p.end {
        if window_start < p.start && p.start < win_end {
            (1, 1)
        } else {
            (0, 1)
        }
    } else {
        let hi = if win_end < p.end {
            win_end
        } else {
            p.end as int
        };
        let lo = if window_start > p.start {
            window_start
        } else {
            p.start as int
        };
        (if hi > lo {
            hi - lo
        } else {
            0
        }, p.end - p.start)
    }
}

impl MultiChannelBusUsage {
    /// Share of the window starting at `window_start` covered by `period`, as
    /// (numerator, denominator).
    pub fn transaction_coverage_in_window(&self, period: Period, window_start: u64) -> (r: (
        u64,
        u64,
    ))
        requires
            period@.start <= period@.end,
            window_start + self@.window_length * self@.clock_period <= u64::MAX,
        ensures
            (r.0 as int, r.1 as int) == coverage(
                period@,
                window_start as int,
                self@.window_length * self@.clock_period,
            ),
    {
        let (start, end) = (period.start(), period.end());
        let win_start = window_start;
        assert(self.window_length as u64 * self.clock_period <= u64::MAX) by (nonlinear_arith)
            requires
                window_start + self@.window_length * self@.clock_period <= u64::MAX,
        ;
        let win_end = window_start + self.window_length as u64 * self.clock_period;
        if start == end {
            if win_start < start && start < win_end {
                (1, 1)
            } else {
                (0, 1)
            }
        } else {
            let hi = if win_end < end {
                win_end
            } else {
                end
            };
            let lo = if win_start > start {
                win_start
            } else {
                start
            };
            let covered = if hi > lo {
                hi - lo
            } else {
                0
            };
            (covered, end - start)
        }
    }

    /// Starts of the bandwidth windows laid over the analysed intervals.
    pub fn bandwidth_window_starts(&self) -> (r: Vec<u64>)
        requires
            windows_in_range(self@),
        ensures
            r@ == window_starts(
                self@.intervals,
                self@.window_length as int,
                self@.clock_period as int,
            ),
    {
        let ghost ivs = self@.intervals;
        let wl = self.window_length as u64;
        let clk = self.clock_period;
        assert(wl * clk <= u64::MAX);
        assert((wl / 2) * clk <= wl * clk) by (nonlinear_arith)
            requires
                clk >= 0,
        ;
        let step = (wl / 2) * clk;
        let half = wl * clk / 2;
        let mut r: Vec<u64> = Vec::new();
        let mut k: usize = 0;
        while k < self.intervals.len()
            invariant
                k <= ivs.len(),
                ivs == self@.intervals,
                ivs.len() == self.intervals@.len(),
                windows_in_range(self@),
                step == (self@.window_length / 2) * self@.clock_period,
                half == (self@.window_length * self@.clock_period) / 2,
                wl == self@.window_length,
                clk == self@.clock_period,
                step > 0,
                half <= wl * clk,
                r@ == window_starts(ivs.take(k as int), wl as int, clk as int),
            decreases ivs.len() - k,
        {
            let iv = self.intervals[k];
            let start = iv[0];
            let end = iv[1];
            assert(ivs[k as int][1] + wl * clk + (wl / 2) * clk <= u64::MAX);
            let limit = end + half;
            let mut i = start;
            let ghost before = r@;
            assert(ivs.take(k + 1).drop_last() =~= ivs.take(k as int));
            while i < limit
                invariant
                    limit + step <= u64::MAX,
                    step > 0,
                    r@ + window_starts_from(i as int, limit as int, step as int) == before
                        + window_starts_from(start as int, limit as int, step as int),
                decreases (if i < limit {
                    limit - i
                } else {
                    0
                }),
            {
                let ghost rest = window_starts_from(i as int + step, limit as int, step as int);
                assert(window_starts_from(i as int, limit as int, step as int) == seq![i] + rest);
                r.push(i);
                assert(r@ + rest =~= before + window_starts_from(
                    start as int,
                    limit as int,
                    step as int,
                ));
                i = i + step;
            }
            assert(r@ =~= before + window_starts_from(start as int, limit as int, step as int));
            k = k + 1;
        }
        assert(ivs.take(ivs.len() as int) =~= ivs);
        r
    }
}

/// Statistics of a bus of any kind.
pub enum BusUsage {
    SingleChannel(SingleChannelBusUsage),
    MultiChannel(MultiChannelBusUsage),
}

impl BusUsage {
    /// Name of the bus.
    pub open spec fn name_spec(&self) -> Seq<char> {
        match self {
            BusUsage::SingleChannel(u) => u@.bus_name,
            BusUsage::MultiChannel(u) => u@.bus_name,
        }
    }

    /// Name of the bus.
    pub fn get_name(&self) -> (r: &str)
        ensures
            r@ == self.name_spec(),
    {
        match self {
            BusUsage::SingleChannel(u) => u.bus_name.as_str(),
            BusUsage::MultiChannel(u) => u.bus_name.as_str(),
        }
    }
}

/// Statistics of a bus, with the signals they were calculated from.
pub struct BusData {
    pub usage: BusUsage,
    pub signals: Vec<SignalPath>,
}

impl BusData {
    pub fn new(usage: BusUsage, signals: Vec<SignalPath>) -> (r: Self)
        ensures
            r == (BusData { usage, signals }),
    {
        BusData { usage, signals }
    }
}

/// Law: the part of a transaction `[p.start, p.end)` that a window `[window_start,
/// window_start + window)` covers is the length of their overlap: all of it when the window
/// holds it, the window's length when it holds the window, the part from the window's start
/// or up to the window's end when they overlap at one side, and nothing when they are apart;
/// out of the transaction's length. A transaction of no length counts as covered (1 of 1)
/// when it lies strictly inside the window.
pub proof fn lemma_coverage_is_overlap(p: PeriodView, window_start: int, window: int)
    requires
        p.start <= p.end,
        window >= 0,
    ensures
        p.start < p.end ==> coverage(p, window_start, window).1 == p.end - p.start,
        p.start < p.end ==> 0 <= coverage(p, window_start, window).0 <= p.end - p.start,
        p.start < p.end ==> coverage(p, window_start, window).0 <= window,
        p.start < p.end && (window_start >= p.end || window_start + window <= p.start) ==> coverage(
            p,
            window_start,
            window,
        ).0 == 0,
        p.start < p.end && window_start <= p.start && p.end <= window_start + window ==> coverage(
            p,
            window_start,
            window,
        ).0 == p.end - p.start,
        p.start < p.end && p.start <= window_start && window_start + window <= p.end ==> coverage(
            p,
            window_start,
            window,
        ).0 == window,
        p.start < p.end && p.start <= window_start < p.end && p.end <= window_start + window ==> coverage(
            p,
            window_start,
            window,
        ).0 == p.end - window_start,
        p.start < p.end && window_start <= p.start < window_start + window && window_start + window <= p.end ==> coverage(
            p,
            window_start,
            window,
        ).0 == window_start + window - p.start,
        p.start == p.end ==> coverage(p, window_start, window) == (
        if window_start < p.start && p.start < window_start + window { (1int, 1int) } else { (0int, 1int) }),
{
}

} // verus!
