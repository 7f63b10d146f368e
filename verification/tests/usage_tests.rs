use busperf::bus_usage::{
    is_response_ok, BucketsStatistic, CurrentlyCalculating, MultiChannelBusUsage, Period, SingleChannelBusUsage,
};
use busperf::show::{bucket_label_exec, bucket_summary, OutputType};
use busperf::CycleType;

fn usage_after(max_burst_delay: i32, cycles: &[CycleType]) -> SingleChannelBusUsage {
    let mut u = SingleChannelBusUsage::new("bus", max_burst_delay, 2);
    for c in cycles {
        assert!(u.can_add_cycle(*c));
        u.add_cycle(*c);
    }
    u
}

#[test]
fn bursts_and_delays_without_pauses() {
    let u = usage_after(0, &[CycleType::Busy, CycleType::Busy, CycleType::Free, CycleType::Free, CycleType::Busy]);
    let expected = SingleChannelBusUsage::literal(
        "bus",
        3,
        0,
        0,
        0,
        2,
        0,
        vec![Period::literal(4, 6, 2)],
        vec![Period::literal(0, 2, 2), Period::literal(8, 8, 1)],
        0,
        CurrentlyCalculating::Burst,
        2,
    );
    assert_eq!(u, expected);
}

#[test]
fn short_pauses_stay_inside_a_burst() {
    let u = usage_after(1, &[CycleType::Busy, CycleType::Free, CycleType::Busy, CycleType::Free, CycleType::Free, CycleType::Busy]);
    let expected = SingleChannelBusUsage::literal(
        "bus",
        3,
        0,
        0,
        0,
        3,
        0,
        vec![Period::literal(6, 8, 2)],
        vec![Period::literal(0, 4, 3), Period::literal(10, 10, 1)],
        1,
        CurrentlyCalculating::Burst,
        2,
    );
    assert_eq!(u, expected);
}

#[test]
fn every_state_has_its_counter() {
    let u = usage_after(0, &[CycleType::Backpressure, CycleType::NoData, CycleType::NoTransaction, CycleType::Unknown, CycleType::Reset, CycleType::Free]);
    let cycles: Vec<i32> = u.get_cycles().iter().map(|(n, _)| *n).collect();
    let names: Vec<&str> = u.get_cycles().iter().map(|(_, n)| *n).collect();
    // busy, backpressure, no data, no transaction (unknown counts there), free, reset
    assert_eq!(cycles, vec![0, 1, 1, 2, 1, 1]);
    assert_eq!(names, vec!["Busy", "Backpressure", "No data", "No transaction", "Free", "Reset"]);
    // one delay covers all six cycles
    let delays: Vec<(u64, u64, i32)> = u.transaction_delays().iter().map(|p| (p.start(), p.end(), p.duration())).collect();
    assert_eq!(delays, vec![(0, 10, 6)]);
    assert!(u.get_bursts_start_end().is_empty());
}

#[test]
fn no_pause_bursts_add_up_to_busy_cycles() {
    let cycles = [CycleType::Busy, CycleType::Free, CycleType::Busy, CycleType::Busy, CycleType::NoData, CycleType::Busy, CycleType::Reset, CycleType::Reset];
    let u = usage_after(0, &cycles);
    let busy: i32 = u.get_bursts_start_end().iter().map(|p| p.duration()).sum();
    let other: i32 = u.transaction_delays().iter().map(|p| p.duration()).sum();
    assert_eq!(busy, 4);
    assert_eq!(other, 4);
}

#[test]
fn period_duration_rounds_toward_zero() {
    let p = Period::new(10, 35, 10);
    assert_eq!((p.start(), p.end(), p.duration()), (10, 35, 2));
    let q = Period::new(35, 10, 10);
    assert_eq!(q.duration(), -2);
    let w = Period::with_duration(4, 3, 5);
    assert_eq!((w.start(), w.end(), w.duration()), (4, 14, 3));
}

#[test]
fn responses_ending_in_00_or_01_are_ok() {
    assert!(is_response_ok("00"));
    assert!(is_response_ok("101"));
    assert!(!is_response_ok("10"));
    assert!(!is_response_ok("11"));
    assert!(!is_response_ok("0"));
}

#[test]
fn multichannel_transaction_counts() {
    let mut m = MultiChannelBusUsage::new("axi", 100, 10);
    m.add_transaction(0, 50, 40, 20, "00", 60);
    m.add_transaction(60, 100, 90, 70, "10", 120);
    let c: Vec<(u64, u64, i32)> = m.get_transactions_start_end().iter().map(|p| (p.start(), p.end(), p.duration())).collect();
    assert_eq!(c, vec![(0, 50, 5), (60, 100, 4)]);
    let f: Vec<i32> = m.cmd_to_first_data().iter().map(|p| p.duration()).collect();
    assert_eq!(f, vec![2, 1]);
    let l: Vec<i32> = m.last_data_to_completion().iter().map(|p| p.duration()).collect();
    assert_eq!(l, vec![1, 1]);
    let d: Vec<i32> = m.transaction_delays().iter().map(|p| p.duration()).collect();
    assert_eq!(d, vec![1, 2]);
    assert_eq!(m.correct_num(), 1);
    assert_eq!(m.errors(), &vec![60]);
    m.add_time(500);
    m.end(3, vec![[0, 500]]);
    assert_eq!(m.time(), 500);
    assert_eq!(m.time_in_reset(), 3);
}

#[test]
fn bucket_labels() {
    assert_eq!(bucket_label_exec(0, 3), "0 x3");
    assert_eq!(bucket_label_exec(-3, 1), "-3 x1");
    assert_eq!(bucket_label_exec(1, 2), "1 x2");
    assert_eq!(bucket_label_exec(2, 2), "2-3 x2");
    assert_eq!(bucket_label_exec(10, 1), "512-1023 x1");
    assert_eq!(bucket_label_exec(11, 1), "1-2k x1");
    assert_eq!(bucket_label_exec(21, 7), "1-2M x7");
    assert_eq!(bucket_label_exec(41, 5), "2^41+ x5");
}

#[test]
fn bucket_summaries() {
    let data = vec![
        Period::literal(0, 0, 1),
        Period::literal(0, 0, 2),
        Period::literal(0, 0, 3),
        Period::literal(0, 0, 1500),
    ];
    let stat = BucketsStatistic::new("delays", &data, 1, "red", "delays");
    assert_eq!(bucket_summary(&stat), "1 x1; 2-3 x2; 1-2k x1");
    assert_eq!(stat.buckets_num(), 3);
    let empty: Vec<Period> = vec![];
    let none = BucketsStatistic::new("delays", &empty, 1, "red", "delays");
    assert_eq!(bucket_summary(&none), "No transaction on this bus");
    assert_eq!(OutputType::Csv, OutputType::Csv);
}

#[test]
fn bursts_and_delays_take_turns_and_buckets_cover_all_periods() {
    let mut u = SingleChannelBusUsage::new("b", 0, 10);
    for t in [CycleType::Free, CycleType::Busy, CycleType::Busy, CycleType::NoData, CycleType::Busy] {
        u.add_cycle(t);
    }
    let bursts: Vec<(u64, u64)> = u.get_bursts_start_end().iter().map(|p| (p.start(), p.end())).collect();
    let delays: Vec<(u64, u64)> = u.transaction_delays().iter().map(|p| (p.start(), p.end())).collect();
    assert_eq!(delays, vec![(0, 0), (30, 30)]);
    assert_eq!(bursts, vec![(10, 20), (40, 40)]);
    let stat = BucketsStatistic::new("bursts", u.get_bursts_start_end(), 10, "", "");
    let total: usize = stat.get_buckets().values().sum();
    assert_eq!(total, u.get_bursts_start_end().len());
}
