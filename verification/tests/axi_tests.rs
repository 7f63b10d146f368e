use busperf::axi::{
    axi_calculate, count_reset, pair_transactions, ready_valid_transfers, to_bit_string, AXIChannel, AXIFullRd,
    AXIFullWr, AXIRdAnalyzer, AXIWrAnalyzer, AxiError, AxiKind, AxiSignal, Streams,
};
use busperf::bus::BusCommon;
use busperf::bus_usage::{BusUsage, MultiChannelBusUsage};
use busperf::signal::{BitVecValue, Signal, SignalValue, TimeTable, ValueType};
use busperf::yaml::YamlValue;
use busperf::trigger::{TriggerCombination, TriggerSink};
use busperf::SignalPath;

/// A value of `bits` written most significant bit first (`0`, `1`, `x`, `z`).
fn bits(s: &str) -> SignalValue {
    let codes: Vec<u8> = s
        .chars()
        .rev()
        .map(|c| match c {
            '0' => 0,
            '1' => 1,
            'x' => 2,
            _ => 3,
        })
        .collect();
    let two_state = codes.iter().all(|c| *c < 2);
    SignalValue::BitVec(BitVecValue { two_state, bits: codes })
}

fn signal(changes: &[(u32, &str)]) -> Signal {
    Signal { changes: changes.iter().map(|(t, v)| (*t, bits(v))).collect() }
}

/// A clock that is `0` at even and `1` at odd time indices, up to `n`.
fn clock(n: u32) -> Signal {
    Signal { changes: (0..n).map(|i| (i, bits(if i % 2 == 0 { "0" } else { "1" }))).collect() }
}

fn always() -> TriggerSink {
    TriggerSink::new(TriggerCombination::NoTrigger, TriggerCombination::NoTrigger)
}

fn path(name: &str) -> SignalPath {
    SignalPath { scope: vec![], name: name.to_string() }
}

fn table(n: u64) -> TimeTable {
    TimeTable::new((0..n).map(|i| i * 10).collect())
}

fn multi(r: Result<BusUsage, AxiError>) -> MultiChannelBusUsage {
    match r {
        Ok(BusUsage::MultiChannel(m)) => m,
        _ => panic!("expected the statistics of a multichannel bus"),
    }
}

fn periods(v: &Vec<busperf::bus_usage::Period>) -> Vec<(u64, u64, i32)> {
    v.iter().map(|p| (p.start(), p.end(), p.duration())).collect()
}

fn common() -> BusCommon {
    BusCommon::new("axi".to_string(), vec![], path("clk"), path("rst"), 1)
}

fn channel(r: &str, v: &str) -> AXIChannel {
    AXIChannel { ready: path(r), valid: path(v) }
}

#[test]
fn bit_string_is_most_significant_first() {
    assert_eq!(to_bit_string(&bits("10x")), Some("10x".to_string()));
    assert_eq!(to_bit_string(&SignalValue::Event), None);
}

#[test]
fn transfers_need_ready_and_valid_at_a_rising_edge() {
    let clk = clock(20);
    let ready = signal(&[(0, "1")]);
    let valid = signal(&[(0, "0"), (2, "1"), (4, "0"), (10, "1"), (14, "0")]);
    assert_eq!(ready_valid_transfers(&clk, &ready, &valid, 19), vec![3, 11, 13]);
}

#[test]
fn transfers_wait_for_ready() {
    let clk = clock(20);
    let ready = signal(&[(0, "0"), (6, "1"), (8, "0")]);
    let valid = signal(&[(0, "1"), (12, "0")]);
    assert_eq!(ready_valid_transfers(&clk, &ready, &valid, 19), vec![7]);
}

#[test]
fn reset_cycles_count_half_the_time_indices_in_reset() {
    let rst = signal(&[(0, "0"), (4, "1"), (10, "0"), (20, "1")]);
    // active low: inactive at 4 (4 since the start) and at 20 (10 since the active change
    // at 10): 14 time indices, 7 cycles
    assert_eq!(count_reset(&rst, ValueType::V0, 0, 30), Some(7));
    // nothing strictly inside
    assert_eq!(count_reset(&rst, ValueType::V1, 4, 10), Some(0));
}

fn lite_read_trace() -> Vec<(SignalPath, Signal)> {
    vec![
        (path("clk"), clock(40)),
        (path("rst"), signal(&[(0, "0")])),
        (path("arready"), signal(&[(0, "1")])),
        (path("arvalid"), signal(&[(0, "0"), (2, "1"), (4, "0")])),
        (path("rready"), signal(&[(0, "1")])),
        (path("rvalid"), signal(&[(0, "0"), (8, "1"), (10, "0")])),
        (path("rresp"), signal(&[(0, "00")])),
    ]
}

#[test]
fn axi_lite_read_pairs_command_and_read() {
    let loaded = lite_read_trace();
    let tt = table(40);
    let m = match axi_calculate(AxiKind::ReadLite, "rd", 100, ValueType::V1, &loaded, &vec![], &tt) {
        Ok(m) => m,
        Err(_) => panic!("analysis failed"),
    };
    assert_eq!(periods(m.get_transactions_start_end()), vec![(30, 90, 3)]);
    assert_eq!(periods(m.cmd_to_first_data()), vec![(30, 90, 3)]);
    assert_eq!(periods(m.last_data_to_completion()), vec![(90, 90, 0)]);
    assert_eq!(periods(m.transaction_delays()), vec![(90, 390, 15)]);
    assert_eq!(m.correct_num(), 1);
    assert!(m.errors().is_empty());
    assert_eq!(m.time(), 390);
    assert_eq!(m.time_in_reset(), 0);
    assert_eq!(m.intervals(), &vec![[0, 390]]);
    assert_eq!(m.clock_period(), 20);
    assert_eq!(m.window_length(), 100);
}

#[test]
fn axi_lite_read_analyzer_reports_error_responses() {
    let mut loaded = lite_read_trace();
    loaded[6].1 = signal(&[(0, "10")]);
    let tt = table(40);
    let a = AXIRdAnalyzer {
        common: common(),
        ar: channel("arready", "arvalid"),
        r: channel("rready", "rvalid"),
        r_resp: path("rresp"),
        full: None,
        window_length: 10,
        required: vec![],
        sink: always(),
    };
    assert_eq!(a.get_signals().len(), 7);
    let m = multi(a.calculate(&loaded, &vec![], &tt));
    assert_eq!(m.correct_num(), 0);
    assert_eq!(m.errors(), &vec![30]);
}

#[test]
fn axi_full_read_matches_reads_by_identifier() {
    // commands: id 1 at 3, id 2 at 7; reads: id 2 (last) at 9, id 1 at 11 and id 1 (last) at 13
    let loaded = vec![
        (path("clk"), clock(40)),
        (path("rst"), signal(&[(0, "0")])),
        (path("arready"), signal(&[(0, "1")])),
        (path("arvalid"), signal(&[(0, "0"), (2, "1"), (4, "0"), (6, "1"), (8, "0")])),
        (path("rready"), signal(&[(0, "1")])),
        (path("rvalid"), signal(&[(0, "0"), (8, "1"), (14, "0")])),
        (path("rresp"), signal(&[(0, "00")])),
        (path("arid"), signal(&[(0, "01"), (5, "10")])),
        (path("rid"), signal(&[(0, "10"), (10, "01")])),
        (path("rlast"), signal(&[(0, "1"), (10, "0"), (12, "1")])),
    ];
    let tt = table(40);
    let a = AXIRdAnalyzer {
        common: common(),
        ar: channel("arready", "arvalid"),
        r: channel("rready", "rvalid"),
        r_resp: path("rresp"),
        full: Some(AXIFullRd { ar_id: path("arid"), r_id: path("rid"), r_last: path("rlast") }),
        window_length: 10,
        required: vec![],
        sink: always(),
    };
    assert_eq!(a.get_signals().len(), 10);
    let m = multi(a.calculate(&loaded, &vec![], &tt));
    // the read at 9 (time 90) finishes the command at 7 (time 70), next command: end of trace
    // the reads at 11 and 13 finish the command at 3, whose next command came at 7
    assert_eq!(periods(m.get_transactions_start_end()), vec![(70, 90, 1), (30, 130, 5)]);
    assert_eq!(periods(m.cmd_to_first_data()), vec![(70, 90, 1), (30, 110, 4)]);
    assert_eq!(m.correct_num(), 2);
}

fn write_trace(full: bool) -> Vec<(SignalPath, Signal)> {
    let mut v = vec![
        (path("clk"), clock(40)),
        (path("rst"), signal(&[(0, "0")])),
        (path("awready"), signal(&[(0, "1")])),
        (path("awvalid"), signal(&[(0, "0"), (2, "1"), (4, "0")])),
        (path("wready"), signal(&[(0, "1")])),
        (path("wvalid"), signal(&[(0, "0"), (4, "1"), (8, "0")])),
        (path("bready"), signal(&[(0, "1")])),
        (path("bvalid"), signal(&[(0, "0"), (10, "1"), (12, "0")])),
        (path("bresp"), signal(&[(0, "01")])),
    ];
    if full {
        v.push((path("awid"), signal(&[(0, "11")])));
        v.push((path("wlast"), signal(&[(0, "0"), (6, "1")])));
        v.push((path("bid"), signal(&[(0, "11")])));
    }
    v
}

#[test]
fn axi_lite_write_pairs_command_data_and_response() {
    let loaded = write_trace(false);
    let tt = table(40);
    let a = AXIWrAnalyzer {
        common: common(),
        aw: channel("awready", "awvalid"),
        w: channel("wready", "wvalid"),
        b: channel("bready", "bvalid"),
        b_resp: path("bresp"),
        full: None,
        window_length: 10,
        required: vec![],
        sink: always(),
    };
    assert_eq!(a.get_signals().len(), 9);
    let m = multi(a.calculate(&loaded, &vec![], &tt));
    // command at 3, first data at 5, response at 11
    assert_eq!(periods(m.get_transactions_start_end()), vec![(30, 110, 4)]);
    assert_eq!(periods(m.cmd_to_first_data()), vec![(30, 50, 1)]);
    assert_eq!(periods(m.last_data_to_completion()), vec![(50, 110, 3)]);
    assert_eq!(m.correct_num(), 1);
}

#[test]
fn axi_full_write_waits_for_the_last_data() {
    let loaded = write_trace(true);
    let tt = table(40);
    let a = AXIWrAnalyzer {
        common: common(),
        aw: channel("awready", "awvalid"),
        w: channel("wready", "wvalid"),
        b: channel("bready", "bvalid"),
        b_resp: path("bresp"),
        full: Some(AXIFullWr { aw_id: path("awid"), w_last: path("wlast"), b_id: path("bid") }),
        window_length: 10,
        required: vec![],
        sink: always(),
    };
    let m = multi(a.calculate(&loaded, &vec![], &tt));
    // data at 5 and 7; the last flag is read just before 7
    assert_eq!(periods(m.get_transactions_start_end()), vec![(30, 110, 4)]);
    assert_eq!(periods(m.cmd_to_first_data()), vec![(30, 50, 1)]);
    assert_eq!(periods(m.last_data_to_completion()), vec![(70, 110, 2)]);
}

#[test]
fn axi_full_write_response_before_last_data_fails() {
    let mut loaded = write_trace(true);
    loaded[10].1 = signal(&[(0, "0")]);
    let tt = table(40);
    assert_eq!(
        axi_calculate(AxiKind::WriteFull, "wr", 10, ValueType::V1, &loaded, &vec![], &tt).err(),
        Some(AxiError::NoLastData(3, 39))
    );
}

#[test]
fn axi_errors() {
    let tt = table(40);
    let mut loaded = lite_read_trace();
    loaded[0].1 = Signal { changes: vec![] };
    assert_eq!(
        axi_calculate(AxiKind::ReadLite, "rd", 10, ValueType::V1, &loaded, &vec![], &tt).err(),
        Some(AxiError::NoClockValues)
    );
    let short: Vec<(SignalPath, Signal)> = (0..7).map(|i| (path("s"), signal(&[(0, "0"), (1, if i == 0 { "1" } else { "0" })]))).collect();
    assert_eq!(
        axi_calculate(AxiKind::ReadLite, "rd", 10, ValueType::V1, &short, &vec![], &TimeTable::new(vec![0, 10])).err(),
        Some(AxiError::TraceTooShort)
    );
    let loaded = lite_read_trace();
    assert_eq!(
        axi_calculate(AxiKind::ReadLite, "rd", 10, ValueType::V1, &loaded, &vec![[1000, 2000]], &tt).err(),
        Some(AxiError::InvalidIntervalSet)
    );
    let mut loaded = lite_read_trace();
    loaded[6].1 = signal(&[(20, "00")]);
    assert_eq!(
        axi_calculate(AxiKind::ReadLite, "rd", 10, ValueType::V1, &loaded, &vec![], &tt).err(),
        Some(AxiError::InvalidValue(AxiSignal::RResp, 90))
    );
    let mut loaded = lite_read_trace();
    loaded[2].1 = signal(&[(0, "1")]);
    loaded[3].1 = signal(&[(0, "1")]);
    // commands at every clock edge go on past the end of the interval [0, 50] while no
    // reset edge comes
    assert_eq!(
        axi_calculate(AxiKind::ReadLite, "rd", 10, ValueType::V1, &loaded, &vec![[0, 50]], &tt).err(),
        Some(AxiError::EndlessWait)
    );
}

#[test]
fn axi_full_read_missing_identifier_fails() {
    let mut loaded = lite_read_trace();
    loaded.push((path("arid"), signal(&[(10, "1")])));
    loaded.push((path("rid"), signal(&[(0, "1")])));
    loaded.push((path("rlast"), signal(&[(0, "1")])));
    let tt = table(40);
    assert_eq!(
        axi_calculate(AxiKind::ReadFull, "rd", 10, ValueType::V1, &loaded, &vec![], &tt).err(),
        Some(AxiError::InvalidValue(AxiSignal::ArId, 30))
    );
}

#[test]
fn reads_after_a_reset_edge_drop_waiting_commands() {
    // command at 3; reset rises at 7; the read at 9 comes after the reset edge
    let edges_streams = Streams { cmd: vec![3], data: vec![9], resp: vec![], edges: vec![7], end: 39 };
    let id = signal(&[(0, "1")]);
    let last = signal(&[(0, "1")]);
    let code = signal(&[(0, "00")]);
    let tt = table(40);
    let done = match pair_transactions(AxiKind::ReadFull, &edges_streams, &id, &id, &last, &code, &tt) {
        Ok(d) => d,
        Err(_) => panic!("pairing failed"),
    };
    assert!(done.is_empty());
    let no_reset = Streams { cmd: vec![3], data: vec![9], resp: vec![], edges: vec![], end: 39 };
    let done = match pair_transactions(AxiKind::ReadFull, &no_reset, &id, &id, &last, &code, &tt) {
        Ok(d) => d,
        Err(_) => panic!("pairing failed"),
    };
    assert_eq!(done.len(), 1);
    assert_eq!((done[0].start, done[0].resp, done[0].next), (3, 9, 39));
}

fn text(s: &str) -> YamlValue {
    YamlValue::Text(s.to_string())
}

fn hash(entries: Vec<(&str, YamlValue)>) -> YamlValue {
    YamlValue::Hash(entries.into_iter().map(|(k, v)| (text(k), v)).collect())
}

fn rd_yaml(full: bool) -> YamlValue {
    let mut ar = vec![("ready", text("arready")), ("valid", text("arvalid"))];
    let mut r = vec![("ready", text("rready")), ("valid", text("rvalid")), ("resp", text("rresp"))];
    if full {
        ar.push(("id", text("arid")));
        r.push(("id", text("rid")));
        r.push(("last", text("rlast")));
    }
    hash(vec![
        ("scope", YamlValue::Array(vec![text("top")])),
        ("clock", text("clk")),
        ("reset", text("rst")),
        ("reset_type", text("high")),
        ("custom_analyzer", text("AXIRdAnalyzer")),
        ("ar", hash(ar)),
        ("r", hash(r)),
    ])
}

#[test]
fn read_analyzer_from_description() {
    let a = match AXIRdAnalyzer::build_from_yaml("rd".to_string(), &rd_yaml(true), 77) {
        Ok(a) => a,
        Err(e) => panic!("{}", e),
    };
    assert_eq!(a.bus_name(), "rd");
    assert_eq!(a.window_length, 77);
    assert!(a.full.is_some());
    let names: Vec<String> = a.get_signals().iter().map(|p| p.name.clone()).collect();
    assert_eq!(names, vec!["clk", "rst", "arready", "arvalid", "rready", "rvalid", "rresp", "arid", "rid", "rlast"]);
    let lite = match AXIRdAnalyzer::build_from_yaml("rd".to_string(), &rd_yaml(false), 77) {
        Ok(a) => a,
        Err(e) => panic!("{}", e),
    };
    assert!(lite.full.is_none());
}

#[test]
fn read_analyzer_needs_all_full_signals_or_none() {
    let y = hash(vec![
        ("scope", YamlValue::Array(vec![text("top")])),
        ("clock", text("clk")),
        ("reset", text("rst")),
        ("reset_type", text("high")),
        ("ar", hash(vec![("ready", text("a")), ("valid", text("b")), ("id", text("arid"))])),
        ("r", hash(vec![("ready", text("c")), ("valid", text("d")), ("resp", text("e"))])),
    ]);
    match AXIRdAnalyzer::build_from_yaml("rd".to_string(), &y, 1) {
        Err(e) => assert_eq!(e, "For AXI full all ar_id, r_id and r_last must be defined"),
        Ok(_) => panic!("should fail"),
    }
}

#[test]
fn write_analyzer_needs_all_channels() {
    let y = hash(vec![
        ("scope", YamlValue::Array(vec![text("top")])),
        ("clock", text("clk")),
        ("reset", text("rst")),
        ("reset_type", text("low")),
        ("aw", hash(vec![("ready", text("a")), ("valid", text("b"))])),
        ("b", hash(vec![("ready", text("c")), ("valid", text("d")), ("resp", text("e"))])),
    ]);
    match AXIWrAnalyzer::build_from_yaml("wr".to_string(), &y, 1) {
        Err(e) => assert_eq!(e, "AXI analyzer should have all channels defined"),
        Ok(_) => panic!("should fail"),
    }
    let y = hash(vec![
        ("scope", YamlValue::Array(vec![text("top")])),
        ("clock", text("clk")),
        ("reset", text("rst")),
        ("reset_type", text("low")),
        ("aw", hash(vec![("ready", text("a")), ("valid", text("b"))])),
        ("w", hash(vec![("valid", text("b"))])),
        ("b", hash(vec![("ready", text("c")), ("valid", text("d")), ("resp", text("e"))])),
    ]);
    match AXIWrAnalyzer::build_from_yaml("wr".to_string(), &y, 1) {
        Err(e) => assert_eq!(e, "AXIBus bus requires ready signal"),
        Ok(_) => panic!("should fail"),
    }
}
