use busperf::analyzer::CalculateError;
use busperf::axi::{AxiError, AxiSignal};
use busperf::bus_usage::BusUsage;
use busperf::config_triggers::ControlBuilder;
use busperf::bus::LockstepAnalyzer;
use busperf::data_file::{decode_data_file, encode_data_file};
use busperf::graph::{load_bus_analyzers_from_str, AnalyzerBuilder, AnalyzersConfig, BusAnalyzer};
use busperf::schedule::{cycle_message, next_round, ready_indices, result_order, Round};
use busperf::text::trace_hash;
use busperf::yaml::parse_yaml_docs;
use busperf::CycleType;
use busperf::signal::{BitVecValue, Signal, SignalValue, TimeTable};
use busperf::trigger::DoneTriggers;
use busperf::yaml::YamlValue;
use busperf::SignalPath;

fn text(s: &str) -> YamlValue {
    YamlValue::Text(s.to_string())
}

fn hash(entries: Vec<(&str, YamlValue)>) -> YamlValue {
    YamlValue::Hash(entries.into_iter().map(|(k, v)| (text(k), v)).collect())
}

fn bit(v: u8) -> SignalValue {
    SignalValue::BitVec(BitVecValue { two_state: true, bits: vec![v] })
}

fn signal(changes: &[(u32, u8)]) -> Signal {
    Signal { changes: changes.iter().map(|(t, v)| (*t, bit(*v))).collect() }
}

fn path(name: &str) -> SignalPath {
    SignalPath { scope: vec!["top".to_string()], name: name.to_string() }
}

fn bus(extra: Vec<(&str, YamlValue)>) -> BusAnalyzer {
    let mut e = vec![
        ("scope", YamlValue::Array(vec![text("top")])),
        ("clock", text("clk")),
        ("reset", text("rst")),
        ("reset_type", text("high")),
        ("handshake", text("ReadyValid")),
        ("ready", text("ready")),
        ("valid", text("valid")),
        ("triggers", hash(vec![("busy_now", hash(vec![("state", text("busy"))]))])),
    ];
    e.extend(extra);
    match AnalyzerBuilder::build(&text("b"), &hash(e), &AnalyzersConfig::default()) {
        Ok(a) => a,
        Err(e) => panic!("{}", e),
    }
}

fn loaded() -> Vec<(SignalPath, Signal)> {
    vec![
        (path("clk"), Signal { changes: (0..10).map(|i| (i, bit((i % 2) as u8))).collect() }),
        (path("rst"), signal(&[(0, 0)])),
        (path("ready"), signal(&[(0, 1)])),
        (path("valid"), signal(&[(0, 0), (2, 1), (6, 0)])),
    ]
}

fn trace_times() -> TimeTable {
    TimeTable::new((0..10).map(|i| i * 10).collect())
}

#[test]
fn analyzing_a_bus_gives_statistics_and_provided_triggers() {
    let r = bus(vec![]).analyze(&loaded(), &DoneTriggers::new(), &trace_times());
    assert_eq!(r.name, "b");
    match r.result {
        Ok(d) => {
            match d.usage {
                BusUsage::SingleChannel(u) => assert_eq!(u.get_cycles()[0].0, 2),
                _ => panic!("expected single channel statistics"),
            }
            let names: Vec<String> = d.signals.iter().map(|p| p.name.clone()).collect();
            assert_eq!(names, vec!["clk", "rst", "ready", "valid"]);
        },
        Err(e) => panic!("{}", e),
    }
    assert_eq!(r.triggers, vec![("interfaces.b.busy_now".to_string(), Ok(vec![30, 50]))]);
}

#[test]
fn analyzing_a_bus_that_cannot_run_fails_its_triggers() {
    let waiting = bus(vec![("activate_on", text("x.go"))]);
    let r = waiting.analyze(&loaded(), &DoneTriggers::new(), &trace_times());
    let m = "required triggers were not analyzed".to_string();
    assert_eq!(r.result.err(), Some(m.clone()));
    assert_eq!(r.triggers, vec![("interfaces.b.busy_now".to_string(), Err(m))]);

    let mut failed = DoneTriggers::new();
    failed.insert("x.go".to_string(), Err("boom".to_string()));
    let r = bus(vec![("activate_on", text("x.go"))]).analyze(&loaded(), &failed, &trace_times());
    assert_eq!(r.result.err(), Some("bad intervals: boom".to_string()));

    let mut two = loaded();
    two.truncate(2);
    let r = bus(vec![]).analyze(&two, &DoneTriggers::new(), &trace_times());
    assert_eq!(r.result.err(), Some("bus description lacks handshake signals".to_string()));

    let r = bus(vec![]).analyze(&loaded(), &DoneTriggers::new(), &TimeTable::new(vec![0, 10]));
    assert_eq!(r.result.err(), Some("signal changes do not fit the trace's time table".to_string()));
}

#[test]
fn error_messages() {
    assert_eq!(CalculateError::ResetValueInvalid(7).message(), "reset value is invalid at 7");
    assert_eq!(CalculateError::SignalValueMissing(120).message(), "signal does not have value at 120");
    assert_eq!(
        AxiError::NoLastData(3, 14).message(),
        "wlast was not asserted before response for transaction at 3-14"
    );
    assert_eq!(AxiError::InvalidValue(AxiSignal::BResp, 9).message(), "bresp is invalid at 9");
    assert_eq!(AxiError::EndlessWait.message(), "the analysis waits for a reset edge that never comes");
}

#[test]
fn control_triggers_run_or_fail_together() {
    let timer = hash(vec![
        ("type", text("timer")),
        ("triggers", hash(vec![("on", YamlValue::Array(vec![YamlValue::Integer(5), YamlValue::Integer(15)]))])),
    ]);
    let c = match ControlBuilder::build_from_yaml("t".to_string(), &timer) {
        Ok(c) => c,
        Err(e) => panic!("{}", e),
    };
    assert_eq!(c.run(&DoneTriggers::new()), vec![("control_only.t.on".to_string(), Ok(vec![5, 15]))]);
}

#[test]
fn credit_valid_without_credit_is_unknown() {
    let mut a = LockstepAnalyzer::CreditValid(0);
    assert_eq!(a.interpret_cycle(&vec![bit(0), bit(1)]), CycleType::Unknown);
    assert!(matches!(a, LockstepAnalyzer::CreditValid(0)));
    assert_eq!(a.interpret_cycle(&vec![bit(1), bit(1)]), CycleType::Busy);
    assert!(matches!(a, LockstepAnalyzer::CreditValid(0)));
    assert_eq!(a.interpret_cycle(&vec![bit(1), bit(0)]), CycleType::Free);
    assert!(matches!(a, LockstepAnalyzer::CreditValid(1)));
    assert_eq!(a.interpret_cycle(&vec![bit(0), bit(1)]), CycleType::Busy);
    assert_eq!(a.interpret_cycle(&vec![bit(0), bit(0)]), CycleType::NoTransaction);
}

#[test]
fn description_text_is_parsed_then_read() {
    let config = AnalyzersConfig::default();
    match load_bus_analyzers_from_str("", &config) {
        Err(e) => assert_eq!(e, "Yaml should not be empty"),
        Ok(_) => panic!("should fail"),
    }
    match load_bus_analyzers_from_str("a: [b", &config) {
        Err(e) => assert!(!e.is_empty()),
        Ok(_) => panic!("should fail"),
    }
    match load_bus_analyzers_from_str("- 1\n", &config) {
        Err(e) => assert_eq!(e, "Yaml should not be empty"),
        Ok(_) => panic!("should fail"),
    }
    let text = "interfaces:\n  a:\n    scope: top\n    clock: clk\n    reset: rst\n    reset_type: high\n    handshake: ReadyValid\n    ready: ready\n    valid: valid\n";
    match load_bus_analyzers_from_str(text, &config) {
        Ok(g) => {
            let names: Vec<String> = g.analyzers.iter().map(|a| a.bus_name().to_string()).collect();
            assert_eq!(names, vec!["a".to_string()]);
        },
        Err(e) => panic!("{}", e),
    }
    match parse_yaml_docs("x: 1\n---\ny: [2, 3]\n") {
        Ok(docs) => {
            assert_eq!(docs.len(), 2);
            match &docs[1] {
                YamlValue::Hash(e) => assert!(matches!(&e[0].1, YamlValue::Array(v) if v.len() == 2)),
                _ => panic!("expected a mapping"),
            }
        },
        Err(e) => panic!("{}", e),
    }
}

#[test]
fn trace_hash_is_blake3_hex() {
    assert_eq!(trace_hash(&vec![]), "af1349b9f5f9a1a6a0404dea36dcc9499bcb25c9adc112b7cc9a93cae41f3262");
    assert_eq!(trace_hash(&b"abc".to_vec()).len(), 64);
}

#[test]
fn rounds_and_result_order() {
    let s = |v: &[&str]| v.iter().map(|x| x.to_string()).collect::<Vec<String>>();
    let mut done = DoneTriggers::new();
    match next_round(&vec![], &vec![], &done) {
        Round::Finished => {},
        _ => panic!("expected finished"),
    }
    let controls = vec![s(&["x"]), s(&[])];
    let analyzers = vec![s(&["control_only.t.on"])];
    match next_round(&controls, &analyzers, &done) {
        Round::Run { controls } => assert_eq!(controls, vec![1]),
        _ => panic!("expected a round"),
    }
    match next_round(&vec![s(&["x"])], &analyzers, &done) {
        Round::Cycle => {},
        _ => panic!("expected a cycle"),
    }
    done.insert("control_only.t.on".to_string(), Ok(vec![1]));
    assert_eq!(ready_indices(&analyzers, &done), vec![0]);
    match next_round(&vec![s(&["x"])], &analyzers, &done) {
        Round::Run { controls } => assert!(controls.is_empty()),
        _ => panic!("expected a round"),
    }
    assert_eq!(result_order(&s(&["a", "b", "c", "a"]), &s(&["c", "a", "a"])), vec![2, 0]);
    assert_eq!(
        cycle_message(&s(&["a", "b"])),
        "a, b were not analyzed because of trigger dependency cycle"
    );
}

#[test]
fn full_credit_counter_reads_cycles_without_a_credit() {
    let mut a = LockstepAnalyzer::CreditValid(u32::MAX);
    assert!(a.ready_for_cycle(&vec![bit(0), bit(1)]));
    assert!(!a.ready_for_cycle(&vec![bit(1), bit(1)]));
    assert_eq!(a.interpret_cycle(&vec![bit(0), bit(1)]), CycleType::Busy);
    assert!(matches!(a, LockstepAnalyzer::CreditValid(c) if c == u32::MAX - 1));
}

#[test]
fn data_files_are_gzip() {
    let bytes = b"statistics".to_vec();
    let file = encode_data_file(&bytes);
    assert_eq!(&file[..2], &[0x1f, 0x8b]);
    assert_eq!(decode_data_file(&file), Ok(bytes));
    assert_eq!(decode_data_file(&b"not gzip".to_vec()), Err("Invalid file".to_string()));
}
