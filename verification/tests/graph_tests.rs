use busperf::analyzer::{check_dependencies, ready_set, CalculateError, DefaultAnalyzer};
use busperf::bus_usage::{BusUsage, CurrentlyCalculating, Period, SingleChannelBusUsage};
use busperf::graph::{load_bus_analyzers, AnalyzerBuilder, AnalyzersConfig, BusAnalyzer};
use busperf::signal::{BitVecValue, Signal, SignalValue, TimeTable};
use busperf::trigger::DoneTriggers;
use busperf::yaml::YamlValue;
use busperf::SignalPath;

fn text(s: &str) -> YamlValue {
    YamlValue::Text(s.to_string())
}

fn hash(entries: Vec<(&str, YamlValue)>) -> YamlValue {
    YamlValue::Hash(entries.into_iter().map(|(k, v)| (text(k), v)).collect())
}

fn bit(v: u8) -> SignalValue {
    SignalValue::BitVec(BitVecValue { two_state: true, bits: vec![v] })
}

fn signal(changes: &[(u32, u8)]) -> Signal {
    Signal { changes: changes.iter().map(|(t, v)| (*t, bit(*v))).collect() }
}

fn ready_valid_bus(extra: Vec<(&str, YamlValue)>) -> YamlValue {
    let mut e = vec![
        ("scope", YamlValue::Array(vec![text("top")])),
        ("clock", text("clk")),
        ("reset", text("rst")),
        ("reset_type", text("high")),
        ("handshake", text("ReadyValid")),
        ("ready", text("ready")),
        ("valid", text("valid")),
    ];
    e.extend(extra);
    hash(e)
}

fn path(name: &str) -> SignalPath {
    SignalPath { scope: vec!["top".to_string()], name: name.to_string() }
}

#[test]
fn default_analyzer_counts_cycles() {
    let mut a = match DefaultAnalyzer::from_yaml("bus".to_string(), &ready_valid_bus(vec![]), 0) {
        Ok(a) => a,
        Err(e) => panic!("{}", e),
    };
    assert_eq!(a.bus_name(), "bus");
    let names: Vec<String> = a.get_signals().iter().map(|p| p.name.clone()).collect();
    assert_eq!(names, vec!["clk", "rst", "ready", "valid"]);
    let loaded = vec![
        (path("clk"), Signal { changes: (0..10).map(|i| (i, bit((i % 2) as u8))).collect() }),
        (path("rst"), signal(&[(0, 0)])),
        (path("ready"), signal(&[(0, 1)])),
        (path("valid"), signal(&[(0, 0), (2, 1), (6, 0)])),
    ];
    let tt = TimeTable::new((0..10).map(|i| i * 10).collect());
    let intervals = match a.sink.get_intervals(&DoneTriggers::new(), tt.last()) {
        Ok(i) => i,
        Err(e) => panic!("{}", e),
    };
    assert_eq!(intervals, vec![[0, 90]]);
    let expected = SingleChannelBusUsage::literal(
        "bus",
        2,
        0,
        3,
        0,
        0,
        0,
        vec![Period::literal(0, 0, 1), Period::literal(60, 80, 2)],
        vec![Period::literal(20, 40, 2)],
        0,
        CurrentlyCalculating::Delay,
        20,
    );
    match a.calculate(&loaded, &intervals, &tt) {
        Ok(BusUsage::SingleChannel(u)) => assert_eq!(u, expected),
        _ => panic!("expected single channel statistics"),
    }
}

#[test]
fn default_analyzer_counts_reset_cycles_and_reports_missing_values() {
    let mut a = match DefaultAnalyzer::from_yaml("bus".to_string(), &ready_valid_bus(vec![]), 0) {
        Ok(a) => a,
        Err(e) => panic!("{}", e),
    };
    let tt = TimeTable::new((0..10).map(|i| i * 10).collect());
    let clk = Signal { changes: (0..10).map(|i| (i, bit((i % 2) as u8))).collect() };
    let loaded = vec![
        (path("clk"), clk),
        (path("rst"), signal(&[(0, 1)])),
        (path("ready"), signal(&[(0, 1)])),
        (path("valid"), signal(&[(0, 1)])),
    ];
    match a.calculate(&loaded, &vec![[0, 90]], &tt) {
        Ok(BusUsage::SingleChannel(u)) => {
            let counts: Vec<i32> = u.get_cycles().iter().map(|(n, _)| *n).collect();
            assert_eq!(counts, vec![0, 0, 0, 0, 0, 5]);
        },
        _ => panic!("expected single channel statistics"),
    }
    let mut late = loaded;
    late[3].1 = signal(&[(4, 1)]);
    match a.calculate(&late, &vec![[0, 90]], &tt) {
        Err(e) => assert_eq!(e, CalculateError::SignalValueMissing(0)),
        Ok(_) => panic!("should fail"),
    }
    let short = vec![
        (path("clk"), signal(&[(0, 0), (1, 1)])),
        (path("rst"), signal(&[(0, 0)])),
        (path("ready"), signal(&[(0, 1)])),
        (path("valid"), signal(&[(0, 1)])),
    ];
    match a.calculate(&short, &vec![[0, 10]], &TimeTable::new(vec![0, 10])) {
        Err(e) => assert_eq!(e, CalculateError::TraceTooShort),
        Ok(_) => panic!("should fail"),
    }
}

#[test]
fn analyzer_builder_picks_the_analyzer() {
    let config = AnalyzersConfig::new(0, 100, "plugins".to_string());
    match AnalyzerBuilder::build(&text("b"), &ready_valid_bus(vec![]), &config) {
        Ok(BusAnalyzer::Default(a)) => assert_eq!(a.bus_name(), "b"),
        _ => panic!("expected the default analyzer"),
    }
    match AnalyzerBuilder::build(&YamlValue::Integer(1), &ready_valid_bus(vec![]), &config) {
        Err(e) => assert_eq!(e, "Invalid bus name"),
        Ok(_) => panic!("should fail"),
    }
    match AnalyzerBuilder::build(&text("b"), &ready_valid_bus(vec![("custom_analyzer", text("Mine"))]), &config) {
        Err(e) => assert_eq!(e, "Analyzer Mine does not exist or Python plugins are disabled"),
        Ok(_) => panic!("should fail"),
    }
}

#[test]
fn description_file_top_level() {
    let config = AnalyzersConfig::default();
    assert_eq!(config.window_length, 10000);
    let doc = hash(vec![
        ("interfaces", hash(vec![("a", ready_valid_bus(vec![])), ("b", ready_valid_bus(vec![]))])),
        ("scopes", YamlValue::Null),
    ]);
    match load_bus_analyzers(&doc, &config) {
        Ok(g) => {
            let names: Vec<String> = g.analyzers.iter().map(|a| a.bus_name().to_string()).collect();
            assert_eq!(names, vec!["a", "b"]);
            assert!(g.control.is_empty());
        },
        Err(e) => panic!("{}", e),
    }
    let extra = hash(vec![("interfaces", hash(vec![])), ("foo", YamlValue::Null), ("bar", YamlValue::Null)]);
    match load_bus_analyzers(&extra, &config) {
        Err(e) => assert_eq!(
            e,
            "Yaml can only have interfaces, scopes(optional) and common_clk_rst_ifs(optional) in top level, but has extra: foo, bar"
        ),
        Ok(_) => panic!("should fail"),
    }
    match load_bus_analyzers(&hash(vec![("scopes", YamlValue::Null)]), &config) {
        Err(e) => assert_eq!(e, "Yaml should define interfaces"),
        Ok(_) => panic!("should fail"),
    }
    match load_bus_analyzers(&hash(vec![("interfaces", text("x"))]), &config) {
        Err(e) => assert_eq!(e, "Invalid yaml format"),
        Ok(_) => panic!("should fail"),
    }
    match load_bus_analyzers(&YamlValue::Null, &config) {
        Err(e) => assert_eq!(e, "Yaml should not be empty"),
        Ok(_) => panic!("should fail"),
    }
}

#[test]
fn description_file_bus_errors_name_the_bus() {
    let config = AnalyzersConfig::default();
    let doc = hash(vec![("interfaces", hash(vec![("a", hash(vec![("scope", YamlValue::Array(vec![text("top")]))]))]))]);
    match load_bus_analyzers(&doc, &config) {
        Err(e) => assert!(e.starts_with("bus a, ")),
        Ok(_) => panic!("should fail"),
    }
}

#[test]
fn description_file_checks_trigger_dependencies() {
    let config = AnalyzersConfig::default();
    let doc = hash(vec![(
        "interfaces",
        hash(vec![("a", ready_valid_bus(vec![("activate_on", text("control_only.t.on"))]))]),
    )]);
    match load_bus_analyzers(&doc, &config) {
        Err(e) => assert_eq!(e, "analyzer a requires control_only.t.on trigger which is not defined"),
        Ok(_) => panic!("should fail"),
    }
    let with_timer = hash(vec![
        ("interfaces", hash(vec![("a", ready_valid_bus(vec![("activate_on", text("control_only.t.on"))]))])),
        (
            "control_only",
            hash(vec![(
                "t",
                hash(vec![("type", text("timer")), ("triggers", hash(vec![("on", YamlValue::Array(vec![YamlValue::Integer(5)]))]))]),
            )]),
        ),
    ]);
    match load_bus_analyzers(&with_timer, &config) {
        Ok(g) => {
            assert_eq!(g.control.len(), 1);
            assert_eq!(g.analyzers[0].required(), vec!["control_only.t.on".to_string()]);
        },
        Err(e) => panic!("{}", e),
    }
}

#[test]
fn dependencies_and_readiness() {
    let existing = vec!["x".to_string(), "y".to_string()];
    let needs = vec![("a".to_string(), vec!["x".to_string()]), ("b".to_string(), vec!["y".to_string(), "z".to_string()])];
    assert_eq!(check_dependencies(&existing, &needs), Err(("b".to_string(), "z".to_string())));
    assert_eq!(check_dependencies(&existing, &needs[..1].to_vec()), Ok(()));
    let mut done = DoneTriggers::new();
    done.insert("x".to_string(), Ok(vec![]));
    assert_eq!(ready_set(&vec![vec!["x".to_string()], vec!["x".to_string(), "y".to_string()], vec![]], &done), vec![true, false, true]);
}

#[test]
fn default_analyzer_reads_the_triggers_it_provides() {
    let bus = ready_valid_bus(vec![("triggers", hash(vec![("busy_now", hash(vec![("state", text("busy"))]))]))]);
    match AnalyzerBuilder::build(&text("b"), &bus, &AnalyzersConfig::default()) {
        Ok(a) => assert_eq!(a.provides(), vec!["interfaces.b.busy_now".to_string()]),
        Err(e) => panic!("{}", e),
    }
    let bad_state = ready_valid_bus(vec![("triggers", hash(vec![("t", hash(vec![("state", text("sleepy"))]))]))]);
    match DefaultAnalyzer::from_yaml("b".to_string(), &bad_state, 0) {
        Err(e) => assert_eq!(e, "sleepy is not a state"),
        Ok(_) => panic!("should fail"),
    }
    let not_a_map = ready_valid_bus(vec![("triggers", text("x"))]);
    match DefaultAnalyzer::from_yaml("b".to_string(), &not_a_map, 0) {
        Err(e) => assert_eq!(e, "bad triggers"),
        Ok(_) => panic!("should fail"),
    }
}

#[test]
fn description_file_control_errors() {
    let config = AnalyzersConfig::default();
    let not_a_map = hash(vec![("interfaces", hash(vec![("a", ready_valid_bus(vec![]))])), ("control_only", text("x"))]);
    match load_bus_analyzers(&not_a_map, &config) {
        Err(e) => assert_eq!(e, "control_only should define extra triggers"),
        Ok(_) => panic!("should fail"),
    }
    let unknown_type = hash(vec![
        ("interfaces", hash(vec![("a", ready_valid_bus(vec![]))])),
        ("control_only", hash(vec![("t", hash(vec![("type", text("clock"))]))])),
    ]);
    match load_bus_analyzers(&unknown_type, &config) {
        Err(e) => assert_eq!(e, "invalid type"),
        Ok(_) => panic!("should fail"),
    }
    let unnamed_bus = hash(vec![("interfaces", YamlValue::Hash(vec![(YamlValue::Integer(3), ready_valid_bus(vec![]))]))]);
    match load_bus_analyzers(&unnamed_bus, &config) {
        Err(e) => assert_eq!(e, "Each bus should have a name"),
        Ok(_) => panic!("should fail"),
    }
}
