use busperf::config_triggers::{combination_from_yaml, parse_u32, ControlBuilder};
use busperf::control::{Control, TimeControl, TimeTrigger};
use busperf::sources::BitMatch;
use busperf::trigger::{intervals_from_times, DoneTriggers, TriggerCombination, TriggerSink};
use busperf::yaml::YamlValue;

fn text(s: &str) -> YamlValue {
    YamlValue::Text(s.to_string())
}

fn hash(entries: Vec<(&str, YamlValue)>) -> YamlValue {
    YamlValue::Hash(entries.into_iter().map(|(k, v)| (text(k), v)).collect())
}

fn ints(v: &[i64]) -> YamlValue {
    YamlValue::Array(v.iter().map(|i| YamlValue::Integer(*i)).collect())
}

fn done_with(entries: &[(&str, Result<Vec<u64>, String>)]) -> DoneTriggers {
    let mut d = DoneTriggers::new();
    for (n, o) in entries {
        d.insert(n.to_string(), o.clone());
    }
    d
}

fn single(n: &str) -> TriggerCombination {
    TriggerCombination::Single(n.to_string())
}

#[test]
fn done_triggers_give_the_last_outcome_recorded() {
    let mut d = DoneTriggers::new();
    assert!(!d.contains("a"));
    d.insert("a".to_string(), Ok(vec![1]));
    d.insert("a".to_string(), Ok(vec![2, 3]));
    assert!(d.contains("a"));
    assert_eq!(d.get("a"), Some(&Ok(vec![2, 3])));
    assert_eq!(d.get("b"), None);
}

#[test]
fn combination_times() {
    let d = done_with(&[("a", Ok(vec![1, 5, 9])), ("b", Ok(vec![5, 7])), ("c", Ok(vec![9, 5]))]);
    assert_eq!(TriggerCombination::NoTrigger.get_times(&d), Ok(vec![0]));
    assert_eq!(single("a").get_times(&d), Ok(vec![1, 5, 9]));
    let any = TriggerCombination::Any(vec![single("a"), single("b")]);
    assert_eq!(any.get_times(&d), Ok(vec![1, 5, 7, 9]));
    let all = TriggerCombination::All(vec![single("a"), single("c")]);
    let mut both = all.get_times(&d).unwrap();
    both.sort();
    assert_eq!(both, vec![5, 9]);
    assert_eq!(any.get_names(), vec!["a".to_string(), "b".to_string()]);
}

#[test]
fn combination_reports_the_first_failure() {
    let d = done_with(&[("a", Err("broken a".to_string())), ("b", Err("broken b".to_string()))]);
    let any = TriggerCombination::Any(vec![single("b"), single("a")]);
    assert_eq!(any.get_times(&d), Err("broken b".to_string()));
}

#[test]
fn intervals_follow_activations_and_deactivations() {
    // the activation at 20 falls inside [10, 30] and is ignored; the one at 50 lasts to the end
    assert_eq!(intervals_from_times(&vec![10, 20, 50], &vec![30, 40], 100), vec![[10, 30], [50, 100]]);
    assert_eq!(intervals_from_times(&vec![], &vec![5], 100), Vec::<[u64; 2]>::new());
    // a deactivation before the activation is skipped
    assert_eq!(intervals_from_times(&vec![10], &vec![5, 15], 100), vec![[10, 15]]);
}

#[test]
fn sink_without_triggers_covers_the_whole_trace() {
    let sink = TriggerSink::new(TriggerCombination::NoTrigger, TriggerCombination::NoTrigger);
    assert!(sink.required().is_empty());
    assert_eq!(sink.get_intervals(&DoneTriggers::new(), 90), Ok(vec![[0, 90]]));
}

#[test]
fn sink_intervals_from_triggers() {
    let sink = TriggerSink::new(single("on"), single("off"));
    assert_eq!(sink.required(), vec!["on".to_string(), "off".to_string()]);
    let d = done_with(&[("on", Ok(vec![10, 50])), ("off", Ok(vec![20]))]);
    assert_eq!(sink.get_intervals(&d, 100), Ok(vec![[10, 20], [50, 100]]));
    let failed = done_with(&[("on", Ok(vec![10])), ("off", Err("off failed".to_string()))]);
    assert_eq!(sink.get_intervals(&failed, 100), Err("off failed".to_string()));
}

#[test]
fn combinations_from_yaml() {
    match combination_from_yaml(&text("a")) {
        Ok(TriggerCombination::Single(n)) => assert_eq!(n, "a"),
        _ => panic!("expected a single trigger"),
    }
    match combination_from_yaml(&YamlValue::Array(vec![text("a"), hash(vec![("all", YamlValue::Array(vec![text("b"), text("c")]))])])) {
        Ok(c) => assert_eq!(c.get_names(), vec!["a".to_string(), "b".to_string(), "c".to_string()]),
        Err(e) => panic!("{}", e),
    }
    match combination_from_yaml(&YamlValue::Integer(3)) {
        Err(e) => assert_eq!(e, "non string trigger name Integer(3)"),
        Ok(_) => panic!("should fail"),
    }
    match combination_from_yaml(&hash(vec![("any", YamlValue::Array(vec![]))])) {
        Err(e) => assert_eq!(e, "combination should be named all"),
        Ok(_) => panic!("should fail"),
    }
}

#[test]
fn timer_triggers() {
    let t = TimeControl { name: "t".to_string(), triggers: vec![TimeTrigger::new("control_only.t.a".to_string(), vec![1, 2])] };
    let c = Control::Timer(t);
    assert_eq!(c.names(), vec!["control_only.t.a".to_string()]);
    assert!(c.required().is_empty());
    assert_eq!(c.analyze(&DoneTriggers::new()), vec![("control_only.t.a".to_string(), Ok(vec![1, 2]))]);
}

#[test]
fn timer_from_yaml() {
    let y = hash(vec![("type", text("timer")), ("triggers", hash(vec![("start", ints(&[1, 10])), ("stop", ints(&[8]))]))]);
    let c = match ControlBuilder::build_from_yaml("range".to_string(), &y) {
        Ok(c) => c,
        Err(e) => panic!("{}", e),
    };
    assert_eq!(c.name(), "range");
    assert_eq!(c.names(), vec!["control_only.range.start".to_string(), "control_only.range.stop".to_string()]);
    let bad = hash(vec![("type", text("clock"))]);
    match ControlBuilder::build_from_yaml("x".to_string(), &bad) {
        Err(e) => assert_eq!(e, "invalid type"),
        Ok(_) => panic!("should fail"),
    }
    let no_list = hash(vec![("type", text("timer")), ("triggers", hash(vec![("start", YamlValue::Integer(1))]))]);
    match ControlBuilder::build_from_yaml("x".to_string(), &no_list) {
        Err(e) => assert_eq!(e, "times should be in array"),
        Ok(_) => panic!("should fail"),
    }
}

fn machine_yaml() -> YamlValue {
    hash(vec![
        ("type", text("fsm")),
        (
            "states",
            hash(vec![
                ("idle", hash(vec![("transition_to", hash(vec![("busy", YamlValue::Array(vec![text("control_only.t.go")]))]))])),
                (
                    "busy",
                    hash(vec![
                        ("trigger_set", text("on")),
                        ("transition_to", hash(vec![("idle", YamlValue::Array(vec![text("control_only.t.stop")]))])),
                    ]),
                ),
            ]),
        ),
    ])
}

#[test]
fn machine_activates_its_trigger_on_entering_a_state() {
    let c = match ControlBuilder::build_from_yaml("m".to_string(), &machine_yaml()) {
        Ok(c) => c,
        Err(e) => panic!("{}", e),
    };
    assert_eq!(c.names(), vec!["control_only.m.on".to_string()]);
    assert_eq!(c.required(), vec!["control_only.t.go".to_string(), "control_only.t.stop".to_string()]);
    if let Control::Machine(m) = &c {
        assert!(m.epsilon_transitions_end());
    }
    let d = done_with(&[("control_only.t.go", Ok(vec![10, 30])), ("control_only.t.stop", Ok(vec![20]))]);
    assert_eq!(c.analyze(&d), vec![("control_only.m.on".to_string(), Ok(vec![10, 30]))]);
}

#[test]
fn machine_with_undefined_target_fails() {
    let y = hash(vec![
        ("type", text("fsm")),
        ("states", hash(vec![("idle", hash(vec![("transition_to", hash(vec![("nowhere", YamlValue::Array(vec![]))]))]))])),
    ]);
    assert!(ControlBuilder::build_from_yaml("m".to_string(), &y).is_err());
    let none = hash(vec![("type", text("fsm"))]);
    match ControlBuilder::build_from_yaml("m".to_string(), &none) {
        Err(e) => assert_eq!(e, "States are not defined"),
        Ok(_) => panic!("should fail"),
    }
}

#[test]
fn numbers_in_bit_ranges() {
    assert_eq!(parse_u32("42"), Ok(42));
    assert_eq!(parse_u32("4294967295"), Ok(4294967295));
    assert!(parse_u32("4294967296").is_err());
    assert!(parse_u32("").is_err());
    assert!(parse_u32("4a").is_err());
}

fn racing_machine(first: &str, second: &str) -> Control {
    let y = hash(vec![
        ("type", text("fsm")),
        (
            "states",
            hash(vec![
                (
                    "idle",
                    hash(vec![(
                        "transition_to",
                        hash(vec![
                            (first, YamlValue::Array(vec![text("control_only.t.x")])),
                            (second, YamlValue::Array(vec![text("control_only.t.y")])),
                        ]),
                    )]),
                ),
                ("a", hash(vec![("trigger_set", text("in_a"))])),
                ("b", hash(vec![("trigger_set", text("in_b"))])),
            ]),
        ),
    ]);
    match ControlBuilder::build_from_yaml("m".to_string(), &y) {
        Ok(c) => c,
        Err(e) => panic!("{}", e),
    }
}

#[test]
fn machine_takes_the_first_defined_of_simultaneous_transitions() {
    let d = done_with(&[("control_only.t.x", Ok(vec![10])), ("control_only.t.y", Ok(vec![10]))]);
    let c = racing_machine("a", "b");
    let out = c.run(&d);
    assert!(out.contains(&("control_only.m.in_a".to_string(), Ok(vec![10]))));
    assert!(out.contains(&("control_only.m.in_b".to_string(), Ok(vec![]))));
    let c = racing_machine("b", "a");
    let out = c.run(&d);
    assert!(out.contains(&("control_only.m.in_b".to_string(), Ok(vec![10]))));
    assert!(out.contains(&("control_only.m.in_a".to_string(), Ok(vec![]))));
}

#[test]
fn any_is_the_union_and_all_the_intersection() {
    let d = done_with(&[("x", Ok(vec![1, 3, 5])), ("y", Ok(vec![2, 3, 5]))]);
    assert_eq!(TriggerCombination::Any(vec![single("x"), single("y")]).get_times(&d), Ok(vec![1, 2, 3, 5]));
    let mut all = TriggerCombination::All(vec![single("x"), single("y")]).get_times(&d).unwrap();
    all.sort();
    assert_eq!(all, vec![3, 5]);
}

#[test]
fn error_messages_show_the_offending_node() {
    match combination_from_yaml(&hash(vec![("all", YamlValue::Array(vec![])), ("b", YamlValue::Integer(2))])) {
        Err(e) => assert_eq!(e, "other item next to any {String(\"all\"): Array([]), String(\"b\"): Integer(2)}"),
        Ok(_) => panic!("should fail"),
    }
    let y = hash(vec![
        ("type", text("fsm")),
        ("states", hash(vec![("idle", hash(vec![("transition_to", YamlValue::Integer(1))]))])),
    ]);
    match ControlBuilder::build_from_yaml("m".to_string(), &y) {
        Err(e) => assert_eq!(e, "transitions badly defined, Integer(1)"),
        Ok(_) => panic!("should fail"),
    }
    let y = hash(vec![
        ("type", text("fsm")),
        ("states", hash(vec![("idle", hash(vec![("trigger_set", YamlValue::Boolean(true))]))])),
    ]);
    match ControlBuilder::build_from_yaml("m".to_string(), &y) {
        Err(e) => assert_eq!(e, "invalid trigger name: Boolean(true)"),
        Ok(_) => panic!("should fail"),
    }
}

#[test]
fn bit_values_must_be_numbers_and_outcomes_are_replaced() {
    let y = hash(vec![
        ("range", YamlValue::Array(vec![text("3:0")])),
        ("value", YamlValue::Array(vec![text("x")])),
    ]);
    match BitMatch::from_yaml(&y) {
        Err(e) => assert_eq!(e, "no value set String(\"x\")"),
        Ok(_) => panic!("should fail"),
    }
    let mut d = DoneTriggers::new();
    d.insert("a".to_string(), Ok(vec![1]));
    d.insert("a".to_string(), Err("failed".to_string()));
    assert_eq!(d.get("a"), Some(&Err("failed".to_string())));
    assert!(!d.contains("b"));
}
