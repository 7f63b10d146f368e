//! Reading trigger definitions from their YAML form.
use vstd::prelude::*;
use vstd::string::StringExecFns;
use crate::config::concat;
use crate::control::{Control, TimeControl, TimeTrigger};
use crate::fsm::{Fsm, FsmState};
use crate::sources::{BitFilter, BitMatch, ChannelTrigger, CombinationType, SignalTrigger, TransactionMoment, TransactionTrigger, TriggerSource, TriggerSourceCombination};
use crate::bus::BusDescription;
use crate::analyzer::DefaultAnalyzer;
use crate::config::{analyzer_for, bus_of, describes, handshake_named, BusDescriptionBuilder};
use crate::CyclesNum;
use crate::CycleType;
use crate::SignalPath;
use vstd::string::StrSliceExecFns;
use crate::text::str_eq;
use crate::trigger::{names_of, TriggerCombination, TriggerSink};
use crate::yaml::{
    key_is, key_matches, lemma_lookup_member, map_debug, map_debug_text, yaml_debug, yaml_debug_text, yaml_get,
    yaml_index, yaml_str, YamlValue,
};

verus! {

/// The combination is what the YAML node describes: no node is no trigger, a text a single
/// trigger, a list an any-combination of its items, and a mapping whose only key is `all`,
/// holding a list, an all-combination of its items.
pub open spec fn parses_to(y: YamlValue, c: TriggerCombination) -> bool
    decreases c,
{
    match c {
        TriggerCombination::NoTrigger => y is BadValue,
        TriggerCombination::Single(n) => y matches YamlValue::Text(s) && s@ == n@,
        TriggerCombination::Any(v) => match y {
            YamlValue::Array(ys) => ys@.len() == v@.len() && forall|i: int|
                0 <= i < v@.len() ==> parses_to(ys@[i], v@[i]),
            _ => false,
        },
        TriggerCombination::All(v) => match y {
            YamlValue::Hash(entries) => entries@.len() == 1 && match yaml_get(y, "all"@) {
                Some(YamlValue::Array(ys)) => ys@.len() == v@.len() && forall|i: int|
                    0 <= i < v@.len() ==> parses_to(ys@[i], v@[i]),
                _ => false,
            },
            _ => false,
        },
    }
}

/// Why a YAML node does not describe a trigger combination, if it does not.
pub open spec fn combination_error(y: YamlValue) -> Option<Seq<char>>
    decreases y, 0nat,
{
    match y {
        YamlValue::Text(_) => None,
        YamlValue::BadValue => None,
        YamlValue::Array(ys) => items_error(ys@, ys@.len() as int),
        YamlValue::Hash(entries) => if entries@.len() != 1 {
            Some("other item next to any "@ + map_debug_text(entries@))
        } else if key_is(entries@[0].0, "all"@) {
            match entries@[0].1 {
                YamlValue::Array(ys) => items_error(ys@, ys@.len() as int),
                _ => Some("combination should be named all"@),
            }
        } else {
            Some("combination should be named all"@)
        },
        _ => Some("non string trigger name "@ + yaml_debug_text(y)),
    }
}

/// The first error among the first `k` items.
pub open spec fn items_error(ys: Seq<YamlValue>, k: int) -> Option<Seq<char>>
    decreases ys, 1nat, k,
{
    if k <= 0 || k > ys.len() {
        None
    } else {
        match items_error(ys, k - 1) {
            Some(e) => Some(e),
            None => combination_error(ys[k - 1]),
        }
    }
}

proof fn lemma_items_error_stays(ys: Seq<YamlValue>, i: int, k: int)
    requires
        0 <= i < k <= ys.len(),
        items_error(ys, i) is None,
        combination_error(ys[i]) is Some,
    ensures
        items_error(ys, k) == combination_error(ys[i]),
    decreases k,
{
    if k > i + 1 {
        lemma_items_error_stays(ys, i, k - 1);
    }
}

/// Reads a trigger combination.
pub fn combination_from_yaml(yaml: &YamlValue) -> (r: Result<TriggerCombination, String>)
    ensures
        r matches Ok(c) ==> combination_error(*yaml) is None && parses_to(*yaml, c),
        r matches Err(e) ==> combination_error(*yaml) == Some(e@),
    decreases yaml, 0nat,
{
    proof {
        reveal_strlit("all");
        reveal_strlit("other item next to any ");
        reveal_strlit("combination should be named all");
        reveal_strlit("non string trigger name ");
    }
    match yaml {
        YamlValue::Text(name) => Ok(TriggerCombination::Single(name.clone())),
        YamlValue::BadValue => Ok(TriggerCombination::NoTrigger),
        YamlValue::Array(ys) => {
            let v = combinations_from_items(ys)?;
            Ok(TriggerCombination::Any(v))
        },
        YamlValue::Hash(entries) => {
            if entries.len() != 1 {
                return Err(concat("other item next to any ", map_debug(entries).as_str()));
            }
            assert(entries@.drop_first().len() == 0);
            if key_matches(&entries[0].0, "all") {
                match &entries[0].1 {
                    YamlValue::Array(ys) => {
                        let v = combinations_from_items(ys)?;
                        Ok(TriggerCombination::All(v))
                    },
                    _ => Err(String::from_str("combination should be named all")),
                }
            } else {
                Err(String::from_str("combination should be named all"))
            }
        },
        _ => Err(concat("non string trigger name ", yaml_debug(yaml).as_str())),
    }
}

fn combinations_from_items(ys: &Vec<YamlValue>) -> (r: Result<Vec<TriggerCombination>, String>)
    ensures
        r matches Ok(v) ==> items_error(ys@, ys@.len() as int) is None && v@.len() == ys@.len() && forall|i: int|
            0 <= i < v@.len() ==> parses_to(ys@[i], v@[i]),
        r matches Err(e) ==> items_error(ys@, ys@.len() as int) == Some(e@),
    decreases ys, 1nat,
{
    let mut v: Vec<TriggerCombination> = Vec::new();
    let mut i: usize = 0;
    while i < ys.len()
        invariant
            i <= ys@.len(),
            items_error(ys@, i as int) is None,
            v@.len() == i,
            forall|j: int| 0 <= j < i ==> parses_to(ys@[j], v@[j]),
        decreases ys@.len() - i,
    {
        proof {
            assert(decreases_to!(ys => ys[i as int]));
        }
        match combination_from_yaml(&ys[i]) {
            Ok(c) => {
                v.push(c);
            },
            Err(e) => {
                proof {
                    lemma_items_error_stays(ys@, i as int, ys@.len() as int);
                }
                return Err(e);
            },
        }
        i = i + 1;
    }
    Ok(v)
}

/// The trigger sink a bus description defines: when its analyzer activates and deactivates.
pub open spec fn sink_error(y: YamlValue) -> Option<Seq<char>> {
    match combination_error(yaml_index(y, "activate_on"@)) {
        Some(e) => Some("activate triggers invalid: "@ + e),
        None => match combination_error(yaml_index(y, "deactivate_on"@)) {
            Some(e) => Some("deactivate triggers invalid: "@ + e),
            None => None,
        },
    }
}

fn index_or_bad<'a>(y: &'a YamlValue, key: &str, bad: &'a YamlValue) -> (r: &'a YamlValue)
    requires
        *bad is BadValue,
    ensures
        *r == yaml_index(*y, key@),
{
    match y.get(key) {
        Some(v) => v,
        None => bad,
    }
}

impl TriggerSink {
    /// Reads the trigger sink of a bus description: its `activate_on` and `deactivate_on`.
    pub fn build_from_yaml(yaml: &YamlValue) -> (r: Result<TriggerSink, String>)
        ensures
            r matches Ok(s) ==> sink_error(*yaml) is None && parses_to(yaml_index(*yaml, "activate_on"@), s.activate)
                && parses_to(yaml_index(*yaml, "deactivate_on"@), s.deactivate),
            r matches Err(e) ==> sink_error(*yaml) == Some(e@),
    {
        proof {
            reveal_strlit("activate_on");
            reveal_strlit("deactivate_on");
            reveal_strlit("activate triggers invalid: ");
            reveal_strlit("deactivate triggers invalid: ");
        }
        let bad = YamlValue::BadValue;
        let activate = match combination_from_yaml(index_or_bad(yaml, "activate_on", &bad)) {
            Ok(c) => c,
            Err(e) => {
                return Err(concat("activate triggers invalid: ", e.as_str()));
            },
        };
        let deactivate = match combination_from_yaml(index_or_bad(yaml, "deactivate_on", &bad)) {
            Ok(c) => c,
            Err(e) => {
                return Err(concat("deactivate triggers invalid: ", e.as_str()));
            },
        };
        Ok(TriggerSink::new(activate, deactivate))
    }
}

/// Times listed in the first `k` items, each an integer (taken as unsigned, as `as` does).
pub open spec fn times_list(ys: Seq<YamlValue>, k: int) -> Result<Seq<u64>, Seq<char>>
    decreases k,
{
    if k <= 0 || k > ys.len() {
        Ok(Seq::empty())
    } else {
        match times_list(ys, k - 1) {
            Err(e) => Err(e),
            Ok(ts) => match ys[k - 1] {
                YamlValue::Integer(i) => Ok(ts.push(i as u64)),
                _ => Err("time should be a number"@),
            },
        }
    }
}

/// The triggers of a timer named `ctrl`, from the first `k` entries of its `triggers` mapping.
pub open spec fn timer_triggers(ctrl: Seq<char>, entries: Seq<(YamlValue, YamlValue)>, k: int) -> Result<Seq<(Seq<char>, Seq<u64>)>, Seq<char>>
    decreases k,
{
    if k <= 0 || k > entries.len() {
        Ok(Seq::empty())
    } else {
        match timer_triggers(ctrl, entries, k - 1) {
            Err(e) => Err(e),
            Ok(ts) => match yaml_str(entries[k - 1].0) {
                None => Err("invalid name"@),
                Some(n) => match entries[k - 1].1 {
                    YamlValue::Array(ys) => match times_list(ys@, ys@.len() as int) {
                        Err(e) => Err(e),
                        Ok(times) => Ok(ts.push(("control_only."@ + ctrl + "."@ + n, times))),
                    },
                    _ => Err("times should be in array"@),
                },
            },
        }
    }
}

/// What a timer's description reads as.
pub open spec fn timer_of(ctrl: Seq<char>, y: YamlValue) -> Result<Seq<(Seq<char>, Seq<u64>)>, Seq<char>> {
    match yaml_index(y, "triggers"@) {
        YamlValue::Hash(entries) => timer_triggers(ctrl, entries@, entries@.len() as int),
        _ => Err("triggers not specified"@),
    }
}

proof fn lemma_times_list_fails(ys: Seq<YamlValue>, i: int, k: int)
    requires
        0 <= i < k <= ys.len(),
        times_list(ys, i) is Ok,
        times_list(ys, i + 1) is Err,
    ensures
        times_list(ys, k) == times_list(ys, i + 1),
    decreases k,
{
    if k > i + 1 {
        lemma_times_list_fails(ys, i, k - 1);
    }
}

proof fn lemma_timer_fails(ctrl: Seq<char>, entries: Seq<(YamlValue, YamlValue)>, i: int, k: int)
    requires
        0 <= i < k <= entries.len(),
        timer_triggers(ctrl, entries, i) is Ok,
        timer_triggers(ctrl, entries, i + 1) is Err,
    ensures
        timer_triggers(ctrl, entries, k) == timer_triggers(ctrl, entries, i + 1),
    decreases k,
{
    if k > i + 1 {
        lemma_timer_fails(ctrl, entries, i, k - 1);
    }
}

fn times_from_yaml(ys: &Vec<YamlValue>) -> (r: Result<Vec<u64>, String>)
    ensures
        match times_list(ys@, ys@.len() as int) {
            Ok(t) => r matches Ok(v) && v@ == t,
            Err(e) => r matches Err(m) && m@ == e,
        },
{
    proof {
        reveal_strlit("time should be a number");
    }
    let mut v: Vec<u64> = Vec::new();
    let mut i: usize = 0;
    while i < ys.len()
        invariant
            i <= ys@.len(),
            times_list(ys@, i as int) == Ok::<Seq<u64>, Seq<char>>(v@),
        decreases ys@.len() - i,
    {
        match ys[i].as_i64() {
            Some(t) => {
                v.push(t as u64);
            },
            None => {
                proof {
                    lemma_times_list_fails(ys@, i as int, ys@.len() as int);
                }
                return Err(String::from_str("time should be a number"));
            },
        }
        i = i + 1;
    }
    Ok(v)
}

/// The triggers of a timer as mathematical values.
pub open spec fn timer_view(t: TimeControl) -> Seq<(Seq<char>, Seq<u64>)> {
    t.triggers@.map_values(|x: TimeTrigger| (x.name@, x.times@))
}

impl TimeControl {
    /// Reads the timer `name`: each of its triggers (named `control_only.<timer>.<trigger>`)
    /// with its list of times.
    pub fn build_from_yaml(name: String, yaml: &YamlValue) -> (r: Result<TimeControl, String>)
        ensures
            match timer_of(name@, *yaml) {
                Ok(ts) => r matches Ok(t) && t.name@ == name@ && timer_view(t) == ts,
                Err(e) => r matches Err(m) && m@ == e,
            },
    {
        proof {
            reveal_strlit("triggers");
            reveal_strlit("triggers not specified");
            reveal_strlit("invalid name");
            reveal_strlit("times should be in array");
            reveal_strlit("control_only.");
            reveal_strlit(".");
        }
        let entries = match yaml.get("triggers") {
            Some(YamlValue::Hash(e)) => e,
            _ => {
                return Err(String::from_str("triggers not specified"));
            },
        };
        let mut triggers: Vec<TimeTrigger> = Vec::new();
        let mut i: usize = 0;
        assert(triggers@.map_values(|x: TimeTrigger| (x.name@, x.times@)) =~= Seq::empty());
        while i < entries.len()
            invariant
                i <= entries@.len(),
                yaml_index(*yaml, "triggers"@) == YamlValue::Hash(*entries),
                timer_triggers(name@, entries@, i as int) == Ok::<Seq<(Seq<char>, Seq<u64>)>, Seq<char>>(
                    triggers@.map_values(|x: TimeTrigger| (x.name@, x.times@)),
                ),
            decreases entries@.len() - i,
        {
            let n = match entries[i].0.as_str() {
                Some(n) => n,
                None => {
                    proof {
                        lemma_timer_fails(name@, entries@, i as int, entries@.len() as int);
                    }
                    return Err(String::from_str("invalid name"));
                },
            };
            let times = match &entries[i].1 {
                YamlValue::Array(ys) => match times_from_yaml(ys) {
                    Ok(t) => t,
                    Err(e) => {
                        proof {
                            lemma_timer_fails(name@, entries@, i as int, entries@.len() as int);
                        }
                        return Err(e);
                    },
                },
                _ => {
                    proof {
                        lemma_timer_fails(name@, entries@, i as int, entries@.len() as int);
                    }
                    return Err(String::from_str("times should be in array"));
                },
            };
            let full = concat("control_only.", name.as_str());
            let full = concat(full.as_str(), ".");
            let full = concat(full.as_str(), n);
            let ghost before = triggers@;
            triggers.push(TimeTrigger::new(full, times));
            assert(triggers@.map_values(|x: TimeTrigger| (x.name@, x.times@)) =~= before.map_values(
                |x: TimeTrigger| (x.name@, x.times@),
            ).push((triggers@.last().name@, triggers@.last().times@))) by {
                assert(triggers@.last() == triggers@[before.len() as int]);
            }
            i = i + 1;
        }
        Ok(TimeControl { name, triggers })
    }
}

/// A state as its description reads: its name, its transitions (trigger and target state
/// name), its epsilon transition's target and the name of the trigger it sets.
pub type StateDraft = (Seq<char>, Seq<(Seq<char>, Seq<char>)>, Option<Seq<char>>, Option<Seq<char>>);

/// Transitions to `to` on each of the first `k` trigger names.
pub open spec fn item_triggers(ys: Seq<YamlValue>, to: Seq<char>, k: int) -> Result<Seq<(Seq<char>, Seq<char>)>, Seq<char>>
    decreases k,
{
    if k <= 0 || k > ys.len() {
        Ok(Seq::empty())
    } else {
        match item_triggers(ys, to, k - 1) {
            Err(e) => Err(e),
            Ok(ts) => match yaml_str(ys[k - 1]) {
                None => Err("invalid trigger"@),
                Some(t) => Ok(ts.push((t, to))),
            },
        }
    }
}

/// Transitions from the first `k` entries of `transition_to`: a target with a trigger
/// name or a list of them; an empty list is an epsilon transition (the last one counts).
pub open spec fn transitions_of(entries: Seq<(YamlValue, YamlValue)>, k: int) -> Result<(Seq<(Seq<char>, Seq<char>)>, Option<Seq<char>>), Seq<char>>
    decreases k,
{
    if k <= 0 || k > entries.len() {
        Ok((Seq::empty(), None))
    } else {
        match transitions_of(entries, k - 1) {
            Err(e) => Err(e),
            Ok((ts, eps)) => match yaml_str(entries[k - 1].0) {
                None => Err("transition target invalid"@),
                Some(to) => match entries[k - 1].1 {
                    YamlValue::Text(t) => Ok((ts.push((t@, to)), eps)),
                    YamlValue::Array(ys) => if ys@.len() == 0 {
                        Ok((ts, Some(to)))
                    } else {
                        match item_triggers(ys@, to, ys@.len() as int) {
                            Err(e) => Err(e),
                            Ok(more) => Ok((ts + more, eps)),
                        }
                    },
                    _ => Err("invalid triggers"@),
                },
            },
        }
    }
}

/// What the description of a state reads as, in the machine `machine`.
pub open spec fn state_draft(machine: Seq<char>, key: YamlValue, sy: YamlValue) -> Result<StateDraft, Seq<char>> {
    match yaml_str(key) {
        None => Err("invalid state name"@),
        Some(name) => {
            let trans = match yaml_index(sy, "transition_to"@) {
                YamlValue::Hash(e) => transitions_of(e@, e@.len() as int),
                YamlValue::BadValue => Ok((Seq::empty(), None)),
                _ => Err("transitions badly defined, "@ + yaml_debug_text(yaml_index(sy, "transition_to"@))),
            };
            match trans {
                Err(e) => Err(e),
                Ok((ts, eps)) => match yaml_index(sy, "trigger_set"@) {
                    YamlValue::Text(t) => Ok((name, ts, eps, Some("control_only."@ + machine + "."@ + t@))),
                    YamlValue::BadValue => Ok((name, ts, eps, None)),
                    _ => Err("invalid trigger name: "@ + yaml_debug_text(yaml_index(sy, "trigger_set"@))),
                },
            }
        },
    }
}

/// What the first `k` state descriptions read as.
pub open spec fn drafts_of(machine: Seq<char>, entries: Seq<(YamlValue, YamlValue)>, k: int) -> Result<Seq<StateDraft>, Seq<char>>
    decreases k,
{
    if k <= 0 || k > entries.len() {
        Ok(Seq::empty())
    } else {
        match drafts_of(machine, entries, k - 1) {
            Err(e) => Err(e),
            Ok(ds) => match state_draft(machine, entries[k - 1].0, entries[k - 1].1) {
                Err(e) => Err(e),
                Ok(d) => Ok(ds.push(d)),
            },
        }
    }
}

/// Index of the first of `names` equal to `t`.
pub open spec fn index_in(names: Seq<Seq<char>>, t: Seq<char>) -> Option<int>
    decreases names.len(),
{
    if names.len() == 0 {
        None
    } else {
        match index_in(names.drop_last(), t) {
            Some(i) => Some(i),
            None => if names.last() == t { Some(names.len() - 1) } else { None },
        }
    }
}

/// Names of the states.
pub open spec fn draft_names(d: Seq<StateDraft>) -> Seq<Seq<char>> {
    d.map_values(|x: StateDraft| x.0)
}

/// The message for a transition of state `s` to the state `t` that does not exist.
pub open spec fn missing_state(s: Seq<char>, t: Seq<char>) -> Seq<char> {
    "state "@ + s + " defines transition to "@ + t + " which does not exist"@
}

/// The first transition, among the first `k` of a state, to a state that does not exist.
pub open spec fn missing_target_in(names: Seq<Seq<char>>, d: StateDraft, k: int) -> Option<Seq<char>>
    decreases k,
{
    if k <= 0 || k > d.1.len() {
        None
    } else {
        match missing_target_in(names, d, k - 1) {
            Some(e) => Some(e),
            None => if index_in(names, d.1[k - 1].1) is None { Some(missing_state(d.0, d.1[k - 1].1)) } else { None },
        }
    }
}

/// The first transition, among those of the first `k` states (each state's epsilon
/// transition after its others), to a state that does not exist.
pub open spec fn missing_target(names: Seq<Seq<char>>, d: Seq<StateDraft>, k: int) -> Option<Seq<char>>
    decreases k,
{
    if k <= 0 || k > d.len() {
        None
    } else {
        match missing_target(names, d, k - 1) {
            Some(e) => Some(e),
            None => match missing_target_in(names, d[k - 1], d[k - 1].1.len() as int) {
                Some(e) => Some(e),
                None => match d[k - 1].2 {
                    Some(t) => if index_in(names, t) is None { Some(missing_state(d[k - 1].0, t)) } else { None },
                    None => None,
                },
            },
        }
    }
}

/// What a machine's description reads as: its states, in order, the first being where it starts.
pub open spec fn fsm_of(machine: Seq<char>, y: YamlValue) -> Result<Seq<StateDraft>, Seq<char>> {
    match yaml_index(y, "states"@) {
        YamlValue::Hash(entries) => if entries@.len() == 0 {
            Err("No states defined"@)
        } else if yaml_str(entries@[0].0) is None {
            Err("invalid state name"@)
        } else {
            match drafts_of(machine, entries@, entries@.len() as int) {
                Err(e) => Err(e),
                Ok(d) => match missing_target(draft_names(d), d, d.len() as int) {
                    Some(e) => Err(e),
                    None => Ok(d),
                },
            }
        },
        _ => Err("States are not defined"@),
    }
}

/// The machine is built from the states' drafts: each state keeps its name and its
/// transitions, targets found by name; each trigger name is held once.
pub open spec fn built_from(m: Fsm, machine: Seq<char>, d: Seq<StateDraft>) -> bool {
    &&& m.name@ == machine
    &&& m.states@.len() == d.len()
    &&& forall|s: int| 0 <= s < d.len() ==> state_built(#[trigger] m.states@[s], d[s], draft_names(d), m.trigger_names@, d.len())
    &&& forall|i: int, j: int| 0 <= i < j < m.trigger_names@.len() ==> m.trigger_names@[i]@ != m.trigger_names@[j]@
    &&& forall|k: int| 0 <= k < m.trigger_names@.len() ==> exists|s: int| 0 <= s < d.len() && d[s].3 == Some(#[trigger] m.trigger_names@[k]@)
}

/// The state is built from its draft, targets found among `names`, its trigger among `tn`.
pub open spec fn state_built(st: FsmState, dq: StateDraft, names: Seq<Seq<char>>, tn: Seq<String>, n: nat) -> bool {
    &&& st.name@ == dq.0
    &&& st.transitions@.len() == dq.1.len()
    &&& forall|k: int| 0 <= k < dq.1.len() ==> (#[trigger] st.transitions@[k]).0@ == dq.1[k].0
        && index_in(names, dq.1[k].1) == Some(st.transitions@[k].1 as int) && st.transitions@[k].1 < n
    &&& match dq.2 {
        None => st.epsilon_transition is None,
        Some(t) => st.epsilon_transition matches Some(e) && index_in(names, t) == Some(e as int) && e < n,
    }
    &&& match dq.3 {
        None => st.trigger is None,
        Some(t) => st.trigger matches Some(k) && k < tn.len() && tn[k as int]@ == t,
    }
}

/// A state as read from its description, before targets are found by name.
struct Draft {
    name: String,
    transitions: Vec<(String, String)>,
    epsilon: Option<String>,
    trigger: Option<String>,
}

spec fn opt_view(o: Option<String>) -> Option<Seq<char>> {
    match o {
        Some(s) => Some(s@),
        None => None,
    }
}

spec fn pairs_view(v: Seq<(String, String)>) -> Seq<(Seq<char>, Seq<char>)> {
    v.map_values(|p: (String, String)| (p.0@, p.1@))
}

spec fn draft_view(d: Draft) -> StateDraft {
    (d.name@, pairs_view(d.transitions@), opt_view(d.epsilon), opt_view(d.trigger))
}

proof fn lemma_item_triggers_fail(ys: Seq<YamlValue>, to: Seq<char>, i: int, k: int)
    requires
        0 <= i < k <= ys.len(),
        item_triggers(ys, to, i) is Ok,
        item_triggers(ys, to, i + 1) is Err,
    ensures
        item_triggers(ys, to, k) == item_triggers(ys, to, i + 1),
    decreases k,
{
    if k > i + 1 {
        lemma_item_triggers_fail(ys, to, i, k - 1);
    }
}

proof fn lemma_transitions_fail(entries: Seq<(YamlValue, YamlValue)>, i: int, k: int)
    requires
        0 <= i < k <= entries.len(),
        transitions_of(entries, i) is Ok,
        transitions_of(entries, i + 1) is Err,
    ensures
        transitions_of(entries, k) == transitions_of(entries, i + 1),
    decreases k,
{
    if k > i + 1 {
        lemma_transitions_fail(entries, i, k - 1);
    }
}

proof fn lemma_drafts_fail(machine: Seq<char>, entries: Seq<(YamlValue, YamlValue)>, i: int, k: int)
    requires
        0 <= i < k <= entries.len(),
        drafts_of(machine, entries, i) is Ok,
        drafts_of(machine, entries, i + 1) is Err,
    ensures
        drafts_of(machine, entries, k) == drafts_of(machine, entries, i + 1),
    decreases k,
{
    if k > i + 1 {
        lemma_drafts_fail(machine, entries, i, k - 1);
    }
}

fn item_triggers_exec(ys: &Vec<YamlValue>, to: &String) -> (r: Result<Vec<(String, String)>, String>)
    ensures
        match item_triggers(ys@, to@, ys@.len() as int) {
            Ok(t) => r matches Ok(v) && pairs_view(v@) == t,
            Err(e) => r matches Err(m) && m@ == e,
        },
{
    proof {
        reveal_strlit("invalid trigger");
    }
    let mut v: Vec<(String, String)> = Vec::new();
    let mut i: usize = 0;
    assert(pairs_view(v@) =~= Seq::empty());
    while i < ys.len()
        invariant
            i <= ys@.len(),
            item_triggers(ys@, to@, i as int) == Ok::<Seq<(Seq<char>, Seq<char>)>, Seq<char>>(pairs_view(v@)),
        decreases ys@.len() - i,
    {
        match ys[i].as_str() {
            Some(t) => {
                let ghost before = v@;
                v.push((String::from_str(t), to.clone()));
                assert(pairs_view(v@) =~= pairs_view(before).push((t@, to@)));
            },
            None => {
                proof {
                    lemma_item_triggers_fail(ys@, to@, i as int, ys@.len() as int);
                }
                return Err(String::from_str("invalid trigger"));
            },
        }
        i = i + 1;
    }
    Ok(v)
}

fn transitions_exec(entries: &Vec<(YamlValue, YamlValue)>) -> (r: Result<(Vec<(String, String)>, Option<String>), String>)
    ensures
        match transitions_of(entries@, entries@.len() as int) {
            Ok((t, eps)) => r matches Ok((v, e)) && pairs_view(v@) == t && opt_view(e) == eps,
            Err(e) => r matches Err(m) && m@ == e,
        },
{
    proof {
        reveal_strlit("transition target invalid");
        reveal_strlit("invalid triggers");
    }
    let mut v: Vec<(String, String)> = Vec::new();
    let mut eps: Option<String> = None;
    let mut i: usize = 0;
    assert(pairs_view(v@) =~= Seq::empty());
    while i < entries.len()
        invariant
            i <= entries@.len(),
            transitions_of(entries@, i as int) == Ok::<(Seq<(Seq<char>, Seq<char>)>, Option<Seq<char>>), Seq<char>>(
                (pairs_view(v@), opt_view(eps)),
            ),
        decreases entries@.len() - i,
    {
        let to = match entries[i].0.as_str() {
            Some(t) => String::from_str(t),
            None => {
                proof {
                    lemma_transitions_fail(entries@, i as int, entries@.len() as int);
                }
                return Err(String::from_str("transition target invalid"));
            },
        };
        match &entries[i].1 {
            YamlValue::Text(t) => {
                let ghost before = v@;
                v.push((t.clone(), to));
                assert(pairs_view(v@) =~= pairs_view(before).push((t@, v@.last().1@)));
            },
            YamlValue::Array(ys) => {
                if ys.len() == 0 {
                    eps = Some(to);
                } else {
                    match item_triggers_exec(ys, &to) {
                        Ok(mut more) => {
                            let ghost before = v@;
                            let ghost mv = more@;
                            v.append(&mut more);
                            assert(pairs_view(v@) =~= pairs_view(before) + pairs_view(mv));
                        },
                        Err(e) => {
                            proof {
                                lemma_transitions_fail(entries@, i as int, entries@.len() as int);
                            }
                            return Err(e);
                        },
                    }
                }
            },
            _ => {
                proof {
                    lemma_transitions_fail(entries@, i as int, entries@.len() as int);
                }
                return Err(String::from_str("invalid triggers"));
            },
        }
        i = i + 1;
    }
    Ok((v, eps))
}

fn state_draft_exec(machine: &str, key: &YamlValue, sy: &YamlValue) -> (r: Result<Draft, String>)
    ensures
        match state_draft(machine@, *key, *sy) {
            Ok(d) => r matches Ok(x) && draft_view(x) == d,
            Err(e) => r matches Err(m) && m@ == e,
        },
{
    proof {
        reveal_strlit("invalid state name");
        reveal_strlit("transition_to");
        reveal_strlit("transitions badly defined, ");
        reveal_strlit("trigger_set");
        reveal_strlit("invalid trigger name: ");
        reveal_strlit("control_only.");
        reveal_strlit(".");
    }
    let bad = YamlValue::BadValue;
    let name = match key.as_str() {
        Some(n) => String::from_str(n),
        None => {
            return Err(String::from_str("invalid state name"));
        },
    };
    let (transitions, epsilon) = match index_or_bad(sy, "transition_to", &bad) {
        YamlValue::Hash(e) => transitions_exec(e)?,
        YamlValue::BadValue => {
            let v: Vec<(String, String)> = Vec::new();
            assert(pairs_view(v@) =~= Seq::empty());
            (v, None)
        },
        other => {
            return Err(concat("transitions badly defined, ", yaml_debug(other).as_str()));
        },
    };
    let trigger = match index_or_bad(sy, "trigger_set", &bad) {
        YamlValue::Text(t) => {
            let full = concat("control_only.", machine);
            let full = concat(full.as_str(), ".");
            Some(concat(full.as_str(), t.as_str()))
        },
        YamlValue::BadValue => None,
        other => {
            return Err(concat("invalid trigger name: ", yaml_debug(other).as_str()));
        },
    };
    Ok(Draft { name, transitions, epsilon, trigger })
}

fn index_of_name(names: &Vec<String>, t: &str) -> (r: Option<usize>)
    ensures
        r matches Some(i) ==> index_in(crate::analyzer::names_view(names@), t@) == Some(i as int) && i < names@.len(),
        r is None ==> index_in(crate::analyzer::names_view(names@), t@) is None,
{
    let ghost nv = crate::analyzer::names_view(names@);
    let mut i: usize = 0;
    while i < names.len()
        invariant
            i <= names@.len(),
            nv == crate::analyzer::names_view(names@),
            index_in(nv.take(i as int), t@) is None,
        decreases names@.len() - i,
    {
        assert(nv.take(i + 1).drop_last() =~= nv.take(i as int));
        if str_eq(names[i].as_str(), t) {
            proof {
                lemma_index_in_prefix(nv, i as int + 1, i as int);
            }
            return Some(i);
        }
        i = i + 1;
    }
    assert(nv.take(i as int) =~= nv);
    None
}

proof fn lemma_index_in_prefix(names: Seq<Seq<char>>, k: int, i: int)
    requires
        0 <= i < k <= names.len(),
        index_in(names.take(k), names[i]) == Some(i),
    ensures
        index_in(names, names[i]) == Some(i),
    decreases names.len() - k,
{
    if k < names.len() {
        assert(names.take(k + 1).drop_last() =~= names.take(k));
        lemma_index_in_prefix(names, k + 1, i);
    } else {
        assert(names.take(k) =~= names);
    }
}

proof fn lemma_missing_in_stays(names: Seq<Seq<char>>, d: StateDraft, j: int, k: int)
    requires
        0 <= j < k <= d.1.len(),
        missing_target_in(names, d, j) is None,
        missing_target_in(names, d, j + 1) is Some,
    ensures
        missing_target_in(names, d, k) == missing_target_in(names, d, j + 1),
    decreases k,
{
    if k > j + 1 {
        lemma_missing_in_stays(names, d, j, k - 1);
    }
}

proof fn lemma_missing_stays(names: Seq<Seq<char>>, d: Seq<StateDraft>, s: int, k: int)
    requires
        0 <= s < k <= d.len(),
        missing_target(names, d, s) is None,
        missing_target(names, d, s + 1) is Some,
    ensures
        missing_target(names, d, k) == missing_target(names, d, s + 1),
    decreases k,
{
    if k > s + 1 {
        lemma_missing_stays(names, d, s, k - 1);
    }
}

fn missing_message(state: &String, target: &String) -> (r: String)
    ensures
        r@ == missing_state(state@, target@),
{
    proof {
        reveal_strlit("state ");
        reveal_strlit(" defines transition to ");
        reveal_strlit(" which does not exist");
    }
    let m = concat("state ", state.as_str());
    let m = concat(m.as_str(), " defines transition to ");
    let m = concat(m.as_str(), target.as_str());
    concat(m.as_str(), " which does not exist")
}

proof fn lemma_index_in_found(names: Seq<Seq<char>>, t: Seq<char>)
    ensures
        index_in(names, t) matches Some(i) ==> 0 <= i < names.len() && names[i] == t,
    decreases names.len(),
{
    if names.len() > 0 {
        lemma_index_in_found(names.drop_last(), t);
    }
}

proof fn lemma_index_in_absent(names: Seq<Seq<char>>, t: Seq<char>)
    ensures
        index_in(names, t) is None ==> forall|i: int| 0 <= i < names.len() ==> names[i] != t,
    decreases names.len(),
{
    if names.len() > 0 {
        lemma_index_in_absent(names.drop_last(), t);
        if index_in(names, t) is None {
            assert forall|i: int| 0 <= i < names.len() implies names[i] != t by {
                if i < names.len() - 1 {
                    assert(names.drop_last()[i] == names[i]);
                }
            }
        }
    }
}

impl Fsm {
    /// Reads the machine `machine_name` from its description: its `states`, each with
    /// `transition_to` and `trigger_set` (named `control_only.<machine>.<trigger>`).
    /// A transition, epsilon transitions included, to a state that is not defined is refused.
    pub fn build_from_yaml(machine_name: String, yaml: &YamlValue) -> (r: Result<Fsm, String>)
        ensures
            match fsm_of(machine_name@, *yaml) {
                Ok(d) => r matches Ok(m) && built_from(m, machine_name@, d) && m.wf(),
                Err(e) => r matches Err(msg) && msg@ == e,
            },
    {
        proof {
            reveal_strlit("states");
            reveal_strlit("States are not defined");
            reveal_strlit("No states defined");
            reveal_strlit("invalid state name");
        }
        let entries = match yaml.get("states") {
            Some(YamlValue::Hash(e)) => e,
            _ => {
                return Err(String::from_str("States are not defined"));
            },
        };
        if entries.len() == 0 {
            return Err(String::from_str("No states defined"));
        }
        if entries[0].0.as_str().is_none() {
            return Err(String::from_str("invalid state name"));
        }
        let mut drafts: Vec<Draft> = Vec::new();
        let mut i: usize = 0;
        assert(drafts@.map_values(|x: Draft| draft_view(x)) =~= Seq::<StateDraft>::empty());
        while i < entries.len()
            invariant
                i <= entries@.len(),
                yaml_index(*yaml, "states"@) == YamlValue::Hash(*entries),
                entries@.len() > 0,
                yaml_str(entries@[0].0) is Some,
                drafts_of(machine_name@, entries@, i as int) == Ok::<Seq<StateDraft>, Seq<char>>(
                    drafts@.map_values(|x: Draft| draft_view(x)),
                ),
            decreases entries@.len() - i,
        {
            match state_draft_exec(machine_name.as_str(), &entries[i].0, &entries[i].1) {
                Ok(d) => {
                    let ghost before = drafts@;
                    drafts.push(d);
                    assert(drafts@.map_values(|x: Draft| draft_view(x)) =~= before.map_values(|x: Draft| draft_view(x)).push(
                        draft_view(drafts@.last()),
                    ));
                },
                Err(e) => {
                    proof {
                        lemma_drafts_fail(machine_name@, entries@, i as int, entries@.len() as int);
                    }
                    return Err(e);
                },
            }
            i = i + 1;
        }
        let ghost d = drafts@.map_values(|x: Draft| draft_view(x));
        let mut names: Vec<String> = Vec::new();
        let mut q: usize = 0;
        while q < drafts.len()
            invariant
                q <= drafts@.len(),
                names@.len() == q,
                forall|j: int| 0 <= j < q ==> names@[j]@ == drafts@[j].name@,
            decreases drafts@.len() - q,
        {
            names.push(drafts[q].name.clone());
            q = q + 1;
        }
        let ghost nv = crate::analyzer::names_view(names@);
        assert(nv =~= draft_names(d));
        let n = drafts.len();
        let mut states: Vec<FsmState> = Vec::new();
        let mut trigger_names: Vec<String> = Vec::new();
        let mut s: usize = 0;
        while s < n
            invariant
                s <= n,
                n == drafts@.len(),
                n == d.len(),
                d == drafts@.map_values(|x: Draft| draft_view(x)),
                nv == draft_names(d),
                nv == crate::analyzer::names_view(names@),
                fsm_of(machine_name@, *yaml) == (match missing_target(nv, d, n as int) {
                    Some(e) => Err(e),
                    None => Ok::<Seq<StateDraft>, Seq<char>>(d),
                }),
                missing_target(nv, d, s as int) is None,
                states@.len() == s,
                forall|q: int| 0 <= q < s ==> state_built(#[trigger] states@[q], d[q], nv, trigger_names@, n as nat),
                forall|a: int, b: int| 0 <= a < b < trigger_names@.len() ==> trigger_names@[a]@ != trigger_names@[b]@,
                forall|k: int| 0 <= k < trigger_names@.len() ==> exists|q: int| 0 <= q < s && d[q].3 == Some(#[trigger] trigger_names@[k]@),
            decreases n - s,
        {
            let dr = &drafts[s];
            let ghost ds = d[s as int];
            assert(ds == draft_view(*dr));
            let mut transitions: Vec<(String, usize)> = Vec::new();
            let mut k: usize = 0;
            while k < dr.transitions.len()
                invariant
                    k <= dr.transitions@.len(),
                    s < n,
                    n == d.len(),
                    ds == d[s as int],
                    ds == draft_view(*dr),
                    nv == crate::analyzer::names_view(names@),
                    nv.len() == n,
                    missing_target(nv, d, s as int) is None,
                    missing_target_in(nv, ds, k as int) is None,
                    fsm_of(machine_name@, *yaml) == (match missing_target(nv, d, n as int) {
                        Some(e) => Err(e),
                        None => Ok::<Seq<StateDraft>, Seq<char>>(d),
                    }),
                    transitions@.len() == k,
                    forall|j: int| 0 <= j < k ==> (#[trigger] transitions@[j]).0@ == ds.1[j].0
                        && index_in(nv, ds.1[j].1) == Some(transitions@[j].1 as int) && transitions@[j].1 < n,
                decreases dr.transitions@.len() - k,
            {
                let (trig, target) = (&dr.transitions[k].0, &dr.transitions[k].1);
                assert(ds.1[k as int] == (trig@, target@));
                match index_of_name(&names, target.as_str()) {
                    Some(t) => {
                        transitions.push((trig.clone(), t));
                    },
                    None => {
                        proof {
                            lemma_missing_in_stays(nv, ds, k as int, ds.1.len() as int);
                            lemma_missing_stays(nv, d, s as int, n as int);
                        }
                        return Err(missing_message(&dr.name, target));
                    },
                }
                k = k + 1;
            }
            let epsilon = match &dr.epsilon {
                Some(t) => match index_of_name(&names, t.as_str()) {
                    Some(e) => Some(e),
                    None => {
                        proof {
                            lemma_missing_stays(nv, d, s as int, n as int);
                        }
                        return Err(missing_message(&dr.name, t));
                    },
                },
                None => None,
            };
            let ghost tn_before = trigger_names@;
            let trigger = match &dr.trigger {
                Some(t) => match index_of_name(&trigger_names, t.as_str()) {
                    Some(slot) => {
                        proof {
                            lemma_index_in_found(crate::analyzer::names_view(trigger_names@), t@);
                            assert(crate::analyzer::names_view(trigger_names@)[slot as int] == t@);
                        }
                        Some(slot)
                    },
                    None => {
                        proof {
                            lemma_index_in_absent(crate::analyzer::names_view(trigger_names@), t@);
                        }
                        trigger_names.push(t.clone());
                        Some(trigger_names.len() - 1)
                    },
                },
                None => None,
            };
            states.push(FsmState { name: dr.name.clone(), transitions, epsilon_transition: epsilon, trigger });
            proof {
                assert forall|k2: int| 0 <= k2 < trigger_names@.len() implies exists|q: int|
                    0 <= q < s + 1 && d[q].3 == Some(#[trigger] trigger_names@[k2]@) by {
                    if k2 < tn_before.len() {
                        assert(trigger_names@[k2] == tn_before[k2]);
                        let q = choose|q: int| 0 <= q < s && d[q].3 == Some(#[trigger] tn_before[k2]@);
                        assert(d[q].3 == Some(trigger_names@[k2]@));
                    } else {
                        assert(d[s as int].3 == Some(trigger_names@[k2]@));
                    }
                }
                assert forall|a: int, b: int| 0 <= a < b < trigger_names@.len() implies trigger_names@[a]@ != trigger_names@[b]@ by {
                    if b >= tn_before.len() {
                        assert(trigger_names@[a] == tn_before[a]);
                        assert(crate::analyzer::names_view(tn_before)[a] == tn_before[a]@);
                    } else {
                        assert(trigger_names@[a] == tn_before[a]);
                        assert(trigger_names@[b] == tn_before[b]);
                    }
                }
                assert forall|q: int| 0 <= q < s + 1 implies state_built(#[trigger] states@[q], d[q], nv, trigger_names@, n as nat) by {
                    if q < s {
                        assert(state_built(states@[q], d[q], nv, tn_before, n as nat));
                        match d[q].3 {
                            Some(t) => {
                                let k = states@[q].trigger->Some_0;
                                assert(trigger_names@[k as int] == tn_before[k as int]);
                            },
                            None => {},
                        }
                    }
                }
            }
            s = s + 1;
        }
        let m = Fsm { name: machine_name, states, trigger_names };
        assert(built_from(m, m.name@, d));
        Ok(m)
    }
}

/// Value of a decimal digit character.
pub open spec fn digit_of(c: char) -> Option<nat> {
    if '0' <= c <= '9' { Some((c as nat - '0' as nat) as nat) } else { None }
}

/// Reads digits from index `i` on onto `acc`, as the standard library's parser of `u32` does:
/// the first character that is not a digit, or the first digit that makes the number too
/// large, fails.
pub open spec fn parse_digits(s: Seq<char>, i: int, acc: nat) -> Result<u32, Seq<char>>
    decreases s.len() - i,
{
    if i < 0 || i >= s.len() {
        Ok(acc as u32)
    } else {
        match digit_of(s[i]) {
            None => Err("invalid digit found in string"@),
            Some(d) => if acc * 10 + d > u32::MAX {
                Err("number too large to fit in target type"@)
            } else {
                parse_digits(s, i + 1, acc * 10 + d)
            },
        }
    }
}

/// What `str::parse::<u32>` gives for `s`: an optional `+` then decimal digits.
pub open spec fn parse_u32_spec(s: Seq<char>) -> Result<u32, Seq<char>> {
    if s.len() == 0 {
        Err("cannot parse integer from empty string"@)
    } else if s[0] == '+' {
        if s.len() == 1 { Err("invalid digit found in string"@) } else { parse_digits(s, 1, 0) }
    } else {
        parse_digits(s, 0, 0)
    }
}

/// Parses a decimal `u32` the way `str::parse::<u32>` does.
pub fn parse_u32(s: &str) -> (r: Result<u32, String>)
    ensures
        match parse_u32_spec(s@) {
            Ok(v) => r == Ok::<u32, String>(v),
            Err(e) => r matches Err(m) && m@ == e,
        },
{
    proof {
        reveal_strlit("cannot parse integer from empty string");
        reveal_strlit("invalid digit found in string");
        reveal_strlit("number too large to fit in target type");
    }
    let n = s.unicode_len();
    if n == 0 {
        return Err(String::from_str("cannot parse integer from empty string"));
    }
    let mut i: usize = 0;
    if s.get_char(0) == '+' {
        if n == 1 {
            return Err(String::from_str("invalid digit found in string"));
        }
        i = 1;
    }
    let mut acc: u32 = 0;
    assert(parse_u32_spec(s@) == parse_digits(s@, i as int, 0));
    while i < n
        invariant
            i <= n,
            n == s@.len(),
            parse_u32_spec(s@) == parse_digits(s@, i as int, acc as nat),
        decreases n - i,
    {
        let c = s.get_char(i);
        if c < '0' || c > '9' {
            return Err(String::from_str("invalid digit found in string"));
        }
        let d = (c as u32) - ('0' as u32);
        if acc > (u32::MAX - d) / 10 {
            assert(acc * 10 + d > u32::MAX) by (nonlinear_arith)
                requires
                    acc > (u32::MAX - d) / 10,
                    d <= 9,
            ;
            return Err(String::from_str("number too large to fit in target type"));
        }
        assert(acc * 10 + d <= u32::MAX) by (nonlinear_arith)
            requires
                acc <= (u32::MAX - d) / 10,
                d <= 9,
        ;
        acc = acc * 10 + d;
        i = i + 1;
    }
    Ok(acc)
}

/// Index of the first `:` at or after index `i`.
pub open spec fn colon_index(s: Seq<char>, i: int) -> Option<int>
    decreases s.len() - i,
{
    if i < 0 || i >= s.len() {
        None
    } else if s[i] == ':' {
        Some(i)
    } else {
        colon_index(s, i + 1)
    }
}

/// The top and bottom bit of a range written `top:bottom`.
pub open spec fn range_of(text: Seq<char>) -> Result<(u32, u32), Seq<char>> {
    match colon_index(text, 0) {
        None => Err("invalid range"@),
        Some(i) => match parse_u32_spec(text.subrange(0, i)) {
            Err(e) => Err(e),
            Ok(top) => match parse_u32_spec(text.subrange(i + 1, text.len() as int)) {
                Err(e) => Err(e),
                Ok(bottom) => Ok((top, bottom)),
            },
        },
    }
}

/// The filter for bits `range` equal to `value`: the mask of those bits and the value
/// moved to them. A range wider than 62 bits, reversed, or above bit 63 is refused.
pub open spec fn filter_of(range: YamlValue, value: YamlValue) -> Result<(i64, i64), Seq<char>> {
    match yaml_str(range) {
        None => Err("invalid range set"@),
        Some(t) => match range_of(t) {
            Err(e) => Err(e),
            Ok((top, bottom)) => if top < bottom || top - bottom > 61 || bottom > 63 {
                Err("invalid range"@)
            } else {
                match value {
                    YamlValue::Integer(v) => Ok(((((1i64 << ((top - bottom + 1) as u32)) - 1) as i64) << bottom, v << bottom)),
                    _ => Err("no value set "@ + yaml_debug_text(value)),
                }
            },
        },
    }
}

/// Filters from the first `k` ranges and values.
pub open spec fn filters_of(ms: Seq<YamlValue>, vs: Seq<YamlValue>, k: int) -> Result<Seq<(i64, i64)>, Seq<char>>
    decreases k,
{
    if k <= 0 || k > ms.len() || k > vs.len() {
        Ok(Seq::empty())
    } else {
        match filters_of(ms, vs, k - 1) {
            Err(e) => Err(e),
            Ok(fs) => match filter_of(ms[k - 1], vs[k - 1]) {
                Err(e) => Err(e),
                Ok(f) => Ok(fs.push(f)),
            },
        }
    }
}

/// What the bit pattern of a signal trigger reads as: a whole value, or values of bit
/// ranges (the lists of ranges and values taken pairwise).
pub open spec fn bit_match_of(y: YamlValue) -> Result<Seq<(i64, i64)>, Seq<char>> {
    match yaml_index(y, "value"@) {
        YamlValue::Integer(v) => Ok(seq![(i64::MAX, v)]),
        _ => match yaml_index(y, "range"@) {
            YamlValue::Array(ms) => match yaml_index(y, "value"@) {
                YamlValue::Array(vs) => filters_of(ms@, vs@, if ms@.len() < vs@.len() { ms@.len() as int } else { vs@.len() as int }),
                _ => Err("no values"@),
            },
            _ => Err("no range specified"@),
        },
    }
}

/// The filters as mathematical values.
pub open spec fn filters_view(f: Seq<BitFilter>) -> Seq<(i64, i64)> {
    f.map_values(|x: BitFilter| (x.mask, x.value))
}

fn range_exec(text: &str) -> (r: Result<(u32, u32), String>)
    ensures
        match range_of(text@) {
            Ok(v) => r == Ok::<(u32, u32), String>(v),
            Err(e) => r matches Err(m) && m@ == e,
        },
{
    proof {
        reveal_strlit("invalid range");
    }
    let n = text.unicode_len();
    let mut i: usize = 0;
    while i < n && text.get_char(i) != ':'
        invariant
            i <= n,
            n == text@.len(),
            colon_index(text@, 0) == colon_index(text@, i as int),
        decreases n - i,
    {
        i = i + 1;
    }
    if i == n {
        return Err(String::from_str("invalid range"));
    }
    let top = parse_u32(text.substring_char(0, i))?;
    let bottom = parse_u32(text.substring_char(i + 1, n))?;
    Ok((top, bottom))
}

proof fn lemma_filters_fail(ms: Seq<YamlValue>, vs: Seq<YamlValue>, i: int, k: int)
    requires
        0 <= i < k,
        k <= ms.len(),
        k <= vs.len(),
        filters_of(ms, vs, i) is Ok,
        filters_of(ms, vs, i + 1) is Err,
    ensures
        filters_of(ms, vs, k) == filters_of(ms, vs, i + 1),
    decreases k,
{
    if k > i + 1 {
        lemma_filters_fail(ms, vs, i, k - 1);
    }
}

fn filter_exec(range: &YamlValue, value: &YamlValue) -> (r: Result<BitFilter, String>)
    ensures
        match filter_of(*range, *value) {
            Ok((m, v)) => r matches Ok(f) && f.mask == m && f.value == v,
            Err(e) => r matches Err(msg) && msg@ == e,
        },
{
    proof {
        reveal_strlit("invalid range set");
        reveal_strlit("invalid range");
        reveal_strlit("no value set ");
    }
    let text = match range.as_str() {
        Some(t) => t,
        None => {
            return Err(String::from_str("invalid range set"));
        },
    };
    let (top, bottom) = range_exec(text)?;
    if top < bottom || top - bottom > 61 || bottom > 63 {
        return Err(String::from_str("invalid range"));
    }
    let width: u32 = top - bottom + 1;
    assert(1i64 << width >= 1) by (bit_vector)
        requires
            width <= 62,
    ;
    let mask = ((1i64 << width) - 1) << bottom;
    match value.as_i64() {
        Some(v) => Ok(BitFilter { mask, value: v << bottom }),
        None => Err(concat("no value set ", yaml_debug(value).as_str())),
    }
}

impl BitMatch {
    /// Reads the bit pattern of a signal trigger.
    pub fn from_yaml(yaml: &YamlValue) -> (r: Result<BitMatch, String>)
        ensures
            match bit_match_of(*yaml) {
                Ok(fs) => r matches Ok(b) && filters_view(b.filter@) == fs,
                Err(e) => r matches Err(m) && m@ == e,
            },
    {
        proof {
            reveal_strlit("value");
            reveal_strlit("range");
            reveal_strlit("no values");
            reveal_strlit("no range specified");
        }
        let bad = YamlValue::BadValue;
        if let YamlValue::Integer(v) = index_or_bad(yaml, "value", &bad) {
            let filter = vec![BitFilter { mask: i64::MAX, value: *v }];
            assert(filters_view(filter@) =~= seq![(i64::MAX, *v)]);
            return Ok(BitMatch { filter });
        }
        let ms = match index_or_bad(yaml, "range", &bad) {
            YamlValue::Array(ms) => ms,
            _ => {
                return Err(String::from_str("no range specified"));
            },
        };
        let vs = match index_or_bad(yaml, "value", &bad) {
            YamlValue::Array(vs) => vs,
            _ => {
                return Err(String::from_str("no values"));
            },
        };
        let n = if ms.len() < vs.len() { ms.len() } else { vs.len() };
        let mut filter: Vec<BitFilter> = Vec::new();
        let mut i: usize = 0;
        assert(filters_view(filter@) =~= Seq::empty());
        while i < n
            invariant
                i <= n,
                n <= ms@.len(),
                n <= vs@.len(),
                n == (if ms@.len() < vs@.len() { ms@.len() } else { vs@.len() }),
                bit_match_of(*yaml) == filters_of(ms@, vs@, n as int),
                filters_of(ms@, vs@, i as int) == Ok::<Seq<(i64, i64)>, Seq<char>>(filters_view(filter@)),
            decreases n - i,
        {
            match filter_exec(&ms[i], &vs[i]) {
                Ok(f) => {
                    let ghost before = filter@;
                    filter.push(f);
                    assert(filters_view(filter@) =~= filters_view(before).push((f.mask, f.value)));
                },
                Err(e) => {
                    proof {
                        lemma_filters_fail(ms@, vs@, i as int, n as int);
                    }
                    return Err(e);
                },
            }
            i = i + 1;
        }
        Ok(BitMatch { filter })
    }
}

/// The bus state a trigger names.
pub open spec fn state_named(s: Seq<char>) -> Option<CycleType> {
    if s == "busy"@ {
        Some(CycleType::Busy)
    } else if s == "free"@ {
        Some(CycleType::Free)
    } else if s == "no transaction"@ {
        Some(CycleType::NoTransaction)
    } else if s == "backpressure"@ {
        Some(CycleType::Backpressure)
    } else if s == "no data"@ {
        Some(CycleType::NoData)
    } else if s == "reset"@ {
        Some(CycleType::Reset)
    } else if s == "unknown"@ {
        Some(CycleType::Unknown)
    } else {
        None
    }
}

/// Why a trigger definition of a bus does not read, if it does not: a list is an
/// any-combination, a mapping with `all` (a list) an all-combination, with `state` (where
/// bus states are allowed) a bus state trigger, with `signal` a signal trigger.
pub open spec fn source_error(y: YamlValue, desc: BusDescription, states: bool) -> Option<Seq<char>>
    decreases y, 0nat,
{
    match y {
        YamlValue::Array(ys) => sources_error(ys@, desc, states, ys@.len() as int),
        YamlValue::Hash(entries) => if yaml_get(y, "all"@) is Some {
            proof {
                lemma_lookup_member(entries@, "all"@);
            }
            match yaml_get(y, "all"@) {
                Some(YamlValue::Array(ys)) => sources_error(ys@, desc, states, ys@.len() as int),
                _ => Some("all requires array"@),
            }
        } else if states && yaml_get(y, "state"@) is Some {
            match yaml_str(yaml_index(y, "state"@)) {
                None => Some("bus state should be a string"@),
                Some(s) => if state_named(s) is None { Some(s + " is not a state"@) } else { None },
            }
        } else if yaml_get(y, "signal"@) is Some {
            match yaml_str(yaml_index(y, "signal"@)) {
                None => Some("invalid signal name"@),
                Some(n) => match desc.by_name_spec(n) {
                    None => Some("signal "@ + n + " not defined in description"@),
                    Some(_) => match bit_match_of(y) {
                        Err(e) => Some(e),
                        Ok(_) => None,
                    },
                },
            }
        } else {
            Some("unknown trigger type"@)
        },
        _ => Some("bad trigger type"@),
    }
}

/// The first error among the first `k` definitions.
pub open spec fn sources_error(ys: Seq<YamlValue>, desc: BusDescription, states: bool, k: int) -> Option<Seq<char>>
    decreases ys, 1nat, k,
{
    if k <= 0 || k > ys.len() {
        None
    } else {
        match sources_error(ys, desc, states, k - 1) {
            Some(e) => Some(e),
            None => source_error(ys[k - 1], desc, states),
        }
    }
}

/// The trigger source is what the definition describes, named `name` (parts of a
/// combination have an empty name), with `clk` the bus's clock.
pub open spec fn source_parses(src: TriggerSource, name: Seq<char>, y: YamlValue, desc: BusDescription, clk: SignalPath, states: bool) -> bool
    decreases src,
{
    match src {
        TriggerSource::Combination(c) => c.name@ == name && {
            let ys = match y {
                YamlValue::Array(ys) => Some(ys),
                YamlValue::Hash(_) => match yaml_get(y, "all"@) {
                    Some(YamlValue::Array(ys)) => Some(ys),
                    _ => None,
                },
                _ => None,
            };
            &&& ys is Some
            &&& c.combination_type == (if y is Array { CombinationType::Any } else { CombinationType::All })
            &&& c.triggers@.len() == ys->Some_0@.len()
            &&& forall|i: int| 0 <= i < c.triggers@.len() ==> source_parses(c.triggers@[i], Seq::empty(), ys->Some_0@[i], desc, clk, states)
        },
        TriggerSource::Channel(t) => {
            &&& t.name@ == name
            &&& states
            &&& y is Hash
            &&& yaml_get(y, "all"@) is None
            &&& yaml_str(yaml_index(y, "state"@)) matches Some(s)
            &&& state_named(s) == Some(t.type_)
        },
        TriggerSource::Signal(t) => {
            &&& t.name@ == name
            &&& y is Hash
            &&& yaml_get(y, "all"@) is None
            &&& !(states && yaml_get(y, "state"@) is Some)
            &&& yaml_str(yaml_index(y, "signal"@)) matches Some(n)
            &&& desc.by_name_spec(n) matches Some(p)
            &&& t.signal.full_path() == p.full_path()
            &&& t.clk_path.full_path() == clk.full_path()
            &&& bit_match_of(y) == Ok::<Seq<(i64, i64)>, Seq<char>>(filters_view(t.bit_match.filter@))
        },
        _ => false,
    }
}

proof fn lemma_sources_error_stays(ys: Seq<YamlValue>, desc: BusDescription, states: bool, i: int, k: int)
    requires
        0 <= i < k <= ys.len(),
        sources_error(ys, desc, states, i) is None,
        source_error(ys[i], desc, states) is Some,
    ensures
        sources_error(ys, desc, states, k) == source_error(ys[i], desc, states),
    decreases k,
{
    if k > i + 1 {
        lemma_sources_error_stays(ys, desc, states, i, k - 1);
    }
}

/// Reads a trigger definition of a bus (bus states allowed where `states`).
fn source_from_yaml(name: String, yaml: &YamlValue, desc: &BusDescription, clk: &SignalPath, states: bool) -> (r: Result<TriggerSource, String>)
    ensures
        r matches Ok(src) ==> source_error(*yaml, *desc, states) is None && source_parses(src, name@, *yaml, *desc, *clk, states),
        r matches Err(e) ==> source_error(*yaml, *desc, states) == Some(e@),
    decreases yaml, 0nat,
{
    proof {
        reveal_strlit("all");
        reveal_strlit("state");
        reveal_strlit("signal");
        reveal_strlit("all requires array");
        reveal_strlit("bus state should be a string");
        reveal_strlit(" is not a state");
        reveal_strlit("invalid signal name");
        reveal_strlit("signal ");
        reveal_strlit(" not defined in description");
        reveal_strlit("unknown trigger type");
        reveal_strlit("bad trigger type");
        reveal_strlit("busy");
        reveal_strlit("free");
        reveal_strlit("no transaction");
        reveal_strlit("backpressure");
        reveal_strlit("no data");
        reveal_strlit("reset");
        reveal_strlit("unknown");
    }
    match yaml {
        YamlValue::Array(ys) => {
            let sub = sources_from_items(ys, desc, clk, states)?;
            Ok(TriggerSource::Combination(TriggerSourceCombination { name, triggers: sub, combination_type: CombinationType::Any }))
        },
        YamlValue::Hash(entries) => {
            if let Some(all) = yaml.get("all") {
                match all {
                    YamlValue::Array(ys) => {
                        proof {
                            lemma_lookup_member(entries@, "all"@);
                            let i = choose|i: int| 0 <= i < entries@.len() && (#[trigger] entries@[i]).1 == *all;
                            assert(decreases_to!(entries => entries[i]));
                        }
                        let sub = sources_from_items(ys, desc, clk, states)?;
                        return Ok(TriggerSource::Combination(TriggerSourceCombination { name, triggers: sub, combination_type: CombinationType::All }));
                    },
                    _ => {
                        return Err(String::from_str("all requires array"));
                    },
                }
            }
            if states {
                if let Some(st) = yaml.get("state") {
                    let s = match st.as_str() {
                        Some(s) => s,
                        None => {
                            return Err(String::from_str("bus state should be a string"));
                        },
                    };
                    let type_ = if str_eq(s, "busy") {
                        CycleType::Busy
                    } else if str_eq(s, "free") {
                        CycleType::Free
                    } else if str_eq(s, "no transaction") {
                        CycleType::NoTransaction
                    } else if str_eq(s, "backpressure") {
                        CycleType::Backpressure
                    } else if str_eq(s, "no data") {
                        CycleType::NoData
                    } else if str_eq(s, "reset") {
                        CycleType::Reset
                    } else if str_eq(s, "unknown") {
                        CycleType::Unknown
                    } else {
                        return Err(concat(s, " is not a state"));
                    };
                    return Ok(TriggerSource::Channel(ChannelTrigger::new(name, type_)));
                }
            }
            if let Some(sig) = yaml.get("signal") {
                let n = match sig.as_str() {
                    Some(n) => n,
                    None => {
                        return Err(String::from_str("invalid signal name"));
                    },
                };
                let signal = match desc.get_by_name(n) {
                    Some(p) => p,
                    None => {
                        let m = concat("signal ", n);
                        return Err(concat(m.as_str(), " not defined in description"));
                    },
                };
                let bit_match = BitMatch::from_yaml(yaml)?;
                return Ok(TriggerSource::Signal(SignalTrigger { name, clk_path: clk.duplicate(), signal: signal.duplicate(), bit_match }));
            }
            Err(String::from_str("unknown trigger type"))
        },
        _ => Err(String::from_str("bad trigger type")),
    }
}

fn sources_from_items(ys: &Vec<YamlValue>, desc: &BusDescription, clk: &SignalPath, states: bool) -> (r: Result<Vec<TriggerSource>, String>)
    ensures
        r matches Ok(v) ==> sources_error(ys@, *desc, states, ys@.len() as int) is None && v@.len() == ys@.len() && forall|i: int|
            0 <= i < v@.len() ==> source_parses(v@[i], Seq::empty(), ys@[i], *desc, *clk, states),
        r matches Err(e) ==> sources_error(ys@, *desc, states, ys@.len() as int) == Some(e@),
    decreases ys, 1nat,
{
    let mut v: Vec<TriggerSource> = Vec::new();
    let mut i: usize = 0;
    while i < ys.len()
        invariant
            i <= ys@.len(),
            sources_error(ys@, *desc, states, i as int) is None,
            v@.len() == i,
            forall|j: int| 0 <= j < i ==> source_parses(v@[j], Seq::empty(), ys@[j], *desc, *clk, states),
        decreases ys@.len() - i,
    {
        proof {
            assert(decreases_to!(ys => ys[i as int]));
        }
        match source_from_yaml(String::new(), &ys[i], desc, clk, states) {
            Ok(src) => {
                v.push(src);
            },
            Err(e) => {
                proof {
                    lemma_sources_error_stays(ys@, *desc, states, i as int, ys@.len() as int);
                }
                return Err(e);
            },
        }
        i = i + 1;
    }
    Ok(v)
}

impl ChannelTrigger {
    /// Reads a trigger definition of a single channel bus: a bus state, a signal value, or
    /// combinations of them.
    pub fn from_yaml(name: String, yaml: &YamlValue, desc: &BusDescription, clk_path: &SignalPath) -> (r: Result<TriggerSource, String>)
        ensures
            r matches Ok(src) ==> source_error(*yaml, *desc, true) is None && source_parses(src, name@, *yaml, *desc, *clk_path, true),
            r matches Err(e) ==> source_error(*yaml, *desc, true) == Some(e@),
    {
        source_from_yaml(name, yaml, desc, clk_path, true)
    }
}

impl SignalTrigger {
    /// Reads a trigger definition on signal values, or combinations of them.
    pub fn combination_from_yaml(name: String, yaml: &YamlValue, desc: &BusDescription, clk_path: &SignalPath) -> (r: Result<TriggerSource, String>)
        ensures
            r matches Ok(src) ==> source_error(*yaml, *desc, false) is None && source_parses(src, name@, *yaml, *desc, *clk_path, false),
            r matches Err(e) ==> source_error(*yaml, *desc, false) == Some(e@),
    {
        source_from_yaml(name, yaml, desc, clk_path, false)
    }
}

/// The moment of a transaction trigger named by its key.
pub open spec fn moment_named(s: Seq<char>) -> Option<TransactionMoment> {
    if s == "_start"@ {
        Some(TransactionMoment::Start)
    } else if s == "_end"@ {
        Some(TransactionMoment::End)
    } else {
        None
    }
}

impl TransactionTrigger {
    /// Reads a transaction trigger from its key (`_start` or `_end`).
    pub fn from_yaml(name: String, type_: &YamlValue) -> (r: Result<TransactionTrigger, String>)
        ensures
            match yaml_str(*type_) {
                Some(s) => match moment_named(s) {
                    Some(m) => r matches Ok(t) && t.name == name && t.moment == m,
                    None => r matches Err(e) && e@ == "invalid multichannel bus trigger "@ + s,
                },
                None => r matches Err(e) && e@ == "invalid multichannel bus trigger"@,
            },
    {
        proof {
            reveal_strlit("_start");
            reveal_strlit("_end");
            reveal_strlit("invalid multichannel bus trigger ");
            reveal_strlit("invalid multichannel bus trigger");
        }
        match type_.as_str() {
            Some(s) => if str_eq(s, "_start") {
                Ok(TransactionTrigger::new(name, TransactionMoment::Start))
            } else if str_eq(s, "_end") {
                Ok(TransactionTrigger::new(name, TransactionMoment::End))
            } else {
                Err(concat("invalid multichannel bus trigger ", s))
            },
            None => Err(String::from_str("invalid multichannel bus trigger")),
        }
    }
}

/// The kind of control trigger a definition names.
pub open spec fn control_kind(y: YamlValue) -> Option<Seq<char>> {
    match yaml_str(yaml_index(y, "type"@)) {
        Some(t) => if t == "timer"@ || t == "fsm"@ { Some(t) } else { None },
        None => None,
    }
}

/// Builds control triggers from YAML.
pub struct ControlBuilder;

/// Why the control trigger `name` does not read from `yaml`, if it does not.
pub open spec fn control_error(name: Seq<char>, yaml: YamlValue) -> Option<Seq<char>> {
    match control_kind(yaml) {
        None => Some("invalid type"@),
        Some(k) => if k == "timer"@ {
            match timer_of(name, yaml) {
                Ok(_) => None,
                Err(e) => Some(e),
            }
        } else {
            match fsm_of(name, yaml) {
                Ok(_) => None,
                Err(e) => Some(e),
            }
        },
    }
}

/// What reading the control trigger `name` from `yaml` gives: a timer or a finite state
/// machine as its `type` says, or the first error of its description.
pub open spec fn control_built(r: Result<Control, String>, name: Seq<char>, yaml: YamlValue) -> bool {
    match control_kind(yaml) {
        None => r matches Err(e) && e@ == "invalid type"@,
        Some(k) => if k == "timer"@ {
            match timer_of(name, yaml) {
                Ok(ts) => r matches Ok(Control::Timer(t)) && t.name@ == name && timer_view(t) == ts,
                Err(e) => r matches Err(m) && m@ == e,
            }
        } else {
            match fsm_of(name, yaml) {
                Ok(d) => r matches Ok(Control::Machine(m)) && built_from(m, name, d) && m.wf(),
                Err(e) => r matches Err(m) && m@ == e,
            }
        },
    }
}

impl ControlBuilder {
    /// Reads the control trigger `name`: a timer or a finite state machine.
    pub fn build_from_yaml(name: String, yaml: &YamlValue) -> (r: Result<Control, String>)
        ensures
            control_built(r, name@, *yaml),
    {
        proof {
            reveal_strlit("type");
            reveal_strlit("timer");
            reveal_strlit("fsm");
            reveal_strlit("invalid type");
        }
        let bad = YamlValue::BadValue;
        let t = match index_or_bad(yaml, "type", &bad).as_str() {
            Some(t) => t,
            None => {
                return Err(String::from_str("invalid type"));
            },
        };
        if str_eq(t, "timer") {
            Ok(Control::Timer(TimeControl::build_from_yaml(name, yaml)?))
        } else if str_eq(t, "fsm") {
            Ok(Control::Machine(Fsm::build_from_yaml(name, yaml)?))
        } else {
            Err(String::from_str("invalid type"))
        }
    }
}

/// Why the triggers a bus provides do not read, from the first `k` entries of its
/// `triggers` mapping, if they do not.
pub open spec fn provided_error(entries: Seq<(YamlValue, YamlValue)>, desc: BusDescription, k: int) -> Option<Seq<char>>
    decreases k,
{
    if k <= 0 || k > entries.len() {
        None
    } else {
        match provided_error(entries, desc, k - 1) {
            Some(e) => Some(e),
            None => match yaml_str(entries[k - 1].0) {
                None => Some("invalid trigger name"@),
                Some(_) => source_error(entries[k - 1].1, desc, true),
            },
        }
    }
}

/// Why a default analyzer's description does not read, given its bus description, if it does not.
pub open spec fn analyzer_rest_error(y: YamlValue, desc: BusDescription) -> Option<Seq<char>> {
    match sink_error(y) {
        Some(e) => Some(e),
        None => match yaml_index(y, "triggers"@) {
            YamlValue::Hash(entries) => provided_error(entries@, desc, entries@.len() as int),
            YamlValue::BadValue => None,
            _ => Some("bad triggers"@),
        },
    }
}

proof fn lemma_provided_fails(entries: Seq<(YamlValue, YamlValue)>, desc: BusDescription, i: int, k: int)
    requires
        0 <= i < k <= entries.len(),
        provided_error(entries, desc, i) is None,
        provided_error(entries, desc, i + 1) is Some,
    ensures
        provided_error(entries, desc, k) == provided_error(entries, desc, i + 1),
    decreases k,
{
    if k > i + 1 {
        lemma_provided_fails(entries, desc, i, k - 1);
    }
}

/// The trigger a bus provides under the entry `e` of its `triggers` mapping: named
/// `interfaces.<bus>.<key>` and read from the entry's value, on the bus clock `clk`.
pub open spec fn provided_at(p: TriggerSource, e: (YamlValue, YamlValue), bus: Seq<char>, desc: BusDescription, clk: SignalPath) -> bool {
    yaml_str(e.0) matches Some(k) && source_parses(p, "interfaces."@ + bus + "."@ + k, e.1, desc, clk, true)
}

/// The triggers a bus provides, one for each entry of its `triggers` mapping, in order.
pub open spec fn provided_built(ps: Seq<TriggerSource>, entries: Seq<(YamlValue, YamlValue)>, bus: Seq<char>, desc: BusDescription, clk: SignalPath) -> bool {
    &&& ps.len() == entries.len()
    &&& forall|i: int| 0 <= i < ps.len() ==> #[trigger] provided_at(ps[i], entries[i], bus, desc, clk)
}

/// What reading the default analyzer of the bus `name` from `yaml` gives: the errors of its
/// description first, then, with the description read, either an analyzer that holds what
/// `yaml` says or the first error of its trigger sink and provided triggers.
pub open spec fn default_built(r: Result<DefaultAnalyzer, String>, name: Seq<char>, yaml: YamlValue, max_burst_delay: CyclesNum) -> bool {
    match yaml_str(yaml_index(yaml, "handshake"@)) {
        None => r matches Err(m) && m@ == "Bus should have handshake defined"@,
        Some(t) => match handshake_named(t) {
            None => r matches Err(m) && m@ == "invalid handshake "@ + t,
            Some(h) => match bus_of(h, yaml) {
                Err(e) => r matches Err(m) && m@ == e,
                Ok(b) => match r {
                    Ok(a) => {
                        &&& describes(a.description, h, name, b)
                        &&& a.analyzer == analyzer_for(h)
                        &&& analyzer_rest_error(yaml, a.description) is None
                        &&& parses_to(yaml_index(yaml, "activate_on"@), a.sink.activate)
                        &&& parses_to(yaml_index(yaml, "deactivate_on"@), a.sink.deactivate)
                        &&& a.required@.map_values(|s: String| s@) == names_of(a.sink.activate) + names_of(
                            a.sink.deactivate,
                        )
                        &&& a.max_burst_delay == max_burst_delay
                        &&& a.wf()
                        &&& match yaml_index(yaml, "triggers"@) {
                            YamlValue::Hash(entries) => exists|clk: SignalPath|
                                #[trigger] provided_built(a.provided@, entries@, name, a.description, clk) && (
                                a.description.by_name_spec("clock"@) matches Some(c) && clk.full_path()
                                    == c.full_path()),
                            _ => a.provided@.len() == 0,
                        }
                    },
                    Err(m) => exists|d: BusDescription|
                        describes(d, h, name, b) && #[trigger] analyzer_rest_error(yaml, d) == Some(m@),
                },
            },
        },
    }
}

impl DefaultAnalyzer {
    /// Reads the default analyzer of the bus `name`: its description, its trigger sink and
    /// the triggers it provides (named `interfaces.<bus>.<trigger>`).
    #[verifier::loop_isolation(false)]
    pub fn from_yaml(name: String, yaml: &YamlValue, max_burst_delay: CyclesNum) -> (r: Result<DefaultAnalyzer, String>)
        ensures
            default_built(r, name@, *yaml, max_burst_delay),
    {
        proof {
            reveal_strlit("triggers");
            reveal_strlit("bad triggers");
            reveal_strlit("invalid trigger name");
            reveal_strlit("interfaces.");
            reveal_strlit(".");
            reveal_strlit("clock");
        }
        let (description, analyzer) = BusDescriptionBuilder::build(name, yaml)?;
        let sink = match TriggerSink::build_from_yaml(yaml) {
            Ok(s) => s,
            Err(e) => {
                assert(analyzer_rest_error(*yaml, description) == Some(e@));
                return Err(e);
            },
        };
        let required = sink.required();
        let mut provided: Vec<TriggerSource> = Vec::new();
        let bad = YamlValue::BadValue;
        match index_or_bad(yaml, "triggers", &bad) {
            YamlValue::Hash(entries) => {
                let clk = match description.get_by_name("clock") {
                    Some(c) => c.duplicate(),
                    None => {
                        assert(false);
                        return Err(String::new());
                    },
                };
                let mut i: usize = 0;
                while i < entries.len()
                    invariant
                        i <= entries@.len(),
                        provided_error(entries@, description, i as int) is None,
                        sink_error(*yaml) is None,
                        yaml_index(*yaml, "triggers"@) == YamlValue::Hash(*entries),
                        provided@.len() == i,
                        forall|j: int| 0 <= j < i ==> #[trigger] provided_at(provided@[j], entries@[j],
                            description.common_spec().name_spec(), description, clk),
                    decreases entries@.len() - i,
                {
                    let n = match entries[i].0.as_str() {
                        Some(n) => n,
                        None => {
                            proof {
                                lemma_provided_fails(entries@, description, i as int, entries@.len() as int);
                            }
                            let e = String::from_str("invalid trigger name");
                            assert(analyzer_rest_error(*yaml, description) == Some(e@));
                            return Err(e);
                        },
                    };
                    let full = concat("interfaces.", description.name());
                    let full = concat(full.as_str(), ".");
                    let full = concat(full.as_str(), n);
                    match ChannelTrigger::from_yaml(full, &entries[i].1, &description, &clk) {
                        Ok(src) => {
                            provided.push(src);
                            assert(provided_at(provided@[i as int], entries@[i as int],
                                description.common_spec().name_spec(), description, clk));
                        },
                        Err(e) => {
                            proof {
                                lemma_provided_fails(entries@, description, i as int, entries@.len() as int);
                            }
                            assert(analyzer_rest_error(*yaml, description) == Some(e@));
                            return Err(e);
                        },
                    }
                    i = i + 1;
                }
                assert(provided_built(provided@, entries@, description.common_spec().name_spec(), description, clk));
                assert(provided_built(provided@, entries@, name@, description, clk));

            },
            YamlValue::BadValue => {},
            _ => {
                let e = String::from_str("bad triggers");
                assert(analyzer_rest_error(*yaml, description) == Some(e@));
                return Err(e);
            },
        }
        let ghost provided_view = provided@;
        let ghost desc = description;
        let a = DefaultAnalyzer { description, analyzer, max_burst_delay, required, sink, provided };
        assert(a.provided@ == provided_view);
        assert(a.description == desc);
        assert(match yaml_index(*yaml, "triggers"@) {
            YamlValue::Hash(entries) => exists|clk: SignalPath|
                #[trigger] provided_built(provided_view, entries@, name@, desc, clk) && (
                desc.by_name_spec("clock"@) matches Some(c) && clk.full_path() == c.full_path()),
            _ => true,
        });
        Ok(a)
    }
}

} // verus!
