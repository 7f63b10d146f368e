//! Reading bus descriptions from their YAML form.
use vstd::prelude::*;
use vstd::string::StringExecFns;
use crate::SignalPath;
use crate::analyzer::names_view;
use crate::bus::{
    AHBAnalyzer, AHBBus, APBAnalyzer, APBBus, AXIBus, BusCommon, BusDescription, CreditValidBus,
    LockstepAnalyzer, ReadyValidAnalyzer,
};
use crate::text::str_eq;
use crate::yaml::{yaml_get, yaml_index, yaml_str, YamlValue};

verus! {

/// `a` followed by `b`.
pub fn concat(a: &str, b: &str) -> (r: String)
    ensures
        r@ == a@ + b@,
{
    let mut s = String::from_str(a);
    s.append(b);
    s
}

/// Scope names a YAML node gives: a text is one name; a list gives the names of its
/// items, in order, at any depth.
pub open spec fn scope_of(y: YamlValue) -> Option<Seq<Seq<char>>>
    decreases y, 0nat,
{
    match y {
        YamlValue::Array(v) => scope_of_list(v@, v@.len() as int),
        YamlValue::Text(s) => Some(seq![s@]),
        _ => None,
    }
}

/// Scope names given by the first `k` nodes of a list.
pub open spec fn scope_of_list(v: Seq<YamlValue>, k: int) -> Option<Seq<Seq<char>>>
    decreases v, 1nat, k,
{
    if k <= 0 || k > v.len() {
        Some(Seq::empty())
    } else {
        match (scope_of_list(v, k - 1), scope_of(v[k - 1])) {
            (Some(a), Some(b)) => Some(a + b),
            _ => None,
        }
    }
}

/// Scope names of a YAML node.
pub fn parse_scope(y: &YamlValue) -> (r: Result<Vec<String>, String>)
    ensures
        r matches Ok(v) ==> scope_of(*y) == Some(names_view(v@)),
        r matches Err(e) ==> scope_of(*y) is None && e@ == "Invalid scope."@,
    decreases y, 0nat,
{
    proof {
        reveal_strlit("Invalid scope.");
    }
    match y {
        YamlValue::Array(v) => parse_scope_list(v),
        YamlValue::Text(s) => {
            let r = vec![s.clone()];
            assert(names_view(r@) =~= seq![s@]);
            Ok(r)
        },
        _ => Err(String::from_str("Invalid scope.")),
    }
}

fn parse_scope_list(v: &Vec<YamlValue>) -> (r: Result<Vec<String>, String>)
    ensures
        r matches Ok(names) ==> scope_of_list(v@, v@.len() as int) == Some(names_view(names@)),
        r matches Err(e) ==> scope_of_list(v@, v@.len() as int) is None && e@ == "Invalid scope."@,
    decreases v, 1nat,
{
    let mut r: Vec<String> = Vec::new();
    let mut i: usize = 0;
    assert(names_view(r@) =~= Seq::<Seq<char>>::empty());
    while i < v.len()
        invariant
            i <= v@.len(),
            scope_of_list(v@, i as int) == Some(names_view(r@)),
        decreases v@.len() - i,
    {
        proof {
            assert(decreases_to!(v => v[i as int]));
        }
        match parse_scope(&v[i]) {
            Ok(mut part) => {
                let ghost before = r@;
                let ghost p = part@;
                r.append(&mut part);
                assert(names_view(r@) =~= names_view(before) + names_view(p));
            },
            Err(e) => {
                proof {
                    lemma_scope_list_none(v@, i as int, v@.len() as int);
                }
                return Err(e);
            },
        }
        i = i + 1;
    }
    Ok(r)
}

proof fn lemma_scope_list_none(v: Seq<YamlValue>, i: int, k: int)
    requires
        0 <= i < k <= v.len(),
        scope_of(v[i]) is None,
    ensures
        scope_of_list(v, k) is None,
    decreases k,
{
    if k > i + 1 {
        lemma_scope_list_none(v, i, k - 1);
    }
}

/// The signal path a YAML node gives under `scope`: a text is a signal's name in the
/// scope; a list gives scope names followed by the signal's name.
pub open spec fn signal_path_of(scope: Seq<Seq<char>>, y: YamlValue) -> Result<(Seq<Seq<char>>, Seq<char>), Seq<char>> {
    match y {
        YamlValue::Text(name) => Ok((scope, name@)),
        YamlValue::Array(_) => match scope_of(y) {
            None => Err("Invalid scope."@),
            Some(names) => if names.len() == 0 {
                Err("No signal name"@)
            } else {
                Ok((scope + names.drop_last(), names.last()))
            },
        },
        YamlValue::BadValue => Err("not found"@),
        _ => Err("invalid value"@),
    }
}

/// The path's scope names and signal name.
pub open spec fn path_parts(p: SignalPath) -> (Seq<Seq<char>>, Seq<char>) {
    (names_view(p.scope@), p.name@)
}

/// The outcome of reading a path as mathematical values.
pub open spec fn path_result(r: Result<SignalPath, String>) -> Result<(Seq<Seq<char>>, Seq<char>), Seq<char>> {
    match r {
        Ok(p) => Ok(path_parts(p)),
        Err(e) => Err(e@),
    }
}

fn copy_names(v: &Vec<String>) -> (r: Vec<String>)
    ensures
        names_view(r@) == names_view(v@),
{
    let mut r: Vec<String> = Vec::new();
    let mut i: usize = 0;
    while i < v.len()
        invariant
            i <= v@.len(),
            r@.len() == i,
            forall|j: int| 0 <= j < i ==> r@[j]@ == v@[j]@,
        decreases v@.len() - i,
    {
        r.push(v[i].clone());
        i = i + 1;
    }
    assert(names_view(r@) =~= names_view(v@));
    r
}

/// Reads signal paths from YAML.
pub struct SignalPathFromYaml {}

impl SignalPathFromYaml {
    /// The signal path a YAML node gives under the scope `scope`.
    pub fn from_yaml_ref_with_prefix(scope: &Vec<String>, yaml: &YamlValue) -> (r: Result<SignalPath, String>)
        ensures
            path_result(r) == signal_path_of(names_view(scope@), *yaml),
    {
        proof {
            reveal_strlit("No signal name");
            reveal_strlit("not found");
            reveal_strlit("invalid value");
        }
        match yaml {
            YamlValue::Text(name) => Ok(SignalPath { scope: copy_names(scope), name: name.clone() }),
            YamlValue::Array(_) => {
                let mut names = parse_scope(yaml)?;
                let ghost all = names@;
                match names.pop() {
                    None => Err(String::from_str("No signal name")),
                    Some(name) => {
                        let mut s = copy_names(scope);
                        let ghost sv = s@;
                        let ghost nv = names@;
                        s.append(&mut names);
                        assert(names_view(s@) =~= names_view(sv) + names_view(nv));
                        assert(names_view(nv) =~= names_view(all).drop_last());
                        Ok(SignalPath { scope: s, name })
                    },
                }
            },
            YamlValue::BadValue => Err(String::from_str("not found")),
            _ => Err(String::from_str("invalid value")),
        }
    }
}

/// Reset polarity named by a reset type.
pub open spec fn reset_type_value(t: Seq<char>) -> Option<u8> {
    if t == "low"@ {
        Some(0)
    } else if t == "high"@ {
        Some(1)
    } else {
        None
    }
}

/// The node holding clock, reset and reset type: the `clk_rst_if` mapping when there is
/// one (and none of them is given outside it), else the bus's own node.
pub open spec fn clk_rst_node(y: YamlValue) -> Result<YamlValue, Seq<char>> {
    match yaml_index(y, "clk_rst_if"@) {
        YamlValue::Hash(_) => if yaml_get(y, "clock"@) is None && yaml_get(y, "reset"@) is None && yaml_get(y, "reset_type"@) is None {
            Ok(yaml_index(y, "clk_rst_if"@))
        } else {
            Err("clock, reset and reset_type all should be defined inside clk_rst_if or all outside"@)
        },
        YamlValue::BadValue => Ok(y),
        _ => Err("clk_rst_if should be a mapping containing clock, reset, and reset_type"@),
    }
}

/// What the common part of a bus description reads as: scope, clock, reset and reset polarity.
pub open spec fn common_of(y: YamlValue) -> Result<(Seq<Seq<char>>, (Seq<Seq<char>>, Seq<char>), (Seq<Seq<char>>, Seq<char>), u8), Seq<char>> {
    match scope_of(yaml_index(y, "scope"@)) {
        None => Err("Invalid scope."@),
        Some(scope) => match clk_rst_node(y) {
            Err(e) => Err(e),
            Ok(i) => match signal_path_of(scope, yaml_index(i, "clock"@)) {
                Err(e) => Err("clock signal definition "@ + e),
                Ok(clk) => match signal_path_of(scope, yaml_index(i, "reset"@)) {
                    Err(e) => Err("reset signal definition "@ + e),
                    Ok(rst) => match yaml_str(yaml_index(i, "reset_type"@)) {
                        None => Err("reset type should be \"high\" or \"low\""@),
                        Some(t) => match reset_type_value(t) {
                            None => Err("reset type should be \"high\" or \"low\""@),
                            Some(v) => Ok((scope, clk, rst, v)),
                        },
                    },
                },
            },
        },
    }
}

pub(crate) fn index_or_bad<'a>(y: &'a YamlValue, key: &str, bad: &'a YamlValue) -> (r: &'a YamlValue)
    requires
        *bad is BadValue,
    ensures
        *r == yaml_index(*y, key@),
{
    match y.get(key) {
        Some(v) => v,
        None => bad,
    }
}

impl BusCommon {
    /// The common part of the description of the bus `name`.
    pub fn from_yaml(name: String, yaml: &YamlValue) -> (r: Result<BusCommon, String>)
        ensures
            match common_of(*yaml) {
                Ok((scope, clk, rst, v)) => r matches Ok(c) && c.name_spec() == name@ && names_view(c.scope_spec()) == scope
                    && path_parts(c.clk_spec()) == clk && path_parts(c.rst_spec()) == rst && c.rst_active_spec() == v,
                Err(e) => r matches Err(m) && m@ == e,
            },
    {
        proof {
            reveal_strlit("scope");
            reveal_strlit("clk_rst_if");
            reveal_strlit("clock");
            reveal_strlit("reset");
            reveal_strlit("reset_type");
            reveal_strlit("low");
            reveal_strlit("high");
            reveal_strlit("clock, reset and reset_type all should be defined inside clk_rst_if or all outside");
            reveal_strlit("clk_rst_if should be a mapping containing clock, reset, and reset_type");
            reveal_strlit("clock signal definition ");
            reveal_strlit("reset signal definition ");
            reveal_strlit("reset type should be \"high\" or \"low\"");
        }
        let bad = YamlValue::BadValue;
        let scope = parse_scope(index_or_bad(yaml, "scope", &bad))?;
        let i: &YamlValue = match index_or_bad(yaml, "clk_rst_if", &bad) {
            YamlValue::Hash(_) => {
                if yaml.get("clock").is_none() && yaml.get("reset").is_none() && yaml.get("reset_type").is_none() {
                    index_or_bad(yaml, "clk_rst_if", &bad)
                } else {
                    return Err(String::from_str("clock, reset and reset_type all should be defined inside clk_rst_if or all outside"));
                }
            },
            YamlValue::BadValue => yaml,
            _ => {
                return Err(String::from_str("clk_rst_if should be a mapping containing clock, reset, and reset_type"));
            },
        };
        let clk = match SignalPathFromYaml::from_yaml_ref_with_prefix(&scope, index_or_bad(i, "clock", &bad)) {
            Ok(p) => p,
            Err(e) => {
                return Err(concat("clock signal definition ", e.as_str()));
            },
        };
        let rst = match SignalPathFromYaml::from_yaml_ref_with_prefix(&scope, index_or_bad(i, "reset", &bad)) {
            Ok(p) => p,
            Err(e) => {
                return Err(concat("reset signal definition ", e.as_str()));
            },
        };
        let rst_type = match index_or_bad(i, "reset_type", &bad).as_str() {
            Some(t) => t,
            None => {
                return Err(String::from_str("reset type should be \"high\" or \"low\""));
            },
        };
        let v: u8 = if str_eq(rst_type, "low") {
            0
        } else if str_eq(rst_type, "high") {
            1
        } else {
            return Err(String::from_str("reset type should be \"high\" or \"low\""));
        };
        Ok(BusCommon::new(name, scope, clk, rst, v))
    }
}

/// Keys of a bus description that are not extra signals, whatever the handshake.
pub open spec fn common_keys() -> Seq<Seq<char>> {
    seq![
        "scope"@, "clk_rst_if"@, "clk_rst_if.clock"@, "clock"@, "clk_rst_if.reset"@, "reset"@,
        "clk_rst_if.reset_type"@, "reset_type"@, "custom_analyzer"@, "start_triggers"@, "end_triggers"@,
        "custom_handshake"@, "handshake"@, "activate_on"@, "deactivate_on"@, "triggers"@,
    ]
}

fn common_key_list() -> (r: Vec<&'static str>)
    ensures
        r@.map_values(|k: &str| k@) == common_keys(),
{
    proof {
        reveal_strlit("scope");
        reveal_strlit("clk_rst_if");
        reveal_strlit("clk_rst_if.clock");
        reveal_strlit("clock");
        reveal_strlit("clk_rst_if.reset");
        reveal_strlit("reset");
        reveal_strlit("clk_rst_if.reset_type");
        reveal_strlit("reset_type");
        reveal_strlit("custom_analyzer");
        reveal_strlit("start_triggers");
        reveal_strlit("end_triggers");
        reveal_strlit("custom_handshake");
        reveal_strlit("handshake");
        reveal_strlit("activate_on");
        reveal_strlit("deactivate_on");
        reveal_strlit("triggers");
    }
    let r = vec![
        "scope", "clk_rst_if", "clk_rst_if.clock", "clock", "clk_rst_if.reset", "reset", "clk_rst_if.reset_type",
        "reset_type", "custom_analyzer", "start_triggers", "end_triggers", "custom_handshake", "handshake",
        "activate_on", "deactivate_on", "triggers",
    ];
    assert(r@.map_values(|k: &str| k@) =~= common_keys());
    r
}

/// The handshakes a default analyzer knows.
#[derive(PartialEq, Eq, Structural, Clone, Copy, Debug)]
pub enum Handshake {
    ReadyValid,
    CreditValid,
    Ahb,
    Apb,
}

/// Names of the signals of a handshake, in the order its rule reads them.
pub open spec fn handshake_signals(h: Handshake) -> Seq<Seq<char>> {
    match h {
        Handshake::ReadyValid => seq!["ready"@, "valid"@],
        Handshake::CreditValid => seq!["credit"@, "valid"@],
        Handshake::Ahb => seq!["htrans"@, "hready"@],
        Handshake::Apb => seq!["psel"@, "penable"@, "pready"@],
    }
}

/// Name of the bus type of a handshake, as error messages give it.
pub open spec fn bus_type_name(h: Handshake) -> Seq<char> {
    match h {
        Handshake::ReadyValid => "AXIBus"@,
        Handshake::CreditValid => "CreditValidBus"@,
        Handshake::Ahb => "AHBBus"@,
        Handshake::Apb => "APBBus"@,
    }
}

fn handshake_signal_list(h: Handshake) -> (r: (Vec<&'static str>, &'static str))
    ensures
        r.0@.map_values(|k: &str| k@) == handshake_signals(h),
        r.1@ == bus_type_name(h),
{
    proof {
        reveal_strlit("ready");
        reveal_strlit("valid");
        reveal_strlit("credit");
        reveal_strlit("htrans");
        reveal_strlit("hready");
        reveal_strlit("psel");
        reveal_strlit("penable");
        reveal_strlit("pready");
        reveal_strlit("AXIBus");
        reveal_strlit("CreditValidBus");
        reveal_strlit("AHBBus");
        reveal_strlit("APBBus");
    }
    let r = match h {
        Handshake::ReadyValid => (vec!["ready", "valid"], "AXIBus"),
        Handshake::CreditValid => (vec!["credit", "valid"], "CreditValidBus"),
        Handshake::Ahb => (vec!["htrans", "hready"], "AHBBus"),
        Handshake::Apb => (vec!["psel", "penable", "pready"], "APBBus"),
    };
    assert(r.0@.map_values(|k: &str| k@) =~= handshake_signals(h));
    r
}

/// The handshake's signals read from a bus description, each under the bus's scope.
pub open spec fn handshake_paths(scope: Seq<Seq<char>>, y: YamlValue, names: Seq<Seq<char>>, bus: Seq<char>, k: int) -> Result<Seq<(Seq<Seq<char>>, Seq<char>)>, Seq<char>>
    decreases k,
{
    if k <= 0 || k > names.len() {
        Ok(Seq::empty())
    } else {
        match handshake_paths(scope, y, names, bus, k - 1) {
            Err(e) => Err(e),
            Ok(ps) => match signal_path_of(scope, yaml_index(y, names[k - 1])) {
                Err(_) => Err(bus + " bus requires "@ + names[k - 1] + " signal"@),
                Ok(p) => Ok(ps.push(p)),
            },
        }
    }
}

/// The extra signals of a bus description, from its first `k` entries: every entry whose
/// key is not one of `handled`.
pub open spec fn extra_paths_of(scope: Seq<Seq<char>>, entries: Seq<(YamlValue, YamlValue)>, handled: Seq<Seq<char>>, k: int) -> Result<Seq<(Seq<char>, (Seq<Seq<char>>, Seq<char>))>, Seq<char>>
    decreases k,
{
    if k <= 0 || k > entries.len() {
        Ok(Seq::empty())
    } else {
        match extra_paths_of(scope, entries, handled, k - 1) {
            Err(e) => Err(e),
            Ok(ps) => match yaml_str(entries[k - 1].0) {
                None => Err("invalid signal name"@),
                Some(name) => if handled.contains(name) {
                    Ok(ps)
                } else {
                    match signal_path_of(scope, entries[k - 1].1) {
                        Err(e) => Err(e),
                        Ok(p) => Ok(ps.push((name, p))),
                    }
                },
            },
        }
    }
}

/// Entries of a mapping; none for another node.
pub open spec fn hash_entries(y: YamlValue) -> Seq<(YamlValue, YamlValue)> {
    match y {
        YamlValue::Hash(e) => e@,
        _ => Seq::empty(),
    }
}

/// What a bus description reads as: its common part, the handshake's signals and the extra signals.
pub open spec fn bus_of(h: Handshake, y: YamlValue) -> Result<(
    (Seq<Seq<char>>, (Seq<Seq<char>>, Seq<char>), (Seq<Seq<char>>, Seq<char>), u8),
    Seq<(Seq<Seq<char>>, Seq<char>)>,
    Seq<(Seq<char>, (Seq<Seq<char>>, Seq<char>))>,
), Seq<char>> {
    match common_of(y) {
        Err(e) => Err(e),
        Ok(c) => match handshake_paths(c.0, y, handshake_signals(h), bus_type_name(h), handshake_signals(h).len() as int) {
            Err(e) => Err(e),
            Ok(sigs) => match extra_paths_of(c.0, hash_entries(y), common_keys() + handshake_signals(h), hash_entries(y).len() as int) {
                Err(e) => Err(e),
                Ok(extra) => Ok((c, sigs, extra)),
            },
        },
    }
}

/// The extra signals of a description as mathematical values.
pub open spec fn extras_view(e: Seq<(String, SignalPath)>) -> Seq<(Seq<char>, (Seq<Seq<char>>, Seq<char>))> {
    e.map_values(|x: (String, SignalPath)| (x.0@, path_parts(x.1)))
}

/// The description holds what a bus description reads as.
pub open spec fn describes(d: BusDescription, h: Handshake, name: Seq<char>, b: (
    (Seq<Seq<char>>, (Seq<Seq<char>>, Seq<char>), (Seq<Seq<char>>, Seq<char>), u8),
    Seq<(Seq<Seq<char>>, Seq<char>)>,
    Seq<(Seq<char>, (Seq<Seq<char>>, Seq<char>))>,
)) -> bool {
    let c = d.common_spec();
    &&& match (d, h) {
        (BusDescription::ReadyValid(_), Handshake::ReadyValid) => true,
        (BusDescription::CreditValid(_), Handshake::CreditValid) => true,
        (BusDescription::Ahb(_), Handshake::Ahb) => true,
        (BusDescription::Apb(_), Handshake::Apb) => true,
        _ => false,
    }
    &&& c.name_spec() == name
    &&& names_view(c.scope_spec()) == b.0.0
    &&& path_parts(c.clk_spec()) == b.0.1
    &&& path_parts(c.rst_spec()) == b.0.2
    &&& c.rst_active_spec() == b.0.3
    &&& d.unique_signals_spec().map_values(|p: SignalPath| path_parts(p)) == b.1
    &&& extras_view(d.extra_spec()) == b.2
}

fn contains_str(list: &Vec<&'static str>, name: &str) -> (r: bool)
    ensures
        r == list@.map_values(|k: &str| k@).contains(name@),
{
    let mut i: usize = 0;
    while i < list.len()
        invariant
            i <= list@.len(),
            forall|j: int| 0 <= j < i ==> list@[j]@ != name@,
        decreases list@.len() - i,
    {
        if str_eq(list[i], name) {
            assert(list@.map_values(|k: &str| k@)[i as int] == name@);
            return true;
        }
        i = i + 1;
    }
    proof {
        let lv = list@.map_values(|k: &str| k@);
        if lv.contains(name@) {
            let w = choose|w: int| 0 <= w < lv.len() && #[trigger] lv[w] == name@;
            assert(list@[w]@ == name@);
        }
    }
    false
}

fn extra_signals_of(scope: &Vec<String>, y: &YamlValue, handled: &Vec<&'static str>) -> (r: Result<Vec<(String, SignalPath)>, String>)
    ensures
        match extra_paths_of(names_view(scope@), hash_entries(*y), handled@.map_values(|k: &str| k@), hash_entries(*y).len() as int) {
            Ok(e) => r matches Ok(v) && extras_view(v@) == e,
            Err(e) => r matches Err(m) && m@ == e,
        },
{
    proof {
        reveal_strlit("invalid signal name");
    }
    let ghost hv = handled@.map_values(|k: &str| k@);
    let ghost sv = names_view(scope@);
    let mut r: Vec<(String, SignalPath)> = Vec::new();
    let entries = match y {
        YamlValue::Hash(e) => e,
        _ => {
            assert(extras_view(r@) =~= Seq::empty());
            return Ok(r);
        },
    };
    let mut i: usize = 0;
    assert(extras_view(r@) =~= Seq::empty());
    while i < entries.len()
        invariant
            i <= entries@.len(),
            entries@ == hash_entries(*y),
            hv == handled@.map_values(|k: &str| k@),
            sv == names_view(scope@),
            extra_paths_of(sv, entries@, hv, i as int) == Ok::<Seq<(Seq<char>, (Seq<Seq<char>>, Seq<char>))>, Seq<char>>(extras_view(r@)),
        decreases entries@.len() - i,
    {
        let name = match entries[i].0.as_str() {
            Some(n) => n,
            None => {
                proof {
                    lemma_extra_fails(sv, entries@, hv, i as int, entries@.len() as int);
                }
                return Err(String::from_str("invalid signal name"));
            },
        };
        if !contains_str(handled, name) {
            match SignalPathFromYaml::from_yaml_ref_with_prefix(scope, &entries[i].1) {
                Ok(p) => {
                    let ghost before = r@;
                    r.push((String::from_str(name), p));
                    assert(extras_view(r@) =~= extras_view(before).push((name@, path_parts(p))));
                },
                Err(e) => {
                    proof {
                        lemma_extra_fails(sv, entries@, hv, i as int, entries@.len() as int);
                    }
                    return Err(e);
                },
            }
        }
        i = i + 1;
    }
    Ok(r)
}

proof fn lemma_extra_fails(scope: Seq<Seq<char>>, entries: Seq<(YamlValue, YamlValue)>, handled: Seq<Seq<char>>, i: int, k: int)
    requires
        0 <= i < k <= entries.len(),
        extra_paths_of(scope, entries, handled, i) is Ok,
        extra_paths_of(scope, entries, handled, i + 1) is Err,
    ensures
        extra_paths_of(scope, entries, handled, k) == extra_paths_of(scope, entries, handled, i + 1),
    decreases k,
{
    if k > i + 1 {
        lemma_extra_fails(scope, entries, handled, i, k - 1);
    }
}

proof fn lemma_handshake_fails(scope: Seq<Seq<char>>, y: YamlValue, names: Seq<Seq<char>>, bus: Seq<char>, i: int, k: int)
    requires
        0 <= i < k <= names.len(),
        handshake_paths(scope, y, names, bus, i) is Ok,
        handshake_paths(scope, y, names, bus, i + 1) is Err,
    ensures
        handshake_paths(scope, y, names, bus, k) == handshake_paths(scope, y, names, bus, i + 1),
    decreases k,
{
    if k > i + 1 {
        lemma_handshake_fails(scope, y, names, bus, i, k - 1);
    }
}

proof fn lemma_handshake_len(scope: Seq<Seq<char>>, y: YamlValue, names: Seq<Seq<char>>, bus: Seq<char>, k: int)
    requires
        0 <= k <= names.len(),
    ensures
        handshake_paths(scope, y, names, bus, k) matches Ok(ps) ==> ps.len() == k,
    decreases k,
{
    if k > 0 {
        lemma_handshake_len(scope, y, names, bus, k - 1);
    }
}

/// Reads the handshake's signals of a bus description.
fn handshake_signals_of(scope: &Vec<String>, y: &YamlValue, h: Handshake) -> (r: Result<Vec<SignalPath>, String>)
    ensures
        match handshake_paths(names_view(scope@), *y, handshake_signals(h), bus_type_name(h), handshake_signals(h).len() as int) {
            Ok(ps) => r matches Ok(v) && v@.map_values(|p: SignalPath| path_parts(p)) == ps,
            Err(e) => r matches Err(m) && m@ == e,
        },
{
    proof {
        reveal_strlit(" bus requires ");
        reveal_strlit(" signal");
    }
    let (names, bus) = handshake_signal_list(h);
    let ghost nv = names@.map_values(|k: &str| k@);
    let ghost sv = names_view(scope@);
    let bad = YamlValue::BadValue;
    let mut r: Vec<SignalPath> = Vec::new();
    let mut i: usize = 0;
    assert(r@.map_values(|p: SignalPath| path_parts(p)) =~= Seq::empty());
    while i < names.len()
        invariant
            i <= names@.len(),
            nv == names@.map_values(|k: &str| k@),
            nv == handshake_signals(h),
            bus@ == bus_type_name(h),
            sv == names_view(scope@),
            bad is BadValue,
            handshake_paths(sv, *y, nv, bus@, i as int) == Ok::<Seq<(Seq<Seq<char>>, Seq<char>)>, Seq<char>>(
                r@.map_values(|p: SignalPath| path_parts(p)),
            ),
        decreases names@.len() - i,
    {
        assert(nv[i as int] == names@[i as int]@);
        match SignalPathFromYaml::from_yaml_ref_with_prefix(scope, index_or_bad(y, names[i], &bad)) {
            Ok(p) => {
                let ghost before = r@;
                r.push(p);
                assert(r@.map_values(|p: SignalPath| path_parts(p)) =~= before.map_values(|p: SignalPath| path_parts(p)).push(path_parts(p)));
            },
            Err(_) => {
                proof {
                    lemma_handshake_fails(sv, *y, nv, bus@, i as int, nv.len() as int);
                }
                let m = concat(bus, " bus requires ");
                let m = concat(m.as_str(), names[i]);
                return Err(concat(m.as_str(), " signal"));
            },
        }
        i = i + 1;
    }
    Ok(r)
}

/// Reads the description of the bus `name` with the given handshake.
pub fn bus_from_yaml(h: Handshake, name: String, yaml: &YamlValue) -> (r: Result<BusDescription, String>)
    ensures
        match bus_of(h, *yaml) {
            Ok(b) => r matches Ok(d) && describes(d, h, name@, b),
            Err(e) => r matches Err(m) && m@ == e,
        },
{
    let ghost nm = name@;
    let common = BusCommon::from_yaml(name, yaml)?;
    let mut sigs = handshake_signals_of(common.module_scope(), yaml, h)?;
    let mut handled = common_key_list();
    let (mut names, _) = handshake_signal_list(h);
    let ghost hv = handled@.map_values(|k: &str| k@);
    let ghost nv = names@.map_values(|k: &str| k@);
    handled.append(&mut names);
    assert(handled@.map_values(|k: &str| k@) =~= hv + nv);
    let extra = extra_signals_of(common.module_scope(), yaml, &handled)?;
    let ghost sv = sigs@;
    proof {
        lemma_handshake_len(names_view(common.scope_spec()), *yaml, handshake_signals(h), bus_type_name(h), handshake_signals(h).len() as int);
        assert(sigs@.map_values(|p: SignalPath| path_parts(p)).len() == sigs@.len());
    }
    let r = match h {
        Handshake::ReadyValid => {
            let valid = sigs.pop().unwrap();
            let ready = sigs.pop().unwrap();
            BusDescription::ReadyValid(AXIBus::new(common, ready, valid, extra))
        },
        Handshake::CreditValid => {
            let valid = sigs.pop().unwrap();
            let credit = sigs.pop().unwrap();
            BusDescription::CreditValid(CreditValidBus::new(common, credit, valid, extra))
        },
        Handshake::Ahb => {
            let hready = sigs.pop().unwrap();
            let htrans = sigs.pop().unwrap();
            BusDescription::Ahb(AHBBus::new(common, htrans, hready, extra))
        },
        Handshake::Apb => {
            let pready = sigs.pop().unwrap();
            let penable = sigs.pop().unwrap();
            let psel = sigs.pop().unwrap();
            BusDescription::Apb(APBBus::new(common, psel, penable, pready, extra))
        },
    };
    assert(r.unique_signals_spec() =~= sv);
    assert(r.unique_signals_spec().map_values(|p: SignalPath| path_parts(p)) =~= sv.map_values(|p: SignalPath| path_parts(p)));
    Ok(r)
}

/// The handshake named in a bus description.
pub open spec fn handshake_named(t: Seq<char>) -> Option<Handshake> {
    if t == "ReadyValid"@ {
        Some(Handshake::ReadyValid)
    } else if t == "CreditValid"@ {
        Some(Handshake::CreditValid)
    } else if t == "AHB"@ {
        Some(Handshake::Ahb)
    } else if t == "APB"@ {
        Some(Handshake::Apb)
    } else {
        None
    }
}

/// The rule for a handshake, in its initial state.
pub open spec fn analyzer_for(h: Handshake) -> LockstepAnalyzer {
    match h {
        Handshake::ReadyValid => LockstepAnalyzer::ReadyValid(ReadyValidAnalyzer),
        Handshake::CreditValid => LockstepAnalyzer::CreditValid(0),
        Handshake::Ahb => LockstepAnalyzer::Ahb(AHBAnalyzer),
        Handshake::Apb => LockstepAnalyzer::Apb(APBAnalyzer),
    }
}

/// Builds bus descriptions from YAML.
pub struct BusDescriptionBuilder {}

impl BusDescriptionBuilder {
    /// The description of the bus `name` and the rule for its handshake.
    pub fn build(name: String, yaml: &YamlValue) -> (r: Result<(BusDescription, LockstepAnalyzer), String>)
        ensures
            match yaml_str(yaml_index(*yaml, "handshake"@)) {
                None => r matches Err(m) && m@ == "Bus should have handshake defined"@,
                Some(t) => match handshake_named(t) {
                    None => r matches Err(m) && m@ == "invalid handshake "@ + t,
                    Some(h) => match bus_of(h, *yaml) {
                        Ok(b) => r matches Ok((d, a)) && describes(d, h, name@, b) && a == analyzer_for(h),
                        Err(e) => r matches Err(m) && m@ == e,
                    },
                },
            },
    {
        proof {
            reveal_strlit("handshake");
            reveal_strlit("Bus should have handshake defined");
            reveal_strlit("ReadyValid");
            reveal_strlit("CreditValid");
            reveal_strlit("AHB");
            reveal_strlit("APB");
            reveal_strlit("invalid handshake ");
        }
        let bad = YamlValue::BadValue;
        let t = match index_or_bad(yaml, "handshake", &bad).as_str() {
            Some(t) => t,
            None => {
                return Err(String::from_str("Bus should have handshake defined"));
            },
        };
        let h = if str_eq(t, "ReadyValid") {
            Handshake::ReadyValid
        } else if str_eq(t, "CreditValid") {
            Handshake::CreditValid
        } else if str_eq(t, "AHB") {
            Handshake::Ahb
        } else if str_eq(t, "APB") {
            Handshake::Apb
        } else {
            return Err(concat("invalid handshake ", t));
        };
        let d = bus_from_yaml(h, name, yaml)?;
        let a = match h {
            Handshake::ReadyValid => LockstepAnalyzer::ReadyValid(ReadyValidAnalyzer::new()),
            Handshake::CreditValid => LockstepAnalyzer::CreditValid(0),
            Handshake::Ahb => LockstepAnalyzer::Ahb(AHBAnalyzer),
            Handshake::Apb => LockstepAnalyzer::Apb(APBAnalyzer),
        };
        Ok((d, a))
    }
}

} // verus!
