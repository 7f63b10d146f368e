//! The analyzers of a bus description file and the triggers that control them.
use vstd::prelude::*;
use vstd::string::StringExecFns;
use crate::CyclesNum;
use crate::SignalPath;
use crate::analyzer::{check_dependencies, first_missing, first_missing_in, names_view, DefaultAnalyzer};
use crate::axi::{AXIRdAnalyzer, AXIWrAnalyzer};
use crate::axi_config::{rd_built, rd_of, sink_built, wr_built, wr_of};
use crate::config_triggers::{default_built, sink_error};
use crate::config::concat;
use crate::config_triggers::{control_built, control_error, ControlBuilder};
use crate::control::Control;
use crate::sources::TriggerSource;
use crate::text::str_eq;
use crate::yaml::{parse_yaml_docs, parsed_docs, yaml_get, yaml_index, yaml_str, YamlValue};

verus! {

/// Configuration of the analyzers: the default number of non busy cycles that do not end
/// a burst, the length of the window the bandwidth is measured over, and where plugins are
/// searched.
pub struct AnalyzersConfig {
    pub default_max_burst_delay: CyclesNum,
    pub window_length: u32,
    pub plugins_path: String,
}

impl AnalyzersConfig {
    pub fn new(default_max_burst_delay: CyclesNum, window_length: u32, plugins_path: String) -> (r: Self)
        ensures
            r == (AnalyzersConfig { default_max_burst_delay, window_length, plugins_path }),
    {
        AnalyzersConfig { default_max_burst_delay, window_length, plugins_path }
    }

    pub fn set_max_burst_delay(&mut self, num: CyclesNum)
        ensures
            *final(self) == (AnalyzersConfig { default_max_burst_delay: num, ..*old(self) }),
    {
        self.default_max_burst_delay = num;
    }

    pub fn set_plugins_path(&mut self, s: &str)
        ensures
            final(self).plugins_path@ == s@,
            final(self).default_max_burst_delay == old(self).default_max_burst_delay,
            final(self).window_length == old(self).window_length,
    {
        self.plugins_path = s.to_owned();
    }
}

impl Default for AnalyzersConfig {
    /// No burst delay, a window of 10000 clock cycles, plugins in `./plugins/python`.
    fn default() -> (r: Self)
        ensures
            r.default_max_burst_delay == 0,
            r.window_length == 10000,
            r.plugins_path@ == "./plugins/python"@,
    {
        proof {
            reveal_strlit("./plugins/python");
        }
        AnalyzersConfig {
            default_max_burst_delay: 0,
            window_length: 10000,
            plugins_path: String::from_str("./plugins/python"),
        }
    }
}

/// The analyzer of one bus.
pub enum BusAnalyzer {
    Default(DefaultAnalyzer),
    AxiRead(AXIRdAnalyzer),
    AxiWrite(AXIWrAnalyzer),
}

impl BusAnalyzer {
    pub open spec fn name_view(&self) -> Seq<char> {
        match self {
            BusAnalyzer::Default(a) => a.description.common_spec().name_spec(),
            BusAnalyzer::AxiRead(a) => a.common.name_spec(),
            BusAnalyzer::AxiWrite(a) => a.common.name_spec(),
        }
    }

    /// Names of the triggers the analyzer needs before it runs.
    pub open spec fn required_view(&self) -> Seq<Seq<char>> {
        match self {
            BusAnalyzer::Default(a) => names_view(a.required@),
            BusAnalyzer::AxiRead(a) => names_view(a.required@),
            BusAnalyzer::AxiWrite(a) => names_view(a.required@),
        }
    }

    /// Names of the triggers the analyzer provides.
    pub open spec fn provided_view(&self) -> Seq<Seq<char>> {
        match self {
            BusAnalyzer::Default(a) => a.provided@.map_values(|t: TriggerSource| t.name_view()),
            _ => Seq::empty(),
        }
    }

    pub fn bus_name(&self) -> (r: &str)
        ensures
            r@ == self.name_view(),
    {
        match self {
            BusAnalyzer::Default(a) => a.bus_name(),
            BusAnalyzer::AxiRead(a) => a.bus_name(),
            BusAnalyzer::AxiWrite(a) => a.bus_name(),
        }
    }

    /// Names of the triggers the analyzer needs before it runs.
    pub fn required(&self) -> (r: Vec<String>)
        ensures
            names_view(r@) == self.required_view(),
    {
        match self {
            BusAnalyzer::Default(a) => copy_strings(&a.required),
            BusAnalyzer::AxiRead(a) => copy_strings(&a.required),
            BusAnalyzer::AxiWrite(a) => copy_strings(&a.required),
        }
    }

    /// Names of the triggers the analyzer provides.
    pub fn provides(&self) -> (r: Vec<String>)
        ensures
            names_view(r@) == self.provided_view(),
    {
        let mut r: Vec<String> = Vec::new();
        match self {
            BusAnalyzer::Default(a) => {
                let mut i: usize = 0;
                while i < a.provided.len()
                    invariant
                        i <= a.provided@.len(),
                        names_view(r@) == a.provided@.take(i as int).map_values(|t: TriggerSource| t.name_view()),
                    decreases a.provided@.len() - i,
                {
                    let n = a.provided[i].name();
                    let ghost before = r@;
                    r.push(n.to_owned());
                    i = i + 1;
                    assert(names_view(r@) =~= a.provided@.take(i as int).map_values(|t: TriggerSource| t.name_view())) by {
                        assert(names_view(r@) =~= names_view(before).push(n@));
                    }
                }
                assert(a.provided@.take(i as int) =~= a.provided@);
                r
            },
            _ => {
                assert(names_view(r@) =~= Seq::<Seq<char>>::empty());
                r
            },
        }
    }

    /// Signal paths the analyzer reads, in the order its calculation expects them loaded.
    pub fn get_signals(&self) -> (r: Vec<&SignalPath>)
        ensures
            match self {
                BusAnalyzer::Default(a) => r@.len() == a.description.signals_spec().len() && forall|i: int|
                    0 <= i < r@.len() ==> *r@[i] == a.description.signals_spec()[i],
                BusAnalyzer::AxiRead(a) => r@.len() == a.signals_spec().len() && forall|i: int|
                    0 <= i < r@.len() ==> *r@[i] == a.signals_spec()[i],
                BusAnalyzer::AxiWrite(a) => r@.len() == a.signals_spec().len() && forall|i: int|
                    0 <= i < r@.len() ==> *r@[i] == a.signals_spec()[i],
            },
    {
        match self {
            BusAnalyzer::Default(a) => a.get_signals(),
            BusAnalyzer::AxiRead(a) => a.get_signals(),
            BusAnalyzer::AxiWrite(a) => a.get_signals(),
        }
    }
}

fn copy_strings(v: &Vec<String>) -> (r: Vec<String>)
    ensures
        names_view(r@) == names_view(v@),
{
    let mut r: Vec<String> = Vec::new();
    let mut i: usize = 0;
    while i < v.len()
        invariant
            i <= v@.len(),
            names_view(r@) == names_view(v@.take(i as int)),
        decreases v@.len() - i,
    {
        let ghost before = r@;
        r.push(v[i].clone());
        i = i + 1;
        assert(names_view(r@) =~= names_view(v@.take(i as int))) by {
            assert(names_view(r@) =~= names_view(before).push(v@[i - 1]@));
        }
    }
    assert(v@.take(i as int) =~= v@);
    r
}

/// Builds analyzers from their descriptions.
pub struct AnalyzerBuilder {}

/// The kind of analyzer a bus description asks for: `None` for the default one.
pub open spec fn custom_analyzer(dict: YamlValue) -> Option<Seq<char>> {
    yaml_str(yaml_index(dict, "custom_analyzer"@))
}

/// What reading the analyzer of the bus named by `name` from its description `dict` gives:
/// an AXI analyzer where `custom_analyzer` names one, the default analyzer where it names
/// none, and otherwise the error of the first thing that does not read.
pub open spec fn analyzer_built(r: Result<BusAnalyzer, String>, name: YamlValue, dict: YamlValue, config: AnalyzersConfig) -> bool {
    match yaml_str(name) {
        None => r matches Err(e) && e@ == "Invalid bus name"@,
        Some(n) => match custom_analyzer(dict) {
            Some(c) => if c == "AXIWrAnalyzer"@ {
                match wr_of(dict) {
                    Ok(d) => match sink_error(dict) {
                        None => r matches Ok(BusAnalyzer::AxiWrite(a)) && wr_built(a, n, config.window_length, d)
                            && sink_built(a.sink, a.required@, dict),
                        Some(e) => r matches Err(m) && m@ == e,
                    },
                    Err(e) => r matches Err(m) && m@ == e,
                }
            } else if c == "AXIRdAnalyzer"@ {
                match rd_of(dict) {
                    Ok(d) => match sink_error(dict) {
                        None => r matches Ok(BusAnalyzer::AxiRead(a)) && rd_built(a, n, config.window_length, d)
                            && sink_built(a.sink, a.required@, dict),
                        Some(e) => r matches Err(m) && m@ == e,
                    },
                    Err(e) => r matches Err(m) && m@ == e,
                }
            } else {
                r matches Err(m) && m@ == "Analyzer "@ + c + " does not exist or Python plugins are disabled"@
            },
            None => match r {
                Ok(BusAnalyzer::Default(a)) => default_built(Ok(a), n, dict, config.default_max_burst_delay)
                    && BusAnalyzer::Default(a).name_view() == n,
                Ok(_) => false,
                Err(m) => default_built(Err(m), n, dict, config.default_max_burst_delay),
            },
        },
    }
}

impl AnalyzerBuilder {
    /// The analyzer of the bus named by `name` and described by `dict`: an AXI analyzer
    /// where `custom_analyzer` names one, else the default analyzer.
    pub fn build(name: &YamlValue, dict: &YamlValue, config: &AnalyzersConfig) -> (r: Result<BusAnalyzer, String>)
        ensures
            analyzer_built(r, *name, *dict, *config),
    {
        proof {
            reveal_strlit("Invalid bus name");
            reveal_strlit("custom_analyzer");
            reveal_strlit("AXIWrAnalyzer");
            reveal_strlit("AXIRdAnalyzer");
        }
        let n = match name.as_str() {
            Some(n) => n,
            None => {
                return Err(String::from_str("Invalid bus name"));
            },
        };
        let custom = match dict.get("custom_analyzer") {
            Some(c) => c.as_str(),
            None => None,
        };
        match custom {
            Some(c) => {
                if str_eq(c, "AXIWrAnalyzer") {
                    let a = AXIWrAnalyzer::build_from_yaml(n.to_owned(), dict, config.window_length)?;
                    Ok(BusAnalyzer::AxiWrite(a))
                } else if str_eq(c, "AXIRdAnalyzer") {
                    let a = AXIRdAnalyzer::build_from_yaml(n.to_owned(), dict, config.window_length)?;
                    Ok(BusAnalyzer::AxiRead(a))
                } else {
                    let m = concat("Analyzer ", c);
                    Err(concat(m.as_str(), " does not exist or Python plugins are disabled"))
                }
            },
            None => {
                match DefaultAnalyzer::from_yaml(n.to_owned(), dict, config.default_max_burst_delay) {
                    Ok(a) => Ok(BusAnalyzer::Default(a)),
                    Err(m) => Err(m),
                }
            },
        }
    }
}

/// The analyzers of the buses and the control triggers.
pub struct AnalyzersGraph {
    pub analyzers: Vec<BusAnalyzer>,
    pub control: Vec<Control>,
}

impl AnalyzersGraph {
    pub fn into_analyzers(self) -> (r: Vec<BusAnalyzer>)
        ensures
            r == self.analyzers,
    {
        self.analyzers
    }
}

/// Top level keys a description file may have besides the buses and the control triggers.
pub open spec fn allowed_top_key(s: Seq<char>) -> bool {
    s == "interfaces"@ || s == "control_only"@ || s == "scopes"@ || s == "common_clk_rst_ifs"@
}

/// Text keys of a top level mapping that the description file may not have, in order.
pub open spec fn extra_keys(entries: Seq<(YamlValue, YamlValue)>) -> Seq<Seq<char>>
    decreases entries.len(),
{
    if entries.len() == 0 {
        Seq::empty()
    } else {
        let rest = extra_keys(entries.drop_last());
        match entries.last().0 {
            YamlValue::Text(s) => if allowed_top_key(s@) { rest } else { rest.push(s@) },
            _ => rest,
        }
    }
}

/// Names joined with `, ` between them.
pub open spec fn join_names(s: Seq<Seq<char>>) -> Seq<char>
    decreases s.len(),
{
    if s.len() == 0 {
        Seq::empty()
    } else if s.len() == 1 {
        s[0]
    } else {
        join_names(s.drop_last()) + ", "@ + s.last()
    }
}

fn extra_keys_exec(entries: &Vec<(YamlValue, YamlValue)>) -> (r: Vec<String>)
    ensures
        names_view(r@) == extra_keys(entries@),
{
    proof {
        reveal_strlit("interfaces");
        reveal_strlit("control_only");
        reveal_strlit("scopes");
        reveal_strlit("common_clk_rst_ifs");
    }
    let mut r: Vec<String> = Vec::new();
    let mut i: usize = 0;
    while i < entries.len()
        invariant
            i <= entries@.len(),
            names_view(r@) == extra_keys(entries@.take(i as int)),
        decreases entries@.len() - i,
    {
        assert(entries@.take(i + 1).drop_last() =~= entries@.take(i as int));
        let ghost before = r@;
        match &entries[i].0 {
            YamlValue::Text(s) => {
                let allowed = str_eq(s.as_str(), "interfaces") || str_eq(s.as_str(), "control_only") || str_eq(
                    s.as_str(),
                    "scopes",
                ) || str_eq(s.as_str(), "common_clk_rst_ifs");
                if !allowed {
                    r.push(s.clone());
                    assert(names_view(r@) =~= names_view(before).push(s@));
                }
            },
            _ => {},
        }
        i = i + 1;
    }
    assert(entries@.take(i as int) =~= entries@);
    r
}

pub(crate) fn join_exec(v: &Vec<String>) -> (r: String)
    ensures
        r@ == join_names(names_view(v@)),
{
    proof {
        reveal_strlit(", ");
    }
    let mut r = String::new();
    let mut i: usize = 0;
    while i < v.len()
        invariant
            i <= v@.len(),
            r@ == join_names(names_view(v@.take(i as int))),
        decreases v@.len() - i,
    {
        assert(names_view(v@.take(i + 1)).drop_last() =~= names_view(v@.take(i as int)));
        if i > 0 {
            r.append(", ");
        }
        r.append(v[i].as_str());
        i = i + 1;
        proof {
            if i == 1 {
                assert(r@ =~= join_names(names_view(v@.take(1))));
            }
        }
    }
    assert(v@.take(i as int) =~= v@);
    r
}

/// Names of the triggers the control triggers provide, in order.
pub open spec fn control_names(cs: Seq<Control>) -> Seq<Seq<char>>
    decreases cs.len(),
{
    if cs.len() == 0 {
        Seq::empty()
    } else {
        control_names(cs.drop_last()) + cs.last().names_spec()
    }
}

/// Names of the triggers the analyzers provide, in order.
pub open spec fn provided_names(analyzers: Seq<BusAnalyzer>) -> Seq<Seq<char>>
    decreases analyzers.len(),
{
    if analyzers.len() == 0 {
        Seq::empty()
    } else {
        provided_names(analyzers.drop_last()) + analyzers.last().provided_view()
    }
}

/// Names of the triggers that exist: those of the control triggers, then those the
/// analyzers provide.
pub open spec fn existing_triggers(analyzers: Seq<BusAnalyzer>, control: Seq<Control>) -> Seq<Seq<char>> {
    control_names(control) + provided_names(analyzers)
}

/// Names of the analyzers and then of the control triggers, with the triggers each needs.
pub open spec fn needs_of(analyzers: Seq<BusAnalyzer>, control: Seq<Control>) -> Seq<(Seq<char>, Seq<Seq<char>>)> {
    analyzers.map_values(|a: BusAnalyzer| (a.name_view(), a.required_view())) + control.map_values(
        |c: Control| (c.name_view(), c.required_spec()),
    )
}

/// Every trigger that an analyzer or a control trigger needs exists.
pub open spec fn dependencies_met(analyzers: Seq<BusAnalyzer>, control: Seq<Control>) -> bool {
    forall|i: int, j: int|
        0 <= i < needs_of(analyzers, control).len() && 0 <= j < needs_of(analyzers, control)[i].1.len()
            ==> existing_triggers(analyzers, control).contains(#[trigger] needs_of(analyzers, control)[i].1[j])
}

/// A name with the triggers it needs, as mathematical values.
pub open spec fn needs_view(v: Seq<(String, Vec<String>)>) -> Seq<(Seq<char>, Seq<Seq<char>>)> {
    v.map_values(|x: (String, Vec<String>)| (x.0@, names_view(x.1@)))
}

proof fn lemma_missing_in_none(ex: Seq<Seq<char>>, reqs: Seq<Seq<char>>)
    ensures
        first_missing_in(ex, reqs) is None <==> forall|j: int| 0 <= j < reqs.len() ==> ex.contains(#[trigger] reqs[j]),
    decreases reqs.len(),
{
    if reqs.len() > 0 {
        lemma_missing_in_none(ex, reqs.drop_last());
        if first_missing_in(ex, reqs) is None {
            assert forall|j: int| 0 <= j < reqs.len() implies ex.contains(#[trigger] reqs[j]) by {
                if j < reqs.len() - 1 {
                    assert(reqs.drop_last()[j] == reqs[j]);
                }
            }
        } else if forall|j: int| 0 <= j < reqs.len() ==> ex.contains(#[trigger] reqs[j]) {
            assert forall|j: int| 0 <= j < reqs.drop_last().len() implies ex.contains(#[trigger] reqs.drop_last()[j]) by {
                assert(reqs.drop_last()[j] == reqs[j]);
            }
            assert(ex.contains(reqs[reqs.len() - 1]));
        }
    }
}

proof fn lemma_missing_none(ex: Seq<Seq<char>>, needs: Seq<(String, Vec<String>)>, k: int)
    requires
        0 <= k <= needs.len(),
    ensures
        first_missing(ex, needs, k) is None <==> forall|i: int, j: int|
            0 <= i < k && 0 <= j < needs_view(needs)[i].1.len() ==> ex.contains(#[trigger] needs_view(needs)[i].1[j]),
    decreases k,
{
    if k > 0 {
        lemma_missing_none(ex, needs, k - 1);
        lemma_missing_in_none(ex, names_view(needs[k - 1].1@));
        assert(needs_view(needs)[k - 1].1 == names_view(needs[k - 1].1@));
        if first_missing(ex, needs, k) is None {
            assert forall|i: int, j: int| 0 <= i < k && 0 <= j < needs_view(needs)[i].1.len()
                implies ex.contains(#[trigger] needs_view(needs)[i].1[j]) by {
                if i == k - 1 {
                    assert(ex.contains(names_view(needs[k - 1].1@)[j]));
                }
            }
        } else if forall|i: int, j: int| 0 <= i < k && 0 <= j < needs_view(needs)[i].1.len()
            ==> ex.contains(#[trigger] needs_view(needs)[i].1[j]) {
            assert forall|j: int| 0 <= j < names_view(needs[k - 1].1@).len() implies ex.contains(
                #[trigger] names_view(needs[k - 1].1@)[j],
            ) by {
                assert(ex.contains(needs_view(needs)[k - 1].1[j]));
            }
        }
    }
}

/// The description file's top level may hold only these keys.
pub open spec fn extra_message(doc_entries: Seq<(YamlValue, YamlValue)>) -> Seq<char> {
    "Yaml can only have interfaces, scopes(optional) and common_clk_rst_ifs(optional) in top level, but has extra: "@
        + join_names(extra_keys(doc_entries))
}

/// The control triggers a description file defines, where it defines any.
pub open spec fn control_entries(control_only: Option<YamlValue>) -> Seq<(YamlValue, YamlValue)> {
    match control_only {
        Some(YamlValue::Hash(c)) => c@,
        _ => Seq::empty(),
    }
}

/// The analyzer `a` is what the bus entry `e` reads as.
pub open spec fn bus_at(a: BusAnalyzer, config: AnalyzersConfig, e: (YamlValue, YamlValue)) -> bool {
    yaml_str(e.0) == Some(a.name_view()) && analyzer_built(Ok(a), e.0, e.1, config)
}

/// The bus entry `e` reads as an analyzer.
pub open spec fn bus_ok_at(config: AnalyzersConfig, e: (YamlValue, YamlValue)) -> bool {
    exists|a: BusAnalyzer| #[trigger] bus_at(a, config, e)
}

/// Reading the bus entry `en` fails with the message `e`.
pub open spec fn bus_error_at(config: AnalyzersConfig, en: (YamlValue, YamlValue), e: Seq<char>) -> bool {
    match yaml_str(en.0) {
        None => e == "Each bus should have a name"@,
        Some(n) => exists|m: String| #[trigger] analyzer_built(Err(m), en.0, en.1, config) && e == "bus "@ + n + ", "@ + m@,
    }
}

/// The control trigger `c` is what the entry `e` of `control_only` reads as.
pub open spec fn control_at(c: Control, e: (YamlValue, YamlValue)) -> bool {
    yaml_str(e.0) == Some(c.name_view()) && control_built(Ok(c), c.name_view(), e.1)
}

/// The entry `e` of `control_only` reads as a control trigger.
pub open spec fn control_ok_at(e: (YamlValue, YamlValue)) -> bool {
    exists|c: Control| #[trigger] control_at(c, e)
}

/// Reading the entry `en` of `control_only` fails with the message `e`.
pub open spec fn control_error_at(en: (YamlValue, YamlValue), e: Seq<char>) -> bool {
    match yaml_str(en.0) {
        None => e == "invalid control trigger name"@,
        Some(n) => control_error(n, en.1) == Some(e),
    }
}

/// Reading the control triggers fails with the message `e`: `control_only` is no mapping,
/// or an entry fails to read after all those before it read.
pub open spec fn control_failed(control_only: Option<YamlValue>, e: Seq<char>) -> bool {
    match control_only {
        None => false,
        Some(YamlValue::Hash(entries)) => exists|i: int|
            0 <= i < entries@.len() && (forall|k: int| 0 <= k < i ==> #[trigger] control_ok_at(entries@[k]))
                && #[trigger] control_error_at(entries@[i], e),
        Some(_) => e == "control_only should define extra triggers"@,
    }
}

/// The graph holds the analyzer that each bus entry reads as, in the order of the file, and
/// the control trigger that each entry of `control_only` reads as.
pub open spec fn graph_read(g: AnalyzersGraph, ifs: Seq<(YamlValue, YamlValue)>, control_only: Option<YamlValue>, config: AnalyzersConfig) -> bool {
    &&& g.analyzers@.len() == ifs.len()
    &&& forall|i: int| 0 <= i < ifs.len() ==> #[trigger] bus_at(g.analyzers@[i], config, ifs[i])
    &&& g.control@.len() == control_entries(control_only).len()
    &&& forall|i: int| 0 <= i < g.control@.len() ==> #[trigger] control_at(g.control@[i], control_entries(control_only)[i])
}

/// The graph is read from the file and everything that is needed exists.
pub open spec fn graph_of(g: AnalyzersGraph, ifs: Seq<(YamlValue, YamlValue)>, control_only: Option<YamlValue>, config: AnalyzersConfig) -> bool {
    &&& graph_read(g, ifs, control_only, config)
    &&& dependencies_met(g.analyzers@, g.control@)
}

/// Among the first `k` of `needs` (each a name and the triggers it needs), the first need
/// that is not among `existing`, with the name of who needs it.
pub open spec fn first_unmet(existing: Seq<Seq<char>>, needs: Seq<(Seq<char>, Seq<Seq<char>>)>, k: int) -> Option<(Seq<char>, Seq<char>)>
    decreases k,
{
    if k <= 0 || k > needs.len() {
        None
    } else {
        match first_unmet(existing, needs, k - 1) {
            Some(m) => Some(m),
            None => match first_missing_in(existing, needs[k - 1].1) {
                Some(q) => Some((needs[k - 1].0, q)),
                None => None,
            },
        }
    }
}

/// Reading the buses and control triggers fails with the message `e`: the first bus that
/// does not read, else the control triggers, else the first need that nothing provides.
pub open spec fn load_failed(ifs: Seq<(YamlValue, YamlValue)>, control_only: Option<YamlValue>, config: AnalyzersConfig, e: Seq<char>) -> bool {
    ||| exists|i: int|
        0 <= i < ifs.len() && (forall|k: int| 0 <= k < i ==> #[trigger] bus_ok_at(config, ifs[k]))
            && #[trigger] bus_error_at(config, ifs[i], e)
    ||| (forall|k: int| 0 <= k < ifs.len() ==> #[trigger] bus_ok_at(config, ifs[k])) && control_failed(control_only, e)
    ||| exists|g: AnalyzersGraph|
        #[trigger] graph_read(g, ifs, control_only, config) && (first_unmet(
            existing_triggers(g.analyzers@, g.control@),
            needs_of(g.analyzers@, g.control@),
            needs_of(g.analyzers@, g.control@).len() as int,
        ) matches Some((w, q)) && e == "analyzer "@ + w + " requires "@ + q + " trigger which is not defined"@)
}

proof fn lemma_unmet_missing(ex: Seq<Seq<char>>, needs: Seq<(String, Vec<String>)>, k: int)
    requires
        0 <= k <= needs.len(),
    ensures
        first_unmet(ex, needs_view(needs), k) == first_missing(ex, needs, k),
    decreases k,
{
    if k > 0 {
        lemma_unmet_missing(ex, needs, k - 1);
        assert(needs_view(needs)[k - 1] == (needs[k - 1].0@, names_view(needs[k - 1].1@)));
    }
}

/// The value behind an optional reference.
pub open spec fn opt_value(o: Option<&YamlValue>) -> Option<YamlValue> {
    match o {
        Some(c) => Some(*c),
        None => None,
    }
}

#[verifier::loop_isolation(false)]
fn control_from_yaml(control_only: Option<&YamlValue>) -> (r: Result<Vec<Control>, String>)
    ensures
        match r {
            Ok(v) => {
                &&& v@.len() == control_entries(opt_value(control_only)).len()
                &&& forall|i: int| 0 <= i < v@.len() ==> #[trigger] control_at(
                    v@[i],
                    control_entries(opt_value(control_only))[i],
                )
            },
            Err(e) => control_failed(opt_value(control_only), e@),
        },
{
    proof {
        reveal_strlit("control_only should define extra triggers");
        reveal_strlit("invalid control trigger name");
    }
    let mut control: Vec<Control> = Vec::new();
    match control_only {
        None => Ok(control),
        Some(YamlValue::Hash(entries)) => {
            let mut i: usize = 0;
            while i < entries.len()
                invariant
                    i <= entries@.len(),
                    control@.len() == i,
                    forall|k: int| 0 <= k < i ==> #[trigger] control_at(control@[k], entries@[k]),
                decreases entries@.len() - i,
            {
                assert forall|k: int| 0 <= k < i implies #[trigger] control_ok_at(entries@[k]) by {
                    assert(control_at(control@[k], entries@[k]));
                }
                let name = match entries[i].0.as_str() {
                    Some(n) => n,
                    None => {
                        let e = String::from_str("invalid control trigger name");
                        assert(control_error_at(entries@[i as int], e@));
                        return Err(e);
                    },
                };
                let owned = name.to_owned();
                let c = match ControlBuilder::build_from_yaml(owned, &entries[i].1) {
                    Ok(c) => c,
                    Err(e) => {
                        assert(yaml_str(entries@[i as int].0) == Some(name@));
                        assert(control_error_at(entries@[i as int], e@));
                        return Err(e);
                    },
                };
                control.push(c);
                assert(control_at(control@[i as int], entries@[i as int]));
                i = i + 1;
            }
            Ok(control)
        },
        Some(_) => Err(String::from_str("control_only should define extra triggers")),
    }
}

/// What reading the analyzers and control triggers of a description file's document gives.
pub open spec fn analyzers_loaded(r: Result<AnalyzersGraph, String>, doc: YamlValue, config: AnalyzersConfig) -> bool {
    match doc {
        YamlValue::Hash(entries) => match yaml_get(doc, "interfaces"@) {
            None => r matches Err(e) && e@ == "Yaml should define interfaces"@,
            Some(YamlValue::Hash(ifs)) => if extra_keys(entries@).len() > 0 {
                r matches Err(e) && e@ == extra_message(entries@)
            } else {
                match r {
                    Ok(g) => graph_of(g, ifs@, yaml_get(doc, "control_only"@), config),
                    Err(e) => load_failed(ifs@, yaml_get(doc, "control_only"@), config, e@),
                }
            },
            Some(_) => r matches Err(e) && e@ == "Invalid yaml format"@,
        },
        _ => r matches Err(e) && e@ == "Yaml should not be empty"@,
    }
}

/// Reads the analyzers and control triggers of a description file's document.
#[verifier::loop_isolation(false)]
pub fn load_bus_analyzers(doc: &YamlValue, config: &AnalyzersConfig) -> (r: Result<AnalyzersGraph, String>)
    ensures
        analyzers_loaded(r, *doc, *config),
{
    proof {
        reveal_strlit("Yaml should not be empty");
        reveal_strlit("Yaml should define interfaces");
        reveal_strlit("Invalid yaml format");
        reveal_strlit("interfaces");
        reveal_strlit("control_only");
        reveal_strlit("Each bus should have a name");
        reveal_strlit(
            "Yaml can only have interfaces, scopes(optional) and common_clk_rst_ifs(optional) in top level, but has extra: ",
        );
    }
    let entries = match doc {
        YamlValue::Hash(e) => e,
        _ => {
            return Err(String::from_str("Yaml should not be empty"));
        },
    };
    let interfaces = match doc.get("interfaces") {
        Some(i) => i,
        None => {
            return Err(String::from_str("Yaml should define interfaces"));
        },
    };
    let ifs = match interfaces {
        YamlValue::Hash(e) => e,
        _ => {
            return Err(String::from_str("Invalid yaml format"));
        },
    };
    let control_only = doc.get("control_only");
    let extra = extra_keys_exec(entries);
    if extra.len() > 0 {
        let list = join_exec(&extra);
        return Err(concat(
            "Yaml can only have interfaces, scopes(optional) and common_clk_rst_ifs(optional) in top level, but has extra: ",
            list.as_str(),
        ));
    }
    let mut analyzers: Vec<BusAnalyzer> = Vec::new();
    let mut i: usize = 0;
    while i < ifs.len()
        invariant
            i <= ifs@.len(),
            analyzers@.len() == i,
            forall|k: int| 0 <= k < i ==> #[trigger] bus_at(analyzers@[k], *config, ifs@[k]),
        decreases ifs@.len() - i,
    {
        assert forall|k: int| 0 <= k < i implies #[trigger] bus_ok_at(*config, ifs@[k]) by {
            assert(bus_at(analyzers@[k], *config, ifs@[k]));
        }
        let n = match ifs[i].0.as_str() {
            Some(n) => n,
            None => {
                let e = String::from_str("Each bus should have a name");
                assert(bus_error_at(*config, ifs@[i as int], e@));
                return Err(e);
            },
        };
        match AnalyzerBuilder::build(&ifs[i].0, &ifs[i].1, config) {
            Ok(a) => {
                proof {
                    assert(a.name_view() == n@) by {
                        if let BusAnalyzer::AxiRead(x) = a {
                            assert(x.common.name_spec() == n@);
                        }
                    }
                }
                analyzers.push(a);
                assert(bus_at(analyzers@[i as int], *config, ifs@[i as int]));
            },
            Err(e) => {
                let m = concat("bus ", n);
                let m2 = concat(m.as_str(), ", ");
                let msg = concat(m2.as_str(), e.as_str());
                assert(bus_error_at(*config, ifs@[i as int], msg@));
                return Err(msg);
            },
        }
        i = i + 1;
    }
    assert forall|k: int| 0 <= k < ifs@.len() implies #[trigger] bus_ok_at(*config, ifs@[k]) by {
        assert(bus_at(analyzers@[k], *config, ifs@[k]));
    }
    assert(opt_value(control_only) == yaml_get(*doc, "control_only"@));
    let control = match control_from_yaml(control_only) {
        Ok(c) => c,
        Err(e) => {
            return Err(e);
        },
    };
    let mut existing: Vec<String> = Vec::new();
    let mut needs: Vec<(String, Vec<String>)> = Vec::new();
    let mut k: usize = 0;
    while k < control.len()
        invariant
            k <= control@.len(),
            names_view(existing@) == control_names(control@.take(k as int)),
        decreases control@.len() - k,
    {
        assert(control@.take(k + 1).drop_last() =~= control@.take(k as int));
        let ghost before = existing@;
        let mut ns = control[k].names();
        existing.append(&mut ns);
        k = k + 1;
        assert(names_view(existing@) =~= control_names(control@.take(k as int)));
    }
    assert(control@.take(k as int) =~= control@);
    let mut a: usize = 0;
    while a < analyzers.len()
        invariant
            a <= analyzers@.len(),
            names_view(existing@) == control_names(control@) + provided_names(analyzers@.take(a as int)),
            needs_view(needs@) == needs_of(analyzers@.take(a as int), Seq::empty()),
        decreases analyzers@.len() - a,
    {
        assert(analyzers@.take(a + 1).drop_last() =~= analyzers@.take(a as int));
        let mut ps = analyzers[a].provides();
        let ghost eb = existing@;
        let ghost pv = ps@;
        existing.append(&mut ps);
        let ghost nb = needs@;
        let item = (analyzers[a].bus_name().to_owned(), analyzers[a].required());
        let ghost iv = item;
        needs.push(item);
        proof {
            assert(analyzers@.take(a + 1).last() == analyzers@[a as int]);
            assert(names_view(existing@) =~= names_view(eb) + names_view(pv));
            assert(provided_names(analyzers@.take(a + 1)) == provided_names(analyzers@.take(a as int)) + analyzers@[a as int].provided_view());
            assert(needs_view(needs@) =~= needs_view(nb).push((iv.0@, names_view(iv.1@))));
            assert(needs_of(analyzers@.take(a + 1), Seq::empty()) =~= needs_of(analyzers@.take(a as int), Seq::empty()).push(
                (analyzers@[a as int].name_view(), analyzers@[a as int].required_view()),
            ));
        }
        a = a + 1;
        assert(names_view(existing@) =~= control_names(control@) + provided_names(analyzers@.take(a as int)));
        assert(needs_view(needs@) =~= needs_of(analyzers@.take(a as int), Seq::empty()));
    }
    assert(analyzers@.take(a as int) =~= analyzers@);
    let mut c: usize = 0;
    while c < control.len()
        invariant
            c <= control@.len(),
            names_view(existing@) == existing_triggers(analyzers@, control@),
            needs_view(needs@) == needs_of(analyzers@, control@.take(c as int)),
        decreases control@.len() - c,
    {
        let ghost nb = needs@;
        let item = (control[c].name().to_owned(), control[c].required());
        let ghost iv = item;
        needs.push(item);
        proof {
            assert(needs_view(needs@) =~= needs_view(nb).push((iv.0@, names_view(iv.1@))));
            assert(needs_of(analyzers@, control@.take(c + 1)) =~= needs_of(analyzers@, control@.take(c as int)).push(
                (control@[c as int].name_view(), control@[c as int].required_spec()),
            ));
        }
        c = c + 1;
        assert(needs_view(needs@) =~= needs_of(analyzers@, control@.take(c as int)));
    }
    assert(control@.take(c as int) =~= control@);
    match check_dependencies(&existing, &needs) {
        Ok(()) => {
            proof {
                lemma_missing_none(names_view(existing@), needs@, needs@.len() as int);
            }
            Ok(AnalyzersGraph { analyzers, control })
        },
        Err((who, req)) => {
            let m = concat("analyzer ", who.as_str());
            let m2 = concat(m.as_str(), " requires ");
            let m3 = concat(m2.as_str(), req.as_str());
            let msg = concat(m3.as_str(), " trigger which is not defined");
            proof {
                let g = AnalyzersGraph { analyzers, control };
                assert(graph_read(g, ifs@, yaml_get(*doc, "control_only"@), *config));
                lemma_unmet_missing(names_view(existing@), needs@, needs@.len() as int);
                assert(needs_view(needs@).len() == needs@.len());
                assert(first_unmet(
                    existing_triggers(g.analyzers@, g.control@),
                    needs_of(g.analyzers@, g.control@),
                    needs_of(g.analyzers@, g.control@).len() as int,
                ) == Some((who@, req@)));
            }
            Err(msg)
        },
    }
}

/// Reads the analyzers and control triggers of a description file's text: the parse error,
/// or, where the text holds no document, that it is empty; else what its first document gives.
pub fn load_bus_analyzers_from_str(text: &str, config: &AnalyzersConfig) -> (r: Result<AnalyzersGraph, String>)
    ensures
        match parsed_docs(text@) {
            Err(e) => r matches Err(m) && m@ == e,
            Ok(docs) => if docs.len() == 0 {
                r matches Err(m) && m@ == "Yaml should not be empty"@
            } else {
                analyzers_loaded(r, docs[0], *config)
            },
        },
{
    proof {
        reveal_strlit("Yaml should not be empty");
    }
    match parse_yaml_docs(text) {
        Err(e) => Err(e),
        Ok(docs) => {
            if docs.len() == 0 {
                Err(String::from_str("Yaml should not be empty"))
            } else {
                load_bus_analyzers(&docs[0], config)
            }
        },
    }
}

} // verus!
