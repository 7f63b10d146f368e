//! Reading the AXI analyzers from a bus description.
use vstd::prelude::*;
use vstd::string::StringExecFns;
use crate::SignalPath;
use crate::analyzer::names_view;
use crate::axi::{AXIChannel, AXIFullRd, AXIFullWr, AXIRdAnalyzer, AXIWrAnalyzer};
use crate::bus::BusCommon;
use crate::config::{common_of, index_or_bad, path_parts, path_result, signal_path_of, SignalPathFromYaml};
use crate::yaml::{yaml_get, yaml_index, YamlValue};
use crate::config_triggers::{parses_to, sink_error};
use crate::trigger::{names_of, TriggerSink};

verus! {

/// A signal path as mathematical values: scope names and signal name.
pub type PathView = (Seq<Seq<char>>, Seq<char>);

/// The common part of a bus description: scope, clock and reset paths, reset polarity.
pub type CommonView = (Seq<Seq<char>>, PathView, PathView, u8);

/// An AXI read interface: common part, R response, the full AXI paths (AR identifier, R
/// identifier, R last), AR and R channels (ready, valid).
pub type RdView = (CommonView, PathView, Option<(PathView, PathView, PathView)>, (PathView, PathView), (PathView, PathView));

/// An AXI write interface: common part, B response, the full AXI paths (AW identifier, W
/// last, B identifier), AW, W and B channels (ready, valid).
pub type WrView = (
    CommonView,
    PathView,
    Option<(PathView, PathView, PathView)>,
    (PathView, PathView),
    (PathView, PathView),
    (PathView, PathView),
);

/// The ready and valid paths of a channel described by `y`.
pub open spec fn channel_of(scope: Seq<Seq<char>>, y: YamlValue) -> Result<(PathView, PathView), Seq<char>> {
    match signal_path_of(scope, yaml_index(y, "ready"@)) {
        Err(_) => Err("AXIBus bus requires ready signal"@),
        Ok(ready) => match signal_path_of(scope, yaml_index(y, "valid"@)) {
            Err(_) => Err("AXIBus bus requires valid signal"@),
            Ok(valid) => Ok((ready, valid)),
        },
    }
}

/// The channel under `key` of the bus description `y`.
pub open spec fn channel_in(scope: Seq<Seq<char>>, y: YamlValue, key: Seq<char>) -> Result<(PathView, PathView), Seq<char>> {
    match yaml_get(y, key) {
        None => Err("AXI analyzer should have all channels defined"@),
        Some(c) => channel_of(scope, c),
    }
}

/// The path `y.a.b`.
pub open spec fn path_at(scope: Seq<Seq<char>>, y: YamlValue, a: Seq<char>, b: Seq<char>) -> Result<PathView, Seq<char>> {
    signal_path_of(scope, yaml_index(yaml_index(y, a), b))
}

/// Three paths that are given all together (`Some`) or not at all (`None`).
pub open spec fn all_or_none(
    a: Result<PathView, Seq<char>>,
    b: Result<PathView, Seq<char>>,
    c: Result<PathView, Seq<char>>,
    msg: Seq<char>,
) -> Result<Option<(PathView, PathView, PathView)>, Seq<char>> {
    match (a, b, c) {
        (Ok(x), Ok(y), Ok(z)) => Ok(Some((x, y, z))),
        (Err(_), Err(_), Err(_)) => Ok(None),
        _ => Err(msg),
    }
}

/// What a description of an AXI read interface gives: its common part, the R response
/// path, the AR identifier, R identifier and R last paths for full AXI, and the AR and R
/// channels.
pub open spec fn rd_of(y: YamlValue) -> Result<RdView, Seq<char>> {
    match common_of(y) {
        Err(e) => Err(e),
        Ok(c) => match path_at(c.0, y, "r"@, "resp"@) {
            Err(e) => Err(e),
            Ok(resp) => match all_or_none(
                path_at(c.0, y, "ar"@, "id"@),
                path_at(c.0, y, "r"@, "id"@),
                path_at(c.0, y, "r"@, "last"@),
                "For AXI full all ar_id, r_id and r_last must be defined"@,
            ) {
                Err(e) => Err(e),
                Ok(full) => if !(y is Hash) {
                    Err("Channels description should not be empty"@)
                } else {
                    match channel_in(c.0, y, "ar"@) {
                        Err(e) => Err(e),
                        Ok(ar) => match channel_in(c.0, y, "r"@) {
                            Err(e) => Err(e),
                            Ok(r) => Ok((c, resp, full, ar, r)),
                        },
                    }
                },
            },
        },
    }
}

/// What a description of an AXI write interface gives: its common part, the B response
/// path, the AW identifier, W last and B identifier paths for full AXI, and the AW, W and
/// B channels.
pub open spec fn wr_of(y: YamlValue) -> Result<WrView, Seq<char>> {
    match common_of(y) {
        Err(e) => Err(e),
        Ok(c) => match path_at(c.0, y, "b"@, "resp"@) {
            Err(e) => Err(e),
            Ok(resp) => match all_or_none(
                path_at(c.0, y, "aw"@, "id"@),
                path_at(c.0, y, "w"@, "last"@),
                path_at(c.0, y, "b"@, "id"@),
                "For AXI full all aw_id, w_last and b_id must be defined"@,
            ) {
                Err(e) => Err(e),
                Ok(full) => if !(y is Hash) {
                    Err("Channels description should not be empty"@)
                } else {
                    match channel_in(c.0, y, "aw"@) {
                        Err(e) => Err(e),
                        Ok(aw) => match channel_in(c.0, y, "w"@) {
                            Err(e) => Err(e),
                            Ok(w) => match channel_in(c.0, y, "b"@) {
                                Err(e) => Err(e),
                                Ok(b) => Ok((c, resp, full, aw, w, b)),
                            },
                        },
                    }
                },
            },
        },
    }
}

/// The common part of a bus is the one described.
pub open spec fn common_is(c: BusCommon, name: Seq<char>, d: (Seq<Seq<char>>, PathView, PathView, u8)) -> bool {
    &&& c.name_spec() == name
    &&& names_view(c.scope_spec()) == d.0
    &&& path_parts(c.clk_spec()) == d.1
    &&& path_parts(c.rst_spec()) == d.2
    &&& c.rst_active_spec() == d.3
}

pub open spec fn channel_is(ch: AXIChannel, d: (PathView, PathView)) -> bool {
    path_parts(ch.ready) == d.0 && path_parts(ch.valid) == d.1
}

/// The trigger sink is the one the description gives, and the required triggers are those
/// it names.
pub open spec fn sink_built(sink: TriggerSink, required: Seq<String>, y: YamlValue) -> bool {
    &&& parses_to(yaml_index(y, "activate_on"@), sink.activate)
    &&& parses_to(yaml_index(y, "deactivate_on"@), sink.deactivate)
    &&& names_view(required) == names_of(sink.activate) + names_of(sink.deactivate)
}

/// The read analyzer is the interface `name` described by `d`.
pub open spec fn rd_built(a: AXIRdAnalyzer, name: Seq<char>, window_length: u32, d: RdView) -> bool {
    &&& common_is(a.common, name, d.0)
    &&& path_parts(a.r_resp) == d.1
    &&& channel_is(a.ar, d.3)
    &&& channel_is(a.r, d.4)
    &&& a.window_length == window_length
    &&& match d.2 {
        Some((ar_id, r_id, r_last)) => a.full matches Some(f) && path_parts(f.ar_id) == ar_id && path_parts(f.r_id)
            == r_id && path_parts(f.r_last) == r_last,
        None => a.full is None,
    }
}

/// The write analyzer is the interface `name` described by `d`.
pub open spec fn wr_built(a: AXIWrAnalyzer, name: Seq<char>, window_length: u32, d: WrView) -> bool {
    &&& common_is(a.common, name, d.0)
    &&& path_parts(a.b_resp) == d.1
    &&& channel_is(a.aw, d.3)
    &&& channel_is(a.w, d.4)
    &&& channel_is(a.b, d.5)
    &&& a.window_length == window_length
    &&& match d.2 {
        Some((aw_id, w_last, b_id)) => a.full matches Some(f) && path_parts(f.aw_id) == aw_id && path_parts(f.w_last)
            == w_last && path_parts(f.b_id) == b_id,
        None => a.full is None,
    }
}

fn channel_from_yaml(scope: &Vec<String>, yaml: &YamlValue, key: &str) -> (r: Result<AXIChannel, String>)
    ensures
        match channel_in(names_view(scope@), *yaml, key@) {
            Ok(d) => r matches Ok(ch) && channel_is(ch, d),
            Err(e) => r matches Err(m) && m@ == e,
        },
{
    proof {
        reveal_strlit("ready");
        reveal_strlit("valid");
        reveal_strlit("AXI analyzer should have all channels defined");
        reveal_strlit("AXIBus bus requires ready signal");
        reveal_strlit("AXIBus bus requires valid signal");
    }
    let c = match yaml.get(key) {
        Some(c) => c,
        None => {
            return Err(String::from_str("AXI analyzer should have all channels defined"));
        },
    };
    let bad = YamlValue::BadValue;
    let ready = match SignalPathFromYaml::from_yaml_ref_with_prefix(scope, index_or_bad(c, "ready", &bad)) {
        Ok(p) => p,
        Err(_) => {
            return Err(String::from_str("AXIBus bus requires ready signal"));
        },
    };
    let valid = match SignalPathFromYaml::from_yaml_ref_with_prefix(scope, index_or_bad(c, "valid", &bad)) {
        Ok(p) => p,
        Err(_) => {
            return Err(String::from_str("AXIBus bus requires valid signal"));
        },
    };
    Ok(AXIChannel { ready, valid })
}

fn path_from_yaml(scope: &Vec<String>, yaml: &YamlValue, a: &str, b: &str) -> (r: Result<SignalPath, String>)
    ensures
        path_result(r) == path_at(names_view(scope@), *yaml, a@, b@),
{
    let bad = YamlValue::BadValue;
    let node = index_or_bad(yaml, a, &bad);
    let bad2 = YamlValue::BadValue;
    SignalPathFromYaml::from_yaml_ref_with_prefix(scope, index_or_bad(node, b, &bad2))
}

fn is_hash(y: &YamlValue) -> (r: bool)
    ensures
        r == (*y is Hash),
{
    match y {
        YamlValue::Hash(_) => true,
        _ => false,
    }
}

impl AXIRdAnalyzer {
    /// Reads the analyzer of the AXI read interface `name` from its description.
    pub fn build_from_yaml(name: String, yaml: &YamlValue, window_length: u32) -> (r: Result<AXIRdAnalyzer, String>)
        ensures
            match rd_of(*yaml) {
                Ok(d) => match sink_error(*yaml) {
                    None => r matches Ok(a) && rd_built(a, name@, window_length, d) && sink_built(a.sink, a.required@, *yaml),
                    Some(e) => r matches Err(m) && m@ == e,
                },
                Err(e) => r matches Err(m) && m@ == e,
            },
    {
        proof {
            reveal_strlit("r");
            reveal_strlit("ar");
            reveal_strlit("resp");
            reveal_strlit("id");
            reveal_strlit("last");
            reveal_strlit("For AXI full all ar_id, r_id and r_last must be defined");
            reveal_strlit("Channels description should not be empty");
        }
        let common = BusCommon::from_yaml(name, yaml)?;
        let r_resp = path_from_yaml(common.module_scope(), yaml, "r", "resp")?;
        let ar_id = path_from_yaml(common.module_scope(), yaml, "ar", "id");
        let r_id = path_from_yaml(common.module_scope(), yaml, "r", "id");
        let r_last = path_from_yaml(common.module_scope(), yaml, "r", "last");
        let full = match (ar_id, r_id, r_last) {
            (Ok(ar_id), Ok(r_id), Ok(r_last)) => Some(AXIFullRd { ar_id, r_id, r_last }),
            (Err(_), Err(_), Err(_)) => None,
            _ => {
                return Err(String::from_str("For AXI full all ar_id, r_id and r_last must be defined"));
            },
        };
        if !is_hash(yaml) {
            return Err(String::from_str("Channels description should not be empty"));
        }
        let ar = channel_from_yaml(common.module_scope(), yaml, "ar")?;
        let r = channel_from_yaml(common.module_scope(), yaml, "r")?;
        let sink = TriggerSink::build_from_yaml(yaml)?;
        let required = sink.required();
        Ok(AXIRdAnalyzer { common, ar, r, r_resp, full, window_length, required, sink })
    }
}

impl AXIWrAnalyzer {
    /// Reads the analyzer of the AXI write interface `name` from its description.
    pub fn build_from_yaml(name: String, yaml: &YamlValue, window_length: u32) -> (r: Result<AXIWrAnalyzer, String>)
        ensures
            match wr_of(*yaml) {
                Ok(d) => match sink_error(*yaml) {
                    None => r matches Ok(a) && wr_built(a, name@, window_length, d) && sink_built(a.sink, a.required@, *yaml),
                    Some(e) => r matches Err(m) && m@ == e,
                },
                Err(e) => r matches Err(m) && m@ == e,
            },
    {
        proof {
            reveal_strlit("aw");
            reveal_strlit("w");
            reveal_strlit("b");
            reveal_strlit("resp");
            reveal_strlit("id");
            reveal_strlit("last");
            reveal_strlit("For AXI full all aw_id, w_last and b_id must be defined");
            reveal_strlit("Channels description should not be empty");
        }
        let common = BusCommon::from_yaml(name, yaml)?;
        let b_resp = path_from_yaml(common.module_scope(), yaml, "b", "resp")?;
        let w_last = path_from_yaml(common.module_scope(), yaml, "w", "last");
        let aw_id = path_from_yaml(common.module_scope(), yaml, "aw", "id");
        let b_id = path_from_yaml(common.module_scope(), yaml, "b", "id");
        let full = match (aw_id, w_last, b_id) {
            (Ok(aw_id), Ok(w_last), Ok(b_id)) => Some(AXIFullWr { aw_id, w_last, b_id }),
            (Err(_), Err(_), Err(_)) => None,
            _ => {
                return Err(String::from_str("For AXI full all aw_id, w_last and b_id must be defined"));
            },
        };
        if !is_hash(yaml) {
            return Err(String::from_str("Channels description should not be empty"));
        }
        let aw = channel_from_yaml(common.module_scope(), yaml, "aw")?;
        let w = channel_from_yaml(common.module_scope(), yaml, "w")?;
        let b = channel_from_yaml(common.module_scope(), yaml, "b")?;
        let sink = TriggerSink::build_from_yaml(yaml)?;
        let required = sink.required();
        Ok(AXIWrAnalyzer { common, aw, w, b, b_resp, full, window_length, required, sink })
    }
}

} // verus!
