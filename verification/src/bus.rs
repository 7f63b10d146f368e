//! Bus descriptions (which signals a bus has) and the rules that tell, from the
//! values of a bus's signals in one clock cycle, in which state the bus was.
use vstd::prelude::*;
use crate::{CycleType, SignalPath};
use crate::signal::{
    get_single_byte, get_value, is_value_of_type, single_byte, value_of, SignalValue, ValueType,
};
use crate::text::str_eq;

verus! {

/// Signals of a bus that the description does not name, with their names.
pub type ExtraSignals = Vec<(String, SignalPath)>;

/// Common info about the bus.
pub struct BusCommon {
    bus_name: String,
    module_scope: Vec<String>,
    clk_path: SignalPath,
    rst_path: SignalPath,
    rst_active_value: u8,
}

/// Reset polarity: the value of the reset signal while reset is active.
pub open spec fn reset_value(v: u8) -> ValueType {
    if v == 0 {
        ValueType::V0
    } else if v == 1 {
        ValueType::V1
    } else {
        ValueType::X
    }
}

impl BusCommon {
    pub closed spec fn name_spec(&self) -> Seq<char> {
        self.bus_name@
    }

    pub closed spec fn scope_spec(&self) -> Seq<String> {
        self.module_scope@
    }

    pub closed spec fn clk_spec(&self) -> SignalPath {
        self.clk_path
    }

    pub closed spec fn rst_spec(&self) -> SignalPath {
        self.rst_path
    }

    pub closed spec fn rst_active_spec(&self) -> u8 {
        self.rst_active_value
    }

    pub fn new(
        bus_name: String,
        module_scope: Vec<String>,
        clk_path: SignalPath,
        rst_path: SignalPath,
        rst_active_value: u8,
    ) -> (r: Self)
        ensures
            r.name_spec() == bus_name@,
            r.scope_spec() == module_scope@,
            r.clk_spec() == clk_path,
            r.rst_spec() == rst_path,
            r.rst_active_spec() == rst_active_value,
    {
        BusCommon { bus_name, module_scope, clk_path, rst_path, rst_active_value }
    }

    /// The clock and reset signal paths, in this order.
    pub fn into_signals_owned(self) -> (r: Vec<SignalPath>)
        ensures
            r@ == seq![self.clk_spec(), self.rst_spec()],
    {
        let r = vec![self.clk_path, self.rst_path];
        assert(r@ =~= seq![self.clk_spec(), self.rst_spec()]);
        r
    }

    /// The clock and reset signal paths, in this order.
    pub fn into_signals(self) -> (r: Vec<SignalPath>)
        ensures
            r@ == seq![self.clk_spec(), self.rst_spec()],
    {
        self.into_signals_owned()
    }

    pub fn bus_name(&self) -> (r: &str)
        ensures
            r@ == self.name_spec(),
    {
        self.bus_name.as_str()
    }

    pub fn module_scope(&self) -> (r: &Vec<String>)
        ensures
            r@ == self.scope_spec(),
    {
        &self.module_scope
    }

    pub fn clk_path(&self) -> (r: &SignalPath)
        ensures
            *r == self.clk_spec(),
    {
        &self.clk_path
    }

    pub fn rst_path(&self) -> (r: &SignalPath)
        ensures
            *r == self.rst_spec(),
    {
        &self.rst_path
    }

    /// Value of the reset signal while the reset is active: `0` for active low,
    /// `1` for active high.
    pub fn rst_active_value(&self) -> (r: ValueType)
        ensures
            r == reset_value(self.rst_active_spec()),
    {
        if self.rst_active_value == 0 {
            ValueType::V0
        } else if self.rst_active_value == 1 {
            ValueType::V1
        } else {
            ValueType::X
        }
    }

    /// Path of the signal that the bus description names `name`, among the clock
    /// (`clock`) and the reset (`reset`).
    pub fn signal_path_by_name(&self, name: &str) -> (r: Option<&SignalPath>)
        ensures
            r == (if name@ == "clock"@ {
                Some(&self.clk_spec())
            } else if name@ == "reset"@ {
                Some(&self.rst_spec())
            } else {
                None
            }),
    {
        if str_eq(name, "clock") {
            Some(&self.clk_path)
        } else if str_eq(name, "reset") {
            Some(&self.rst_path)
        } else {
            None
        }
    }
}

/// An AXI style ready/valid channel.
pub struct AXIBus {
    pub common: BusCommon,
    pub ready: SignalPath,
    pub valid: SignalPath,
    pub extra_signals: ExtraSignals,
}

impl AXIBus {
    pub fn new(common: BusCommon, ready: SignalPath, valid: SignalPath, extra_signals: ExtraSignals) -> (r: Self)
        ensures
            r == (AXIBus { common, ready, valid, extra_signals }),
    {
        AXIBus { common, ready, valid, extra_signals }
    }
}

/// An AHB bus.
pub struct AHBBus {
    pub common: BusCommon,
    pub htrans: SignalPath,
    pub hready: SignalPath,
    pub extra_signals: ExtraSignals,
}

impl AHBBus {
    pub fn new(common: BusCommon, htrans: SignalPath, hready: SignalPath, extra_signals: ExtraSignals) -> (r: Self)
        ensures
            r == (AHBBus { common, htrans, hready, extra_signals }),
    {
        AHBBus { common, htrans, hready, extra_signals }
    }
}

/// An APB bus.
pub struct APBBus {
    pub common: BusCommon,
    pub psel: SignalPath,
    pub penable: SignalPath,
    pub pready: SignalPath,
    pub extra_signals: ExtraSignals,
}

impl APBBus {
    pub fn new(
        common: BusCommon,
        psel: SignalPath,
        penable: SignalPath,
        pready: SignalPath,
        extra_signals: ExtraSignals,
    ) -> (r: Self)
        ensures
            r == (APBBus { common, psel, penable, pready, extra_signals }),
    {
        APBBus { common, psel, penable, pready, extra_signals }
    }
}

/// A credit/valid channel.
pub struct CreditValidBus {
    pub common: BusCommon,
    pub credit: SignalPath,
    pub valid: SignalPath,
    pub extra_signals: ExtraSignals,
}

impl CreditValidBus {
    pub fn new(common: BusCommon, credit: SignalPath, valid: SignalPath, extra_signals: ExtraSignals) -> (r: Self)
        ensures
            r == (CreditValidBus { common, credit, valid, extra_signals }),
    {
        CreditValidBus { common, credit, valid, extra_signals }
    }
}

/// Description of a bus: its common part and the signals its handshake uses.
pub enum BusDescription {
    ReadyValid(AXIBus),
    Ahb(AHBBus),
    Apb(APBBus),
    CreditValid(CreditValidBus),
}

/// The paths of named extra signals.
pub open spec fn extra_paths(e: Seq<(String, SignalPath)>) -> Seq<SignalPath> {
    e.map_values(|p: (String, SignalPath)| p.1)
}

/// The first extra signal named `name`.
pub open spec fn extra_by_name(e: Seq<(String, SignalPath)>, name: Seq<char>) -> Option<SignalPath>
    decreases e.len(),
{
    if e.len() == 0 {
        None
    } else if e[0].0@ == name {
        Some(e[0].1)
    } else {
        extra_by_name(e.drop_first(), name)
    }
}

fn extra_signal_by_name<'a>(e: &'a ExtraSignals, name: &str) -> (r: Option<&'a SignalPath>)
    ensures
        r == (match extra_by_name(e@, name@) {
            Some(p) => Some(&p),
            None => None,
        }),
{
    let mut i: usize = 0;
    assert(e@.skip(0) =~= e@);
    while i < e.len()
        invariant
            i <= e@.len(),
            extra_by_name(e@, name@) == extra_by_name(e@.skip(i as int), name@),
        decreases e@.len() - i,
    {
        if str_eq(e[i].0.as_str(), name) {
            return Some(&e[i].1);
        }
        assert(e@.skip(i as int).drop_first() =~= e@.skip(i + 1));
        i = i + 1;
    }
    None
}

impl BusDescription {
    pub open spec fn common_spec(&self) -> BusCommon {
        match self {
            BusDescription::ReadyValid(b) => b.common,
            BusDescription::Ahb(b) => b.common,
            BusDescription::Apb(b) => b.common,
            BusDescription::CreditValid(b) => b.common,
        }
    }

    /// The signals specific to the bus's handshake, in the order its rule reads them.
    pub open spec fn unique_signals_spec(&self) -> Seq<SignalPath> {
        match self {
            BusDescription::ReadyValid(b) => seq![b.ready, b.valid],
            BusDescription::Ahb(b) => seq![b.htrans, b.hready],
            BusDescription::Apb(b) => seq![b.psel, b.penable, b.pready],
            BusDescription::CreditValid(b) => seq![b.credit, b.valid],
        }
    }

    pub open spec fn extra_spec(&self) -> Seq<(String, SignalPath)> {
        match self {
            BusDescription::ReadyValid(b) => b.extra_signals@,
            BusDescription::Ahb(b) => b.extra_signals@,
            BusDescription::Apb(b) => b.extra_signals@,
            BusDescription::CreditValid(b) => b.extra_signals@,
        }
    }

    /// All signals of the bus: clock, reset, the handshake's signals, then the extra ones.
    pub open spec fn signals_spec(&self) -> Seq<SignalPath> {
        seq![self.common_spec().clk_spec(), self.common_spec().rst_spec()] + self.unique_signals_spec()
            + extra_paths(self.extra_spec())
    }

    /// The signal that the description names `name`.
    pub open spec fn by_name_spec(&self, name: Seq<char>) -> Option<SignalPath> {
        match self {
            BusDescription::ReadyValid(b) => if name == "ready"@ {
                Some(b.ready)
            } else if name == "valid"@ {
                Some(b.valid)
            } else {
                self.common_or_extra(name)
            },
            BusDescription::Ahb(b) => if name == "htrans"@ {
                Some(b.htrans)
            } else if name == "hready"@ {
                Some(b.hready)
            } else {
                self.common_or_extra(name)
            },
            BusDescription::Apb(b) => if name == "psel"@ {
                Some(b.psel)
            } else if name == "penable"@ {
                Some(b.penable)
            } else if name == "pready"@ {
                Some(b.pready)
            } else {
                self.common_or_extra(name)
            },
            BusDescription::CreditValid(b) => if name == "credit"@ {
                Some(b.credit)
            } else if name == "valid"@ {
                Some(b.valid)
            } else {
                self.common_or_extra(name)
            },
        }
    }

    pub open spec fn common_or_extra(&self, name: Seq<char>) -> Option<SignalPath> {
        if name == "clock"@ {
            Some(self.common_spec().clk_spec())
        } else if name == "reset"@ {
            Some(self.common_spec().rst_spec())
        } else {
            extra_by_name(self.extra_spec(), name)
        }
    }

    pub fn common(&self) -> (r: &BusCommon)
        ensures
            *r == self.common_spec(),
    {
        match self {
            BusDescription::ReadyValid(b) => &b.common,
            BusDescription::Ahb(b) => &b.common,
            BusDescription::Apb(b) => &b.common,
            BusDescription::CreditValid(b) => &b.common,
        }
    }

    /// Name of the bus.
    pub fn name(&self) -> (r: &str)
        ensures
            r@ == self.common_spec().name_spec(),
    {
        self.common().bus_name()
    }

    fn extra(&self) -> (r: &ExtraSignals)
        ensures
            r@ == self.extra_spec(),
    {
        match self {
            BusDescription::ReadyValid(b) => &b.extra_signals,
            BusDescription::Ahb(b) => &b.extra_signals,
            BusDescription::Apb(b) => &b.extra_signals,
            BusDescription::CreditValid(b) => &b.extra_signals,
        }
    }

    /// The signals specific to the handshake, without clock, reset and extra signals.
    pub fn get_unique_signals(&self) -> (r: Vec<&SignalPath>)
        ensures
            r@.len() == self.unique_signals_spec().len(),
            forall|i: int| 0 <= i < r@.len() ==> *r@[i] == self.unique_signals_spec()[i],
    {
        match self {
            BusDescription::ReadyValid(b) => vec![&b.ready, &b.valid],
            BusDescription::Ahb(b) => vec![&b.htrans, &b.hready],
            BusDescription::Apb(b) => vec![&b.psel, &b.penable, &b.pready],
            BusDescription::CreditValid(b) => vec![&b.credit, &b.valid],
        }
    }

    /// All signals of the bus: clock, reset, the handshake's signals, then the extra ones.
    pub fn get_signals(&self) -> (r: Vec<&SignalPath>)
        ensures
            r@.len() == self.signals_spec().len(),
            forall|i: int| 0 <= i < r@.len() ==> *r@[i] == self.signals_spec()[i],
    {
        let common = self.common();
        let mut r: Vec<&SignalPath> = vec![common.clk_path(), common.rst_path()];
        let unique = self.get_unique_signals();
        let mut i: usize = 0;
        while i < unique.len()
            invariant
                i <= unique@.len(),
                unique@.len() == self.unique_signals_spec().len(),
                forall|k: int| 0 <= k < unique@.len() ==> *unique@[k] == self.unique_signals_spec()[k],
                r@.len() == 2 + i,
                forall|k: int| 0 <= k < r@.len() ==> *r@[k] == (seq![self.common_spec().clk_spec(), self.common_spec().rst_spec()]
                    + self.unique_signals_spec())[k],
            decreases unique@.len() - i,
        {
            r.push(unique[i]);
            i = i + 1;
        }
        let extra = self.extra();
        let mut j: usize = 0;
        while j < extra.len()
            invariant
                j <= extra@.len(),
                extra@ == self.extra_spec(),
                r@.len() == 2 + self.unique_signals_spec().len() + j,
                forall|k: int| 0 <= k < r@.len() ==> *r@[k] == self.signals_spec()[k],
            decreases extra@.len() - j,
        {
            r.push(&extra[j].1);
            j = j + 1;
        }
        r
    }

    /// The signal that the description names `name`: one of the handshake's signals,
    /// `clock`, `reset`, or the first extra signal of that name.
    pub fn get_by_name(&self, name: &str) -> (r: Option<&SignalPath>)
        ensures
            r == (match self.by_name_spec(name@) {
                Some(p) => Some(&p),
                None => None,
            }),
    {
        proof {
            reveal_strlit("ready");
            reveal_strlit("valid");
            reveal_strlit("htrans");
            reveal_strlit("hready");
            reveal_strlit("psel");
            reveal_strlit("penable");
            reveal_strlit("pready");
            reveal_strlit("credit");
        }
        let specific: Option<&SignalPath> = match self {
            BusDescription::ReadyValid(b) => if str_eq(name, "ready") {
                Some(&b.ready)
            } else if str_eq(name, "valid") {
                Some(&b.valid)
            } else {
                None
            },
            BusDescription::Ahb(b) => if str_eq(name, "htrans") {
                Some(&b.htrans)
            } else if str_eq(name, "hready") {
                Some(&b.hready)
            } else {
                None
            },
            BusDescription::Apb(b) => if str_eq(name, "psel") {
                Some(&b.psel)
            } else if str_eq(name, "penable") {
                Some(&b.penable)
            } else if str_eq(name, "pready") {
                Some(&b.pready)
            } else {
                None
            },
            BusDescription::CreditValid(b) => if str_eq(name, "credit") {
                Some(&b.credit)
            } else if str_eq(name, "valid") {
                Some(&b.valid)
            } else {
                None
            },
        };
        if specific.is_some() {
            return specific;
        }
        match self.common().signal_path_by_name(name) {
            Some(p) => Some(p),
            None => extra_signal_by_name(self.extra(), name),
        }
    }

    /// All signal paths of the bus, in the order of [BusDescription::get_signals].
    pub fn into_signals(self) -> (r: Vec<SignalPath>)
        ensures
            r@ == self.signals_spec(),
    {
        let ghost all = self.signals_spec();
        let (common, mut unique, extra) = match self {
            BusDescription::ReadyValid(b) => (b.common, vec![b.ready, b.valid], b.extra_signals),
            BusDescription::Ahb(b) => (b.common, vec![b.htrans, b.hready], b.extra_signals),
            BusDescription::Apb(b) => (b.common, vec![b.psel, b.penable, b.pready], b.extra_signals),
            BusDescription::CreditValid(b) => (b.common, vec![b.credit, b.valid], b.extra_signals),
        };
        let mut r = common.into_signals_owned();
        r.append(&mut unique);
        let mut extra = extra;
        let ghost e = extra@;
        let mut paths: Vec<SignalPath> = Vec::new();
        while extra.len() > 0
            invariant
                paths@ + extra_paths(extra@) == extra_paths(e),
            decreases extra@.len(),
        {
            let ghost old_extra = extra@;
            let ghost before = paths@;
            let (_, p) = extra.remove(0);
            paths.push(p);
            assert(extra_paths(old_extra) =~= seq![old_extra[0].1] + extra_paths(extra@));
            assert(paths@ + extra_paths(extra@) =~= before + extra_paths(old_extra));
        }
        r.append(&mut paths);
        assert(r@ =~= all);
        r
    }
}

/// Bus state in a cycle of a ready/valid handshake.
pub open spec fn ready_valid_cycle(ready: SignalValue, valid: SignalValue) -> CycleType {
    match (value_of(ready) == Some(ValueType::V1), value_of(valid) == Some(ValueType::V1)) {
        (true, true) => CycleType::Busy,
        (false, false) => CycleType::Free,
        (true, false) => CycleType::NoData,
        (false, true) => CycleType::Backpressure,
    }
}

/// The value is a two-state bit vector.
pub open spec fn is_two_state_vec(v: SignalValue) -> bool {
    match v {
        SignalValue::BitVec(b) => b.two_state,
        _ => false,
    }
}

/// Bus state in a cycle of an AHB bus: `htrans` is IDLE (0), BUSY (1), NONSEQ (2)
/// or SEQ (3); a low `hready` is backpressure.
pub open spec fn ahb_cycle(htrans: SignalValue, hready: SignalValue) -> CycleType {
    if is_two_state_vec(htrans) && value_of(hready) is Some {
        let ready = value_of(hready)->0;
        if ready == ValueType::V0 {
            CycleType::Backpressure
        } else if ready == ValueType::V1 {
            match single_byte(htrans) {
                Some(b) => if b == 3 || b == 2 {
                    CycleType::Busy
                } else if b == 0 {
                    CycleType::Free
                } else if b == 1 {
                    CycleType::NoData
                } else {
                    CycleType::Unknown
                },
                None => CycleType::Unknown,
            }
        } else {
            CycleType::Unknown
        }
    } else {
        CycleType::Unknown
    }
}

/// Bus state in a cycle of an APB bus.
pub open spec fn apb_cycle(psel: SignalValue, penable: SignalValue, pready: SignalValue) -> CycleType {
    match (value_of(psel), value_of(penable), value_of(pready)) {
        (Some(sel), Some(en), Some(rdy)) => if sel == ValueType::V0 {
            CycleType::Free
        } else if sel == ValueType::V1 && en == ValueType::V0 {
            CycleType::Busy
        } else if sel == ValueType::V1 && en == ValueType::V1 && rdy == ValueType::V0 {
            CycleType::Backpressure
        } else if sel == ValueType::V1 && en == ValueType::V1 && rdy == ValueType::V1 {
            CycleType::Busy
        } else {
            CycleType::Unknown
        },
        _ => CycleType::Unknown,
    }
}

/// A credit/valid cycle with handshake values `s` (credit, valid) gives a credit.
pub open spec fn credit_arrives(s: Seq<SignalValue>) -> bool {
    value_of(s[0]) == Some(ValueType::V1) && value_of(s[1]) is Some
}

/// Bus state in a cycle of a credit/valid channel, and the credits left after it:
/// a credit signal at `1` gives one credit, a transfer (valid at `1`) takes one; valid
/// without a credit left is an unknown state.
pub open spec fn credit_valid_cycle(credits: u32, credit: SignalValue, valid: SignalValue) -> (CycleType, u32) {
    match (value_of(credit), value_of(valid)) {
        (Some(c), Some(v)) => {
            let credits = if c == ValueType::V1 { (credits + 1) as u32 } else { credits };
            if credits >= 1 && v == ValueType::V1 {
                (CycleType::Busy, (credits - 1) as u32)
            } else if credits >= 1 && v == ValueType::V0 {
                (CycleType::Free, credits)
            } else if credits == 0 && v == ValueType::V0 {
                (CycleType::NoTransaction, credits)
            } else {
                (CycleType::Unknown, credits)
            }
        },
        _ => (CycleType::Unknown, credits),
    }
}

/// Analyzer of AXI style ready/valid handshakes.
#[derive(Clone, Copy)]
pub struct ReadyValidAnalyzer;

impl ReadyValidAnalyzer {
    pub fn new() -> (r: Self)
        ensures
            r == ReadyValidAnalyzer,
    {
        ReadyValidAnalyzer
    }

    /// Bus state in a cycle where `ready` and `valid` had the given values.
    pub fn interpret_cycle(&self, ready: &SignalValue, valid: &SignalValue) -> (r: CycleType)
        ensures
            r == ready_valid_cycle(*ready, *valid),
    {
        match (is_value_of_type(ready, ValueType::V1), is_value_of_type(valid, ValueType::V1)) {
            (true, true) => CycleType::Busy,
            (false, false) => CycleType::Free,
            (true, false) => CycleType::NoData,
            (false, true) => CycleType::Backpressure,
        }
    }
}

/// Analyzer of AHB handshakes.
#[derive(Clone, Copy)]
pub struct AHBAnalyzer;

impl AHBAnalyzer {
    /// Bus state in a cycle where `htrans` and `hready` had the given values.
    pub fn interpret_cycle(&self, htrans: &SignalValue, hready: &SignalValue) -> (r: CycleType)
        ensures
            r == ahb_cycle(*htrans, *hready),
    {
        let two_state = match htrans {
            SignalValue::BitVec(b) => b.two_state,
            _ => false,
        };
        match get_value(hready) {
            Some(ready) if two_state => {
                match ready {
                    ValueType::V0 => CycleType::Backpressure,
                    ValueType::V1 => match get_single_byte(htrans) {
                        Some(b) => if b == 3 || b == 2 {
                            CycleType::Busy
                        } else if b == 0 {
                            CycleType::Free
                        } else if b == 1 {
                            CycleType::NoData
                        } else {
                            CycleType::Unknown
                        },
                        None => CycleType::Unknown,
                    },
                    _ => CycleType::Unknown,
                }
            },
            _ => CycleType::Unknown,
        }
    }
}

/// Analyzer of APB handshakes.
#[derive(Clone, Copy)]
pub struct APBAnalyzer;

impl APBAnalyzer {
    /// Bus state in a cycle where `psel`, `penable` and `pready` had the given values.
    pub fn interpret_cycle(&self, psel: &SignalValue, penable: &SignalValue, pready: &SignalValue) -> (r: CycleType)
        ensures
            r == apb_cycle(*psel, *penable, *pready),
    {
        match (get_value(psel), get_value(penable), get_value(pready)) {
            (Some(sel), Some(en), Some(rdy)) => match (sel, en, rdy) {
                (ValueType::V0, _, _) => CycleType::Free,
                (ValueType::V1, ValueType::V0, _) => CycleType::Busy,
                (ValueType::V1, ValueType::V1, ValueType::V0) => CycleType::Backpressure,
                (ValueType::V1, ValueType::V1, ValueType::V1) => CycleType::Busy,
                _ => CycleType::Unknown,
            },
            _ => CycleType::Unknown,
        }
    }
}

/// The rule a default analyzer applies to each cycle, with the state it keeps.
#[derive(Clone, Copy)]
pub enum LockstepAnalyzer {
    ReadyValid(ReadyValidAnalyzer),
    Ahb(AHBAnalyzer),
    Apb(APBAnalyzer),
    /// Credits received and not used yet.
    CreditValid(u32),
}

/// Number of handshake signals the rule reads.
pub open spec fn arity(a: LockstepAnalyzer) -> nat {
    match a {
        LockstepAnalyzer::Apb(_) => 3,
        _ => 2,
    }
}

/// Bus state in a cycle with handshake signal values `s`, and the rule's state after it.
pub open spec fn lockstep_cycle(a: LockstepAnalyzer, s: Seq<SignalValue>) -> (CycleType, LockstepAnalyzer) {
    match a {
        LockstepAnalyzer::ReadyValid(r) => (ready_valid_cycle(s[0], s[1]), LockstepAnalyzer::ReadyValid(r)),
        LockstepAnalyzer::Ahb(r) => (ahb_cycle(s[0], s[1]), LockstepAnalyzer::Ahb(r)),
        LockstepAnalyzer::Apb(r) => (apb_cycle(s[0], s[1], s[2]), LockstepAnalyzer::Apb(r)),
        LockstepAnalyzer::CreditValid(c) => {
            let (t, c2) = credit_valid_cycle(c, s[0], s[1]);
            (t, LockstepAnalyzer::CreditValid(c2))
        },
    }
}

impl LockstepAnalyzer {
    /// The rule can read a cycle with handshake values `s` without its state overflowing:
    /// a credit/valid counter at its maximum takes no further credit.
    pub open spec fn can_interpret(&self, s: Seq<SignalValue>) -> bool {
        match self {
            LockstepAnalyzer::CreditValid(c) => c < u32::MAX || !credit_arrives(s),
            _ => true,
        }
    }

    /// Tells whether the rule can read a cycle with the handshake values `signals`.
    pub fn ready_for_cycle(&self, signals: &Vec<SignalValue>) -> (r: bool)
        requires
            signals@.len() >= arity(*self),
        ensures
            r == self.can_interpret(signals@),
    {
        match self {
            LockstepAnalyzer::CreditValid(c) => {
                if *c < u32::MAX {
                    true
                } else {
                    match (get_value(&signals[0]), get_value(&signals[1])) {
                        (Some(ValueType::V1), Some(_)) => false,
                        _ => true,
                    }
                }
            },
            _ => true,
        }
    }

    /// For each clock cycle the default analyzer calls this method to determine the
    /// state of the bus from the values of its handshake signals (in the order of
    /// [BusDescription::get_unique_signals]).
    pub fn interpret_cycle(&mut self, signals: &Vec<SignalValue>) -> (r: CycleType)
        requires
            signals@.len() >= arity(*old(self)),
            old(self).can_interpret(signals@),
        ensures
            (r, *final(self)) == lockstep_cycle(*old(self), signals@),
    {
        match self {
            LockstepAnalyzer::ReadyValid(a) => a.interpret_cycle(&signals[0], &signals[1]),
            LockstepAnalyzer::Ahb(a) => a.interpret_cycle(&signals[0], &signals[1]),
            LockstepAnalyzer::Apb(a) => a.interpret_cycle(&signals[0], &signals[1], &signals[2]),
            LockstepAnalyzer::CreditValid(credits) => {
                let credit = &signals[0];
                let valid = &signals[1];
                match (get_value(credit), get_value(valid)) {
                    (Some(c), Some(v)) => {
                        if c == ValueType::V1 {
                            *credits = *credits + 1;
                        }
                        if *credits >= 1 && v == ValueType::V1 {
                            *credits = *credits - 1;
                            CycleType::Busy
                        } else if *credits >= 1 && v == ValueType::V0 {
                            CycleType::Free
                        } else if *credits == 0 && v == ValueType::V0 {
                            CycleType::NoTransaction
                        } else {
                            CycleType::Unknown
                        }
                    },
                    _ => CycleType::Unknown,
                }
            },
        }
    }
}

/// Law: on a ready/valid handshake a cycle is busy when ready and valid are both 1, no data
/// when only ready is 1, backpressure when valid is 1 and ready is not (the master waits on
/// the slave), and free when neither is 1.
pub proof fn lemma_ready_valid_states(ready: SignalValue, valid: SignalValue)
    ensures
        value_of(ready) == Some(ValueType::V1) && value_of(valid) == Some(ValueType::V1) ==> ready_valid_cycle(ready, valid)
            == CycleType::Busy,
        value_of(ready) == Some(ValueType::V1) && value_of(valid) != Some(ValueType::V1) ==> ready_valid_cycle(ready, valid)
            == CycleType::NoData,
        value_of(ready) != Some(ValueType::V1) && value_of(valid) == Some(ValueType::V1) ==> ready_valid_cycle(ready, valid)
            == CycleType::Backpressure,
        value_of(ready) != Some(ValueType::V1) && value_of(valid) != Some(ValueType::V1) ==> ready_valid_cycle(ready, valid)
            == CycleType::Free,
        value_of(ready) == Some(ValueType::V0) && value_of(valid) == Some(ValueType::V1) ==> lockstep_cycle(
            LockstepAnalyzer::ReadyValid(ReadyValidAnalyzer),
            seq![ready, valid],
        ).0 == CycleType::Backpressure,
        value_of(ready) == Some(ValueType::V0) && value_of(valid) == Some(ValueType::V0) ==> lockstep_cycle(
            LockstepAnalyzer::ReadyValid(ReadyValidAnalyzer),
            seq![ready, valid],
        ).0 == CycleType::Free,
{
}

/// Law: on an AHB bus, with a two-state `htrans` and a known `hready`, a cycle with `hready`
/// at 0 is backpressure; with `hready` at 1 it is busy on a sequential or nonsequential
/// transfer, free when idle and no data when the master is busy; anything else is unknown.
pub proof fn lemma_ahb_states(htrans: SignalValue, hready: SignalValue)
    ensures
        is_two_state_vec(htrans) && value_of(hready) == Some(ValueType::V0) ==> ahb_cycle(htrans, hready)
            == CycleType::Backpressure,
        is_two_state_vec(htrans) && value_of(hready) == Some(ValueType::V1) && (single_byte(htrans) == Some(2u8)
            || single_byte(htrans) == Some(3u8)) ==> ahb_cycle(htrans, hready) == CycleType::Busy,
        is_two_state_vec(htrans) && value_of(hready) == Some(ValueType::V1) && single_byte(htrans) == Some(0u8)
            ==> ahb_cycle(htrans, hready) == CycleType::Free,
        is_two_state_vec(htrans) && value_of(hready) == Some(ValueType::V1) && single_byte(htrans) == Some(1u8)
            ==> ahb_cycle(htrans, hready) == CycleType::NoData,
        !is_two_state_vec(htrans) || value_of(hready) is None ==> ahb_cycle(htrans, hready) == CycleType::Unknown,
        ahb_cycle(htrans, hready) != CycleType::NoTransaction && ahb_cycle(htrans, hready) != CycleType::Reset,
{
}

/// Law: on an APB bus with known `psel`, `penable` and `pready`, a cycle is free when the
/// slave is not selected, busy in the setup phase and in an access phase the slave is
/// ready for, and backpressure in an access phase the slave is not ready for.
pub proof fn lemma_apb_states(psel: SignalValue, penable: SignalValue, pready: SignalValue)
    requires
        value_of(psel) is Some && value_of(penable) is Some && value_of(pready) is Some,
    ensures
        value_of(psel) == Some(ValueType::V0) ==> apb_cycle(psel, penable, pready) == CycleType::Free,
        value_of(psel) == Some(ValueType::V1) && value_of(penable) == Some(ValueType::V0) ==> apb_cycle(psel, penable, pready)
            == CycleType::Busy,
        value_of(psel) == Some(ValueType::V1) && value_of(penable) == Some(ValueType::V1) && value_of(pready) == Some(
            ValueType::V0,
        ) ==> apb_cycle(psel, penable, pready) == CycleType::Backpressure,
        value_of(psel) == Some(ValueType::V1) && value_of(penable) == Some(ValueType::V1) && value_of(pready) == Some(
            ValueType::V1,
        ) ==> apb_cycle(psel, penable, pready) == CycleType::Busy,
{
}

/// Law: on a credit/valid channel with known credit and valid values, a credit at 1 adds
/// one credit before the cycle is judged; a transfer (valid at 1) with a credit is busy
/// and uses the credit up, a cycle without transfer with a credit is free, and one without
/// transfer and without credit has no transaction; the credits change in no other way.
pub proof fn lemma_credit_valid_states(credits: u32, credit: SignalValue, valid: SignalValue)
    requires
        value_of(credit) is Some,
        value_of(valid) == Some(ValueType::V0) || value_of(valid) == Some(ValueType::V1),
        value_of(credit) == Some(ValueType::V1) ==> credits < u32::MAX,
    ensures
        ({
            let have = credits + if value_of(credit) == Some(ValueType::V1) { 1int } else { 0int };
            let (cycle, left) = credit_valid_cycle(credits, credit, valid);
            &&& have >= 1 && value_of(valid) == Some(ValueType::V1) ==> cycle == CycleType::Busy && left == have - 1
            &&& have >= 1 && value_of(valid) == Some(ValueType::V0) ==> cycle == CycleType::Free && left == have
            &&& have == 0 && value_of(valid) == Some(ValueType::V0) ==> cycle == CycleType::NoTransaction && left == 0
        }),
{
}

} // verus!
