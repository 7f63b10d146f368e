//! AXI analyzers: they pair the commands, data and responses of the channels of an
//! AXI read or write interface into transactions.
use vstd::prelude::*;
use crate::SignalPath;
use crate::config::concat;
use crate::text::{decimal_nat, decimal_u64};
use vstd::string::StringExecFns;
use crate::bus::{reset_value, BusCommon};
use crate::bus_usage::BusUsage;
use crate::trigger::{TriggerName, TriggerSink};
use crate::sources::trace_ok;
use crate::bus_usage::{period_between, response_ok, time_in_range, MultiChannelBusUsage, MultiChannelView};
use crate::signal::{rising_edges_spec, rising_from, TimeTable, times_ordered, value_at_spec, value_of, Change, Signal, SignalValue, ValueType};

verus! {

/// Where a ready/valid transfer search is: the time of the last transfer found, the next
/// clock edge to read, and the next changes of ready and valid to read.
pub struct RvState {
    pub cur: u32,
    pub clk_pos: int,
    pub ready_pos: int,
    pub valid_pos: int,
}

/// Index of the first change from `i` on whose value is `1`, or the number of changes.
pub open spec fn first_high(c: Seq<Change>, i: int) -> int
    decreases c.len() - i,
{
    if i < 0 || i >= c.len() {
        c.len() as int
    } else if value_of(c[i].1) == Some(ValueType::V1) {
        i
    } else {
        first_high(c, i + 1)
    }
}

/// Index of the first clock edge from `p` on after time `t`, or the number of edges.
pub open spec fn edge_after(e: Seq<u32>, p: int, t: u32) -> int
    decreases e.len() - p,
{
    if p < 0 || p >= e.len() {
        e.len() as int
    } else if e[p] > t {
        p
    } else {
        edge_after(e, p + 1, t)
    }
}

/// The search before its first transfer: it starts from the first time at which both
/// ready and valid have been `1` (or from `time_end`).
pub open spec fn rv_initial(ready: Seq<Change>, valid: Seq<Change>, time_end: u32) -> RvState {
    let r = first_high(ready, 0);
    let v = first_high(valid, 0);
    let cur_r: u32 = if r < ready.len() { ready[r].0 } else { time_end };
    let cur: u32 = if v < valid.len() { if valid[v].0 > cur_r { valid[v].0 } else { cur_r } } else { time_end };
    RvState {
        cur,
        clk_pos: 0,
        ready_pos: if r < ready.len() { r + 1 } else { r },
        valid_pos: if v < valid.len() { v + 1 } else { v },
    }
}

/// Checks, from a clock edge at `st.cur`, that ready and valid are both still `1`: a signal
/// that changed before that edge is followed to its next change to `1`, and when that comes
/// at or after the edge, the search moves to the next clock edge after it. Gives the
/// transfer's time, or none when a signal never comes back to `1` or the search passes `time_end`.
pub open spec fn rv_settle(e: Seq<u32>, ready: Seq<Change>, valid: Seq<Change>, time_end: u32, st: RvState) -> Option<(u32, RvState)>
    decreases left_from(ready.len() as int, st.ready_pos) + left_from(valid.len() as int, st.valid_pos),
{
    let r_left = 0 <= st.ready_pos < ready.len();
    let v_left = 0 <= st.valid_pos < valid.len();
    if !r_left && !v_left {
        Some((st.cur, st))
    } else if st.cur > time_end {
        None
    } else {
        let use_ready = r_left && (!v_left || ready[st.ready_pos].0 <= valid[st.valid_pos].0);
        let s = if use_ready { ready } else { valid };
        let pos = if use_ready { st.ready_pos } else { st.valid_pos };
        if st.cur > s[pos].0 {
            let h = first_high(s, pos);
            if h >= s.len() {
                None
            } else {
                let time = s[h].0;
                let (cur, clk_pos) = if time >= st.cur {
                    let q = edge_after(e, st.clk_pos, time);
                    if q < e.len() { (e[q], q) } else { (time_end, e.len() as int) }
                } else {
                    (st.cur, st.clk_pos)
                };
                let st2 = if use_ready {
                    RvState { cur, clk_pos, ready_pos: h + 1, ..st }
                } else {
                    RvState { cur, clk_pos, valid_pos: h + 1, ..st }
                };
                if first_high_progress(s, pos) {
                    rv_settle(e, ready, valid, time_end, st2)
                } else {
                    None
                }
            }
        } else {
            Some((st.cur, st))
        }
    }
}

/// How many of `n` changes are left to read from position `pos` on.
pub open spec fn left_from(n: int, pos: int) -> int {
    if 0 <= pos < n { n - pos } else { 0 }
}

/// `first_high` does not go back.
pub open spec fn first_high_progress(s: Seq<Change>, pos: int) -> bool {
    first_high(s, pos) >= pos
}

/// The next transfer: the next clock edge after the last one, then checked with [rv_settle].
pub open spec fn rv_next(e: Seq<u32>, ready: Seq<Change>, valid: Seq<Change>, time_end: u32, st: RvState) -> Option<(u32, RvState)> {
    let p = edge_after(e, st.clk_pos, st.cur);
    if p >= e.len() {
        None
    } else {
        rv_settle(e, ready, valid, time_end, RvState { cur: e[p], clk_pos: p + 1, ..st })
    }
}

/// `out` are the transfers found from `st` until the search ends.
pub open spec fn rv_transfers_from(e: Seq<u32>, ready: Seq<Change>, valid: Seq<Change>, time_end: u32, st: RvState, out: Seq<u32>) -> bool
    decreases out.len(),
{
    match rv_next(e, ready, valid, time_end, st) {
        None => out.len() == 0,
        Some((t, st2)) => out.len() > 0 && out[0] == t && rv_transfers_from(e, ready, valid, time_end, st2, out.drop_first()),
    }
}

proof fn lemma_first_high(c: Seq<Change>, i: int)
    requires
        0 <= i,
    ensures
        i <= first_high(c, i) <= c.len() || (i > c.len() && first_high(c, i) == c.len()),
        first_high(c, i) < c.len() ==> value_of(c[first_high(c, i)].1) == Some(ValueType::V1),
    decreases c.len() - i,
{
    if i < c.len() && value_of(c[i].1) != Some(ValueType::V1) {
        lemma_first_high(c, i + 1);
    }
}

proof fn lemma_edge_after(e: Seq<u32>, p: int, t: u32)
    requires
        0 <= p,
    ensures
        p <= edge_after(e, p, t) <= e.len() || (p > e.len() && edge_after(e, p, t) == e.len()),
        edge_after(e, p, t) < e.len() ==> e[edge_after(e, p, t)] > t,
    decreases e.len() - p,
{
    if p < e.len() && e[p] <= t {
        lemma_edge_after(e, p + 1, t);
    }
}

fn first_high_exec(c: &Vec<Change>, i: usize) -> (r: usize)
    requires
        i <= c@.len(),
    ensures
        r == first_high(c@, i as int),
        i <= r <= c@.len(),
{
    let mut k = i;
    while k < c.len() && !crate::signal::is_value_of_type(&c[k].1, ValueType::V1)
        invariant
            i <= k <= c@.len(),
            first_high(c@, i as int) == first_high(c@, k as int),
        decreases c@.len() - k,
    {
        k = k + 1;
    }
    k
}

fn edge_after_exec(e: &Vec<u32>, p: usize, t: u32) -> (r: usize)
    requires
        p <= e@.len(),
    ensures
        r == edge_after(e@, p as int, t),
        p <= r <= e@.len(),
{
    let mut q = p;
    while q < e.len() && e[q] <= t
        invariant
            p <= q <= e@.len(),
            edge_after(e@, p as int, t) == edge_after(e@, q as int, t),
        decreases e@.len() - q,
    {
        q = q + 1;
    }
    q
}

/// Times (time table indices) of the clock edges at which a ready/valid channel transfers
/// data, searched up to `time_end`.
pub fn ready_valid_transfers(clk: &Signal, ready: &Signal, valid: &Signal, time_end: u32) -> (r: Vec<u32>)
    ensures
        rv_transfers_from(
            rising_edges_spec(clk.changes@),
            ready.changes@,
            valid.changes@,
            time_end,
            rv_initial(ready.changes@, valid.changes@, time_end),
            r@,
        ),
        forall|i: int| 0 <= i < r@.len() ==> r@[i] == time_end || rising_edges_spec(clk.changes@).contains(#[trigger] r@[i]),
{
    let e = clk.rising_edges();
    let rc = &ready.changes;
    let vc = &valid.changes;
    let ghost rs = rc@;
    let ghost vs = vc@;
    // first times at which ready and valid are high
    let r0 = first_high_exec(rc, 0);
    let v0 = first_high_exec(vc, 0);
    let cur_r: u32 = if r0 < rc.len() { rc[r0].0 } else { time_end };
    let mut cur: u32 = if v0 < vc.len() { if vc[v0].0 > cur_r { vc[v0].0 } else { cur_r } } else { time_end };
    let mut rp: usize = if r0 < rc.len() { r0 + 1 } else { r0 };
    let mut vp: usize = if v0 < vc.len() { v0 + 1 } else { v0 };
    let mut p: usize = 0;
    let ghost st0 = rv_initial(rs, vs, time_end);
    assert(st0 == RvState { cur, clk_pos: p as int, ready_pos: rp as int, valid_pos: vp as int });
    let mut out: Vec<u32> = Vec::new();
    let ghost mut trail: Seq<(u32, RvState)> = Seq::empty();
    loop
        invariant_except_break
            trail.len() == 0 ==> st0 == (RvState { cur, clk_pos: p as int, ready_pos: rp as int, valid_pos: vp as int }),
            trail.len() > 0 ==> trail.last().1 == (RvState { cur, clk_pos: p as int, ready_pos: rp as int, valid_pos: vp as int }),
        invariant
            e@ == rising_edges_spec(clk.changes@),
            rs == ready.changes@,
            vs == valid.changes@,
            *rc == ready.changes,
            *vc == valid.changes,
            p <= e@.len(),
            rp <= rs.len(),
            vp <= vs.len(),
            out@.len() == trail.len(),
            forall|j: int| 0 <= j < trail.len() ==> #[trigger] trail[j].0 == out@[j],
            trail.len() > 0 ==> rv_next(e@, rs, vs, time_end, st0) == Some(trail[0]),
            forall|j: int| 0 <= j < trail.len() - 1 ==> rv_next(e@, rs, vs, time_end, #[trigger] trail[j].1) == Some(trail[j + 1]),
            forall|j: int| 0 <= j < out@.len() ==> out@[j] == time_end || e@.contains(#[trigger] out@[j]),
        ensures
            forall|j: int| 0 <= j < out@.len() ==> out@[j] == time_end || e@.contains(#[trigger] out@[j]),
            rv_next(e@, rs, vs, time_end, if trail.len() == 0 { st0 } else { trail.last().1 }) is None,
            out@.len() == trail.len(),
            forall|j: int| 0 <= j < trail.len() ==> #[trigger] trail[j].0 == out@[j],
            trail.len() > 0 ==> rv_next(e@, rs, vs, time_end, st0) == Some(trail[0]),
            forall|j: int| 0 <= j < trail.len() - 1 ==> rv_next(e@, rs, vs, time_end, #[trigger] trail[j].1) == Some(trail[j + 1]),
        decreases e@.len() - p,
    {
        let ghost st = RvState { cur, clk_pos: p as int, ready_pos: rp as int, valid_pos: vp as int };
        let q = edge_after_exec(&e, p, cur);
        if q >= e.len() {
            assert(rv_next(e@, rs, vs, time_end, st) is None);
            break;
        }
        cur = e[q];
        p = q + 1;
        assert(e@[q as int] == cur);
        // settle
        let mut done: Option<bool> = None;
        while done.is_none()
            invariant
                e@ == rising_edges_spec(clk.changes@),
                rs == ready.changes@,
                vs == valid.changes@,
                *rc == ready.changes,
                *vc == valid.changes,
                p <= e@.len(),
                st.clk_pos < p,
                cur == time_end || e@.contains(cur),
                rp <= rs.len(),
                vp <= vs.len(),
                done is None ==> rv_next(e@, rs, vs, time_end, st) == rv_settle(e@, rs, vs, time_end,
                    RvState { cur, clk_pos: p as int, ready_pos: rp as int, valid_pos: vp as int }),
                done == Some(true) ==> rv_next(e@, rs, vs, time_end, st) == Some((cur, RvState { cur, clk_pos: p as int, ready_pos: rp as int, valid_pos: vp as int })),
                done == Some(false) ==> rv_next(e@, rs, vs, time_end, st) is None,
            decreases rs.len() - rp + vs.len() - vp + (if done is None { 1int } else { 0int }),
        {
            let r_left = rp < rc.len();
            let v_left = vp < vc.len();
            if !r_left && !v_left {
                done = Some(true);
            } else if cur > time_end {
                done = Some(false);
            } else {
                let use_ready = r_left && (!v_left || rc[rp].0 <= vc[vp].0);
                let (s, pos) = if use_ready { (rc, rp) } else { (vc, vp) };
                if cur > s[pos].0 {
                    let h = first_high_exec(s, pos);
                    proof {
                        lemma_first_high(s@, pos as int);
                    }
                    if h >= s.len() {
                        done = Some(false);
                    } else {
                        let time = s[h].0;
                        if time >= cur {
                            let q2 = edge_after_exec(&e, p, time);
                            if q2 < e.len() {
                                cur = e[q2];
                                p = q2;
                                assert(e@[q2 as int] == cur);
                            } else {
                                cur = time_end;
                                p = e.len();
                            }
                        }
                        if use_ready {
                            rp = h + 1;
                        } else {
                            vp = h + 1;
                        }
                    }
                } else {
                    done = Some(true);
                }
            }
        }
        let found = match done {
            Some(b) => b,
            None => false,
        };
        if !found {
            assert(rv_next(e@, rs, vs, time_end, st) is None);
            break;
        }
        let ghost item = (cur, RvState { cur, clk_pos: p as int, ready_pos: rp as int, valid_pos: vp as int });
        let ghost out_before = out@;
        out.push(cur);
        proof {
            assert forall|j: int| 0 <= j < out@.len() implies out@[j] == time_end || e@.contains(#[trigger] out@[j]) by {
                if j < out_before.len() {
                    assert(out@[j] == out_before[j]);
                }
            }
            let before = trail;
            trail = trail.push(item);
            assert(rv_next(e@, rs, vs, time_end, st) == Some(item));
            if before.len() > 0 {
                assert(before.last().1 == st);
                assert(trail[before.len() - 1] == before.last());
            }
            assert forall|j: int| 0 <= j < trail.len() - 1 implies rv_next(e@, rs, vs, time_end, #[trigger] trail[j].1) == Some(trail[j + 1]) by {
                if j < before.len() - 1 {
                    assert(trail[j] == before[j]);
                    assert(trail[j + 1] == before[j + 1]);
                }
            }
        }
        assert(p > st.clk_pos);
    }
    proof {
        lemma_transfers_from_trail(e@, rs, vs, time_end, st0, trail, out@);
    }
    out
}

proof fn lemma_transfers_from_trail(
    e: Seq<u32>,
    ready: Seq<Change>,
    valid: Seq<Change>,
    time_end: u32,
    st0: RvState,
    trail: Seq<(u32, RvState)>,
    out: Seq<u32>,
)
    requires
        out.len() == trail.len(),
        forall|j: int| 0 <= j < trail.len() ==> #[trigger] trail[j].0 == out[j],
        trail.len() > 0 ==> rv_next(e, ready, valid, time_end, st0) == Some(trail[0]),
        forall|j: int| 0 <= j < trail.len() - 1 ==> rv_next(e, ready, valid, time_end, #[trigger] trail[j].1) == Some(trail[j + 1]),
        rv_next(e, ready, valid, time_end, if trail.len() == 0 { st0 } else { trail.last().1 }) is None,
    ensures
        rv_transfers_from(e, ready, valid, time_end, st0, out),
    decreases trail.len(),
{
    if trail.len() > 0 {
        let rest = trail.drop_first();
        assert forall|j: int| 0 <= j < rest.len() implies #[trigger] rest[j].0 == out.drop_first()[j] by {
            assert(rest[j] == trail[j + 1]);
        }
        assert forall|j: int| 0 <= j < rest.len() - 1 implies rv_next(e, ready, valid, time_end, #[trigger] rest[j].1) == Some(rest[j + 1]) by {
            assert(rest[j] == trail[j + 1]);
            assert(rest[j + 1] == trail[j + 2]);
        }
        if rest.len() > 0 {
            assert(rv_next(e, ready, valid, time_end, trail[0].1) == Some(rest[0]));
            assert(rest.last() == trail.last());
        }
        lemma_transfers_from_trail(e, ready, valid, time_end, trail[0].1, rest, out.drop_first());
    }
}

/// Character that a nine-state bit code is written with.
pub open spec fn code_char(code: u8) -> char {
    if code == 0 {
        '0'
    } else if code == 1 {
        '1'
    } else if code == 2 {
        'x'
    } else if code == 3 {
        'z'
    } else if code == 4 {
        'h'
    } else if code == 5 {
        'u'
    } else if code == 6 {
        'w'
    } else if code == 7 {
        'l'
    } else {
        '-'
    }
}

/// The bits of a bit vector value, one character each, most significant first; other
/// values have none.
pub open spec fn bit_string_of(v: SignalValue) -> Option<Seq<char>> {
    match v {
        SignalValue::BitVec(b) => Some(
            Seq::new(b.bits@.len(), |i: int| code_char(b.bits@[b.bits@.len() - 1 - i])),
        ),
        _ => None,
    }
}

fn code_str(code: u8) -> (r: &'static str)
    ensures
        r@ == seq![code_char(code)],
{
    proof {
        reveal_strlit("0");
        reveal_strlit("1");
        reveal_strlit("x");
        reveal_strlit("z");
        reveal_strlit("h");
        reveal_strlit("u");
        reveal_strlit("w");
        reveal_strlit("l");
        reveal_strlit("-");
    }
    if code == 0 {
        "0"
    } else if code == 1 {
        "1"
    } else if code == 2 {
        "x"
    } else if code == 3 {
        "z"
    } else if code == 4 {
        "h"
    } else if code == 5 {
        "u"
    } else if code == 6 {
        "w"
    } else if code == 7 {
        "l"
    } else {
        "-"
    }
}

/// The bits of a bit vector value as text, most significant first.
pub fn to_bit_string(v: &SignalValue) -> (r: Option<String>)
    ensures
        r matches Some(s) ==> bit_string_of(*v) == Some(s@),
        r is None <==> bit_string_of(*v) is None,
{
    match v {
        SignalValue::BitVec(b) => {
            let n = b.bits.len();
            let mut s = String::new();
            let mut k: usize = 0;
            while k < n
                invariant
                    n == b.bits@.len(),
                    k <= n,
                    s@ == Seq::new(k as nat, |i: int| code_char(b.bits@[n - 1 - i])),
                decreases n - k,
            {
                let ghost before = s@;
                s.append(code_str(b.bits[n - 1 - k]));
                assert(s@ =~= Seq::new((k + 1) as nat, |i: int| code_char(b.bits@[n - 1 - i])));
                k = k + 1;
            }
            Some(s)
        },
        _ => None,
    }
}

/// The time table index before `t`, or `0`.
pub open spec fn index_before(t: u32) -> u32 {
    if t > 0 { (t - 1) as u32 } else { 0 }
}

/// Identifier (or response code) a signal holds just before time table index `t`, as text.
pub open spec fn id_at(c: Seq<Change>, t: u32) -> Option<Seq<char>> {
    match value_at_spec(c, index_before(t)) {
        Some(v) => bit_string_of(v),
        None => None,
    }
}

/// Logic value a signal holds just before time table index `t`.
pub open spec fn logic_at(c: Seq<Change>, t: u32) -> Option<ValueType> {
    match value_at_spec(c, index_before(t)) {
        Some(v) => value_of(v),
        None => None,
    }
}

/// Response code a signal holds at time table index `t`, as text.
pub open spec fn code_at(c: Seq<Change>, t: u32) -> Option<Seq<char>> {
    match value_at_spec(c, t) {
        Some(v) => bit_string_of(v),
        None => None,
    }
}

fn id_value(sig: &Signal, t: u32) -> (r: Option<String>)
    requires
        sig.wf(),
    ensures
        r matches Some(s) ==> id_at(sig.changes@, t) == Some(s@),
        r is None <==> id_at(sig.changes@, t) is None,
{
    let before: u32 = if t > 0 { t - 1 } else { 0 };
    match sig.value_at_time(before) {
        Some(v) => to_bit_string(v),
        None => None,
    }
}

fn logic_value(sig: &Signal, t: u32) -> (r: Option<ValueType>)
    requires
        sig.wf(),
    ensures
        r == logic_at(sig.changes@, t),
{
    let before: u32 = if t > 0 { t - 1 } else { 0 };
    match sig.value_at_time(before) {
        Some(v) => crate::signal::get_value(v),
        None => None,
    }
}

fn code_value(sig: &Signal, t: u32) -> (r: Option<String>)
    requires
        sig.wf(),
    ensures
        r matches Some(s) ==> code_at(sig.changes@, t) == Some(s@),
        r is None <==> code_at(sig.changes@, t) is None,
{
    match sig.value_at_time(t) {
        Some(v) => to_bit_string(v),
        None => None,
    }
}

/// Time in reset, counted over the reset changes strictly between `start` and `end`
/// from change `i` on: each change that is not to the active value adds the time since
/// the last change to the active value (or since `start`).
pub open spec fn reset_sum(c: Seq<Change>, i: int, start: u32, end: u32, active: ValueType, last: int) -> int
    decreases c.len() - i,
{
    if i < 0 || i >= c.len() {
        0
    } else if c[i].0 > start && c[i].0 < end {
        if value_of(c[i].1) == Some(active) {
            reset_sum(c, i + 1, start, end, active, c[i].0 as int)
        } else {
            (c[i].0 - last) + reset_sum(c, i + 1, start, end, active, last)
        }
    } else {
        reset_sum(c, i + 1, start, end, active, last)
    }
}

/// Number of clock cycles the reset was active between `start` and `end` (half the time
/// [reset_sum] counts), where that fits a `u32`.
pub open spec fn reset_cycles(c: Seq<Change>, start: u32, end: u32, active: ValueType) -> Option<u32> {
    let total = reset_sum(c, 0, start, end, active, start as int);
    if total <= u32::MAX {
        Some((total / 2) as u32)
    } else {
        None
    }
}

proof fn lemma_reset_sum_nonneg(c: Seq<Change>, i: int, start: u32, end: u32, active: ValueType, last: int)
    requires
        times_ordered(c),
        0 <= i,
        forall|k: int| i <= k < c.len() && c[k].0 > start ==> c[k].0 >= last,
    ensures
        reset_sum(c, i, start, end, active, last) >= 0,
    decreases c.len() - i,
{
    if 0 <= i < c.len() {
        if c[i].0 > start && c[i].0 < end {
            if value_of(c[i].1) == Some(active) {
                lemma_reset_sum_nonneg(c, i + 1, start, end, active, c[i].0 as int);
            } else {
                lemma_reset_sum_nonneg(c, i + 1, start, end, active, last);
            }
        } else {
            lemma_reset_sum_nonneg(c, i + 1, start, end, active, last);
        }
    }
}

/// Number of clock cycles the reset was active between time table indices `start` and
/// `end`; `None` where the count does not fit a `u32`.
pub fn count_reset(rst: &Signal, active_value: ValueType, start: u32, end: u32) -> (r: Option<u32>)
    requires
        rst.wf(),
    ensures
        r == reset_cycles(rst.changes@, start, end, active_value),
{
    let c = &rst.changes;
    let mut last: u32 = start;
    let mut reset: u32 = 0;
    let mut i: usize = 0;
    while i < c.len()
        invariant
            i <= c@.len(),
            *c == rst.changes,
            times_ordered(c@),
            start <= last,
            reset + reset_sum(c@, i as int, start, end, active_value, last as int)
                == reset_sum(c@, 0, start, end, active_value, start as int),
            i > 0 ==> last <= c@[i - 1].0 || last == start,
            i == 0 ==> last == start,
        decreases c@.len() - i,
    {
        let time = c[i].0;
        if time > start && time < end {
            if crate::signal::is_value_of_type(&c[i].1, active_value) {
                last = time;
            } else {
                proof {
                    if i > 0 {
                        assert(c@[i - 1].0 <= c@[i as int].0);
                    }
                    assert forall|k: int| i + 1 <= k < c@.len() && c@[k].0 > start implies c@[k].0 >= last by {
                        assert(c@[i as int].0 <= c@[k].0);
                    }
                    lemma_reset_sum_nonneg(c@, i + 1, start, end, active_value, last as int);
                }
                let add: u32 = time - last;
                if reset > u32::MAX - add {
                    return None;
                }
                reset = reset + add;
            }
        } else {
            proof {
                if i > 0 {
                    assert(c@[i - 1].0 <= c@[i as int].0);
                }
            }
        }
        i = i + 1;
    }
    Some(reset / 2)
}

/// Which AXI signal held no usable value.
#[derive(Clone, Copy, PartialEq, Eq, Structural, Debug)]
pub enum AxiSignal {
    ArId,
    RId,
    RLast,
    RResp,
    AwId,
    WLast,
    BId,
    BResp,
}

/// Why the statistics of an AXI interface could not be calculated.
#[derive(Clone, Copy, PartialEq, Eq, Structural, Debug)]
pub enum AxiError {
    /// The clock signal has no value change.
    NoClockValues,
    /// The trace has fewer than 3 time indices, so the clock period is unknown.
    TraceTooShort,
    /// No time index of the trace lies in an interval.
    InvalidIntervalSet,
    /// A signal has no usable value at this time.
    InvalidValue(AxiSignal, u64),
    /// A write was answered before its last data; the time table indices of its command
    /// and of the next command.
    NoLastData(u32, u32),
    /// A write was answered before any data; the time table indices of its command and of
    /// the next command.
    NoData(u32, u32),
    /// The analysis would wait forever for a reset edge after the end of an interval.
    EndlessWait,
    /// A count or a time of the statistics does not fit its type.
    Overflow,
}

/// The name of a signal of an AXI interface.
pub open spec fn axi_signal_name(s: AxiSignal) -> Seq<char> {
    match s {
        AxiSignal::ArId => "arid"@,
        AxiSignal::RId => "rid"@,
        AxiSignal::RLast => "rlast"@,
        AxiSignal::RResp => "rresp"@,
        AxiSignal::AwId => "awid"@,
        AxiSignal::WLast => "wlast"@,
        AxiSignal::BId => "bid"@,
        AxiSignal::BResp => "bresp"@,
    }
}

/// The message that tells why the statistics of an AXI interface could not be calculated.
pub open spec fn axi_error_text(e: AxiError) -> Seq<char> {
    match e {
        AxiError::NoClockValues => "clock has no values"@,
        AxiError::TraceTooShort => "trace is too short (less than 3 time indices), cannot calculate clock period"@,
        AxiError::InvalidIntervalSet => "Invalid interval set"@,
        AxiError::InvalidValue(s, t) => axi_signal_name(s) + " is invalid at "@ + decimal_nat(t as nat),
        AxiError::NoLastData(s, n) => "wlast was not asserted before response for transaction at "@ + decimal_nat(
            s as nat,
        ) + "-"@ + decimal_nat(n as nat),
        AxiError::NoData(s, n) => "no data was transfered nor wlast was not asserted before response for transaction at "@
            + decimal_nat(s as nat) + "-"@ + decimal_nat(n as nat),
        AxiError::EndlessWait => "the analysis waits for a reset edge that never comes"@,
        AxiError::Overflow => "a statistic does not fit its counter"@,
    }
}

impl AxiSignal {
    /// The signal's name.
    pub fn name(&self) -> (r: &'static str)
        ensures
            r@ == axi_signal_name(*self),
    {
        proof {
            reveal_strlit("arid");
            reveal_strlit("rid");
            reveal_strlit("rlast");
            reveal_strlit("rresp");
            reveal_strlit("awid");
            reveal_strlit("wlast");
            reveal_strlit("bid");
            reveal_strlit("bresp");
        }
        match self {
            AxiSignal::ArId => "arid",
            AxiSignal::RId => "rid",
            AxiSignal::RLast => "rlast",
            AxiSignal::RResp => "rresp",
            AxiSignal::AwId => "awid",
            AxiSignal::WLast => "wlast",
            AxiSignal::BId => "bid",
            AxiSignal::BResp => "bresp",
        }
    }
}

/// `a`, the decimal `s`, a hyphen and the decimal `n`.
fn with_span(a: &str, s: u32, n: u32) -> (r: String)
    ensures
        r@ == a@ + decimal_nat(s as nat) + "-"@ + decimal_nat(n as nat),
{
    proof {
        reveal_strlit("-");
    }
    let m = concat(a, decimal_u64(s as u64).as_str());
    let m = concat(m.as_str(), "-");
    concat(m.as_str(), decimal_u64(n as u64).as_str())
}

impl AxiError {
    /// The message that tells why the statistics could not be calculated.
    pub fn message(&self) -> (r: String)
        ensures
            r@ == axi_error_text(*self),
    {
        proof {
            reveal_strlit("clock has no values");
            reveal_strlit("trace is too short (less than 3 time indices), cannot calculate clock period");
            reveal_strlit("Invalid interval set");
            reveal_strlit(" is invalid at ");
            reveal_strlit("wlast was not asserted before response for transaction at ");
            reveal_strlit("no data was transfered nor wlast was not asserted before response for transaction at ");
            reveal_strlit("the analysis waits for a reset edge that never comes");
            reveal_strlit("a statistic does not fit its counter");
        }
        match self {
            AxiError::NoClockValues => String::from_str("clock has no values"),
            AxiError::TraceTooShort => String::from_str(
                "trace is too short (less than 3 time indices), cannot calculate clock period",
            ),
            AxiError::InvalidIntervalSet => String::from_str("Invalid interval set"),
            AxiError::InvalidValue(s, t) => {
                let m = concat(s.name(), " is invalid at ");
                concat(m.as_str(), decimal_u64(*t).as_str())
            },
            AxiError::NoLastData(s, n) => with_span("wlast was not asserted before response for transaction at ", *s, *n),
            AxiError::NoData(s, n) => with_span(
                "no data was transfered nor wlast was not asserted before response for transaction at ",
                *s,
                *n,
            ),
            AxiError::EndlessWait => String::from_str("the analysis waits for a reset edge that never comes"),
            AxiError::Overflow => String::from_str("a statistic does not fit its counter"),
        }
    }
}

/// A command waiting for its data and response (time table indices).
#[derive(Clone, Copy, Debug)]
pub struct Transaction {
    pub start: u32,
    pub first_data: Option<u32>,
    pub last_data: Option<u32>,
    pub next: u32,
}

impl Transaction {
    /// A command at `start`, followed by the next command at `next`, with no data yet.
    pub fn new(start: u32, next: u32) -> (r: Self)
        ensures
            r == (Transaction { start, first_data: None, last_data: None, next }),
    {
        Transaction { start, first_data: None, last_data: None, next }
    }
}

/// A finished transaction (time table indices): command, response, last and first data,
/// response code, next command.
pub type Done = (u32, u32, u32, u32, Seq<char>, u32);

/// A finished transaction.
pub struct Completed {
    pub start: u32,
    pub resp: u32,
    pub last_data: u32,
    pub first_data: u32,
    pub code: String,
    pub next: u32,
}

pub open spec fn done_of(c: Completed) -> Done {
    (c.start, c.resp, c.last_data, c.first_data, c.code@, c.next)
}

pub open spec fn dones(v: Seq<Completed>) -> Seq<Done> {
    v.map_values(|c: Completed| done_of(c))
}

/// The four ways of pairing the channels of an AXI interface.
#[derive(Clone, Copy, PartialEq, Eq, Structural, Debug)]
pub enum AxiKind {
    ReadLite,
    ReadFull,
    WriteLite,
    WriteFull,
}

/// What the pairing reads within one interval: the transfer times of the command, data
/// and response channels, the rising edges of the reset, the interval's last time index,
/// the signals holding the command identifier, the identifier returned with data (read)
/// or response (write), the last-data flag and the response code, and the time table.
pub struct Channels {
    pub cmd: Seq<u32>,
    pub data: Seq<u32>,
    pub resp: Seq<u32>,
    pub edges: Seq<u32>,
    pub end: u32,
    pub cmd_id: Seq<Change>,
    pub ret_id: Seq<Change>,
    pub last: Seq<Change>,
    pub code: Seq<Change>,
    pub tt: Seq<u64>,
}

/// Where the pairing is: positions in the command, data and response transfers and in
/// the reset edges, the next reset edge, the phase (0: next command, 1: data, 2:
/// responses), the next command's time, the queue of the current write command, the
/// commands waiting per identifier, and the finished transactions.
pub struct ProgressView {
    pub c: int,
    pub d: int,
    pub b: int,
    pub rs: int,
    pub next_rst: u32,
    pub phase: u8,
    pub next: u32,
    pub cur: int,
    pub ids: Seq<Seq<char>>,
    pub queues: Seq<Seq<Transaction>>,
    pub done: Seq<Done>,
}

/// One step of the pairing: the state after it, or the end of the interval's analysis.
pub enum Step {
    Go(ProgressView),
    Stop(Result<Seq<Done>, AxiError>),
}

/// Waiting for a reset edge not before `time`: the reset edges are read in order from
/// `rs`; when none is left the interval's end plus one stands for it. `None` when that is
/// still before `time`: the wait would never end.
pub open spec fn rst_adv(edges: Seq<u32>, rs: int, next_rst: u32, time: u32, end: u32) -> Option<(int, u32)>
    decreases edges.len() - rs,
{
    if next_rst >= time {
        Some((rs, next_rst))
    } else if 0 <= rs < edges.len() {
        rst_adv(edges, rs + 1, edges[rs], time, end)
    } else if end + 1 >= time {
        Some((rs, (end + 1) as u32))
    } else {
        None
    }
}

/// First position from `k` on whose transfer is not before `bound`.
pub open spec fn skip_below(s: Seq<u32>, k: int, bound: u32) -> int
    decreases s.len() - k,
{
    if k < 0 || k >= s.len() {
        s.len() as int
    } else if s[k] < bound {
        skip_below(s, k + 1, bound)
    } else {
        k
    }
}

/// Position of identifier `id` among `ids` from `k` on, or the number of identifiers.
pub open spec fn find_id(ids: Seq<Seq<char>>, id: Seq<char>, k: int) -> int
    decreases ids.len() - k,
{
    if k < 0 || k >= ids.len() {
        ids.len() as int
    } else if ids[k] == id {
        k
    } else {
        find_id(ids, id, k + 1)
    }
}

/// A command `t` with identifier `id` added at the back of its identifier's queue (a new
/// queue where the identifier has none); also gives the queue's position.
pub open spec fn enqueue(ids: Seq<Seq<char>>, queues: Seq<Seq<Transaction>>, id: Seq<char>, t: Transaction) -> (
    Seq<Seq<char>>,
    Seq<Seq<Transaction>>,
    int,
) {
    let i = find_id(ids, id, 0);
    if i < ids.len() {
        (ids, queues.update(i, queues[i].push(t)), i)
    } else {
        (ids.push(id), queues.push(seq![t]), ids.len() as int)
    }
}

/// The time of the next command after position `c`, or the interval's end.
pub open spec fn next_cmd(ch: Channels, c: int) -> u32 {
    if c < ch.cmd.len() { ch.cmd[c] } else { ch.end }
}

/// Time of time table index `i`.
pub open spec fn time_of(ch: Channels, i: u32) -> u64 {
    ch.tt[i as int]
}

/// AXI-Lite read: a command is answered by the first read before the next reset edge;
/// later reads before the next command are dropped.
pub open spec fn rd_lite_step(ch: Channels, st: ProgressView) -> Step {
    if st.c >= ch.cmd.len() {
        Step::Stop(Ok(st.done))
    } else {
        let time = ch.cmd[st.c];
        match rst_adv(ch.edges, st.rs, st.next_rst, time, ch.end) {
            None => Step::Stop(Err(AxiError::EndlessWait)),
            Some((rs, nr)) => if 0 <= st.d < ch.data.len() && nr > ch.data[st.d] {
                let read = ch.data[st.d];
                let next = next_cmd(ch, st.c + 1);
                match code_at(ch.code, read) {
                    None => Step::Stop(Err(AxiError::InvalidValue(AxiSignal::RResp, time_of(ch, read)))),
                    Some(code) => Step::Go(ProgressView {
                        c: st.c + 1,
                        d: skip_below(ch.data, st.d + 1, next),
                        rs,
                        next_rst: nr,
                        done: st.done.push((time, read, read, read, code, next)),
                        ..st
                    }),
                }
            } else {
                Step::Go(ProgressView { c: st.c + 1, rs, next_rst: nr, ..st })
            },
        }
    }
}

/// AXI-Lite write: a command is answered by the first data and the first response, when
/// both come before the next reset edge.
pub open spec fn wr_lite_step(ch: Channels, st: ProgressView) -> Step {
    if st.c >= ch.cmd.len() {
        Step::Stop(Ok(st.done))
    } else {
        let time = ch.cmd[st.c];
        match rst_adv(ch.edges, st.rs, st.next_rst, time, ch.end) {
            None => Step::Stop(Err(AxiError::EndlessWait)),
            Some((rs, nr)) => if 0 <= st.d < ch.data.len() && nr > ch.data[st.d] && 0 <= st.b < ch.resp.len()
                && nr > ch.resp[st.b] {
                let data_time = ch.data[st.d];
                let resp_time = ch.resp[st.b];
                let next = next_cmd(ch, st.c + 1);
                match code_at(ch.code, resp_time) {
                    None => Step::Stop(Err(AxiError::InvalidValue(AxiSignal::BResp, time_of(ch, resp_time)))),
                    Some(code) => Step::Go(ProgressView {
                        c: st.c + 1,
                        d: st.d + 1,
                        b: st.b + 1,
                        rs,
                        next_rst: nr,
                        done: st.done.push((time, resp_time, data_time, data_time, code, next)),
                        ..st
                    }),
                }
            } else {
                Step::Go(ProgressView { c: st.c + 1, rs, next_rst: nr, ..st })
            },
        }
    }
}

/// A new command: it waits for the reset edges up to its time, reads its identifier and
/// joins its identifier's queue.
pub open spec fn cmd_step(ch: Channels, st: ProgressView, id_sig: AxiSignal) -> Step {
    if st.c >= ch.cmd.len() {
        Step::Stop(Ok(st.done))
    } else {
        let time = ch.cmd[st.c];
        match rst_adv(ch.edges, st.rs, st.next_rst, time, ch.end) {
            None => Step::Stop(Err(AxiError::EndlessWait)),
            Some((rs, nr)) => match id_at(ch.cmd_id, time) {
                None => Step::Stop(Err(AxiError::InvalidValue(id_sig, time_of(ch, time)))),
                Some(id) => {
                    let next = next_cmd(ch, st.c + 1);
                    let (ids, queues, cur) = enqueue(st.ids, st.queues, id, Transaction {
                        start: time,
                        first_data: None,
                        last_data: None,
                        next,
                    });
                    Step::Go(ProgressView { c: st.c + 1, rs, next_rst: nr, phase: 1, next, cur, ids, queues, ..st })
                },
            },
        }
    }
}

/// AXI read: reads before the next command are matched by identifier with the oldest
/// waiting command; the one with the last flag finishes it. A read after the next reset
/// edge drops all waiting commands.
pub open spec fn rd_full_step(ch: Channels, st: ProgressView) -> Step {
    if st.phase == 0 {
        cmd_step(ch, st, AxiSignal::ArId)
    } else if 0 <= st.d < ch.data.len() && ch.data[st.d] < st.next {
        let read = ch.data[st.d];
        if read > st.next_rst {
            Step::Go(ProgressView { ids: Seq::empty(), queues: Seq::empty(), phase: 0, ..st })
        } else {
            match id_at(ch.ret_id, read) {
                None => Step::Stop(Err(AxiError::InvalidValue(AxiSignal::RId, time_of(ch, read)))),
                Some(id) => {
                    let i = find_id(st.ids, id, 0);
                    if i >= st.ids.len() || st.queues[i].len() == 0 {
                        Step::Go(ProgressView { d: st.d + 1, phase: 0, ..st })
                    } else {
                        let t = st.queues[i][0];
                        let fd = match t.first_data {
                            Some(f) => f,
                            None => read,
                        };
                        match logic_at(ch.last, read) {
                            None => Step::Stop(Err(AxiError::InvalidValue(AxiSignal::RLast, time_of(ch, read)))),
                            Some(v) => if v == ValueType::V1 {
                                match id_at(ch.code, read) {
                                    None => Step::Stop(Err(AxiError::InvalidValue(AxiSignal::RResp, time_of(ch, read)))),
                                    Some(code) => Step::Go(ProgressView {
                                        d: st.d + 1,
                                        queues: st.queues.update(i, st.queues[i].drop_first()),
                                        done: st.done.push((t.start, read, read, fd, code, t.next)),
                                        ..st
                                    }),
                                }
                            } else {
                                Step::Go(ProgressView {
                                    d: st.d + 1,
                                    queues: st.queues.update(i, st.queues[i].update(0, Transaction { first_data: Some(fd), ..t })),
                                    ..st
                                })
                            },
                        }
                    }
                },
            }
        }
    } else {
        Step::Go(ProgressView { phase: 0, ..st })
    }
}

/// AXI write: after a command its data is read up to the last flag (a write after the
/// next reset edge drops all waiting commands); then responses before the next command
/// finish the oldest waiting command of their identifier.
pub open spec fn wr_full_step(ch: Channels, st: ProgressView) -> Step {
    if st.phase == 0 {
        cmd_step(ch, st, AxiSignal::AwId)
    } else if st.phase == 1 {
        if 0 <= st.d < ch.data.len() {
            let write = ch.data[st.d];
            if write > st.next_rst {
                Step::Go(ProgressView { ids: Seq::empty(), queues: Seq::empty(), phase: 0, ..st })
            } else {
                let q = st.queues[st.cur];
                let t = q.last();
                let t1 = match t.first_data {
                    Some(_) => t,
                    None => Transaction { first_data: Some(write), ..t },
                };
                match logic_at(ch.last, write) {
                    None => Step::Stop(Err(AxiError::InvalidValue(AxiSignal::WLast, time_of(ch, write)))),
                    Some(v) => if v == ValueType::V1 {
                        Step::Go(ProgressView {
                            d: st.d + 1,
                            queues: st.queues.update(st.cur, q.update(q.len() - 1, Transaction { last_data: Some(write), ..t1 })),
                            phase: 2,
                            ..st
                        })
                    } else {
                        Step::Go(ProgressView {
                            d: st.d + 1,
                            queues: st.queues.update(st.cur, q.update(q.len() - 1, t1)),
                            ..st
                        })
                    },
                }
            }
        } else {
            Step::Go(ProgressView { phase: 2, ..st })
        }
    } else if 0 <= st.b < ch.resp.len() && ch.resp[st.b] < st.next {
        let rt = ch.resp[st.b];
        if rt > st.next_rst {
            Step::Go(ProgressView { ids: Seq::empty(), queues: Seq::empty(), phase: 0, ..st })
        } else {
            match id_at(ch.ret_id, rt) {
                None => Step::Stop(Err(AxiError::InvalidValue(AxiSignal::BId, time_of(ch, rt)))),
                Some(id) => {
                    let i = find_id(st.ids, id, 0);
                    if i >= st.ids.len() || st.queues[i].len() == 0 {
                        Step::Go(ProgressView { b: st.b + 1, ..st })
                    } else {
                        let t = st.queues[i][0];
                        match id_at(ch.code, rt) {
                            None => Step::Stop(Err(AxiError::InvalidValue(AxiSignal::BResp, time_of(ch, rt)))),
                            Some(code) => match t.last_data {
                                None => Step::Stop(Err(AxiError::NoLastData(t.start, t.next))),
                                Some(ld) => match t.first_data {
                                    None => Step::Stop(Err(AxiError::NoData(t.start, t.next))),
                                    Some(fd) => Step::Go(ProgressView {
                                        b: st.b + 1,
                                        queues: st.queues.update(i, st.queues[i].drop_first()),
                                        done: st.done.push((t.start, rt, ld, fd, code, t.next)),
                                        ..st
                                    }),
                                },
                            },
                        }
                    }
                },
            }
        }
    } else {
        Step::Go(ProgressView { phase: 0, ..st })
    }
}

/// Law: in an AXI read or write interface, a transaction finishes on a response (a read
/// with the last flag, or a write response) whose identifier has commands waiting; the
/// transaction is that of the first command waiting for that identifier, which leaves the
/// queue, and the other queues stay as they were.
pub proof fn lemma_response_finishes_first_waiting(kind: AxiKind, ch: Channels, st: ProgressView)
    requires
        kind == AxiKind::ReadFull || kind == AxiKind::WriteFull,
        st.phase != 0,
        st.ids.len() == st.queues.len(),
    ensures
        match step(kind, ch, st) {
            Step::Go(s2) => s2.done.len() == st.done.len() + 1 ==> finishes_first_waiting(ch, st, s2),
            Step::Stop(_) => true,
        },
{
    let t = if kind == AxiKind::ReadFull { ch.data[st.d] } else { ch.resp[st.b] };
    if let Some(id) = id_at(ch.ret_id, t) {
        lemma_find_id(st.ids, id, 0);
        let i = find_id(st.ids, id, 0);
        if let Step::Go(s2) = step(kind, ch, st) {
            if s2.done.len() == st.done.len() + 1 {
                assert(s2.done.last().1 == t);
                assert(st.ids[i] == id);
            }
        }
    }
}

/// The step from `st` to `s2` finished the first command waiting for the identifier of the
/// response it read, which left its queue.
pub open spec fn finishes_first_waiting(ch: Channels, st: ProgressView, s2: ProgressView) -> bool {
    exists|i: int|
        0 <= i < st.ids.len() && st.queues[i].len() > 0 && id_at(ch.ret_id, s2.done.last().1) == Some(
            #[trigger] st.ids[i],
        ) && s2.done.last().0 == st.queues[i][0].start && s2.queues == st.queues.update(i, st.queues[i].drop_first())
}

pub open spec fn step(kind: AxiKind, ch: Channels, st: ProgressView) -> Step {
    match kind {
        AxiKind::ReadLite => rd_lite_step(ch, st),
        AxiKind::WriteLite => wr_lite_step(ch, st),
        AxiKind::ReadFull => rd_full_step(ch, st),
        AxiKind::WriteFull => wr_full_step(ch, st),
    }
}

/// Rank of a phase in the measure that every step lowers.
pub open spec fn phase_rank(p: u8) -> int {
    if p == 0 { 0 } else if p == 1 { 2 } else { 1 }
}

/// `s2` comes after `s` in the pairing: it has read more command transfers, or as many
/// and more data and response transfers, or as many and is in a lower ranked phase.
pub open spec fn progresses(ch: Channels, s: ProgressView, s2: ProgressView) -> bool {
    &&& 0 <= s2.c <= ch.cmd.len()
    &&& 0 <= s2.d <= ch.data.len()
    &&& 0 <= s2.b <= ch.resp.len()
    &&& ch.cmd.len() - s2.c < ch.cmd.len() - s.c || (s2.c == s.c && (
        ch.data.len() - s2.d + ch.resp.len() - s2.b < ch.data.len() - s.d + ch.resp.len() - s.b || (
        s2.d + s2.b == s.d + s.b && phase_rank(s2.phase) < phase_rank(s.phase))))
}

/// The finished transactions of one interval, from state `st` on.
pub open spec fn run(kind: AxiKind, ch: Channels, st: ProgressView) -> Result<Seq<Done>, AxiError>
    decreases ch.cmd.len() - st.c, ch.data.len() - st.d + ch.resp.len() - st.b, phase_rank(st.phase),
{
    match step(kind, ch, st) {
        Step::Stop(r) => r,
        Step::Go(s2) => if progresses(ch, st, s2) && 0 <= st.c && 0 <= st.d && 0 <= st.b {
            run(kind, ch, s2)
        } else {
            Err(AxiError::Overflow)
        },
    }
}

/// The state before an interval's first command.
pub open spec fn start_state(ch: Channels) -> ProgressView {
    ProgressView {
        c: 0,
        d: 0,
        b: 0,
        rs: if ch.edges.len() > 0 { 1 } else { 0 },
        next_rst: if ch.edges.len() > 0 { ch.edges[0] } else { (ch.end + 1) as u32 },
        phase: 0,
        next: 0,
        cur: 0,
        ids: Seq::empty(),
        queues: Seq::empty(),
        done: Seq::empty(),
    }
}

/// Where the pairing is (see [ProgressView]).
pub struct AxiProgress {
    pub c: usize,
    pub d: usize,
    pub b: usize,
    pub rs: usize,
    pub next_rst: u32,
    pub phase: u8,
    pub next: u32,
    pub cur: usize,
    pub ids: Vec<String>,
    pub queues: Vec<Vec<Transaction>>,
    pub done: Vec<Completed>,
}

pub open spec fn queue_views(q: Seq<Vec<Transaction>>) -> Seq<Seq<Transaction>> {
    q.map_values(|v: Vec<Transaction>| v@)
}

pub open spec fn id_views(v: Seq<String>) -> Seq<Seq<char>> {
    v.map_values(|s: String| s@)
}

impl View for AxiProgress {
    type V = ProgressView;

    open spec fn view(&self) -> ProgressView {
        ProgressView {
            c: self.c as int,
            d: self.d as int,
            b: self.b as int,
            rs: self.rs as int,
            next_rst: self.next_rst,
            phase: self.phase,
            next: self.next,
            cur: self.cur as int,
            ids: id_views(self.ids@),
            queues: queue_views(self.queues@),
            done: dones(self.done@),
        }
    }
}

/// Every index a transaction holds is one of the time table.
pub open spec fn transaction_in(t: Transaction, n: int) -> bool {
    &&& t.start < n
    &&& t.next < n
    &&& (t.first_data matches Some(f) ==> f < n)
    &&& (t.last_data matches Some(l) ==> l < n)
}

pub open spec fn done_in(x: Done, n: int) -> bool {
    x.0 < n && x.1 < n && x.2 < n && x.3 < n && x.5 < n
}

/// The inputs of a pairing are consistent: transfer times and the interval's end are
/// time table indices, and the signals are well formed.
pub open spec fn channels_ok(ch: Channels) -> bool {
    &&& ch.tt.len() <= u32::MAX
    &&& ch.end < ch.tt.len()
    &&& forall|i: int| 0 <= i < ch.cmd.len() ==> #[trigger] ch.cmd[i] < ch.tt.len()
    &&& forall|i: int| 0 <= i < ch.data.len() ==> #[trigger] ch.data[i] < ch.tt.len()
    &&& forall|i: int| 0 <= i < ch.resp.len() ==> #[trigger] ch.resp[i] < ch.tt.len()
    &&& times_ordered(ch.cmd_id)
    &&& times_ordered(ch.ret_id)
    &&& times_ordered(ch.last)
    &&& times_ordered(ch.code)
}

/// While a write's data is read, its command waits at the back of its queue.
pub open spec fn writing_ok(st: ProgressView) -> bool {
    st.phase == 1 ==> 0 <= st.cur < st.queues.len() && st.queues[st.cur].len() > 0
}

/// A state of the pairing that its steps keep.
pub open spec fn progress_ok(ch: Channels, st: ProgressView) -> bool {
    &&& 0 <= st.c <= ch.cmd.len()
    &&& 0 <= st.d <= ch.data.len()
    &&& 0 <= st.b <= ch.resp.len()
    &&& 0 <= st.rs <= ch.edges.len()
    &&& st.phase <= 2
    &&& st.next < ch.tt.len()
    &&& st.ids.len() == st.queues.len()
    &&& (st.phase == 1 ==> 0 <= st.cur < st.queues.len())
    &&& queues_in(st.queues, ch.tt.len() as int)
    &&& forall|i: int| 0 <= i < st.done.len() ==> done_in(#[trigger] st.done[i], ch.tt.len() as int)
}

impl AxiProgress {
    /// Position of identifier `id` among the identifiers that have queues.
    fn find(&self, id: &str) -> (r: usize)
        ensures
            r == find_id(self@.ids, id@, 0),
            r <= self.ids@.len(),
    {
        let mut k: usize = 0;
        while k < self.ids.len()
            invariant
                k <= self.ids@.len(),
                find_id(self@.ids, id@, 0) == find_id(self@.ids, id@, k as int),
            decreases self.ids@.len() - k,
        {
            if crate::text::str_eq(self.ids[k].as_str(), id) {
                return k;
            }
            k = k + 1;
        }
        k
    }

    /// Adds a command with identifier `id` to its identifier's queue; gives the queue's position.
    fn enqueue(&mut self, id: String, t: Transaction) -> (r: usize)
        requires
            old(self).ids@.len() == old(self).queues@.len(),
        ensures
            ({
                let (ids, queues, cur) = enqueue(old(self)@.ids, old(self)@.queues, id@, t);
                final(self)@ == ProgressView { ids, queues, ..old(self)@ } && r == cur
            }),
            final(self).ids@.len() == final(self).queues@.len(),
    {
        let i = self.find(id.as_str());
        if i < self.ids.len() {
            let ghost before = self.queues@;
            let mut q = self.queues.remove(i);
            q.push(t);
            self.queues.insert(i, q);
            assert(queue_views(self.queues@) =~= queue_views(before).update(i as int, queue_views(before)[i as int].push(t)));
            i
        } else {
            let ghost qb = self.queues@;
            let ghost ib = self.ids@;
            self.ids.push(id);
            let q = vec![t];
            assert(q@ =~= seq![t]);
            self.queues.push(q);
            assert(queue_views(self.queues@) =~= queue_views(qb).push(seq![t]));
            assert(id_views(self.ids@) =~= id_views(ib).push(id@));
            i
        }
    }

    /// Drops all waiting commands.
    fn clear(&mut self)
        ensures
            final(self)@ == (ProgressView { ids: Seq::empty(), queues: Seq::empty(), ..old(self)@ }),
    {
        self.ids = Vec::new();
        self.queues = Vec::new();
        assert(id_views(self.ids@) =~= Seq::empty());
        assert(queue_views(self.queues@) =~= Seq::empty());
    }

    /// Replaces the waiting command at position `j` of queue `i`.
    fn set_waiting(&mut self, i: usize, j: usize, t: Transaction)
        requires
            i < old(self).queues@.len(),
            j < old(self).queues@[i as int]@.len(),
        ensures
            final(self)@ == (ProgressView {
                queues: old(self)@.queues.update(i as int, old(self)@.queues[i as int].update(j as int, t)),
                ..old(self)@
            }),
            final(self).ids@.len() == old(self).ids@.len(),
            final(self).queues@.len() == old(self).queues@.len(),
    {
        let ghost before = self.queues@;
        let mut q = self.queues.remove(i);
        q.set(j, t);
        self.queues.insert(i, q);
        assert(queue_views(self.queues@) =~= queue_views(before).update(i as int, queue_views(before)[i as int].update(j as int, t)));
    }

    /// Removes the oldest waiting command of queue `i`.
    fn pop_waiting(&mut self, i: usize) -> (r: Transaction)
        requires
            i < old(self).queues@.len(),
            old(self).queues@[i as int]@.len() > 0,
        ensures
            r == old(self)@.queues[i as int][0],
            final(self)@ == (ProgressView {
                queues: old(self)@.queues.update(i as int, old(self)@.queues[i as int].drop_first()),
                ..old(self)@
            }),
            final(self).ids@.len() == old(self).ids@.len(),
            final(self).queues@.len() == old(self).queues@.len(),
    {
        let ghost before = self.queues@;
        let mut q = self.queues.remove(i);
        let t = q.remove(0);
        self.queues.insert(i, q);
        assert(queue_views(self.queues@) =~= queue_views(before).update(i as int, queue_views(before)[i as int].drop_first()));
        t
    }

    /// Records a finished transaction.
    fn finish(&mut self, x: Completed)
        ensures
            final(self)@ == (ProgressView { done: old(self)@.done.push(done_of(x)), ..old(self)@ }),
            final(self).ids@.len() == old(self).ids@.len(),
            final(self).queues@.len() == old(self).queues@.len(),
    {
        let ghost before = self.done@;
        self.done.push(x);
        assert(dones(self.done@) =~= dones(before).push(done_of(x)));
    }
}

/// Transfer times of an interval's channels and reset edges, with the interval's last time index.
pub struct Streams {
    pub cmd: Vec<u32>,
    pub data: Vec<u32>,
    pub resp: Vec<u32>,
    pub edges: Vec<u32>,
    pub end: u32,
}

pub open spec fn channels_of(s: &Streams, cmd_id: &Signal, ret_id: &Signal, last: &Signal, code: &Signal, tt: Seq<u64>) -> Channels {
    Channels {
        cmd: s.cmd@,
        data: s.data@,
        resp: s.resp@,
        edges: s.edges@,
        end: s.end,
        cmd_id: cmd_id.changes@,
        ret_id: ret_id.changes@,
        last: last.changes@,
        code: code.changes@,
        tt,
    }
}

/// Every waiting command holds time table indices only.
pub open spec fn queues_in(queues: Seq<Seq<Transaction>>, n: int) -> bool {
    forall|i: int, j: int| 0 <= i < queues.len() && 0 <= j < queues[i].len()
        ==> transaction_in(#[trigger] queues[i][j], n)
}

proof fn lemma_find_id(ids: Seq<Seq<char>>, id: Seq<char>, k: int)
    requires
        0 <= k,
    ensures
        k <= find_id(ids, id, k) <= ids.len() || (k > ids.len() && find_id(ids, id, k) == ids.len()),
        find_id(ids, id, k) < ids.len() ==> ids[find_id(ids, id, k)] == id,
    decreases ids.len() - k,
{
    if k < ids.len() && ids[k] != id {
        lemma_find_id(ids, id, k + 1);
    }
}

proof fn lemma_queues_update(queues: Seq<Seq<Transaction>>, i: int, q: Seq<Transaction>, n: int)
    requires
        queues_in(queues, n),
        0 <= i < queues.len(),
        forall|j: int| 0 <= j < q.len() ==> transaction_in(#[trigger] q[j], n),
    ensures
        queues_in(queues.update(i, q), n),
{
    assert forall|a: int, j: int| 0 <= a < queues.update(i, q).len() && 0 <= j < queues.update(i, q)[a].len()
        implies transaction_in(#[trigger] queues.update(i, q)[a][j], n) by {
        if a != i {
            assert(queues.update(i, q)[a] == queues[a]);
        }
    }
}

proof fn lemma_enqueue(ids: Seq<Seq<char>>, queues: Seq<Seq<Transaction>>, id: Seq<char>, t: Transaction, n: int)
    requires
        ids.len() == queues.len(),
        queues_in(queues, n),
        transaction_in(t, n),
    ensures
        ({
            let (ids2, queues2, cur) = enqueue(ids, queues, id, t);
            &&& ids2.len() == queues2.len()
            &&& queues_in(queues2, n)
            &&& 0 <= cur < queues2.len()
            &&& queues2[cur].len() > 0
        }),
{
    lemma_find_id(ids, id, 0);
    let i = find_id(ids, id, 0);
    if i < ids.len() {
        let q = queues[i].push(t);
        assert forall|j: int| 0 <= j < q.len() implies transaction_in(#[trigger] q[j], n) by {
            if j < queues[i].len() {
                assert(q[j] == queues[i][j]);
            }
        }
        lemma_queues_update(queues, i, q, n);
    } else {
        let q2 = queues.push(seq![t]);
        assert forall|a: int, j: int| 0 <= a < q2.len() && 0 <= j < q2[a].len() implies transaction_in(#[trigger] q2[a][j], n) by {
            if a < queues.len() {
                assert(q2[a] == queues[a]);
            }
        }
    }
}

proof fn lemma_done_push(done: Seq<Done>, x: Done, n: int)
    requires
        forall|i: int| 0 <= i < done.len() ==> done_in(#[trigger] done[i], n),
        done_in(x, n),
    ensures
        forall|i: int| 0 <= i < done.push(x).len() ==> done_in(#[trigger] done.push(x)[i], n),
{
    assert forall|i: int| 0 <= i < done.push(x).len() implies done_in(#[trigger] done.push(x)[i], n) by {
        if i < done.len() {
            assert(done.push(x)[i] == done[i]);
        }
    }
}

fn rst_advance(edges: &Vec<u32>, rs: usize, next_rst: u32, time: u32, end: u32) -> (r: Option<(usize, u32)>)
    requires
        rs <= edges@.len(),
        end < u32::MAX,
    ensures
        match rst_adv(edges@, rs as int, next_rst, time, end) {
            None => r is None,
            Some((a, b)) => r matches Some((x, y)) && x == a && y == b && x <= edges@.len(),
        },
{
    let mut k = rs;
    let mut nr = next_rst;
    while nr < time
        invariant
            k <= edges@.len(),
            end < u32::MAX,
            rst_adv(edges@, rs as int, next_rst, time, end) == rst_adv(edges@, k as int, nr, time, end),
        decreases edges@.len() - k + (if nr < time { 1int } else { 0int }),
    {
        if k < edges.len() {
            nr = edges[k];
            k = k + 1;
        } else if end + 1 >= time {
            nr = end + 1;
        } else {
            return None;
        }
    }
    Some((k, nr))
}

fn skip_below_exec(s: &Vec<u32>, k: usize, bound: u32) -> (r: usize)
    requires
        k <= s@.len(),
    ensures
        r == skip_below(s@, k as int, bound),
        k <= r <= s@.len(),
{
    let mut i = k;
    while i < s.len() && s[i] < bound
        invariant
            k <= i <= s@.len(),
            skip_below(s@, k as int, bound) == skip_below(s@, i as int, bound),
        decreases s@.len() - i,
    {
        i = i + 1;
    }
    i
}

/// What one step leaves: `None` to go on, `Some(Ok)` when the interval is done, or the failure.
pub open spec fn step_result(s: Step, before: ProgressView, after: ProgressView, r: Option<Result<(), AxiError>>) -> bool {
    match s {
        Step::Go(s2) => r is None && after == s2,
        Step::Stop(Ok(d)) => r == Some(Ok::<(), AxiError>(())) && after.done == d && after == before,
        Step::Stop(Err(e)) => r == Some(Err::<(), AxiError>(e)),
    }
}

fn rd_lite_step_exec(s: &Streams, cmd_id: &Signal, ret_id: &Signal, last: &Signal, code: &Signal, tt: &TimeTable, st: &mut AxiProgress) -> (r: Option<Result<(), AxiError>>)
    requires
        channels_ok(channels_of(s, cmd_id, ret_id, last, code, tt@)),
        progress_ok(channels_of(s, cmd_id, ret_id, last, code, tt@), old(st)@),
    ensures
        step_result(rd_lite_step(channels_of(s, cmd_id, ret_id, last, code, tt@), old(st)@), old(st)@, final(st)@, r),
        r is None ==> progress_ok(channels_of(s, cmd_id, ret_id, last, code, tt@), final(st)@),
{
    let ghost ch = channels_of(s, cmd_id, ret_id, last, code, tt@);
    if st.c >= s.cmd.len() {
        return Some(Ok(()));
    }
    let time = s.cmd[st.c];
    let (rs, nr) = match rst_advance(&s.edges, st.rs, st.next_rst, time, s.end) {
        None => {
            return Some(Err(AxiError::EndlessWait));
        },
        Some(x) => x,
    };
    if st.d < s.data.len() && nr > s.data[st.d] {
        let read = s.data[st.d];
        let next = if st.c + 1 < s.cmd.len() { s.cmd[st.c + 1] } else { s.end };
        let code_s = match code_value(code, read) {
            None => {
                return Some(Err(AxiError::InvalidValue(AxiSignal::RResp, tt.at(read as usize))));
            },
            Some(x) => x,
        };
        let d2 = skip_below_exec(&s.data, st.d + 1, next);
        let ghost code_v = code_s@;
        proof {
            lemma_done_push(st@.done, (time, read, read, read, code_v, next), tt@.len() as int);
        }
        st.finish(Completed { start: time, resp: read, last_data: read, first_data: read, code: code_s, next });
        st.c = st.c + 1;
        st.d = d2;
        st.rs = rs;
        st.next_rst = nr;
        None
    } else {
        st.c = st.c + 1;
        st.rs = rs;
        st.next_rst = nr;
        None
    }
}

fn wr_lite_step_exec(s: &Streams, cmd_id: &Signal, ret_id: &Signal, last: &Signal, code: &Signal, tt: &TimeTable, st: &mut AxiProgress) -> (r: Option<Result<(), AxiError>>)
    requires
        channels_ok(channels_of(s, cmd_id, ret_id, last, code, tt@)),
        progress_ok(channels_of(s, cmd_id, ret_id, last, code, tt@), old(st)@),
    ensures
        step_result(wr_lite_step(channels_of(s, cmd_id, ret_id, last, code, tt@), old(st)@), old(st)@, final(st)@, r),
        r is None ==> progress_ok(channels_of(s, cmd_id, ret_id, last, code, tt@), final(st)@),
{
    if st.c >= s.cmd.len() {
        return Some(Ok(()));
    }
    let time = s.cmd[st.c];
    let (rs, nr) = match rst_advance(&s.edges, st.rs, st.next_rst, time, s.end) {
        None => {
            return Some(Err(AxiError::EndlessWait));
        },
        Some(x) => x,
    };
    if st.d < s.data.len() && nr > s.data[st.d] && st.b < s.resp.len() && nr > s.resp[st.b] {
        let data_time = s.data[st.d];
        let resp_time = s.resp[st.b];
        let next = if st.c + 1 < s.cmd.len() { s.cmd[st.c + 1] } else { s.end };
        let code_s = match code_value(code, resp_time) {
            None => {
                return Some(Err(AxiError::InvalidValue(AxiSignal::BResp, tt.at(resp_time as usize))));
            },
            Some(x) => x,
        };
        let ghost code_v = code_s@;
        proof {
            lemma_done_push(st@.done, (time, resp_time, data_time, data_time, code_v, next), tt@.len() as int);
        }
        st.finish(Completed { start: time, resp: resp_time, last_data: data_time, first_data: data_time, code: code_s, next });
        st.c = st.c + 1;
        st.d = st.d + 1;
        st.b = st.b + 1;
        st.rs = rs;
        st.next_rst = nr;
        None
    } else {
        st.c = st.c + 1;
        st.rs = rs;
        st.next_rst = nr;
        None
    }
}

fn cmd_step_exec(s: &Streams, cmd_id: &Signal, ret_id: &Signal, last: &Signal, code: &Signal, tt: &TimeTable, st: &mut AxiProgress, id_sig: AxiSignal) -> (r: Option<Result<(), AxiError>>)
    requires
        channels_ok(channels_of(s, cmd_id, ret_id, last, code, tt@)),
        progress_ok(channels_of(s, cmd_id, ret_id, last, code, tt@), old(st)@),
    ensures
        step_result(cmd_step(channels_of(s, cmd_id, ret_id, last, code, tt@), old(st)@, id_sig), old(st)@, final(st)@, r),
        r is None ==> progress_ok(channels_of(s, cmd_id, ret_id, last, code, tt@), final(st)@) && writing_ok(final(st)@),
{
    if st.c >= s.cmd.len() {
        return Some(Ok(()));
    }
    let time = s.cmd[st.c];
    let (rs, nr) = match rst_advance(&s.edges, st.rs, st.next_rst, time, s.end) {
        None => {
            return Some(Err(AxiError::EndlessWait));
        },
        Some(x) => x,
    };
    let id = match id_value(cmd_id, time) {
        None => {
            return Some(Err(AxiError::InvalidValue(id_sig, tt.at(time as usize))));
        },
        Some(x) => x,
    };
    let next = if st.c + 1 < s.cmd.len() { s.cmd[st.c + 1] } else { s.end };
    let t = Transaction::new(time, next);
    proof {
        lemma_enqueue(st@.ids, st@.queues, id@, t, tt@.len() as int);
    }
    let cur = st.enqueue(id, t);
    st.c = st.c + 1;
    st.rs = rs;
    st.next_rst = nr;
    st.phase = 1;
    st.next = next;
    st.cur = cur;
    None
}

fn rd_full_step_exec(s: &Streams, cmd_id: &Signal, ret_id: &Signal, last: &Signal, code: &Signal, tt: &TimeTable, st: &mut AxiProgress) -> (r: Option<Result<(), AxiError>>)
    requires
        channels_ok(channels_of(s, cmd_id, ret_id, last, code, tt@)),
        progress_ok(channels_of(s, cmd_id, ret_id, last, code, tt@), old(st)@),
    ensures
        step_result(rd_full_step(channels_of(s, cmd_id, ret_id, last, code, tt@), old(st)@), old(st)@, final(st)@, r),
        r is None ==> progress_ok(channels_of(s, cmd_id, ret_id, last, code, tt@), final(st)@),
{
    let ghost n = tt@.len() as int;
    if st.phase == 0 {
        return cmd_step_exec(s, cmd_id, ret_id, last, code, tt, st, AxiSignal::ArId);
    }
    if st.d < s.data.len() && s.data[st.d] < st.next {
        let read = s.data[st.d];
        if read > st.next_rst {
            st.clear();
            st.phase = 0;
            return None;
        }
        let id = match id_value(ret_id, read) {
            None => {
                return Some(Err(AxiError::InvalidValue(AxiSignal::RId, tt.at(read as usize))));
            },
            Some(x) => x,
        };
        let i = st.find(id.as_str());
        proof {
            lemma_find_id(st@.ids, id@, 0);
        }
        if i >= st.ids.len() || st.queues[i].len() == 0 {
            st.d = st.d + 1;
            st.phase = 0;
            return None;
        }
        let t = st.queues[i][0];
        assert(t == st@.queues[i as int][0]);
        assert(transaction_in(t, n));
        let fd = match t.first_data {
            Some(f) => f,
            None => read,
        };
        match logic_value(last, read) {
            None => Some(Err(AxiError::InvalidValue(AxiSignal::RLast, tt.at(read as usize)))),
            Some(v) => {
                if v == ValueType::V1 {
                    let code_s = match id_value(code, read) {
                        None => {
                            return Some(Err(AxiError::InvalidValue(AxiSignal::RResp, tt.at(read as usize))));
                        },
                        Some(x) => x,
                    };
                    let ghost code_v = code_s@;
                    proof {
                        let q = st@.queues[i as int].drop_first();
                        assert forall|j: int| 0 <= j < q.len() implies transaction_in(#[trigger] q[j], n) by {
                            assert(q[j] == st@.queues[i as int][j + 1]);
                        }
                        lemma_queues_update(st@.queues, i as int, q, n);
                        lemma_done_push(st@.done, (t.start, read, read, fd, code_v, t.next), n);
                    }
                    st.pop_waiting(i);
                    st.finish(Completed { start: t.start, resp: read, last_data: read, first_data: fd, code: code_s, next: t.next });
                    st.d = st.d + 1;
                    None
                } else {
                    let t1 = Transaction { first_data: Some(fd), ..t };
                    proof {
                        let q = st@.queues[i as int].update(0, t1);
                        assert forall|j: int| 0 <= j < q.len() implies transaction_in(#[trigger] q[j], n) by {
                            if j != 0 {
                                assert(q[j] == st@.queues[i as int][j]);
                            }
                        }
                        lemma_queues_update(st@.queues, i as int, q, n);
                    }
                    st.set_waiting(i, 0, t1);
                    st.d = st.d + 1;
                    None
                }
            },
        }
    } else {
        st.phase = 0;
        None
    }
}

fn wr_full_step_exec(s: &Streams, cmd_id: &Signal, ret_id: &Signal, last: &Signal, code: &Signal, tt: &TimeTable, st: &mut AxiProgress) -> (r: Option<Result<(), AxiError>>)
    requires
        channels_ok(channels_of(s, cmd_id, ret_id, last, code, tt@)),
        progress_ok(channels_of(s, cmd_id, ret_id, last, code, tt@), old(st)@),
        writing_ok(old(st)@),
    ensures
        step_result(wr_full_step(channels_of(s, cmd_id, ret_id, last, code, tt@), old(st)@), old(st)@, final(st)@, r),
        r is None ==> progress_ok(channels_of(s, cmd_id, ret_id, last, code, tt@), final(st)@) && writing_ok(final(st)@),
{
    let ghost n = tt@.len() as int;
    if st.phase == 0 {
        return cmd_step_exec(s, cmd_id, ret_id, last, code, tt, st, AxiSignal::AwId);
    }
    if st.phase == 1 {
        if st.d < s.data.len() {
            let write = s.data[st.d];
            if write > st.next_rst {
                st.clear();
                st.phase = 0;
                return None;
            }
            let cur = st.cur;
            let qlen = st.queues[cur].len();
            let t = st.queues[cur][qlen - 1];
            assert(t == st@.queues[cur as int].last());
            assert(transaction_in(t, n));
            let t1 = match t.first_data {
                Some(_) => t,
                None => Transaction { first_data: Some(write), ..t },
            };
            match logic_value(last, write) {
                None => Some(Err(AxiError::InvalidValue(AxiSignal::WLast, tt.at(write as usize)))),
                Some(v) => {
                    let t2 = if v == ValueType::V1 { Transaction { last_data: Some(write), ..t1 } } else { t1 };
                    proof {
                        let q = st@.queues[cur as int].update(qlen - 1, t2);
                        assert forall|j: int| 0 <= j < q.len() implies transaction_in(#[trigger] q[j], n) by {
                            if j != qlen - 1 {
                                assert(q[j] == st@.queues[cur as int][j]);
                            }
                        }
                        lemma_queues_update(st@.queues, cur as int, q, n);
                    }
                    st.set_waiting(cur, qlen - 1, t2);
                    st.d = st.d + 1;
                    if v == ValueType::V1 {
                        st.phase = 2;
                    }
                    None
                },
            }
        } else {
            st.phase = 2;
            None
        }
    } else if st.b < s.resp.len() && s.resp[st.b] < st.next {
        let rt = s.resp[st.b];
        if rt > st.next_rst {
            st.clear();
            st.phase = 0;
            return None;
        }
        let id = match id_value(ret_id, rt) {
            None => {
                return Some(Err(AxiError::InvalidValue(AxiSignal::BId, tt.at(rt as usize))));
            },
            Some(x) => x,
        };
        let i = st.find(id.as_str());
        proof {
            lemma_find_id(st@.ids, id@, 0);
        }
        if i >= st.ids.len() || st.queues[i].len() == 0 {
            st.b = st.b + 1;
            return None;
        }
        let t = st.queues[i][0];
        assert(t == st@.queues[i as int][0]);
        assert(transaction_in(t, n));
        let code_s = match id_value(code, rt) {
            None => {
                return Some(Err(AxiError::InvalidValue(AxiSignal::BResp, tt.at(rt as usize))));
            },
            Some(x) => x,
        };
        let ld = match t.last_data {
            None => {
                return Some(Err(AxiError::NoLastData(t.start, t.next)));
            },
            Some(x) => x,
        };
        let fd = match t.first_data {
            None => {
                return Some(Err(AxiError::NoData(t.start, t.next)));
            },
            Some(x) => x,
        };
        let ghost code_v = code_s@;
        proof {
            let q = st@.queues[i as int].drop_first();
            assert forall|j: int| 0 <= j < q.len() implies transaction_in(#[trigger] q[j], n) by {
                assert(q[j] == st@.queues[i as int][j + 1]);
            }
            lemma_queues_update(st@.queues, i as int, q, n);
            lemma_done_push(st@.done, (t.start, rt, ld, fd, code_v, t.next), n);
        }
        st.pop_waiting(i);
        st.finish(Completed { start: t.start, resp: rt, last_data: ld, first_data: fd, code: code_s, next: t.next });
        st.b = st.b + 1;
        None
    } else {
        st.phase = 0;
        None
    }
}

proof fn lemma_skip_below(s: Seq<u32>, k: int, bound: u32)
    requires
        0 <= k <= s.len(),
    ensures
        k <= skip_below(s, k, bound) <= s.len(),
    decreases s.len() - k,
{
    if k < s.len() && s[k] < bound {
        lemma_skip_below(s, k + 1, bound);
    }
}

proof fn lemma_rst_adv(edges: Seq<u32>, rs: int, next_rst: u32, time: u32, end: u32)
    requires
        0 <= rs <= edges.len(),
    ensures
        rst_adv(edges, rs, next_rst, time, end) matches Some((a, _)) ==> rs <= a <= edges.len(),
    decreases edges.len() - rs,
{
    if next_rst < time && rs < edges.len() {
        lemma_rst_adv(edges, rs + 1, edges[rs], time, end);
    }
}

proof fn lemma_step_progresses(kind: AxiKind, ch: Channels, st: ProgressView)
    requires
        progress_ok(ch, st),
        kind == AxiKind::WriteFull ==> writing_ok(st),
    ensures
        step(kind, ch, st) matches Step::Go(s2) ==> progresses(ch, st, s2) && progress_rs(ch, s2),
{
    lemma_rst_adv(ch.edges, st.rs, st.next_rst, if st.c < ch.cmd.len() { ch.cmd[st.c] } else { 0 }, ch.end);
    if st.d + 1 <= ch.data.len() {
        lemma_skip_below(ch.data, st.d + 1, next_cmd(ch, st.c + 1));
    }
}

/// The reset edge position stays within the edges.
pub open spec fn progress_rs(ch: Channels, st: ProgressView) -> bool {
    0 <= st.rs <= ch.edges.len()
}

fn step_exec(kind: AxiKind, s: &Streams, cmd_id: &Signal, ret_id: &Signal, last: &Signal, code: &Signal, tt: &TimeTable, st: &mut AxiProgress) -> (r: Option<Result<(), AxiError>>)
    requires
        channels_ok(channels_of(s, cmd_id, ret_id, last, code, tt@)),
        progress_ok(channels_of(s, cmd_id, ret_id, last, code, tt@), old(st)@),
        kind == AxiKind::WriteFull ==> writing_ok(old(st)@),
    ensures
        step_result(step(kind, channels_of(s, cmd_id, ret_id, last, code, tt@), old(st)@), old(st)@, final(st)@, r),
        r is None ==> progress_ok(channels_of(s, cmd_id, ret_id, last, code, tt@), final(st)@),
        r is None && kind == AxiKind::WriteFull ==> writing_ok(final(st)@),
{
    match kind {
        AxiKind::ReadLite => rd_lite_step_exec(s, cmd_id, ret_id, last, code, tt, st),
        AxiKind::WriteLite => wr_lite_step_exec(s, cmd_id, ret_id, last, code, tt, st),
        AxiKind::ReadFull => rd_full_step_exec(s, cmd_id, ret_id, last, code, tt, st),
        AxiKind::WriteFull => wr_full_step_exec(s, cmd_id, ret_id, last, code, tt, st),
    }
}

/// The transactions that the pairing of kind `kind` finishes within one interval: the
/// command, data and response transfers, the reset edges and the interval's end are in
/// `s`; the identifier, last flag and response code signals follow (the lite kinds read
/// only the response code).
pub fn pair_transactions(
    kind: AxiKind,
    s: &Streams,
    cmd_id: &Signal,
    ret_id: &Signal,
    last: &Signal,
    code: &Signal,
    tt: &TimeTable,
) -> (r: Result<Vec<Completed>, AxiError>)
    requires
        channels_ok(channels_of(s, cmd_id, ret_id, last, code, tt@)),
    ensures
        match run(kind, channels_of(s, cmd_id, ret_id, last, code, tt@), start_state(channels_of(s, cmd_id, ret_id, last, code, tt@))) {
            Ok(d) => r matches Ok(v) && dones(v@) == d,
            Err(e) => r == Err::<Vec<Completed>, AxiError>(e),
        },
        r matches Ok(v) ==> forall|i: int| 0 <= i < v@.len() ==> done_in(#[trigger] dones(v@)[i], tt@.len() as int),
{
    let ghost ch = channels_of(s, cmd_id, ret_id, last, code, tt@);
    let has_edge = s.edges.len() > 0;
    let mut st = AxiProgress {
        c: 0,
        d: 0,
        b: 0,
        rs: if has_edge { 1 } else { 0 },
        next_rst: if has_edge { s.edges[0] } else { s.end + 1 },
        phase: 0,
        next: 0,
        cur: 0,
        ids: Vec::new(),
        queues: Vec::new(),
        done: Vec::new(),
    };
    proof {
        assert(st@.ids =~= Seq::empty());
        assert(st@.queues =~= Seq::empty());
        assert(st@.done =~= Seq::empty());
        assert(st@ == start_state(ch));
    }
    let ghost start = st@;
    loop
        invariant
            ch == channels_of(s, cmd_id, ret_id, last, code, tt@),
            channels_ok(ch),
            progress_ok(ch, st@),
            kind == AxiKind::WriteFull ==> writing_ok(st@),
            run(kind, ch, start) == run(kind, ch, st@),
            start == start_state(ch),
        decreases ch.cmd.len() - st@.c, ch.data.len() - st@.d + ch.resp.len() - st@.b, phase_rank(st@.phase),
    {
        let ghost before = st@;
        proof {
            lemma_step_progresses(kind, ch, before);
        }
        match step_exec(kind, s, cmd_id, ret_id, last, code, tt, &mut st) {
            None => {},
            Some(Ok(())) => {
                return Ok(st.done);
            },
            Some(Err(e)) => {
                return Err(e);
            },
        }
    }
}

proof fn lemma_transfers_unique(
    e: Seq<u32>,
    ready: Seq<Change>,
    valid: Seq<Change>,
    time_end: u32,
    st: RvState,
    o1: Seq<u32>,
    o2: Seq<u32>,
)
    requires
        rv_transfers_from(e, ready, valid, time_end, st, o1),
        rv_transfers_from(e, ready, valid, time_end, st, o2),
    ensures
        o1 == o2,
    decreases o1.len(),
{
    match rv_next(e, ready, valid, time_end, st) {
        None => {
            assert(o1 =~= o2);
        },
        Some((t, st2)) => {
            lemma_transfers_unique(e, ready, valid, time_end, st2, o1.drop_first(), o2.drop_first());
            assert(o1 =~= seq![t] + o1.drop_first());
            assert(o2 =~= seq![t] + o2.drop_first());
        },
    }
}

/// The transfer times of a ready/valid channel up to `end` (see [ready_valid_transfers]).
pub open spec fn transfers_of(clk: Seq<Change>, ready: Seq<Change>, valid: Seq<Change>, end: u32) -> Seq<u32> {
    choose|o: Seq<u32>| rv_transfers_from(rising_edges_spec(clk), ready, valid, end, rv_initial(ready, valid, end), o)
}

/// The transfers from the first one not before `start` on.
pub open spec fn from_index(s: Seq<u32>, start: u32) -> Seq<u32> {
    s.subrange(skip_below(s, 0, start), s.len() as int)
}

/// Changes of the `i`-th loaded signal.
pub open spec fn sig(loaded: Seq<(SignalPath, Signal)>, i: int) -> Seq<Change> {
    loaded[i].1.changes@
}

/// Reads of the AXI read channels (as opposed to the write channels).
pub open spec fn is_read(kind: AxiKind) -> bool {
    kind == AxiKind::ReadLite || kind == AxiKind::ReadFull
}

/// Full AXI, with identifiers and last flags.
pub open spec fn is_full(kind: AxiKind) -> bool {
    kind == AxiKind::ReadFull || kind == AxiKind::WriteFull
}

/// Number of signals an AXI analyzer of this kind loads.
pub open spec fn axi_arity(kind: AxiKind) -> int {
    match kind {
        AxiKind::ReadLite => 7,
        AxiKind::ReadFull => 10,
        AxiKind::WriteLite => 9,
        AxiKind::WriteFull => 12,
    }
}

/// Position of the response code among the loaded signals.
pub open spec fn code_index(kind: AxiKind) -> int {
    if is_read(kind) { 6 } else { 8 }
}

/// What an AXI analyzer pairs within the interval of time table indices `start` to `end`.
/// The loaded signals are: clock, reset, then for a read the ready and valid of AR and R,
/// the response code, and for full AXI the AR identifier, the R identifier and the R last
/// flag; for a write the ready and valid of AW, W and B, the response code, and for full
/// AXI the AW identifier, the W last flag and the B identifier.
pub open spec fn axi_channels(kind: AxiKind, loaded: Seq<(SignalPath, Signal)>, tt: Seq<u64>, start: u32, end: u32) -> Channels {
    let clk = sig(loaded, 0);
    let ci = code_index(kind);
    Channels {
        cmd: from_index(transfers_of(clk, sig(loaded, 2), sig(loaded, 3), end), start),
        data: from_index(transfers_of(clk, sig(loaded, 4), sig(loaded, 5), end), start),
        resp: if is_read(kind) {
            Seq::empty()
        } else {
            from_index(transfers_of(clk, sig(loaded, 6), sig(loaded, 7), end), start)
        },
        edges: rising_edges_spec(sig(loaded, 1)),
        end,
        cmd_id: if !is_full(kind) { sig(loaded, ci) } else if is_read(kind) { sig(loaded, 7) } else { sig(loaded, 9) },
        ret_id: if !is_full(kind) { sig(loaded, ci) } else if is_read(kind) { sig(loaded, 8) } else { sig(loaded, 11) },
        last: if !is_full(kind) { sig(loaded, ci) } else if is_read(kind) { sig(loaded, 9) } else { sig(loaded, 10) },
        code: sig(loaded, ci),
        tt,
    }
}

proof fn lemma_rising_in(c: Seq<Change>, i: int, n: int)
    requires
        forall|j: int| 0 <= j < c.len() ==> (#[trigger] c[j]).0 < n,
    ensures
        forall|k: int| 0 <= k < rising_from(c, i).len() ==> #[trigger] rising_from(c, i)[k] < n,
    decreases c.len() - i,
{
    if 0 <= i < c.len() {
        if value_of(c[i].1) == Some(ValueType::V0) && i + 1 < c.len() {
            lemma_rising_in(c, i + 2, n);
            if value_of(c[i + 1].1) == Some(ValueType::V1) {
                let r = rising_from(c, i);
                assert forall|k: int| 0 <= k < r.len() implies #[trigger] r[k] < n by {
                    if k > 0 {
                        assert(r[k] == rising_from(c, i + 2)[k - 1]);
                    } else {
                        assert(c[i + 1].0 < n);
                    }
                }
            } else {
                assert(rising_from(c, i) == rising_from(c, i + 2));
            }
        } else {
            lemma_rising_in(c, i + 1, n);
            assert(rising_from(c, i) == rising_from(c, i + 1));
        }
    }
}

/// The transfers of a channel from the first one not before `start` on.
fn transfers_from(clk: &Signal, ready: &Signal, valid: &Signal, start: u32, end: u32, Ghost(n): Ghost<int>) -> (r: Vec<u32>)
    requires
        end < n,
        forall|j: int| 0 <= j < clk.changes@.len() ==> (#[trigger] clk.changes@[j]).0 < n,
    ensures
        r@ == from_index(transfers_of(clk.changes@, ready.changes@, valid.changes@, end), start),
        forall|i: int| 0 <= i < r@.len() ==> #[trigger] r@[i] < n,
{
    let all = ready_valid_transfers(clk, ready, valid, end);
    proof {
        let o = transfers_of(clk.changes@, ready.changes@, valid.changes@, end);
        let e = rising_edges_spec(clk.changes@);
        lemma_transfers_unique(e, ready.changes@, valid.changes@, end, rv_initial(ready.changes@, valid.changes@, end), all@, o);
        lemma_rising_in(clk.changes@, 0, n);
        assert forall|i: int| 0 <= i < all@.len() implies #[trigger] all@[i] < n by {
            if all@[i] != end {
                let k = choose|k: int| 0 <= k < e.len() && e[k] == all@[i];
                assert(e[k] < n);
            }
        }
    }
    let k = skip_below_exec(&all, 0, start);
    let mut r: Vec<u32> = Vec::new();
    let mut i = k;
    while i < all.len()
        invariant
            k <= i <= all@.len(),
            r@ == all@.subrange(k as int, i as int),
            forall|j: int| 0 <= j < all@.len() ==> #[trigger] all@[j] < n,
        decreases all@.len() - i,
    {
        r.push(all[i]);
        i = i + 1;
        assert(r@ =~= all@.subrange(k as int, i as int));
    }
    r
}

/// First time table index from `k` on whose time is not before `t`.
pub open spec fn first_at_least(tt: Seq<u64>, t: u64, k: int) -> Option<int>
    decreases tt.len() - k,
{
    if k < 0 || k >= tt.len() {
        None
    } else if tt[k] >= t {
        Some(k)
    } else {
        first_at_least(tt, t, k + 1)
    }
}

/// Last time table index below `k` whose time is not after `t`.
pub open spec fn last_at_most(tt: Seq<u64>, t: u64, k: int) -> Option<int>
    decreases k,
{
    if k <= 0 || k > tt.len() {
        None
    } else if tt[k - 1] <= t {
        Some(k - 1)
    } else {
        last_at_most(tt, t, k - 1)
    }
}

fn first_at_least_exec(tt: &TimeTable, t: u64) -> (r: Option<usize>)
    ensures
        match first_at_least(tt@, t, 0) {
            Some(k) => r == Some(k as usize) && 0 <= k < tt@.len(),
            None => r is None,
        },
{
    let v = tt.iter();
    let mut k: usize = 0;
    while k < v.len()
        invariant
            v@ == tt@,
            k <= v@.len(),
            first_at_least(tt@, t, 0) == first_at_least(tt@, t, k as int),
        decreases v@.len() - k,
    {
        if v[k] >= t {
            return Some(k);
        }
        k = k + 1;
    }
    None
}

fn last_at_most_exec(tt: &TimeTable, t: u64) -> (r: Option<usize>)
    ensures
        match last_at_most(tt@, t, tt@.len() as int) {
            Some(k) => r == Some(k as usize) && 0 <= k < tt@.len(),
            None => r is None,
        },
{
    let v = tt.iter();
    let mut k: usize = v.len();
    while k > 0
        invariant
            v@ == tt@,
            k <= v@.len(),
            last_at_most(tt@, t, tt@.len() as int) == last_at_most(tt@, t, k as int),
        decreases k,
    {
        if v[k - 1] <= t {
            return Some(k - 1);
        }
        k = k - 1;
    }
    None
}

/// A finished transaction can be added to the statistics: the clock period is positive,
/// its times fit an `i64`, and a successful one keeps the success count within `u32`.
pub open spec fn add_ok(u: MultiChannelView, x: Done, tt: Seq<u64>) -> bool {
    &&& 0 < u.clock_period <= i64::MAX
    &&& time_in_range(tt[x.0 as int])
    &&& time_in_range(tt[x.1 as int])
    &&& time_in_range(tt[x.2 as int])
    &&& time_in_range(tt[x.3 as int])
    &&& time_in_range(tt[x.5 as int])
    &&& (response_ok(x.4) ==> u.correct_num < u32::MAX)
}

/// The statistics with a finished transaction added (see [MultiChannelBusUsage::add_transaction]).
pub open spec fn added(u: MultiChannelView, x: Done, tt: Seq<u64>) -> MultiChannelView {
    let clk = u.clock_period;
    let start = tt[x.0 as int];
    let resp = tt[x.1 as int];
    let last = tt[x.2 as int];
    let first = tt[x.3 as int];
    let next = tt[x.5 as int];
    MultiChannelView {
        cmd_to_completion: u.cmd_to_completion.push(period_between(start, resp, clk)),
        cmd_to_first_data: u.cmd_to_first_data.push(period_between(start, first, clk)),
        last_data_to_completion: u.last_data_to_completion.push(period_between(last, resp, clk)),
        transaction_delays: u.transaction_delays.push(period_between(resp, next, clk)),
        correct_num: if response_ok(x.4) { (u.correct_num + 1) as u32 } else { u.correct_num },
        errors: if response_ok(x.4) { u.errors } else { u.errors.push(start) },
        ..u
    }
}

/// The statistics with the finished transactions added in order; `None` when one cannot be.
pub open spec fn add_all(u: MultiChannelView, d: Seq<Done>, tt: Seq<u64>) -> Option<MultiChannelView>
    decreases d.len(),
{
    if d.len() == 0 {
        Some(u)
    } else {
        match add_all(u, d.drop_last(), tt) {
            None => None,
            Some(u1) => if add_ok(u1, d.last(), tt) { Some(added(u1, d.last(), tt)) } else { None },
        }
    }
}

proof fn lemma_add_all_none(u: MultiChannelView, d: Seq<Done>, tt: Seq<u64>, k: int)
    requires
        0 <= k <= d.len(),
        add_all(u, d.take(k), tt) is None,
    ensures
        add_all(u, d, tt) is None,
    decreases d.len() - k,
{
    if k == d.len() {
        assert(d.take(k) =~= d);
    } else {
        assert(d.take(k + 1).drop_last() =~= d.take(k));
        lemma_add_all_none(u, d, tt, k + 1);
    }
}

fn add_completed(usage: &mut MultiChannelBusUsage, v: &Vec<Completed>, tt: &TimeTable) -> (r: Result<(), AxiError>)
    requires
        forall|i: int| 0 <= i < v@.len() ==> done_in(#[trigger] dones(v@)[i], tt@.len() as int),
    ensures
        match add_all(old(usage)@, dones(v@), tt@) {
            Some(u) => r is Ok && final(usage)@ == u,
            None => r == Err::<(), AxiError>(AxiError::Overflow),
        },
{
    let ghost u0 = usage@;
    let ghost d = dones(v@);
    let mut i: usize = 0;
    assert(d.take(0).len() == 0);
    while i < v.len()
        invariant
            i <= v@.len(),
            d == dones(v@),
            d.len() == v@.len(),
            forall|j: int| 0 <= j < v@.len() ==> done_in(#[trigger] dones(v@)[j], tt@.len() as int),
            add_all(u0, d.take(i as int), tt@) == Some(usage@),
            u0 == old(usage)@,
        decreases v@.len() - i,
    {
        let x = &v[i];
        assert(d[i as int] == done_of(*x));
        assert(done_in(d[i as int], tt@.len() as int));
        assert(d.take(i + 1).drop_last() =~= d.take(i as int));
        assert(d.take(i + 1).last() == d[i as int]);
        let clk = usage.clock_period();
        let ok = crate::bus_usage::is_response_ok(x.code.as_str());
        let start = tt.at(x.start as usize);
        let resp = tt.at(x.resp as usize);
        let last = tt.at(x.last_data as usize);
        let first = tt.at(x.first_data as usize);
        let next = tt.at(x.next as usize);
        let lim: u64 = 0x7fff_ffff_ffff_ffff;
        if clk == 0 || clk > lim || start > lim || resp > lim || last > lim || first > lim || next > lim
            || (ok && usage.correct_num() == u32::MAX) {
            proof {
                assert(!add_ok(usage@, d[i as int], tt@));
                lemma_add_all_none(u0, d, tt@, i + 1);
            }
            return Err(AxiError::Overflow);
        }
        usage.add_transaction(start, resp, last, first, x.code.as_str(), next);
        i = i + 1;
    }
    assert(d.take(i as int) =~= d);
    Ok(())
}

/// One interval of an AXI analysis: the statistics and the reset count so far, updated
/// with what the interval from `iv[0]` to `iv[1]` (times) holds.
pub open spec fn one_interval(
    kind: AxiKind,
    active: ValueType,
    loaded: Seq<(SignalPath, Signal)>,
    tt: Seq<u64>,
    iv: [u64; 2],
    u: MultiChannelView,
    reset: u32,
) -> Result<(MultiChannelView, u32), AxiError> {
    match first_at_least(tt, iv[0], 0) {
        None => Err(AxiError::InvalidIntervalSet),
        Some(s) => match last_at_most(tt, iv[1], tt.len() as int) {
            None => Err(AxiError::InvalidIntervalSet),
            Some(e) => match reset_cycles(sig(loaded, 1), s as u32, e as u32, active) {
                None => Err(AxiError::Overflow),
                Some(rc) => if reset + rc > u32::MAX {
                    Err(AxiError::Overflow)
                } else {
                    let ch = axi_channels(kind, loaded, tt, s as u32, e as u32);
                    match run(kind, ch, start_state(ch)) {
                        Err(err) => Err(err),
                        Ok(d) => match add_all(u, d, tt) {
                            None => Err(AxiError::Overflow),
                            Some(u2) => if iv[1] < iv[0] || u2.time + (iv[1] - iv[0]) > u64::MAX {
                                Err(AxiError::Overflow)
                            } else {
                                Ok((MultiChannelView { time: (u2.time + (iv[1] - iv[0])) as u64, ..u2 }, (reset + rc) as u32))
                            },
                        },
                    }
                },
            },
        },
    }
}

/// The first `k` intervals of an AXI analysis.
pub open spec fn calc_intervals(
    kind: AxiKind,
    active: ValueType,
    loaded: Seq<(SignalPath, Signal)>,
    tt: Seq<u64>,
    ivs: Seq<[u64; 2]>,
    k: int,
    u0: MultiChannelView,
) -> Result<(MultiChannelView, u32), AxiError>
    decreases k,
{
    if k <= 0 {
        Ok((u0, 0))
    } else {
        match calc_intervals(kind, active, loaded, tt, ivs, k - 1, u0) {
            Err(e) => Err(e),
            Ok((u, reset)) => one_interval(kind, active, loaded, tt, ivs[k - 1], u, reset),
        }
    }
}

/// Empty statistics of a multichannel bus.
pub open spec fn empty_multi(name: Seq<char>, window: u32, clk: u64) -> MultiChannelView {
    MultiChannelView {
        bus_name: name,
        cmd_to_completion: Seq::empty(),
        cmd_to_first_data: Seq::empty(),
        last_data_to_completion: Seq::empty(),
        transaction_delays: Seq::empty(),
        errors: Seq::empty(),
        correct_num: 0,
        window_length: window,
        clock_period: clk,
        time: 0,
        time_in_reset: 0,
        intervals: Seq::empty(),
    }
}

/// The intervals an AXI analysis walks: the given ones, or without any the whole trace up
/// to the clock's last change.
pub open spec fn axi_intervals(intervals: Seq<[u64; 2]>, whole: [u64; 2]) -> Seq<[u64; 2]> {
    if intervals.len() == 0 { seq![whole] } else { intervals }
}

/// What an AXI analyzer of kind `kind` calculates: the statistics of bus `name` over the
/// given intervals (from time 0 to the time of the clock's last change where none is
/// given), with the clock period taken as the time of the trace's third time index.
pub open spec fn axi_calc(
    kind: AxiKind,
    name: Seq<char>,
    window: u32,
    active: ValueType,
    loaded: Seq<(SignalPath, Signal)>,
    intervals: Seq<[u64; 2]>,
    tt: Seq<u64>,
) -> Result<MultiChannelView, AxiError> {
    let clk = sig(loaded, 0);
    if clk.len() == 0 {
        Err(AxiError::NoClockValues)
    } else if tt.len() < 3 {
        Err(AxiError::TraceTooShort)
    } else {
        let ivs = axi_intervals(intervals, [0u64, tt[clk.last().0 as int]]);
        match calc_intervals(kind, active, loaded, tt, ivs, ivs.len() as int, empty_multi(name, window, tt[2])) {
            Err(e) => Err(e),
            Ok((u, reset)) => Ok(MultiChannelView { time_in_reset: reset, intervals: ivs, ..u }),
        }
    }
}

fn kind_is_read(kind: AxiKind) -> (r: bool)
    ensures
        r == is_read(kind),
{
    match kind {
        AxiKind::ReadLite | AxiKind::ReadFull => true,
        _ => false,
    }
}

/// The transactions finished within the interval of time table indices `s_idx` to `e_idx`.
fn interval_transactions(kind: AxiKind, loaded: &Vec<(SignalPath, Signal)>, tt: &TimeTable, s_idx: u32, e_idx: u32) -> (r: Result<Vec<Completed>, AxiError>)
    requires
        trace_ok(loaded@, tt@),
        loaded@.len() >= axi_arity(kind),
        tt@.len() <= u32::MAX,
        e_idx < tt@.len(),
    ensures
        match run(kind, axi_channels(kind, loaded@, tt@, s_idx, e_idx), start_state(axi_channels(kind, loaded@, tt@, s_idx, e_idx))) {
            Ok(d) => r matches Ok(v) && dones(v@) == d,
            Err(e) => r == Err::<Vec<Completed>, AxiError>(e),
        },
        r matches Ok(v) ==> forall|i: int| 0 <= i < v@.len() ==> done_in(#[trigger] dones(v@)[i], tt@.len() as int),
{
    let ghost n = tt@.len() as int;
    let clk = &loaded[0].1;
    proof {
        assert(loaded@[0].1.wf());
        assert forall|j: int| 0 <= j < clk.changes@.len() implies (#[trigger] clk.changes@[j]).0 < n by {
            assert(loaded@[0].1.changes@[j].0 < n);
        }
    }
    let read = kind_is_read(kind);
    let cmd = transfers_from(clk, &loaded[2].1, &loaded[3].1, s_idx, e_idx, Ghost(n));
    let data = transfers_from(clk, &loaded[4].1, &loaded[5].1, s_idx, e_idx, Ghost(n));
    let resp = if read {
        let v: Vec<u32> = Vec::new();
        assert(v@ =~= Seq::<u32>::empty());
        v
    } else {
        transfers_from(clk, &loaded[6].1, &loaded[7].1, s_idx, e_idx, Ghost(n))
    };
    let edges = loaded[1].1.rising_edges();
    let streams = Streams { cmd, data, resp, edges, end: e_idx };
    let ci: usize = if read { 6 } else { 8 };
    let (a, b, c): (usize, usize, usize) = match kind {
        AxiKind::ReadFull => (7, 8, 9),
        AxiKind::WriteFull => (9, 11, 10),
        _ => (ci, ci, ci),
    };
    proof {
        assert(loaded@[a as int].1.wf());
        assert(loaded@[b as int].1.wf());
        assert(loaded@[c as int].1.wf());
        assert(loaded@[ci as int].1.wf());
        let ch = channels_of(&streams, &loaded@[a as int].1, &loaded@[b as int].1, &loaded@[c as int].1, &loaded@[ci as int].1, tt@);
        assert(ch == axi_channels(kind, loaded@, tt@, s_idx, e_idx));
    }
    pair_transactions(kind, &streams, &loaded[a].1, &loaded[b].1, &loaded[c].1, &loaded[ci].1, tt)
}

proof fn lemma_calc_err(
    kind: AxiKind,
    active: ValueType,
    loaded: Seq<(SignalPath, Signal)>,
    tt: Seq<u64>,
    ivs: Seq<[u64; 2]>,
    k: int,
    k2: int,
    u0: MultiChannelView,
)
    requires
        0 <= k <= k2,
        calc_intervals(kind, active, loaded, tt, ivs, k, u0) is Err,
    ensures
        calc_intervals(kind, active, loaded, tt, ivs, k2, u0) == calc_intervals(kind, active, loaded, tt, ivs, k, u0),
    decreases k2 - k,
{
    if k2 > k {
        lemma_calc_err(kind, active, loaded, tt, ivs, k, k2 - 1, u0);
    }
}

fn copy_intervals(v: &Vec<[u64; 2]>) -> (r: Vec<[u64; 2]>)
    ensures
        r@ == v@,
{
    let mut r: Vec<[u64; 2]> = Vec::new();
    let mut i: usize = 0;
    while i < v.len()
        invariant
            i <= v@.len(),
            r@ == v@.take(i as int),
        decreases v@.len() - i,
    {
        r.push(v[i]);
        i = i + 1;
        assert(r@ =~= v@.take(i as int));
    }
    assert(v@.take(i as int) =~= v@);
    r
}

/// Statistics of an AXI interface of kind `kind` over a trace whose signals are loaded in
/// the order [axi_channels] gives, within the given intervals.
pub fn axi_calculate(
    kind: AxiKind,
    name: &str,
    window_length: u32,
    active: ValueType,
    loaded: &Vec<(SignalPath, Signal)>,
    intervals: &Vec<[u64; 2]>,
    tt: &TimeTable,
) -> (r: Result<MultiChannelBusUsage, AxiError>)
    requires
        trace_ok(loaded@, tt@),
        loaded@.len() >= axi_arity(kind),
        tt@.len() <= u32::MAX,
    ensures
        match axi_calc(kind, name@, window_length, active, loaded@, intervals@, tt@) {
            Ok(u) => r matches Ok(m) && m@ == u,
            Err(e) => r matches Err(x) && x == e,
        },
{
    let clk = &loaded[0].1;
    if clk.changes.len() == 0 {
        return Err(AxiError::NoClockValues);
    }
    let clock_period = match tt.get(2) {
        Some(t) => *t,
        None => {
            return Err(AxiError::TraceTooShort);
        },
    };
    let last_time = clk.changes[clk.changes.len() - 1].0;
    proof {
        assert(loaded@[0].1.changes@[loaded@[0].1.changes@.len() - 1].0 < tt@.len());
    }
    let ghost whole: [u64; 2] = [0u64, tt@[last_time as int]];
    let ivs: Vec<[u64; 2]> = if intervals.len() == 0 {
        let w = vec![[0u64, tt.at(last_time as usize)]];
        assert(w@ =~= seq![whole]);
        w
    } else {
        copy_intervals(intervals)
    };
    assert(ivs@ == axi_intervals(intervals@, whole));
    let mut usage = MultiChannelBusUsage::new(name, window_length, clock_period);
    let mut reset: u32 = 0;
    let ghost u0 = usage@;
    assert(u0 == empty_multi(name@, window_length, tt@[2]));
    let mut k: usize = 0;
    while k < ivs.len()
        invariant
            k <= ivs@.len(),
            trace_ok(loaded@, tt@),
            loaded@.len() >= axi_arity(kind),
            tt@.len() <= u32::MAX,
            calc_intervals(kind, active, loaded@, tt@, ivs@, k as int, u0) == Ok::<(MultiChannelView, u32), AxiError>((usage@, reset)),
            ivs@ == axi_intervals(intervals@, whole),
            u0 == empty_multi(name@, window_length, tt@[2]),
            tt@.len() >= 3,
            sig(loaded@, 0).len() > 0,
            whole == [0u64, tt@[sig(loaded@, 0).last().0 as int]],
        decreases ivs@.len() - k,
    {
        let iv = ivs[k];
        let s_idx = match first_at_least_exec(tt, iv[0]) {
            Some(x) => x,
            None => {
                proof {
                    lemma_calc_err(kind, active, loaded@, tt@, ivs@, k + 1, ivs@.len() as int, u0);
                }
                return Err(AxiError::InvalidIntervalSet);
            },
        };
        let e_idx = match last_at_most_exec(tt, iv[1]) {
            Some(x) => x,
            None => {
                proof {
                    lemma_calc_err(kind, active, loaded@, tt@, ivs@, k + 1, ivs@.len() as int, u0);
                }
                return Err(AxiError::InvalidIntervalSet);
            },
        };
        let s32 = s_idx as u32;
        let e32 = e_idx as u32;
        assert(loaded@[1].1.wf());
        let rc = match count_reset(&loaded[1].1, active, s32, e32) {
            Some(x) => x,
            None => {
                proof {
                    lemma_calc_err(kind, active, loaded@, tt@, ivs@, k + 1, ivs@.len() as int, u0);
                }
                return Err(AxiError::Overflow);
            },
        };
        if reset > u32::MAX - rc {
            proof {
                lemma_calc_err(kind, active, loaded@, tt@, ivs@, k + 1, ivs@.len() as int, u0);
            }
            return Err(AxiError::Overflow);
        }
        let done = match interval_transactions(kind, loaded, tt, s32, e32) {
            Ok(d) => d,
            Err(e) => {
                proof {
                    lemma_calc_err(kind, active, loaded@, tt@, ivs@, k + 1, ivs@.len() as int, u0);
                }
                return Err(e);
            },
        };
        match add_completed(&mut usage, &done, tt) {
            Ok(()) => {},
            Err(e) => {
                proof {
                    lemma_calc_err(kind, active, loaded@, tt@, ivs@, k + 1, ivs@.len() as int, u0);
                }
                return Err(e);
            },
        }
        if iv[1] < iv[0] || usage.time() > u64::MAX - (iv[1] - iv[0]) {
            proof {
                lemma_calc_err(kind, active, loaded@, tt@, ivs@, k + 1, ivs@.len() as int, u0);
            }
            return Err(AxiError::Overflow);
        }
        usage.add_time(iv[1] - iv[0]);
        reset = reset + rc;
        k = k + 1;
    }
    usage.end(reset, ivs);
    Ok(usage)
}

/// The handshake signals of one AXI channel.
pub struct AXIChannel {
    pub ready: SignalPath,
    pub valid: SignalPath,
}

/// The signals that full AXI adds to a read interface.
pub struct AXIFullRd {
    pub ar_id: SignalPath,
    pub r_id: SignalPath,
    pub r_last: SignalPath,
}

/// Analyzer of an AXI read interface: it pairs commands on AR with reads on R.
pub struct AXIRdAnalyzer {
    pub common: BusCommon,
    pub ar: AXIChannel,
    pub r: AXIChannel,
    pub r_resp: SignalPath,
    /// Without it the interface is AXI-Lite.
    pub full: Option<AXIFullRd>,
    pub window_length: u32,
    /// Triggers that must be analyzed before this analyzer.
    pub required: Vec<TriggerName>,
    /// When the analyzer is active.
    pub sink: TriggerSink,
}

/// The signals that full AXI adds to a write interface.
pub struct AXIFullWr {
    pub aw_id: SignalPath,
    pub w_last: SignalPath,
    pub b_id: SignalPath,
}

/// Analyzer of an AXI write interface: it pairs commands on AW with data on W and
/// responses on B.
pub struct AXIWrAnalyzer {
    pub common: BusCommon,
    pub aw: AXIChannel,
    pub w: AXIChannel,
    pub b: AXIChannel,
    pub b_resp: SignalPath,
    /// Without it the interface is AXI-Lite.
    pub full: Option<AXIFullWr>,
    pub window_length: u32,
    /// Triggers that must be analyzed before this analyzer.
    pub required: Vec<TriggerName>,
    /// When the analyzer is active.
    pub sink: TriggerSink,
}

impl AXIRdAnalyzer {
    pub open spec fn kind_spec(&self) -> AxiKind {
        if self.full is Some { AxiKind::ReadFull } else { AxiKind::ReadLite }
    }

    /// The signals the analyzer loads, in the order [axi_channels] reads them.
    pub open spec fn signals_spec(&self) -> Seq<SignalPath> {
        let base = seq![
            self.common.clk_spec(),
            self.common.rst_spec(),
            self.ar.ready,
            self.ar.valid,
            self.r.ready,
            self.r.valid,
            self.r_resp,
        ];
        match self.full {
            Some(f) => base + seq![f.ar_id, f.r_id, f.r_last],
            None => base,
        }
    }

    pub fn kind(&self) -> (r: AxiKind)
        ensures
            r == self.kind_spec(),
    {
        match self.full {
            Some(_) => AxiKind::ReadFull,
            None => AxiKind::ReadLite,
        }
    }

    pub fn bus_name(&self) -> (r: &str)
        ensures
            r@ == self.common.name_spec(),
    {
        self.common.bus_name()
    }

    /// Signal paths the analyzer reads: clock, reset, AR ready and valid, R ready and
    /// valid, R response, then for full AXI the AR identifier, R identifier and R last.
    pub fn get_signals(&self) -> (r: Vec<&SignalPath>)
        ensures
            r@.len() == self.signals_spec().len(),
            forall|i: int| 0 <= i < r@.len() ==> *r@[i] == self.signals_spec()[i],
            self.signals_spec().len() == axi_arity(self.kind_spec()),
    {
        let mut signals: Vec<&SignalPath> = vec![
            self.common.clk_path(),
            self.common.rst_path(),
            &self.ar.ready,
            &self.ar.valid,
            &self.r.ready,
            &self.r.valid,
            &self.r_resp,
        ];
        if let Some(full) = &self.full {
            signals.push(&full.ar_id);
            signals.push(&full.r_id);
            signals.push(&full.r_last);
        }
        signals
    }

    /// Statistics of the interface over a trace whose signals are loaded in the order of
    /// [AXIRdAnalyzer::get_signals], within the given intervals (the whole trace where
    /// none is given).
    pub fn calculate(&self, loaded: &Vec<(SignalPath, Signal)>, intervals: &Vec<[u64; 2]>, tt: &TimeTable) -> (r: Result<BusUsage, AxiError>)
        requires
            trace_ok(loaded@, tt@),
            loaded@.len() >= axi_arity(self.kind_spec()),
            tt@.len() <= u32::MAX,
        ensures
            match axi_calc(
                self.kind_spec(),
                self.common.name_spec(),
                self.window_length,
                reset_value(self.common.rst_active_spec()),
                loaded@,
                intervals@,
                tt@,
            ) {
                Ok(u) => r matches Ok(BusUsage::MultiChannel(m)) && m@ == u,
                Err(e) => r == Err::<BusUsage, AxiError>(e),
            },
    {
        let usage = axi_calculate(
            self.kind(),
            self.common.bus_name(),
            self.window_length,
            self.common.rst_active_value(),
            loaded,
            intervals,
            tt,
        )?;
        Ok(BusUsage::MultiChannel(usage))
    }
}

impl AXIWrAnalyzer {
    pub open spec fn kind_spec(&self) -> AxiKind {
        if self.full is Some { AxiKind::WriteFull } else { AxiKind::WriteLite }
    }

    /// The signals the analyzer loads, in the order [axi_channels] reads them.
    pub open spec fn signals_spec(&self) -> Seq<SignalPath> {
        let base = seq![
            self.common.clk_spec(),
            self.common.rst_spec(),
            self.aw.ready,
            self.aw.valid,
            self.w.ready,
            self.w.valid,
            self.b.ready,
            self.b.valid,
            self.b_resp,
        ];
        match self.full {
            Some(f) => base + seq![f.aw_id, f.w_last, f.b_id],
            None => base,
        }
    }

    pub fn kind(&self) -> (r: AxiKind)
        ensures
            r == self.kind_spec(),
    {
        match self.full {
            Some(_) => AxiKind::WriteFull,
            None => AxiKind::WriteLite,
        }
    }

    pub fn bus_name(&self) -> (r: &str)
        ensures
            r@ == self.common.name_spec(),
    {
        self.common.bus_name()
    }

    /// Signal paths the analyzer reads: clock, reset, AW, W and B ready and valid, B
    /// response, then for full AXI the AW identifier, W last and B identifier.
    pub fn get_signals(&self) -> (r: Vec<&SignalPath>)
        ensures
            r@.len() == self.signals_spec().len(),
            forall|i: int| 0 <= i < r@.len() ==> *r@[i] == self.signals_spec()[i],
            self.signals_spec().len() == axi_arity(self.kind_spec()),
    {
        let mut signals: Vec<&SignalPath> = vec![
            self.common.clk_path(),
            self.common.rst_path(),
            &self.aw.ready,
            &self.aw.valid,
            &self.w.ready,
            &self.w.valid,
            &self.b.ready,
            &self.b.valid,
            &self.b_resp,
        ];
        if let Some(full) = &self.full {
            signals.push(&full.aw_id);
            signals.push(&full.w_last);
            signals.push(&full.b_id);
        }
        signals
    }

    /// Statistics of the interface over a trace whose signals are loaded in the order of
    /// [AXIWrAnalyzer::get_signals], within the given intervals (the whole trace where
    /// none is given).
    pub fn calculate(&self, loaded: &Vec<(SignalPath, Signal)>, intervals: &Vec<[u64; 2]>, tt: &TimeTable) -> (r: Result<BusUsage, AxiError>)
        requires
            trace_ok(loaded@, tt@),
            loaded@.len() >= axi_arity(self.kind_spec()),
            tt@.len() <= u32::MAX,
        ensures
            match axi_calc(
                self.kind_spec(),
                self.common.name_spec(),
                self.window_length,
                reset_value(self.common.rst_active_spec()),
                loaded@,
                intervals@,
                tt@,
            ) {
                Ok(u) => r matches Ok(BusUsage::MultiChannel(m)) && m@ == u,
                Err(e) => r == Err::<BusUsage, AxiError>(e),
            },
    {
        let usage = axi_calculate(
            self.kind(),
            self.common.bus_name(),
            self.window_length,
            self.common.rst_active_value(),
            loaded,
            intervals,
            tt,
        )?;
        Ok(BusUsage::MultiChannel(usage))
    }
}

/// The period lists of multichannel statistics are in step: one entry per finished
/// transaction in each, and every finished transaction is either correct or an error.
pub open spec fn counts_consistent(u: MultiChannelView) -> bool {
    &&& u.cmd_to_first_data.len() == u.cmd_to_completion.len()
    &&& u.last_data_to_completion.len() == u.cmd_to_completion.len()
    &&& u.transaction_delays.len() == u.cmd_to_completion.len()
    &&& u.correct_num + u.errors.len() == u.cmd_to_completion.len()
}

proof fn lemma_add_all_counts(u: MultiChannelView, d: Seq<Done>, tt: Seq<u64>)
    requires
        counts_consistent(u),
    ensures
        add_all(u, d, tt) matches Some(u2) ==> counts_consistent(u2) && u2.cmd_to_completion.len()
            == u.cmd_to_completion.len() + d.len(),
    decreases d.len(),
{
    if d.len() > 0 {
        lemma_add_all_counts(u, d.drop_last(), tt);
    }
}

proof fn lemma_calc_counts(
    kind: AxiKind,
    active: ValueType,
    loaded: Seq<(SignalPath, Signal)>,
    tt: Seq<u64>,
    ivs: Seq<[u64; 2]>,
    k: int,
    u0: MultiChannelView,
)
    requires
        counts_consistent(u0),
    ensures
        calc_intervals(kind, active, loaded, tt, ivs, k, u0) matches Ok((u, _)) ==> counts_consistent(u),
    decreases k,
{
    if k > 0 {
        lemma_calc_counts(kind, active, loaded, tt, ivs, k - 1, u0);
        if let Ok((u, reset)) = calc_intervals(kind, active, loaded, tt, ivs, k - 1, u0) {
            let iv = ivs[k - 1];
            if let Some(s) = first_at_least(tt, iv[0], 0) {
                if let Some(e) = last_at_most(tt, iv[1], tt.len() as int) {
                    let ch = axi_channels(kind, loaded, tt, s as u32, e as u32);
                    if let Ok(d) = run(kind, ch, start_state(ch)) {
                        lemma_add_all_counts(u, d, tt);
                    }
                }
            }
        }
    }
}

/// Law: in the statistics of an AXI interface the four period lists (command to
/// completion, command to first data, last data to completion, delays to the next
/// command) have one entry per finished transaction, and each finished transaction is
/// counted either as correct or as an error.
pub proof fn lemma_axi_counts(
    kind: AxiKind,
    name: Seq<char>,
    window: u32,
    active: ValueType,
    loaded: Seq<(SignalPath, Signal)>,
    intervals: Seq<[u64; 2]>,
    tt: Seq<u64>,
)
    ensures
        axi_calc(kind, name, window, active, loaded, intervals, tt) matches Ok(u) ==> counts_consistent(u),
{
    let clk = sig(loaded, 0);
    if clk.len() > 0 && tt.len() >= 3 {
        let ivs = axi_intervals(intervals, [0u64, tt[clk.last().0 as int]]);
        lemma_calc_counts(kind, active, loaded, tt, ivs, ivs.len() as int, empty_multi(name, window, tt[2]));
    }
}

/// Number of commands waiting in all queues.
pub open spec fn waiting(q: Seq<Seq<Transaction>>) -> int
    decreases q.len(),
{
    if q.len() == 0 {
        0
    } else {
        waiting(q.drop_last()) + q.last().len()
    }
}

proof fn lemma_waiting_update(q: Seq<Seq<Transaction>>, i: int, x: Seq<Transaction>)
    requires
        0 <= i < q.len(),
    ensures
        waiting(q.update(i, x)) == waiting(q) - q[i].len() + x.len(),
    decreases q.len(),
{
    if i == q.len() - 1 {
        assert(q.update(i, x).drop_last() =~= q.drop_last());
    } else {
        assert(q.update(i, x).drop_last() =~= q.drop_last().update(i, x));
        lemma_waiting_update(q.drop_last(), i, x);
    }
}

proof fn lemma_waiting_nonneg(q: Seq<Seq<Transaction>>)
    ensures
        waiting(q) >= 0,
    decreases q.len(),
{
    if q.len() > 0 {
        lemma_waiting_nonneg(q.drop_last());
    }
}

proof fn lemma_enqueue_waiting(ids: Seq<Seq<char>>, queues: Seq<Seq<Transaction>>, id: Seq<char>, t: Transaction)
    requires
        ids.len() == queues.len(),
    ensures
        ({
            let (ids2, queues2, cur) = enqueue(ids, queues, id, t);
            &&& waiting(queues2) == waiting(queues) + 1
            &&& ids2.len() == queues2.len()
            &&& 0 <= cur < queues2.len()
            &&& queues2[cur].len() > 0
        }),
{
    lemma_find_id(ids, id, 0);
    let i = find_id(ids, id, 0);
    if i < ids.len() {
        lemma_waiting_update(queues, i, queues[i].push(t));
    } else {
        assert(queues.push(seq![t]).drop_last() =~= queues);
    }
}

/// Finished transactions and waiting commands together are no more than the commands read.
pub open spec fn bounded(st: ProgressView) -> bool {
    &&& st.done.len() + waiting(st.queues) <= st.c
    &&& st.ids.len() == st.queues.len()
}

proof fn lemma_cmd_bounded(ch: Channels, st: ProgressView, id_sig: AxiSignal)
    requires
        bounded(st),
        0 <= st.c,
    ensures
        cmd_step(ch, st, id_sig) matches Step::Go(s2) ==> bounded(s2) && writing_ok(s2),
        cmd_step(ch, st, id_sig) matches Step::Stop(Ok(d)) ==> d == st.done,
{
    if st.c < ch.cmd.len() {
        if let Some(id) = id_at(ch.cmd_id, ch.cmd[st.c]) {
            let t = Transaction { start: ch.cmd[st.c], first_data: None, last_data: None, next: next_cmd(ch, st.c + 1) };
            lemma_enqueue_waiting(st.ids, st.queues, id, t);
        }
    }
}

proof fn lemma_cleared_bounded(st: ProgressView)
    requires
        bounded(st),
    ensures
        bounded(ProgressView { ids: Seq::empty(), queues: Seq::empty(), phase: 0, ..st }),
{
    lemma_waiting_nonneg(st.queues);
    assert(waiting(Seq::<Seq<Transaction>>::empty()) == 0);
}

proof fn lemma_step_bounded(kind: AxiKind, ch: Channels, st: ProgressView)
    requires
        bounded(st),
        0 <= st.c,
        kind == AxiKind::WriteFull ==> writing_ok(st),
    ensures
        match step(kind, ch, st) {
            Step::Go(s2) => bounded(s2) && (kind == AxiKind::WriteFull ==> writing_ok(s2)),
            Step::Stop(Ok(d)) => d == st.done,
            _ => true,
        },
{
    lemma_waiting_nonneg(st.queues);
    lemma_cleared_bounded(st);
    match kind {
        AxiKind::ReadLite | AxiKind::WriteLite => {},
        AxiKind::ReadFull => {
            if st.phase == 0 {
                lemma_cmd_bounded(ch, st, AxiSignal::ArId);
            } else if 0 <= st.d < ch.data.len() && ch.data[st.d] < st.next && ch.data[st.d] <= st.next_rst {
                let read = ch.data[st.d];
                if let Some(id) = id_at(ch.ret_id, read) {
                    let i = find_id(st.ids, id, 0);
                    lemma_find_id(st.ids, id, 0);
                    if i < st.ids.len() && st.queues[i].len() > 0 {
                        let t = st.queues[i][0];
                        let fd = match t.first_data {
                            Some(f) => f,
                            None => read,
                        };
                        lemma_waiting_update(st.queues, i, st.queues[i].drop_first());
                        lemma_waiting_update(st.queues, i, st.queues[i].update(0, Transaction { first_data: Some(fd), ..t }));
                    }
                }
            }
        },
        AxiKind::WriteFull => {
            if st.phase == 0 {
                lemma_cmd_bounded(ch, st, AxiSignal::AwId);
            } else if st.phase == 1 {
                if 0 <= st.d < ch.data.len() && ch.data[st.d] <= st.next_rst {
                    let write = ch.data[st.d];
                    let q = st.queues[st.cur];
                    let t = q.last();
                    let t1 = match t.first_data {
                        Some(_) => t,
                        None => Transaction { first_data: Some(write), ..t },
                    };
                    lemma_waiting_update(st.queues, st.cur, q.update(q.len() - 1, Transaction { last_data: Some(write), ..t1 }));
                    lemma_waiting_update(st.queues, st.cur, q.update(q.len() - 1, t1));
                }
            } else if 0 <= st.b < ch.resp.len() && ch.resp[st.b] < st.next && ch.resp[st.b] <= st.next_rst {
                let rt = ch.resp[st.b];
                if let Some(id) = id_at(ch.ret_id, rt) {
                    let i = find_id(st.ids, id, 0);
                    lemma_find_id(st.ids, id, 0);
                    if i < st.ids.len() && st.queues[i].len() > 0 {
                        lemma_waiting_update(st.queues, i, st.queues[i].drop_first());
                    }
                }
            }
        },
    }
}

proof fn lemma_run_bounded(kind: AxiKind, ch: Channels, st: ProgressView)
    requires
        bounded(st),
        0 <= st.c <= ch.cmd.len(),
        kind == AxiKind::WriteFull ==> writing_ok(st),
    ensures
        run(kind, ch, st) matches Ok(d) ==> d.len() <= ch.cmd.len(),
    decreases ch.cmd.len() - st.c, ch.data.len() - st.d + ch.resp.len() - st.b, phase_rank(st.phase),
{
    lemma_step_bounded(kind, ch, st);
    lemma_waiting_nonneg(st.queues);
    match step(kind, ch, st) {
        Step::Go(s2) => {
            if progresses(ch, st, s2) && 0 <= st.c && 0 <= st.d && 0 <= st.b {
                lemma_run_bounded(kind, ch, s2);
            }
        },
        _ => {},
    }
}

/// Law: an interval never finishes more transactions than it has command transfers: each
/// command finishes at most once.
pub proof fn lemma_finished_at_most_commands(kind: AxiKind, ch: Channels)
    ensures
        run(kind, ch, start_state(ch)) matches Ok(d) ==> d.len() <= ch.cmd.len(),
{
    assert(waiting(Seq::<Seq<Transaction>>::empty()) == 0);
    lemma_run_bounded(kind, ch, start_state(ch));
}


/// A waiting command of the pairing: its start is a command transfer, and the data times it
/// has recorded are data transfers, its last data one with the last flag.
pub open spec fn waiting_from_transfers(ch: Channels, t: Transaction) -> bool {
    &&& ch.cmd.contains(t.start)
    &&& t.first_data matches Some(f) ==> ch.data.contains(f)
    &&& t.last_data matches Some(l) ==> ch.data.contains(l) && logic_at(ch.last, l) == Some(ValueType::V1)
}

pub open spec fn queues_from_transfers(ch: Channels, q: Seq<Seq<Transaction>>) -> bool {
    forall|i: int, j: int| 0 <= i < q.len() && 0 <= j < q[i].len() ==> waiting_from_transfers(ch, #[trigger] q[i][j])
}

/// A finished transaction of an interface of kind `kind`: it started at a command transfer,
/// its first and last data are data transfers, and its response is the read that finished
/// it (read) or a transfer of the response channel (write); on an AXI interface the last
/// data carries the last flag, and on an AXI-Lite interface the first data is the last.
pub open spec fn finished_from_transfers(kind: AxiKind, ch: Channels, x: Done) -> bool {
    &&& ch.cmd.contains(x.0)
    &&& ch.data.contains(x.2)
    &&& ch.data.contains(x.3)
    &&& (kind == AxiKind::ReadFull || kind == AxiKind::ReadLite) ==> x.1 == x.2
    &&& (kind == AxiKind::WriteFull || kind == AxiKind::WriteLite) ==> ch.resp.contains(x.1)
    &&& (kind == AxiKind::ReadFull || kind == AxiKind::WriteFull) ==> logic_at(ch.last, x.2) == Some(ValueType::V1)
    &&& (kind == AxiKind::ReadLite || kind == AxiKind::WriteLite) ==> x.3 == x.2
}

proof fn lemma_queue_update_from_transfers(ch: Channels, q: Seq<Seq<Transaction>>, i: int, x: Seq<Transaction>)
    requires
        queues_from_transfers(ch, q),
        0 <= i < q.len(),
        forall|j: int| 0 <= j < x.len() ==> waiting_from_transfers(ch, #[trigger] x[j]),
    ensures
        queues_from_transfers(ch, q.update(i, x)),
{
    assert forall|a: int, j: int| 0 <= a < q.update(i, x).len() && 0 <= j < q.update(i, x)[a].len() implies waiting_from_transfers(
        ch,
        #[trigger] q.update(i, x)[a][j],
    ) by {
        if a != i {
            assert(q.update(i, x)[a] == q[a]);
        }
    }
}

proof fn lemma_cmd_from_transfers(ch: Channels, st: ProgressView, id_sig: AxiSignal)
    requires
        queues_from_transfers(ch, st.queues),
        st.ids.len() == st.queues.len(),
        0 <= st.c,
    ensures
        cmd_step(ch, st, id_sig) matches Step::Go(s2) ==> queues_from_transfers(ch, s2.queues) && s2.done == st.done,
{
    if st.c < ch.cmd.len() {
        if let Some(id) = id_at(ch.cmd_id, ch.cmd[st.c]) {
            let t = Transaction { start: ch.cmd[st.c], first_data: None, last_data: None, next: next_cmd(ch, st.c + 1) };
            assert(ch.cmd[st.c] == t.start);
            assert(waiting_from_transfers(ch, t));
            lemma_find_id(st.ids, id, 0);
            let i = find_id(st.ids, id, 0);
            if i < st.ids.len() {
                assert forall|j: int| 0 <= j < st.queues[i].push(t).len() implies waiting_from_transfers(
                    ch,
                    #[trigger] st.queues[i].push(t)[j],
                ) by {
                    if j < st.queues[i].len() {
                        assert(st.queues[i].push(t)[j] == st.queues[i][j]);
                    }
                }
                lemma_queue_update_from_transfers(ch, st.queues, i, st.queues[i].push(t));
            } else {
                let q2 = st.queues.push(seq![t]);
                assert forall|a: int, j: int| 0 <= a < q2.len() && 0 <= j < q2[a].len() implies waiting_from_transfers(
                    ch,
                    #[trigger] q2[a][j],
                ) by {
                    if a < st.queues.len() {
                        assert(q2[a] == st.queues[a]);
                    } else {
                        assert(q2[a] == seq![t]);
                    }
                }
            }
        }
    }
}

proof fn lemma_step_from_transfers(kind: AxiKind, ch: Channels, st: ProgressView)
    requires
        bounded(st),
        0 <= st.c,
        kind == AxiKind::WriteFull ==> writing_ok(st),
        queues_from_transfers(ch, st.queues),
        forall|k: int| 0 <= k < st.done.len() ==> finished_from_transfers(kind, ch, #[trigger] st.done[k]),
    ensures
        match step(kind, ch, st) {
            Step::Go(s2) => {
                &&& bounded(s2)
                &&& kind == AxiKind::WriteFull ==> writing_ok(s2)
                &&& queues_from_transfers(ch, s2.queues)
                &&& forall|k: int| 0 <= k < s2.done.len() ==> finished_from_transfers(kind, ch, #[trigger] s2.done[k])
            },
            Step::Stop(Ok(d)) => d == st.done,
            _ => true,
        },
{
    lemma_step_bounded(kind, ch, st);
    let e: Seq<Seq<Transaction>> = Seq::empty();
    assert(queues_from_transfers(ch, e));
    if let Step::Go(s2) = step(kind, ch, st) {
        match kind {
            AxiKind::ReadLite | AxiKind::WriteLite => {
                if s2.done != st.done {
                    assert(ch.cmd[st.c] == s2.done.last().0);
                    assert(ch.data[st.d] == s2.done.last().2);
                    if kind == AxiKind::WriteLite {
                        assert(ch.resp[st.b] == s2.done.last().1);
                    }
                }
            },
            AxiKind::ReadFull => {
                if st.phase == 0 {
                    lemma_cmd_from_transfers(ch, st, AxiSignal::ArId);
                } else if 0 <= st.d < ch.data.len() && ch.data[st.d] < st.next && ch.data[st.d] <= st.next_rst {
                    let read = ch.data[st.d];
                    assert(ch.data[st.d] == read);
                    if let Some(id) = id_at(ch.ret_id, read) {
                        let i = find_id(st.ids, id, 0);
                        lemma_find_id(st.ids, id, 0);
                        if i < st.ids.len() && st.queues[i].len() > 0 {
                            let t = st.queues[i][0];
                            assert(waiting_from_transfers(ch, t));
                            let fd = match t.first_data {
                                Some(f) => f,
                                None => read,
                            };
                            assert(ch.data.contains(fd));
                            let x = st.queues[i].drop_first();
                            assert forall|j: int| 0 <= j < x.len() implies waiting_from_transfers(ch, #[trigger] x[j]) by {
                                assert(x[j] == st.queues[i][j + 1]);
                            }
                            lemma_queue_update_from_transfers(ch, st.queues, i, x);
                            let t2 = Transaction { first_data: Some(fd), ..t };
                            assert(waiting_from_transfers(ch, t2));
                            let y = st.queues[i].update(0, t2);
                            assert forall|j: int| 0 <= j < y.len() implies waiting_from_transfers(ch, #[trigger] y[j]) by {
                                if j > 0 {
                                    assert(y[j] == st.queues[i][j]);
                                }
                            }
                            lemma_queue_update_from_transfers(ch, st.queues, i, y);
                        }
                    }
                }
            },
            AxiKind::WriteFull => {
                if st.phase == 0 {
                    lemma_cmd_from_transfers(ch, st, AxiSignal::AwId);
                } else if st.phase == 1 {
                    if 0 <= st.d < ch.data.len() && ch.data[st.d] <= st.next_rst {
                        let write = ch.data[st.d];
                        assert(ch.data[st.d] == write);
                        let q = st.queues[st.cur];
                        let t = q.last();
                        assert(waiting_from_transfers(ch, q[q.len() - 1]));
                        let t1 = match t.first_data {
                            Some(_) => t,
                            None => Transaction { first_data: Some(write), ..t },
                        };
                        assert(waiting_from_transfers(ch, t1));
                        let t3 = Transaction { last_data: Some(write), ..t1 };
                        if logic_at(ch.last, write) == Some(ValueType::V1) {
                            assert(waiting_from_transfers(ch, t3));
                        }
                        let y1 = q.update(q.len() - 1, t1);
                        let y3 = q.update(q.len() - 1, t3);
                        assert forall|j: int| 0 <= j < y1.len() implies waiting_from_transfers(ch, #[trigger] y1[j]) by {
                            if j < q.len() - 1 {
                                assert(y1[j] == q[j]);
                            }
                        }
                        if logic_at(ch.last, write) == Some(ValueType::V1) {
                            assert forall|j: int| 0 <= j < y3.len() implies waiting_from_transfers(ch, #[trigger] y3[j]) by {
                                if j < q.len() - 1 {
                                    assert(y3[j] == q[j]);
                                }
                            }
                            lemma_queue_update_from_transfers(ch, st.queues, st.cur, y3);
                        }
                        lemma_queue_update_from_transfers(ch, st.queues, st.cur, y1);
                    }
                } else if 0 <= st.b < ch.resp.len() && ch.resp[st.b] < st.next && ch.resp[st.b] <= st.next_rst {
                    let rt = ch.resp[st.b];
                    assert(ch.resp[st.b] == rt);
                    if let Some(id) = id_at(ch.ret_id, rt) {
                        let i = find_id(st.ids, id, 0);
                        lemma_find_id(st.ids, id, 0);
                        if i < st.ids.len() && st.queues[i].len() > 0 {
                            let t = st.queues[i][0];
                            assert(waiting_from_transfers(ch, t));
                            let x = st.queues[i].drop_first();
                            assert forall|j: int| 0 <= j < x.len() implies waiting_from_transfers(ch, #[trigger] x[j]) by {
                                assert(x[j] == st.queues[i][j + 1]);
                            }
                            lemma_queue_update_from_transfers(ch, st.queues, i, x);
                        }
                    }
                }
            },
        }
        if s2.done != st.done {
            assert(s2.done == st.done.push(s2.done.last()));
            assert forall|k: int| 0 <= k < s2.done.len() implies finished_from_transfers(kind, ch, #[trigger] s2.done[k]) by {
                if k < st.done.len() {
                    assert(s2.done[k] == st.done[k]);
                }
            }
        }
    }
}

proof fn lemma_run_from_transfers(kind: AxiKind, ch: Channels, st: ProgressView)
    requires
        bounded(st),
        0 <= st.c,
        kind == AxiKind::WriteFull ==> writing_ok(st),
        queues_from_transfers(ch, st.queues),
        forall|k: int| 0 <= k < st.done.len() ==> finished_from_transfers(kind, ch, #[trigger] st.done[k]),
    ensures
        run(kind, ch, st) matches Ok(d) ==> forall|k: int| 0 <= k < d.len() ==> finished_from_transfers(kind, ch, #[trigger] d[k]),
    decreases ch.cmd.len() - st.c, ch.data.len() - st.d + ch.resp.len() - st.b, phase_rank(st.phase),
{
    lemma_step_from_transfers(kind, ch, st);
    if let Step::Go(s2) = step(kind, ch, st) {
        if progresses(ch, st, s2) && 0 <= st.c && 0 <= st.d && 0 <= st.b {
            lemma_run_from_transfers(kind, ch, s2);
        }
    }
}

/// Law: every transaction an interval finishes is made of its transfers: it starts at a
/// command transfer, its first and last data are data transfers and its response is the
/// read that finished it (read) or a response transfer (write); on an AXI interface the
/// last data carries the last flag, and on an AXI-Lite interface the first data is the last.
pub proof fn lemma_finished_from_transfers(kind: AxiKind, ch: Channels)
    ensures
        run(kind, ch, start_state(ch)) matches Ok(d) ==> forall|k: int|
            0 <= k < d.len() ==> finished_from_transfers(kind, ch, #[trigger] d[k]),
{
    assert(waiting(Seq::<Seq<Transaction>>::empty()) == 0);
    lemma_run_from_transfers(kind, ch, start_state(ch));
}

} // verus!
