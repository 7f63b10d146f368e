//! Waveform signals as the analyzers see them: a list of value changes,
//! each at an index into the trace's time table.
use vstd::prelude::*;

verus! {

/// Logic value of a single bit.
#[derive(Clone, Copy, PartialEq, Eq, Debug, Structural)]
pub enum ValueType {
    V0,
    V1,
    X,
    Z,
}

/// Value of a bit vector signal.
///
/// `bits` holds one nine-state code per bit, least significant bit first
/// (0 is `0`, 1 is `1`, 2 is `x`, 3 is `z`, 4 to 8 are `h u w l -`).
/// `two_state` tells that every bit is `0` or `1`.
pub struct BitVecValue {
    pub two_state: bool,
    pub bits: Vec<u8>,
}

/// Value of a signal at some moment.
pub enum SignalValue {
    Event,
    BitVec(BitVecValue),
    Text(String),
    /// A real number; its value is not read by the analyzers.
    Real,
}

/// One change of a signal: the index in the time table and the new value.
pub type Change = (u32, SignalValue);

/// A loaded signal: its value changes in the order of the trace.
pub struct Signal {
    pub changes: Vec<Change>,
}

/// Logic value of a nine-state code, where it is one of the four the analyzers know.
pub open spec fn code_value(code: u8) -> Option<ValueType> {
    if code == 0 {
        Some(ValueType::V0)
    } else if code == 1 {
        Some(ValueType::V1)
    } else if code == 2 {
        Some(ValueType::X)
    } else if code == 3 {
        Some(ValueType::Z)
    } else {
        None
    }
}

/// Logic value of the least significant bit of a bit vector; other values have none.
pub open spec fn value_of(v: SignalValue) -> Option<ValueType> {
    match v {
        SignalValue::BitVec(b) => if b.bits@.len() > 0 {
            code_value(b.bits@[0])
        } else {
            None
        },
        _ => None,
    }
}

/// Logic value of the least significant bit of a bit vector signal value.
pub fn get_value(value: &SignalValue) -> (r: Option<ValueType>)
    ensures
        r == value_of(*value),
{
    match value {
        SignalValue::BitVec(b) => {
            if b.bits.len() == 0 {
                None
            } else {
                let code = b.bits[0];
                if code == 0 {
                    Some(ValueType::V0)
                } else if code == 1 {
                    Some(ValueType::V1)
                } else if code == 2 {
                    Some(ValueType::X)
                } else if code == 3 {
                    Some(ValueType::Z)
                } else {
                    None
                }
            }
        },
        _ => None,
    }
}

/// Tells whether the value is a bit vector whose least significant bit is `type_`.
pub fn is_value_of_type(value: &SignalValue, type_: ValueType) -> (r: bool)
    ensures
        r == (value_of(*value) == Some(type_)),
{
    match get_value(value) {
        Some(v) => v == type_,
        None => false,
    }
}

/// The value is a two-state bit vector of width one holding `0`: the falling edge of a clock.
pub open spec fn is_low_clock_level(v: SignalValue) -> bool {
    match v {
        SignalValue::BitVec(b) => b.two_state && b.bits@.len() == 1 && b.bits@[0] == 0,
        _ => false,
    }
}

/// Tells whether a clock change is a two-state single bit `0`.
pub fn is_low_clock(value: &SignalValue) -> (r: bool)
    ensures
        r == is_low_clock_level(*value),
{
    match value {
        SignalValue::BitVec(b) => b.two_state && b.bits.len() == 1 && b.bits[0] == 0,
        _ => false,
    }
}

/// Number of a bit vector's bits, each `0` or `1`, least significant first.
pub open spec fn bits_number(bits: Seq<u8>) -> nat
    decreases bits.len(),
{
    if bits.len() == 0 {
        0
    } else {
        (if bits[0] == 1 { 1nat } else { 0nat }) + 2 * bits_number(bits.drop_first())
    }
}

/// The single byte that a two-state bit vector of at most eight bits reads as.
pub open spec fn single_byte(v: SignalValue) -> Option<u8> {
    match v {
        SignalValue::BitVec(b) => if b.two_state && 0 < b.bits@.len() <= 8 {
            Some(bits_number(b.bits@) as u8)
        } else {
            None
        },
        _ => None,
    }
}

proof fn lemma_bits_number_bound(bits: Seq<u8>)
    ensures
        bits_number(bits) < vstd::arithmetic::power2::pow2(bits.len()),
    decreases bits.len(),
{
    if bits.len() > 0 {
        lemma_bits_number_bound(bits.drop_first());
        vstd::arithmetic::power2::lemma_pow2_unfold(bits.len());
    } else {
        vstd::arithmetic::power2::lemma2_to64();
    }
}

proof fn lemma_pow2_mono(a: nat, b: nat)
    requires
        a <= b,
    ensures
        vstd::arithmetic::power2::pow2(a) <= vstd::arithmetic::power2::pow2(b),
{
    if a < b {
        vstd::arithmetic::power2::lemma_pow2_strictly_increases(a, b);
    }
}

/// Numeric value of at most 64 bits, least significant first.
fn bits_value(bits: &Vec<u8>) -> (r: u64)
    requires
        bits@.len() <= 64,
    ensures
        r == bits_number(bits@),
{
    let mut r: u64 = 0;
    let mut i: usize = bits.len();
    while i > 0
        invariant
            i <= bits@.len() <= 64,
            r == bits_number(bits@.skip(i as int)),
        decreases i,
    {
        i = i - 1;
        proof {
            assert(bits@.skip(i as int).drop_first() =~= bits@.skip(i + 1));
            lemma_bits_number_bound(bits@.skip(i as int));
            lemma_pow2_mono((bits@.len() - i) as nat, 64);
            vstd::arithmetic::power2::lemma2_to64();
            vstd::arithmetic::power2::lemma_pow2_unfold(64);
        }
        let bit: u64 = if bits[i] == 1 { 1 } else { 0 };
        r = bit + 2 * r;
    }
    assert(bits@.skip(0) =~= bits@);
    r
}

/// The byte that a two-state bit vector of at most eight bits reads as.
pub fn get_single_byte(value: &SignalValue) -> (r: Option<u8>)
    ensures
        r == single_byte(*value),
{
    match value {
        SignalValue::BitVec(b) => {
            if b.two_state && b.bits.len() > 0 && b.bits.len() <= 8 {
                let v = bits_value(&b.bits);
                proof {
                    lemma_bits_number_bound(b.bits@);
                    lemma_pow2_mono(b.bits@.len(), 8);
                    vstd::arithmetic::power2::lemma2_to64();
                }
                Some(v as u8)
            } else {
                None
            }
        },
        _ => None,
    }
}

/// The integer that a two-state bit vector of at most 64 bits reads as
/// (its bytes taken as a big-endian `i64`).
pub open spec fn two_state_number(v: SignalValue) -> Option<i64> {
    match v {
        SignalValue::BitVec(b) => if b.two_state && b.bits@.len() <= 64 {
            Some(bits_number(b.bits@) as u64 as i64)
        } else {
            None
        },
        _ => None,
    }
}

/// The integer that a two-state bit vector of at most 64 bits reads as.
pub fn get_two_state_number(value: &SignalValue) -> (r: Option<i64>)
    ensures
        r == two_state_number(*value),
{
    match value {
        SignalValue::BitVec(b) => {
            if b.two_state && b.bits.len() <= 64 {
                let v = bits_value(&b.bits);
                Some(v as i64)
            } else {
                None
            }
        },
        _ => None,
    }
}

/// The changes come in the order of time.
pub open spec fn times_ordered(c: Seq<Change>) -> bool {
    forall|i: int, j: int| 0 <= i <= j < c.len() ==> c[i].0 <= c[j].0
}

impl Signal {
    /// The signal's changes come in the order of time, as in a trace.
    pub open spec fn wf(&self) -> bool {
        times_ordered(self.changes@)
    }
}

/// The index of the change in force at time `t`: the first change made at the latest
/// time not after `t`.
pub open spec fn in_force_at(c: Seq<Change>, t: u32, k: int) -> bool {
    &&& 0 <= k < c.len()
    &&& c[k].0 <= t
    &&& (k == 0 || c[k - 1].0 < c[k].0)
    &&& forall|j: int| k < j < c.len() && c[j].0 <= t ==> c[j].0 == c[k].0
}

/// No change is made at or before `t`.
pub open spec fn none_before_or_at(c: Seq<Change>, t: u32) -> bool {
    forall|i: int| 0 <= i < c.len() ==> c[i].0 > t
}

impl Signal {
    /// Index of the change in force at time table index `t`: the first change made
    /// at the latest time not after `t`, or none when all changes come later.
    pub fn offset_at(&self, t: u32) -> (r: Option<usize>)
        requires
            self.wf(),
        ensures
            r matches Some(k) ==> in_force_at(self.changes@, t, k as int),
            r is None <==> none_before_or_at(self.changes@, t),
    {
        let c = &self.changes;
        let n = c.len();
        if n == 0 || c[0].0 > t {
            return None;
        }
        // lo: time at lo is <= t; hi: every change from hi on is after t
        let mut lo: usize = 0;
        let mut hi: usize = n;
        while lo + 1 < hi
            invariant
                c@.len() == n,
                times_ordered(c@),
                lo < hi <= n,
                c@[lo as int].0 <= t,
                forall|j: int| hi <= j < n ==> c@[j].0 > t,
            decreases hi - lo,
        {
            let mid = lo + (hi - lo) / 2;
            if c[mid].0 <= t {
                lo = mid;
            } else {
                hi = mid;
            }
        }
        // lo is the last change not after t
        let tl = c[lo].0;
        let mut k: usize = lo;
        while k > 0 && c[k - 1].0 == tl
            invariant
                c@.len() == n,
                times_ordered(c@),
                k <= lo < n,
                lo + 1 == hi || lo + 1 >= n,
                c@[lo as int].0 <= t,
                forall|j: int| hi <= j < n ==> c@[j].0 > t,
                forall|j: int| k <= j <= lo ==> c@[j].0 == tl,
                tl == c@[lo as int].0,
            decreases k,
        {
            k = k - 1;
        }
        proof {
            assert forall|j: int| k < j < c@.len() && c@[j].0 <= t implies c@[j].0 == c@[k as int].0 by {
                if j > lo {
                    assert(j >= hi);
                }
            }
        }
        Some(k)
    }

    /// The value of the signal at time table index `t`, where it has one.
    pub fn value_at(&self, t: u32) -> (r: Option<&SignalValue>)
        requires
            self.wf(),
        ensures
            r matches Some(v) ==> exists|k: int| in_force_at(self.changes@, t, k) && *v == self.changes@[k].1,
            r is None <==> none_before_or_at(self.changes@, t),
    {
        match self.offset_at(t) {
            Some(k) => Some(&self.changes[k].1),
            None => None,
        }
    }
}

/// Times at which a clock rises, reading the changes from index `i` on: a change to `0`
/// directly followed by a change to `1` is a rising edge at the time of the second;
/// the change read after a `0` is consumed whatever it holds.
pub open spec fn rising_from(c: Seq<Change>, i: int) -> Seq<u32>
    decreases c.len() - i,
{
    if i < 0 || i >= c.len() {
        Seq::empty()
    } else if value_of(c[i].1) == Some(ValueType::V0) && i + 1 < c.len() {
        if value_of(c[i + 1].1) == Some(ValueType::V1) {
            seq![c[i + 1].0] + rising_from(c, i + 2)
        } else {
            rising_from(c, i + 2)
        }
    } else {
        rising_from(c, i + 1)
    }
}

/// Times of the rising edges of a clock signal.
pub open spec fn rising_edges_spec(c: Seq<Change>) -> Seq<u32> {
    rising_from(c, 0)
}

impl Signal {
    /// Times (time table indices) at which this clock signal rises.
    pub fn rising_edges(&self) -> (r: Vec<u32>)
        ensures
            r@ == rising_edges_spec(self.changes@),
    {
        let c = &self.changes;
        let mut r: Vec<u32> = Vec::new();
        let mut i: usize = 0;
        while i < c.len()
            invariant
                i <= c@.len() + 1,
                r@ + rising_from(c@, i as int) == rising_edges_spec(c@),
            decreases c@.len() + 1 - i,
        {
            let v0 = is_value_of_type(&c[i].1, ValueType::V0);
            if v0 && i + 1 < c.len() {
                if is_value_of_type(&c[i + 1].1, ValueType::V1) {
                    let ghost before = r@;
                    r.push(c[i + 1].0);
                    assert(r@ + rising_from(c@, i + 2) =~= before + rising_from(c@, i as int));
                }
                i = i + 2;
            } else {
                i = i + 1;
            }
        }
        assert(rising_from(c@, i as int) =~= Seq::<u32>::empty());
        assert(r@ + Seq::<u32>::empty() =~= r@);
        r
    }
}

/// Index of the last change made strictly before time `t`.
pub open spec fn last_before(c: Seq<Change>, t: u32, k: int) -> bool {
    &&& 0 <= k < c.len()
    &&& c[k].0 < t
    &&& forall|j: int| k < j < c.len() ==> c[j].0 >= t
}

impl Signal {
    /// Index of the last change made strictly before time table index `t`, if any.
    pub fn last_change_before(&self, t: u32) -> (r: Option<usize>)
        requires
            self.wf(),
        ensures
            r matches Some(k) ==> last_before(self.changes@, t, k as int),
            r is None <==> forall|j: int| 0 <= j < self.changes@.len() ==> self.changes@[j].0 >= t,
    {
        let c = &self.changes;
        let n = c.len();
        if n == 0 || c[0].0 >= t {
            return None;
        }
        let mut lo: usize = 0;
        let mut hi: usize = n;
        while lo + 1 < hi
            invariant
                c@.len() == n,
                times_ordered(c@),
                lo < hi <= n,
                c@[lo as int].0 < t,
                forall|j: int| hi <= j < n ==> c@[j].0 >= t,
            decreases hi - lo,
        {
            let mid = lo + (hi - lo) / 2;
            if c[mid].0 < t {
                lo = mid;
            } else {
                hi = mid;
            }
        }
        Some(lo)
    }
}

/// Times of the trace: the time of each time table index.
pub struct TimeTable {
    table: Vec<u64>,
}

impl View for TimeTable {
    type V = Seq<u64>;

    closed spec fn view(&self) -> Seq<u64> {
        self.table@
    }
}

impl TimeTable {
    /// A time table with the given times.
    pub fn new(table: Vec<u64>) -> (r: Self)
        ensures
            r@ == table@,
    {
        Self { table }
    }

    /// The times, in order.
    pub fn iter(&self) -> (r: &Vec<u64>)
        ensures
            r@ == self@,
    {
        &self.table
    }

    /// Time at `index`, if the table is that long.
    pub fn get(&self, index: usize) -> (r: Option<&u64>)
        ensures
            r == (if index < self@.len() { Some(&self@[index as int]) } else { None }),
    {
        if index < self.table.len() {
            Some(&self.table[index])
        } else {
            None
        }
    }

    /// Time at `index`.
    pub fn at(&self, index: usize) -> (r: u64)
        requires
            index < self@.len(),
        ensures
            r == self@[index as int],
    {
        self.table[index]
    }

    /// Number of time indices.
    pub fn len(&self) -> (r: usize)
        ensures
            r == self@.len(),
    {
        self.table.len()
    }

    /// The last time of the trace, or 0 for an empty trace.
    pub fn last(&self) -> (r: u64)
        ensures
            r == (if self@.len() == 0 { 0 } else { self@.last() }),
    {
        if self.table.len() == 0 {
            0
        } else {
            self.table[self.table.len() - 1]
        }
    }

    /// Searches an ordered table for `value`: `Ok` with an index holding it, or `Err`
    /// with the index at which it would be inserted to keep the order.
    pub fn binary_search(&self, value: &u64) -> (r: Result<usize, usize>)
        requires
            forall|i: int, j: int| 0 <= i <= j < self@.len() ==> self@[i] <= self@[j],
        ensures
            r matches Ok(i) ==> i < self@.len() && self@[i as int] == *value,
            r matches Err(i) ==> i <= self@.len() && (forall|j: int| 0 <= j < i ==> self@[j] < *value) && (
            forall|j: int| i <= j < self@.len() ==> self@[j] > *value),
    {
        let t = &self.table;
        assert(t@ == self@);
        let mut lo: usize = 0;
        let mut hi: usize = t.len();
        while lo < hi
            invariant
                lo <= hi <= t@.len(),
                t@ == self@,
                forall|i: int, j: int| 0 <= i <= j < t@.len() ==> t@[i] <= t@[j],
                forall|j: int| 0 <= j < lo ==> t@[j] < *value,
                forall|j: int| hi <= j < t@.len() ==> t@[j] > *value,
            decreases hi - lo,
        {
            let mid = lo + (hi - lo) / 2;
            if t[mid] == *value {
                return Ok(mid);
            } else if t[mid] < *value {
                lo = mid + 1;
            } else {
                hi = mid;
            }
        }
        Err(lo)
    }
}

/// The value in force at time `t`: that of the first change made at the latest time not after `t`.
pub open spec fn value_at_spec(c: Seq<Change>, t: u32) -> Option<SignalValue> {
    if exists|k: int| in_force_at(c, t, k) {
        Some(c[choose|k: int| in_force_at(c, t, k)].1)
    } else {
        None
    }
}

/// The value set by the last change made strictly before time `t`.
pub open spec fn value_before_spec(c: Seq<Change>, t: u32) -> Option<SignalValue>
    decreases c.len(),
{
    if c.len() == 0 {
        None
    } else if c.last().0 < t {
        Some(c.last().1)
    } else {
        value_before_spec(c.drop_last(), t)
    }
}

proof fn lemma_in_force_unique(c: Seq<Change>, t: u32, k1: int, k2: int)
    requires
        times_ordered(c),
        in_force_at(c, t, k1),
        in_force_at(c, t, k2),
    ensures
        k1 == k2,
{
    if k1 < k2 {
        assert(c[k2].0 == c[k1].0);
        assert(c[k1].0 <= c[k2 - 1].0);
    } else if k2 < k1 {
        assert(c[k1].0 == c[k2].0);
        assert(c[k2].0 <= c[k1 - 1].0);
    }
}

proof fn lemma_value_before(c: Seq<Change>, t: u32, k: int)
    requires
        last_before(c, t, k),
    ensures
        value_before_spec(c, t) == Some(c[k].1),
    decreases c.len(),
{
    if k < c.len() - 1 {
        let d = c.drop_last();
        assert(last_before(d, t, k));
        lemma_value_before(d, t, k);
    }
}

proof fn lemma_no_value_before(c: Seq<Change>, t: u32)
    requires
        forall|j: int| 0 <= j < c.len() ==> c[j].0 >= t,
    ensures
        value_before_spec(c, t) is None,
    decreases c.len(),
{
    if c.len() > 0 {
        lemma_no_value_before(c.drop_last(), t);
    }
}

/// Every rising edge is at a time below `bound` when every change is.
pub proof fn lemma_rising_edges_bound(c: Seq<Change>, i: int, bound: int)
    requires
        forall|j: int| 0 <= j < c.len() ==> c[j].0 < bound,
    ensures
        forall|k: int| 0 <= k < rising_from(c, i).len() ==> rising_from(c, i)[k] < bound,
    decreases c.len() - i,
{
    if i < 0 || i >= c.len() {
    } else if value_of(c[i].1) == Some(ValueType::V0) && i + 1 < c.len() {
        lemma_rising_edges_bound(c, i + 2, bound);
        if value_of(c[i + 1].1) == Some(ValueType::V1) {
            let r = rising_from(c, i);
            let rest = rising_from(c, i + 2);
            assert(r == seq![c[i + 1].0] + rest);
            assert forall|k: int| 0 <= k < r.len() implies r[k] < bound by {
                if k > 0 {
                    assert(r[k] == rest[k - 1]);
                }
            }
        } else {
            assert(rising_from(c, i) == rising_from(c, i + 2));
        }
    } else {
        lemma_rising_edges_bound(c, i + 1, bound);
        assert(rising_from(c, i) == rising_from(c, i + 1));
    }
}

impl Signal {
    /// The value of the signal at time table index `t`: the first change made at the
    /// latest time not after `t`; none when every change comes later.
    pub fn value_at_time(&self, t: u32) -> (r: Option<&SignalValue>)
        requires
            self.wf(),
        ensures
            r is None <==> value_at_spec(self.changes@, t) is None,
            r matches Some(v) ==> value_at_spec(self.changes@, t) == Some(*v),
    {
        match self.offset_at(t) {
            Some(k) => {
                proof {
                    let w = choose|w: int| in_force_at(self.changes@, t, w);
                    lemma_in_force_unique(self.changes@, t, k as int, w);
                }
                Some(&self.changes[k].1)
            },
            None => None,
        }
    }

    /// The value set by the last change made strictly before time table index `t`.
    pub fn value_before(&self, t: u32) -> (r: Option<&SignalValue>)
        requires
            self.wf(),
        ensures
            r is None <==> value_before_spec(self.changes@, t) is None,
            r matches Some(v) ==> value_before_spec(self.changes@, t) == Some(*v),
    {
        match self.last_change_before(t) {
            Some(k) => {
                proof {
                    lemma_value_before(self.changes@, t, k as int);
                }
                Some(&self.changes[k].1)
            },
            None => {
                proof {
                    lemma_no_value_before(self.changes@, t);
                }
                None
            },
        }
    }
}

} // verus!
