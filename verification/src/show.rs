//! How statistics are presented: the output formats and the text summary of a bucket
//! statistic.
use vstd::prelude::*;
use vstd::string::StringExecFns;
use std::collections::HashMap;
use crate::CyclesNum;
use crate::bus_usage::{count_bucket, durations_have_magnitude, BucketsStatistic, PeriodView};
use crate::text::{decimal, decimal_i64, decimal_nat, decimal_u64};
use vstd::arithmetic::power2::{pow2, lemma2_to64, lemma2_to64_rest, lemma_pow2_strictly_increases, lemma_pow2_unfold};

verus! {

broadcast use vstd::std_specs::hash::group_hash_axioms;

/// Type of visualization of data.
#[derive(Clone, Copy, PartialEq, Eq, Structural, Debug)]
pub enum OutputType {
    /// Pretty printed text
    Pretty,
    Csv,
    Md,
    /// Busperf data - binary format
    Data,
}

fn two_to_exec(k: u32) -> (r: u64)
    requires
        k <= 62,
    ensures
        r == pow2(k as nat),
{
    proof {
        lemma2_to64();
        lemma2_to64_rest();
    }
    let mut r: u64 = 1;
    let mut i: u32 = 0;
    while i < k
        invariant
            i <= k <= 62,
            r == pow2(i as nat),
            pow2(62) == 0x4000_0000_0000_0000,
        decreases k - i,
    {
        proof {
            if i < 62 {
                lemma_pow2_strictly_increases(i as nat, 62);
            }
            lemma_pow2_unfold((i + 1) as nat);
        }
        r = r * 2;
        i = i + 1;
    }
    r
}

/// How the count `v` of bucket `i` is shown: the range of durations the bucket holds
/// (with `k` for thousands and `M` for millions) and the count.
pub open spec fn bucket_label(i: int, v: nat) -> Seq<char> {
    if i < 2 {
        decimal(i) + " x"@ + decimal(v as int)
    } else if i >= 41 {
        "2^"@ + decimal(i) + "+ x"@ + decimal(v as int)
    } else if i >= 21 {
        decimal(pow2((i - 21) as nat) as int) + "-"@ + decimal(pow2((i - 20) as nat) as int) + "M x"@ + decimal(v as int)
    } else if i >= 11 {
        decimal(pow2((i - 11) as nat) as int) + "-"@ + decimal(pow2((i - 10) as nat) as int) + "k x"@ + decimal(v as int)
    } else {
        decimal(pow2((i - 1) as nat) as int) + "-"@ + decimal(pow2(i as nat) - 1) + " x"@ + decimal(v as int)
    }
}

fn join3(a: &str, b: &str, c: &str) -> (r: String)
    ensures
        r@ == a@ + b@ + c@,
{
    let mut s = String::from_str(a);
    s.append(b);
    s.append(c);
    s
}

fn range_label(lo: u64, hi: u64, unit: &str, count: &str) -> (r: String)
    ensures
        r@ == decimal(lo as int) + "-"@ + decimal(hi as int) + unit@ + count@,
{
    proof {
        reveal_strlit("-");
    }
    let a = decimal_u64(lo);
    let b = decimal_u64(hi);
    let range = join3(a.as_str(), "-", b.as_str());
    join3(range.as_str(), unit, count)
}

proof fn lemma_pow2_pos(k: nat)
    ensures
        pow2(k) >= 1,
    decreases k,
{
    if k > 0 {
        lemma_pow2_unfold(k);
        lemma_pow2_pos((k - 1) as nat);
    } else {
        lemma2_to64();
    }
}

/// How the count `v` of bucket `i` is shown.
pub fn bucket_label_exec(i: i32, v: usize) -> (r: String)
    ensures
        r@ == bucket_label(i as int, v as nat),
{
    proof {
        reveal_strlit(" x");
        reveal_strlit("2^");
        reveal_strlit("+ x");
        reveal_strlit("M x");
        reveal_strlit("k x");
    }
    let count = decimal_u64(v as u64);
    assert(decimal(v as int) == decimal_nat(v as nat));
    if i < 2 {
        let n = decimal_i64(i as i64);
        join3(n.as_str(), " x", count.as_str())
    } else if i >= 41 {
        let n = decimal_i64(i as i64);
        let mut r = join3("2^", n.as_str(), "+ x");
        r.append(count.as_str());
        r
    } else if i >= 21 {
        let lo = two_to_exec((i - 21) as u32);
        let hi = two_to_exec((i - 20) as u32);
        range_label(lo, hi, "M x", count.as_str())
    } else if i >= 11 {
        let lo = two_to_exec((i - 11) as u32);
        let hi = two_to_exec((i - 10) as u32);
        range_label(lo, hi, "k x", count.as_str())
    } else {
        let h = two_to_exec(i as u32);
        proof {
            lemma_pow2_pos(i as nat);
        }
        let lo = two_to_exec((i - 1) as u32);
        range_label(lo, h - 1, " x", count.as_str())
    }
}

/// Lowest bucket that a summary lists.
pub open spec fn first_bucket() -> int {
    -64
}

/// One past the highest bucket that a summary lists.
pub open spec fn end_bucket() -> int {
    65
}

/// Labels of the non empty buckets from `lo` up to (not including) `hi`, in order.
pub open spec fn bucket_labels(s: Seq<PeriodView>, lo: int, hi: int) -> Seq<Seq<char>>
    decreases hi - lo,
{
    if hi <= lo {
        Seq::empty()
    } else {
        let rest = bucket_labels(s, lo, hi - 1);
        let c = count_bucket(s, hi - 1);
        if c > 0 { rest.push(bucket_label(hi - 1, c)) } else { rest }
    }
}

/// Labels joined with `; ` between them.
pub open spec fn join_labels(s: Seq<Seq<char>>) -> Seq<char>
    decreases s.len(),
{
    if s.len() == 0 {
        Seq::empty()
    } else if s.len() == 1 {
        s[0]
    } else {
        join_labels(s.drop_last()) + "; "@ + s.last()
    }
}

/// Text summary of a bucket statistic: its non empty buckets in increasing order, or that
/// the bus had no transaction.
pub open spec fn bucket_summary_spec(s: Seq<PeriodView>) -> Seq<char> {
    let labels = bucket_labels(s, first_bucket(), end_bucket());
    if labels.len() == 0 { "No transaction on this bus"@ } else { join_labels(labels) }
}

/// Text summary of a bucket statistic: its non empty buckets in increasing order, or that
/// the bus had no transaction.
pub fn bucket_summary(stat: &BucketsStatistic) -> (r: String)
    requires
        durations_have_magnitude(stat.periods()),
    ensures
        r@ == bucket_summary_spec(stat.periods()),
{
    proof {
        reveal_strlit("; ");
        reveal_strlit("No transaction on this bus");
    }
    let buckets: HashMap<CyclesNum, usize> = stat.get_buckets();
    let ghost s = stat.periods();
    let mut out = String::new();
    let mut n: usize = 0;
    let mut b: i32 = -64;
    while b < 65
        invariant
            -64 <= b <= 65,
            s == stat.periods(),
            forall|k: CyclesNum| #[trigger] buckets@.contains_key(k) <==> count_bucket(s, k as int) > 0,
            forall|k: CyclesNum| #[trigger] buckets@.contains_key(k) ==> buckets@[k] == count_bucket(s, k as int),
            n == bucket_labels(s, first_bucket(), b as int).len(),
            n <= b + 64,
            out@ == join_labels(bucket_labels(s, first_bucket(), b as int)),
        decreases 65 - b,
    {
        let ghost rest = bucket_labels(s, first_bucket(), b as int);
        match buckets.get(&b) {
            Some(v) => {
                let label = bucket_label_exec(b, *v);
                assert(rest.push(label@).drop_last() =~= rest);
                if n > 0 {
                    out.append("; ");
                }
                out.append(label.as_str());
                n = n + 1;
            },
            None => {
                assert(!buckets@.contains_key(b));
            },
        }
        b = b + 1;
    }
    if n == 0 {
        String::from_str("No transaction on this bus")
    } else {
        out
    }
}

} // verus!
