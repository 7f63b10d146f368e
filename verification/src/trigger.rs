//! Triggers: named lists of activation times, their combinations, and the
//! intervals in which an analyzer works.
use vstd::prelude::*;
use itertools::Itertools;
use crate::text::str_eq;

verus! {

/// Name of a trigger, such as `interfaces.bus.trigger` or `control_only.timer.t`.
pub type TriggerName = String;

/// Outcome of a trigger's analysis: its activation times, or why it failed.
pub type TriggerOutcome = Result<Vec<u64>, String>;

/// Outcome of a trigger as mathematical values.
pub open spec fn outcome_view(r: TriggerOutcome) -> Result<Seq<u64>, Seq<char>> {
    match r {
        Ok(v) => Ok(v@),
        Err(e) => Err(e@),
    }
}

/// Outcomes of the triggers analyzed so far, by name, held in a `hashbrown::HashMap`.
#[verifier::external_body]
pub struct DoneTriggers {
    map: hashbrown::HashMap<String, TriggerOutcome>,
}

/// What the map of analyzed triggers holds: each name with its outcome.
pub uninterp spec fn done_contents(d: DoneTriggers) -> Map<Seq<char>, Result<Seq<u64>, Seq<char>>>;

/// An empty map, made by `hashbrown::HashMap::new`.
#[verifier::external_body]
fn done_empty() -> (r: DoneTriggers)
    ensures
        done_contents(r).dom().is_empty(),
{
    DoneTriggers { map: hashbrown::HashMap::new() }
}

/// `hashbrown::HashMap::insert`: the name now maps to the outcome; any earlier outcome of
/// that name is replaced and the other names keep theirs.
#[verifier::external_body]
fn done_insert(d: &mut DoneTriggers, name: TriggerName, outcome: TriggerOutcome)
    ensures
        done_contents(*final(d)) == done_contents(*old(d)).insert(name@, outcome_view(outcome)),
{
    d.map.insert(name, outcome);
}

/// `hashbrown::HashMap::get`: the outcome stored under the name, if there is one.
#[verifier::external_body]
fn done_get<'a>(d: &'a DoneTriggers, name: &str) -> (r: Option<&'a TriggerOutcome>)
    ensures
        r is Some <==> done_contents(*d).dom().contains(name@),
        r matches Some(o) ==> done_contents(*d)[name@] == outcome_view(*o),
{
    d.map.get(name)
}

impl DoneTriggers {
    /// Outcome recorded for the trigger `name`.
    pub open spec fn lookup(&self, name: Seq<char>) -> Option<Result<Seq<u64>, Seq<char>>> {
        if done_contents(*self).dom().contains(name) {
            Some(done_contents(*self)[name])
        } else {
            None
        }
    }

    /// No trigger has been analyzed.
    pub fn new() -> (r: Self)
        ensures
            forall|n: Seq<char>| r.lookup(n) is None,
    {
        done_empty()
    }

    /// Records the outcome of the trigger `name`, replacing any earlier one.
    pub fn insert(&mut self, name: TriggerName, outcome: TriggerOutcome)
        ensures
            final(self).lookup(name@) == Some(outcome_view(outcome)),
            forall|n: Seq<char>| n != name@ ==> final(self).lookup(n) == old(self).lookup(n),
    {
        done_insert(self, name, outcome);
    }

    /// The outcome recorded for the trigger `name`.
    pub fn get(&self, name: &str) -> (r: Option<&TriggerOutcome>)
        ensures
            r is Some <==> self.lookup(name@) is Some,
            r matches Some(o) ==> self.lookup(name@) == Some(outcome_view(*o)),
    {
        done_get(self, name)
    }

    /// Tells whether the trigger `name` has been analyzed.
    pub fn contains(&self, name: &str) -> (r: bool)
        ensures
            r == self.lookup(name@) is Some,
    {
        self.get(name).is_some()
    }
}

/// The lists' contents, in order.
pub open spec fn flatten_times(lists: Seq<Seq<u64>>) -> Seq<u64>
    decreases lists.len(),
{
    if lists.len() == 0 {
        Seq::empty()
    } else {
        flatten_times(lists.drop_last()) + lists.last()
    }
}

/// The list is in ascending order.
pub open spec fn ascending(s: Seq<u64>) -> bool {
    forall|i: int, j: int| 0 <= i <= j < s.len() ==> s[i] <= s[j]
}

/// Every list is in ascending order.
pub open spec fn all_ascending(lists: Seq<Seq<u64>>) -> bool {
    forall|i: int| 0 <= i < lists.len() ==> ascending(#[trigger] lists[i])
}

/// The views of a list of vectors.
pub open spec fn views_of(v: Seq<Vec<u64>>) -> Seq<Seq<u64>> {
    v.map_values(|x: Vec<u64>| x@)
}

/// What `Itertools::kmerge` yields on the given lists.
pub uninterp spec fn kmerged(lists: Seq<Seq<u64>>) -> Seq<u64>;

/// Merges sorted lists with `Itertools::kmerge`: the result holds the elements of
/// all lists, duplicates kept, and is in ascending order when every list is.
#[verifier::external_body]
pub(crate) fn kmerge_times(lists: Vec<Vec<u64>>) -> (r: Vec<u64>)
    ensures
        r@ == kmerged(views_of(lists@)),
        r@.to_multiset() == flatten_times(views_of(lists@)).to_multiset(),
        all_ascending(views_of(lists@)) ==> ascending(r@),
{
    lists.into_iter().kmerge().collect()
}

/// The list without repetitions of consecutive equal elements.
pub open spec fn dedup_spec(s: Seq<u64>) -> Seq<u64>
    decreases s.len(),
{
    if s.len() <= 1 {
        s
    } else if s[s.len() - 1] == s[s.len() - 2] {
        dedup_spec(s.drop_last())
    } else {
        dedup_spec(s.drop_last()).push(s.last())
    }
}

/// `Itertools::dedup`: drops each element equal to the one before it.
#[verifier::external_body]
pub(crate) fn dedup_times(v: Vec<u64>) -> (r: Vec<u64>)
    ensures
        r@ == dedup_spec(v@),
{
    v.into_iter().dedup().collect()
}

/// Runs of equal consecutive elements, each with its length.
pub open spec fn runs_spec(s: Seq<u64>) -> Seq<(usize, u64)>
    decreases s.len(),
{
    if s.len() == 0 {
        Seq::empty()
    } else {
        let r = runs_spec(s.drop_last());
        if r.len() > 0 && r.last().1 == s.last() {
            r.update(r.len() - 1, ((r.last().0 + 1) as usize, s.last()))
        } else {
            r.push((1usize, s.last()))
        }
    }
}

/// The runs of an ascending list: their times strictly ascending, each counted as often as
/// it occurs, every time of the list in one of them, the last one that of the list's end.
pub proof fn lemma_runs(s: Seq<u64>)
    requires
        ascending(s),
        s.len() <= usize::MAX,
    ensures
        forall|i: int, j: int| 0 <= i < j < runs_spec(s).len() ==> runs_spec(s)[i].1 < runs_spec(s)[j].1,
        forall|i: int| 0 <= i < runs_spec(s).len() ==> (#[trigger] runs_spec(s)[i]).0 == s.to_multiset().count(runs_spec(s)[i].1),
        forall|i: int| 0 <= i < runs_spec(s).len() ==> s.contains((#[trigger] runs_spec(s)[i]).1),
        forall|t: u64| s.contains(t) ==> exists|i: int| 0 <= i < runs_spec(s).len() && (#[trigger] runs_spec(s)[i]).1 == t,
        s.len() > 0 ==> runs_spec(s).len() > 0 && runs_spec(s).last().1 == s.last(),
    decreases s.len(),
{
    broadcast use vstd::seq_lib::group_to_multiset_ensures;
    if s.len() > 0 {
        let init = s.drop_last();
        let last = s.last();
        assert(s == init.push(last));
        assert(s.to_multiset() == init.to_multiset().insert(last));
        lemma_runs(init);
        let r = runs_spec(init);
        let n = runs_spec(s);
        assert forall|t: u64| init.contains(t) implies s.contains(t) by {
            let k = choose|k: int| 0 <= k < init.len() && init[k] == t;
            assert(s[k] == t);
        }
        assert(s[s.len() - 1] == last);
        if r.len() > 0 && r.last().1 == last {
            assert(r[r.len() - 1].0 == init.to_multiset().count(last));
            assert(init.to_multiset().count(last) <= init.len()) by {
                assert(init.to_multiset().count(last) <= init.to_multiset().len());
            }
            assert forall|i: int| 0 <= i < n.len() implies (#[trigger] n[i]).0 == s.to_multiset().count(n[i].1) by {
                if i < n.len() - 1 {
                    assert(n[i] == r[i]);
                    assert(r[i].1 < r[r.len() - 1].1);
                }
            }
            assert forall|t: u64| s.contains(t) implies exists|i: int| 0 <= i < n.len() && (#[trigger] n[i]).1 == t by {
                if t == last {
                    assert(n[n.len() - 1].1 == t);
                } else {
                    let k = choose|k: int| 0 <= k < s.len() && s[k] == t;
                    assert(init[k] == t);
                    assert(init.contains(t));
                    let i = choose|i: int| 0 <= i < r.len() && (#[trigger] r[i]).1 == t;
                    assert(n[i].1 == t);
                }
            }
            assert forall|i: int| 0 <= i < n.len() implies s.contains((#[trigger] n[i]).1) by {
                if i < n.len() - 1 {
                    assert(n[i] == r[i]);
                    assert(init.contains(r[i].1));
                } else {
                    assert(s.contains(s[s.len() - 1]));
                }
            }
        } else {
            if init.len() > 0 {
                assert(init[init.len() - 1] <= last);
                assert(r.last().1 == init.last());
                assert(r.last().1 < last);
            }
            assert(!init.contains(last)) by {
                if init.contains(last) {
                    let k = choose|k: int| 0 <= k < init.len() && init[k] == last;
                    assert(init[k] <= init[init.len() - 1]);
                }
            }
            assert forall|i: int| 0 <= i < r.len() implies (#[trigger] r[i]).1 < last by {
                if i < r.len() - 1 {
                    assert(r[i].1 < r[r.len() - 1].1);
                }
            }
            assert forall|i: int| 0 <= i < n.len() implies (#[trigger] n[i]).0 == s.to_multiset().count(n[i].1) by {
                if i < n.len() - 1 {
                    assert(n[i] == r[i]);
                    assert(r[i].1 < last);
                }
            }
            assert forall|i: int, j: int| 0 <= i < j < n.len() implies n[i].1 < n[j].1 by {
                if j == n.len() - 1 {
                    assert(n[i] == r[i]);
                    assert(r[i].1 < last);
                } else {
                    assert(n[i] == r[i] && n[j] == r[j]);
                }
            }
            assert forall|t: u64| s.contains(t) implies exists|i: int| 0 <= i < n.len() && (#[trigger] n[i]).1 == t by {
                if t == last {
                    assert(n[n.len() - 1].1 == t);
                } else {
                    let k = choose|k: int| 0 <= k < s.len() && s[k] == t;
                    assert(init[k] == t);
                    assert(init.contains(t));
                    let i = choose|i: int| 0 <= i < r.len() && (#[trigger] r[i]).1 == t;
                    assert(n[i].1 == t);
                }
            }
            assert forall|i: int| 0 <= i < n.len() implies s.contains((#[trigger] n[i]).1) by {
                if i < n.len() - 1 {
                    assert(n[i] == r[i]);
                    assert(init.contains(r[i].1));
                } else {
                    assert(s.contains(s[s.len() - 1]));
                }
            }
        }
    }
}

/// `Itertools::dedup_with_count`: each run of equal consecutive elements, with its length.
#[verifier::external_body]
pub(crate) fn dedup_times_with_count(v: Vec<u64>) -> (r: Vec<(usize, u64)>)
    ensures
        r@ == runs_spec(v@),
{
    v.into_iter().dedup_with_count().collect()
}

/// Each time comes later than the one before.
pub open spec fn strictly_ascending(s: Seq<u64>) -> bool {
    forall|i: int, j: int| 0 <= i < j < s.len() ==> s[i] < s[j]
}

/// Every list is in strictly ascending order.
pub open spec fn all_strictly_ascending(lists: Seq<Seq<u64>>) -> bool {
    forall|i: int| 0 <= i < lists.len() ==> strictly_ascending(#[trigger] lists[i])
}

/// `t` is in one of the lists.
pub open spec fn in_any(lists: Seq<Seq<u64>>, t: u64) -> bool {
    exists|j: int| 0 <= j < lists.len() && #[trigger] lists[j].contains(t)
}

/// `t` is in every one of the lists.
pub open spec fn in_all(lists: Seq<Seq<u64>>, t: u64) -> bool {
    forall|j: int| 0 <= j < lists.len() ==> #[trigger] lists[j].contains(t)
}

/// How many times `t` occurs in the lists together.
pub open spec fn count_in_lists(lists: Seq<Seq<u64>>, t: u64) -> nat
    decreases lists.len(),
{
    if lists.len() == 0 {
        0
    } else {
        count_in_lists(lists.drop_last(), t) + lists.last().to_multiset().count(t)
    }
}

/// The lists' contents hold exactly the times of the lists, as often as they occur in them.
pub proof fn lemma_flatten_times(lists: Seq<Seq<u64>>, t: u64)
    ensures
        flatten_times(lists).contains(t) <==> in_any(lists, t),
        flatten_times(lists).to_multiset().count(t) == count_in_lists(lists, t),
    decreases lists.len(),
{
    broadcast use vstd::seq_lib::group_to_multiset_ensures;
    if lists.len() > 0 {
        let init = lists.drop_last();
        lemma_flatten_times(init, t);
        vstd::seq_lib::lemma_multiset_commutative(flatten_times(init), lists.last());
        assert(flatten_times(lists) == flatten_times(init) + lists.last());
        let f = flatten_times(init);
        let l = lists.last();
        assert((f + l).contains(t) <==> f.contains(t) || l.contains(t)) by {
            if (f + l).contains(t) {
                let k = choose|k: int| 0 <= k < (f + l).len() && (f + l)[k] == t;
                if k < f.len() {
                    assert(f[k] == t);
                } else {
                    assert(l[k - f.len()] == t);
                }
            }
            if f.contains(t) {
                let k = choose|k: int| 0 <= k < f.len() && f[k] == t;
                assert((f + l)[k] == t);
            }
            if l.contains(t) {
                let k = choose|k: int| 0 <= k < l.len() && l[k] == t;
                assert((f + l)[f.len() + k] == t);
            }
        }
        if in_any(lists, t) {
            let j = choose|j: int| 0 <= j < lists.len() && #[trigger] lists[j].contains(t);
            if j < lists.len() - 1 {
                assert(init[j] == lists[j]);
                assert(in_any(init, t));
            }
        }
        if in_any(init, t) {
            let j = choose|j: int| 0 <= j < init.len() && #[trigger] init[j].contains(t);
            assert(lists[j] == init[j]);
        }
        if lists.last().contains(t) {
            assert(lists[lists.len() - 1].contains(t));
        }
    } else {
        assert(flatten_times(lists).to_multiset() =~= vstd::multiset::Multiset::empty());
    }
}

/// When every list is strictly ascending, `t` occurs in them together as many times as there
/// are lists exactly when it is in each of them.
pub proof fn lemma_count_in_all(lists: Seq<Seq<u64>>, t: u64)
    requires
        all_strictly_ascending(lists),
    ensures
        count_in_lists(lists, t) <= lists.len(),
        count_in_lists(lists, t) == lists.len() <==> in_all(lists, t),
    decreases lists.len(),
{
    broadcast use vstd::seq_lib::group_to_multiset_ensures;
    if lists.len() > 0 {
        let init = lists.drop_last();
        let last = lists.last();
        assert(all_strictly_ascending(init)) by {
            assert forall|i: int| 0 <= i < init.len() implies strictly_ascending(#[trigger] init[i]) by {
                assert(init[i] == lists[i]);
            }
        }
        lemma_count_in_all(init, t);
        assert(strictly_ascending(lists[lists.len() - 1]));
        assert(last.no_duplicates()) by {
            assert forall|i: int, j: int| 0 <= i < last.len() && 0 <= j < last.len() && i != j implies last[i] != last[j] by {
                if i < j {
                    assert(last[i] < last[j]);
                } else {
                    assert(last[j] < last[i]);
                }
            }
        }
        last.lemma_multiset_has_no_duplicates();
        assert(last.to_multiset().count(t) <= 1);
        if in_all(lists, t) {
            assert forall|j: int| 0 <= j < init.len() implies #[trigger] init[j].contains(t) by {
                assert(init[j] == lists[j]);
                assert(lists[j].contains(t));
            }
            assert(lists[lists.len() - 1].contains(t));
        }
        if count_in_lists(lists, t) == lists.len() {
            assert(last.to_multiset().count(t) == 1);
            assert(count_in_lists(init, t) == init.len());
            assert forall|j: int| 0 <= j < lists.len() implies #[trigger] lists[j].contains(t) by {
                if j < lists.len() - 1 {
                    assert(init[j] == lists[j]);
                    assert(init[j].contains(t));
                }
            }
        }
    }
}

/// Dropping repetitions keeps the elements and the last one; an ascending list becomes
/// strictly ascending.
pub proof fn lemma_dedup(s: Seq<u64>)
    ensures
        forall|t: u64| dedup_spec(s).contains(t) <==> s.contains(t),
        s.len() > 0 ==> dedup_spec(s).len() > 0 && dedup_spec(s).last() == s.last(),
        ascending(s) ==> strictly_ascending(dedup_spec(s)),
    decreases s.len(),
{
    if s.len() > 1 {
        let init = s.drop_last();
        lemma_dedup(init);
        assert(ascending(s) ==> ascending(init));
        assert forall|t: u64| dedup_spec(s).contains(t) <==> s.contains(t) by {
            if s.contains(t) {
                let i = choose|i: int| 0 <= i < s.len() && s[i] == t;
                if i < s.len() - 1 {
                    assert(init[i] == t);
                    assert(init.contains(t));
                } else if s[s.len() - 1] == s[s.len() - 2] {
                    assert(init[init.len() - 1] == t);
                    assert(init.contains(t));
                } else {
                    assert(dedup_spec(s).last() == t);
                    assert(dedup_spec(s)[dedup_spec(s).len() - 1] == t);
                }
            }
            if init.contains(t) {
                let i = choose|i: int| 0 <= i < init.len() && init[i] == t;
                assert(s[i] == t);
            }
            if dedup_spec(s).contains(t) && !dedup_spec(init).contains(t) {
                assert(t == s.last());
                assert(s[s.len() - 1] == t);
            }
            if dedup_spec(init).contains(t) {
                let i = choose|i: int| 0 <= i < dedup_spec(init).len() && dedup_spec(init)[i] == t;
                assert(dedup_spec(s)[i] == t);
            }
        }
        if ascending(s) {
            let d = dedup_spec(init);
            assert(d.last() == init.last());
            assert forall|i: int, j: int| 0 <= i < j < dedup_spec(s).len() implies dedup_spec(s)[i] < dedup_spec(s)[j] by {
                if j == d.len() {
                    assert(d.contains(d[i]));
                    assert(init.contains(d[i]));
                    let k = choose|k: int| 0 <= k < init.len() && init[k] == d[i];
                    assert(s[k] <= s[s.len() - 2]);
                }
            }
        }
    }
}

/// `Itertools::counts`: each distinct element with the number of its occurrences,
/// in the order in which the map it builds is walked (which varies from run to run).
#[verifier::external_body]
fn count_times(v: Vec<u64>) -> (r: Vec<(u64, usize)>)
    ensures
        forall|i: int, j: int| 0 <= i < j < r@.len() ==> r@[i].0 != r@[j].0,
        forall|i: int| 0 <= i < r@.len() ==> r@[i].1 == v@.to_multiset().count(#[trigger] r@[i].0),
        forall|i: int| 0 <= i < r@.len() ==> v@.contains(#[trigger] r@[i].0),
        forall|t: u64| v@.contains(t) ==> exists|i: int| 0 <= i < r@.len() && #[trigger] r@[i].0 == t,
{
    v.into_iter().counts().into_iter().collect()
}

/// A way of combining triggers.
pub enum TriggerCombination {
    /// No trigger: active from the start of the trace.
    NoTrigger,
    /// Only one trigger.
    Single(TriggerName),
    /// Any combination - activates whenever any of the subtriggers activates.
    Any(Vec<TriggerCombination>),
    /// All combination - activates when all subtriggers are active at the same time.
    All(Vec<TriggerCombination>),
}

/// Names of the triggers used in a combination, in order.
pub open spec fn names_of(c: TriggerCombination) -> Seq<Seq<char>>
    decreases c, 0nat,
{
    match c {
        TriggerCombination::NoTrigger => Seq::empty(),
        TriggerCombination::Single(n) => seq![n@],
        TriggerCombination::Any(v) => names_of_list(v@, v@.len() as int),
        TriggerCombination::All(v) => names_of_list(v@, v@.len() as int),
    }
}

/// Names of the triggers used in the first `k` combinations of a list.
pub open spec fn names_of_list(cs: Seq<TriggerCombination>, k: int) -> Seq<Seq<char>>
    decreases cs, 1nat, k,
{
    if k <= 0 || k > cs.len() {
        Seq::empty()
    } else {
        names_of_list(cs, k - 1) + names_of(cs[k - 1])
    }
}

/// The first failure among the triggers of a combination, in order.
pub open spec fn first_error(c: TriggerCombination, done: DoneTriggers) -> Option<Seq<char>>
    decreases c, 0nat,
{
    match c {
        TriggerCombination::NoTrigger => None,
        TriggerCombination::Single(n) => match done.lookup(n@) {
            Some(Err(e)) => Some(e),
            _ => None,
        },
        TriggerCombination::Any(v) => first_error_list(v@, done, v@.len() as int),
        TriggerCombination::All(v) => first_error_list(v@, done, v@.len() as int),
    }
}

/// The first failure among the triggers of the first `k` combinations of a list.
pub open spec fn first_error_list(cs: Seq<TriggerCombination>, done: DoneTriggers, k: int) -> Option<Seq<char>>
    decreases cs, 1nat, k,
{
    if k <= 0 || k > cs.len() {
        None
    } else {
        match first_error_list(cs, done, k - 1) {
            Some(e) => Some(e),
            None => first_error(cs[k - 1], done),
        }
    }
}

/// `r` is an outcome of the activation times of combination `c`: no trigger at all is
/// active at time 0; a single trigger at its times; an any-combination at the merged
/// times of its parts, consecutive repetitions dropped; an all-combination at each time
/// that occurs as often, over its parts, as it has parts (in no fixed order).
pub open spec fn times_ok(c: TriggerCombination, done: DoneTriggers, r: Seq<u64>) -> bool
    decreases c,
{
    match c {
        TriggerCombination::NoTrigger => r == seq![0u64],
        TriggerCombination::Single(n) => done.lookup(n@) == Some(Ok::<Seq<u64>, Seq<char>>(r)),
        TriggerCombination::Any(v) => exists|rs: Seq<Seq<u64>>|
            rs.len() == v@.len() && (forall|j: int| 0 <= j < v@.len() ==> times_ok(v@[j], done, rs[j]))
                && r == #[trigger] dedup_spec(kmerged(rs)) && any_law(rs, r),
        TriggerCombination::All(v) => exists|rs: Seq<Seq<u64>>|
            rs.len() == v@.len() && (forall|j: int| 0 <= j < v@.len() ==> times_ok(v@[j], done, rs[j]))
                && all_times(#[trigger] flatten_times(rs), v@.len(), r) && all_law(rs, r),
    }
}

/// An any-combination activates at the times of any of its parts, in strictly ascending
/// order when every part is ascending.
pub open spec fn any_law(rs: Seq<Seq<u64>>, r: Seq<u64>) -> bool {
    &&& forall|t: u64| r.contains(t) <==> in_any(rs, t)
    &&& all_ascending(rs) ==> strictly_ascending(r)
}

/// An all-combination of strictly ascending parts activates at the times that are in every
/// part (at none without parts).
pub open spec fn all_law(rs: Seq<Seq<u64>>, r: Seq<u64>) -> bool {
    all_strictly_ascending(rs) ==> forall|t: u64| r.contains(t) <==> (rs.len() > 0 && in_all(rs, t))
}

/// The first `k` results are outcomes of the first `k` combinations.
pub open spec fn parts_ok(cs: Seq<TriggerCombination>, done: DoneTriggers, rs: Seq<Seq<u64>>, k: int) -> bool {
    k <= rs.len() && forall|j: int| 0 <= j < k ==> times_ok(cs[j], done, #[trigger] rs[j])
}

/// `r` holds, once each, the times that occur `num` times in `merged` (none when `num` is 0).
pub open spec fn all_times(merged: Seq<u64>, num: nat, r: Seq<u64>) -> bool {
    &&& forall|i: int, j: int| 0 <= i < j < r.len() ==> r[i] != r[j]
    &&& forall|t: u64| r.contains(t) <==> (num > 0 && merged.to_multiset().count(t) == num)
}

/// Every trigger of the combination has been analyzed.
pub open spec fn all_done(c: TriggerCombination, done: DoneTriggers) -> bool {
    forall|i: int| 0 <= i < names_of(c).len() ==> done.lookup(#[trigger] names_of(c)[i]) is Some
}

proof fn lemma_names_list_prefix(cs: Seq<TriggerCombination>, k: int, j: int, i: int)
    requires
        0 <= j < k <= cs.len(),
        0 <= i < names_of(cs[j]).len(),
    ensures
        names_of_list(cs, k).contains(names_of(cs[j])[i]),
    decreases k,
{
    if j == k - 1 {
        assert(names_of_list(cs, k)[names_of_list(cs, k - 1).len() + i] == names_of(cs[j])[i]);
    } else {
        lemma_names_list_prefix(cs, k - 1, j, i);
        let w = choose|w: int| 0 <= w < names_of_list(cs, k - 1).len() && #[trigger] names_of_list(cs, k - 1)[w] == names_of(cs[j])[i];
        assert(names_of_list(cs, k)[w] == names_of(cs[j])[i]);
    }
}

impl TriggerCombination {
    /// Names of triggers used in this combination, in order.
    pub fn get_names(&self) -> (r: Vec<String>)
        ensures
            r@.map_values(|s: String| s@) == names_of(*self),
        decreases self, 0nat,
    {
        match self {
            TriggerCombination::NoTrigger => {
                let r: Vec<String> = Vec::new();
                assert(r@.map_values(|s: String| s@) =~= names_of(*self));
                r
            },
            TriggerCombination::Single(name) => {
                let r = vec![name.clone()];
                assert(r@.map_values(|s: String| s@) =~= names_of(*self));
                r
            },
            TriggerCombination::Any(v) => names_of_parts(v),
            TriggerCombination::All(v) => names_of_parts(v),
        }
    }
}

fn names_of_parts(v: &Vec<TriggerCombination>) -> (r: Vec<String>)
    ensures
        r@.map_values(|s: String| s@) == names_of_list(v@, v@.len() as int),
    decreases v, 1nat,
{
    let mut r: Vec<String> = Vec::new();
    let mut i: usize = 0;
    assert(r@.map_values(|s: String| s@) =~= names_of_list(v@, 0));
    while i < v.len()
        invariant
            i <= v@.len(),
            r@.map_values(|s: String| s@) == names_of_list(v@, i as int),
        decreases v@.len() - i,
    {
        proof {
            assert(decreases_to!(v => v[i as int]));
        }
        let mut sub = v[i].get_names();
        let ghost before = r@;
        let ghost sub_before = sub@;
        r.append(&mut sub);
        assert(r@.map_values(|s: String| s@) =~= before.map_values(|s: String| s@)
            + sub_before.map_values(|s: String| s@));
        i = i + 1;
    }
    r
}

/// A copy of a list of times.
pub fn copy_times(v: &Vec<u64>) -> (r: Vec<u64>)
    ensures
        r@ == v@,
{
    let mut r: Vec<u64> = Vec::new();
    let mut i: usize = 0;
    while i < v.len()
        invariant
            i <= v@.len(),
            r@ == v@.take(i as int),
        decreases v@.len() - i,
    {
        r.push(v[i]);
        assert(r@ =~= v@.take(i + 1));
        i = i + 1;
    }
    assert(v@.take(v@.len() as int) =~= v@);
    r
}

impl TriggerCombination {
    /// Activation times of this combination; the first failure of a trigger it uses
    /// when there is one.
    pub fn get_times(&self, triggers: &DoneTriggers) -> (r: Result<Vec<u64>, String>)
        requires
            all_done(*self, *triggers),
        ensures
            r matches Ok(t) ==> first_error(*self, *triggers) is None && times_ok(*self, *triggers, t@),
            r matches Err(e) ==> first_error(*self, *triggers) == Some(e@),
        decreases self, 0nat,
    {
        match self {
            TriggerCombination::NoTrigger => {
                let r = vec![0u64];
                assert(r@ =~= seq![0u64]);
                Ok(r)
            },
            TriggerCombination::Single(name) => {
                assert(names_of(*self)[0] == name@);
                match triggers.get(name.as_str()) {
                    Some(Ok(times)) => Ok(copy_times(times)),
                    Some(Err(e)) => Err(e.clone()),
                    None => {
                        assert(false);
                        Err(String::new())
                    },
                }
            },
            TriggerCombination::Any(v) => {
                proof {
                    lemma_parts_done(*self, v@, *triggers);
                }
                let parts = times_of_parts(v, triggers)?;
                let ghost rs = views_of(parts@);
                let merged = kmerge_times(parts);
                let r = dedup_times(merged);
                assert(parts_ok(v@, *triggers, rs, v@.len() as int));
                proof {
                    lemma_any_ok(*v, *triggers, rs, r@);
                }
                Ok(r)
            },
            TriggerCombination::All(v) => {
                proof {
                    lemma_parts_done(*self, v@, *triggers);
                }
                let parts = times_of_parts(v, triggers)?;
                let ghost rs = views_of(parts@);
                let num = v.len();
                let merged = kmerge_times(parts);
                let ghost m = merged@;
                let r = times_in_all(merged, num);
                assert(parts_ok(v@, *triggers, rs, v@.len() as int));
                assert(m.to_multiset() == flatten_times(rs).to_multiset());
                proof {
                    lemma_all_ok(*v, *triggers, rs, r@);
                }
                Ok(r)
            },
        }
    }
}

/// The times that occur `num` times in `merged`, once each.
fn times_in_all(merged: Vec<u64>, num: usize) -> (r: Vec<u64>)
    ensures
        all_times(merged@, num as nat, r@),
{
    let ghost m = merged@;
    let counts = count_times(merged);
    let mut r: Vec<u64> = Vec::new();
    let mut k: usize = 0;
    while k < counts.len()
        invariant
            k <= counts@.len(),
            forall|a: int, b: int| 0 <= a < b < counts@.len() ==> counts@[a].0 != counts@[b].0,
            forall|a: int| 0 <= a < counts@.len() ==> counts@[a].1 == m.to_multiset().count(#[trigger] counts@[a].0),
            forall|a: int| 0 <= a < counts@.len() ==> m.contains(#[trigger] counts@[a].0),
            forall|t: u64| m.contains(t) ==> exists|a: int| 0 <= a < counts@.len() && #[trigger] counts@[a].0 == t,
            forall|a: int, b: int| 0 <= a < b < r@.len() ==> r@[a] != r@[b],
            forall|t: u64| r@.contains(t) <==> exists|a: int| 0 <= a < k && #[trigger] counts@[a].0 == t && counts@[a].1 == num,
        decreases counts@.len() - k,
    {
        if counts[k].1 == num {
            let ghost before = r@;
            r.push(counts[k].0);
            assert forall|t: u64| r@.contains(t) <==> exists|a: int| 0 <= a < k + 1 && #[trigger] counts@[a].0 == t && counts@[a].1 == num by {
                if r@.contains(t) {
                    let w = choose|w: int| 0 <= w < r@.len() && #[trigger] r@[w] == t;
                    if w < before.len() {
                        assert(before[w] == t);
                        assert(before.contains(t));
                    }
                }
                if exists|a: int| 0 <= a < k + 1 && #[trigger] counts@[a].0 == t && counts@[a].1 == num {
                    let a = choose|a: int| 0 <= a < k + 1 && #[trigger] counts@[a].0 == t && counts@[a].1 == num;
                    if a < k {
                        assert(before.contains(t));
                        let w = choose|w: int| 0 <= w < before.len() && #[trigger] before[w] == t;
                        assert(r@[w] == t);
                    } else {
                        assert(r@[before.len() as int] == t);
                    }
                }
            }
            assert forall|a: int, b: int| 0 <= a < b < r@.len() implies r@[a] != r@[b] by {
                if b == before.len() {
                    assert(before[a] == r@[a]);
                    if r@[a] == r@[b] {
                        assert(before.contains(r@[a]));
                        let c = choose|c: int| 0 <= c < k && #[trigger] counts@[c].0 == r@[a] && counts@[c].1 == num;
                        assert(counts@[c].0 == counts@[k as int].0);
                    }
                }
            }
        } else {
            assert forall|t: u64| r@.contains(t) <==> exists|a: int| 0 <= a < k + 1 && #[trigger] counts@[a].0 == t && counts@[a].1 == num by {
                if exists|a: int| 0 <= a < k + 1 && #[trigger] counts@[a].0 == t && counts@[a].1 == num {
                    let a = choose|a: int| 0 <= a < k + 1 && #[trigger] counts@[a].0 == t && counts@[a].1 == num;
                    assert(a < k);
                }
            }
        }
        k = k + 1;
    }
    proof {
        m.to_multiset_ensures();
        assert forall|t: u64| r@.contains(t) <==> (num > 0 && m.to_multiset().count(t) == num) by {
            if r@.contains(t) {
                let a = choose|a: int| 0 <= a < k && #[trigger] counts@[a].0 == t && counts@[a].1 == num;
                assert(m.contains(t));
                assert(m.to_multiset().count(t) > 0);
            }
            if num > 0 && m.to_multiset().count(t) == num {
                assert(m.contains(t));
                let a = choose|a: int| 0 <= a < counts@.len() && #[trigger] counts@[a].0 == t;
                assert(counts@[a].1 == num);
            }
        }
    }
    r
}

/// Outcomes of each of the combinations in `v`, or the first failure among them.
fn times_of_parts(v: &Vec<TriggerCombination>, triggers: &DoneTriggers) -> (r: Result<Vec<Vec<u64>>, String>)
    requires
        forall|j: int| 0 <= j < v@.len() ==> all_done(#[trigger] v@[j], *triggers),
    ensures
        r matches Ok(parts) ==> first_error_list(v@, *triggers, v@.len() as int) is None
            && parts@.len() == v@.len() && parts_ok(v@, *triggers, views_of(parts@), v@.len() as int),
        r matches Err(e) ==> first_error_list(v@, *triggers, v@.len() as int) == Some(e@),
    decreases v, 1nat,
{
    let mut parts: Vec<Vec<u64>> = Vec::new();
    let mut i: usize = 0;
    while i < v.len()
        invariant
            i <= v@.len(),
            forall|j: int| 0 <= j < v@.len() ==> all_done(#[trigger] v@[j], *triggers),
            parts@.len() == i,
            first_error_list(v@, *triggers, i as int) is None,
            parts_ok(v@, *triggers, views_of(parts@), i as int),
        decreases v@.len() - i,
    {
        proof {
            assert(decreases_to!(v => v[i as int]));
        }
        match v[i].get_times(triggers) {
            Ok(t) => {
                let ghost before = views_of(parts@);
                parts.push(t);
                proof {
                    lemma_parts_ok_extend(v@, *triggers, before, views_of(parts@), i as int);
                }
            },
            Err(e) => {
                proof {
                    lemma_first_error_stays(v@, *triggers, i as int, v@.len() as int);
                }
                return Err(e);
            },
        }
        i = i + 1;
    }
    Ok(parts)
}

proof fn lemma_parts_done(c: TriggerCombination, cs: Seq<TriggerCombination>, done: DoneTriggers)
    requires
        all_done(c, done),
        names_of(c) == names_of_list(cs, cs.len() as int),
    ensures
        forall|j: int| 0 <= j < cs.len() ==> all_done(#[trigger] cs[j], done),
{
    assert forall|j: int| 0 <= j < cs.len() implies all_done(#[trigger] cs[j], done) by {
        assert forall|i: int| 0 <= i < names_of(cs[j]).len() implies done.lookup(#[trigger] names_of(cs[j])[i]) is Some by {
            lemma_names_list_prefix(cs, cs.len() as int, j, i);
            let w = choose|w: int| 0 <= w < names_of_list(cs, cs.len() as int).len() && #[trigger] names_of_list(cs, cs.len() as int)[w] == names_of(cs[j])[i];
            assert(names_of(c)[w] == names_of(cs[j])[i]);
        }
    }
}

proof fn lemma_parts_ok_extend(
    cs: Seq<TriggerCombination>,
    done: DoneTriggers,
    before: Seq<Seq<u64>>,
    after: Seq<Seq<u64>>,
    i: int,
)
    requires
        0 <= i < cs.len(),
        parts_ok(cs, done, before, i),
        before.len() == i,
        after.len() == i + 1,
        forall|j: int| 0 <= j < i ==> after[j] == before[j],
        times_ok(cs[i], done, after[i]),
    ensures
        parts_ok(cs, done, after, i + 1),
{
    assert forall|j: int| 0 <= j < i + 1 implies times_ok(cs[j], done, #[trigger] after[j]) by {
        if j < i {
            assert(before[j] == after[j]);
        }
    }
}

proof fn lemma_first_error_stays(cs: Seq<TriggerCombination>, done: DoneTriggers, i: int, k: int)
    requires
        0 <= i < k <= cs.len(),
        first_error_list(cs, done, i) is None,
        first_error(cs[i], done) is Some,
    ensures
        first_error_list(cs, done, k) == first_error(cs[i], done),
    decreases k,
{
    if k > i + 1 {
        lemma_first_error_stays(cs, done, i, k - 1);
    }
}

proof fn lemma_any_ok(v: Vec<TriggerCombination>, done: DoneTriggers, rs: Seq<Seq<u64>>, r: Seq<u64>)
    requires
        parts_ok(v@, done, rs, v@.len() as int),
        rs.len() == v@.len(),
        r == dedup_spec(kmerged(rs)),
        kmerged(rs).to_multiset() == flatten_times(rs).to_multiset(),
        all_ascending(rs) ==> ascending(kmerged(rs)),
    ensures
        times_ok(TriggerCombination::Any(v), done, r),
{
    broadcast use vstd::seq_lib::group_to_multiset_ensures;
    lemma_dedup(kmerged(rs));
    assert forall|t: u64| r.contains(t) <==> in_any(rs, t) by {
        lemma_flatten_times(rs, t);
    }
    assert(forall|j: int| 0 <= j < v@.len() ==> times_ok(v@[j], done, rs[j]));
}

proof fn lemma_all_ok(v: Vec<TriggerCombination>, done: DoneTriggers, rs: Seq<Seq<u64>>, r: Seq<u64>)
    requires
        parts_ok(v@, done, rs, v@.len() as int),
        rs.len() == v@.len(),
        all_times(flatten_times(rs), v@.len(), r),
    ensures
        times_ok(TriggerCombination::All(v), done, r),
{
    if all_strictly_ascending(rs) {
        assert forall|t: u64| r.contains(t) <==> (rs.len() > 0 && in_all(rs, t)) by {
            lemma_flatten_times(rs, t);
            lemma_count_in_all(rs, t);
        }
    }
    assert(forall|j: int| 0 <= j < v@.len() ==> times_ok(v@[j], done, rs[j]));
}

/// Index of the first deactivation time from index `j` on that comes after `start`;
/// the number of deactivation times when there is none.
pub open spec fn first_end_after(ends: Seq<u64>, j: int, start: u64) -> int
    decreases ends.len() - j,
{
    if j < 0 || j >= ends.len() {
        ends.len() as int
    } else if ends[j] > start {
        j
    } else {
        first_end_after(ends, j + 1, start)
    }
}

/// Intervals from the activation times from index `i` on, with the deactivation times
/// from index `j` on still unused and the last interval ending at `last_end`: an
/// activation before `last_end` is ignored; otherwise the interval lasts until the first
/// unused deactivation after it (the ones before it are used up), or until `time_end`.
pub open spec fn intervals_rec(starts: Seq<u64>, ends: Seq<u64>, time_end: u64, i: int, j: int, last_end: u64) -> Seq<[u64; 2]>
    decreases starts.len() - i,
{
    if i < 0 || i >= starts.len() {
        Seq::empty()
    } else if starts[i] < last_end {
        intervals_rec(starts, ends, time_end, i + 1, j, last_end)
    } else {
        let k = first_end_after(ends, j, starts[i]);
        if k < ends.len() {
            seq![[starts[i], ends[k]]] + intervals_rec(starts, ends, time_end, i + 1, k + 1, ends[k])
        } else {
            seq![[starts[i], time_end]] + intervals_rec(starts, ends, time_end, i + 1, k, time_end)
        }
    }
}

/// Intervals during which an analyzer is active, from its activation and deactivation times.
pub open spec fn intervals_spec(starts: Seq<u64>, ends: Seq<u64>, time_end: u64) -> Seq<[u64; 2]> {
    intervals_rec(starts, ends, time_end, 0, 0, 0)
}

proof fn lemma_first_end_after(ends: Seq<u64>, j: int, start: u64)
    requires
        0 <= j,
    ensures
        j <= first_end_after(ends, j, start) <= ends.len() || (j > ends.len() && first_end_after(ends, j, start) == ends.len()),
        first_end_after(ends, j, start) < ends.len() ==> ends[first_end_after(ends, j, start)] > start,
    decreases ends.len() - j,
{
    if j < ends.len() && ends[j] <= start {
        lemma_first_end_after(ends, j + 1, start);
    }
}

/// The shape of the intervals built from `i`, `j` and `last_end` on.
pub open spec fn intervals_shaped(starts: Seq<u64>, ends: Seq<u64>, time_end: u64, r: Seq<[u64; 2]>, i: int, last_end: u64) -> bool {
    &&& forall|k: int| 0 <= k < r.len() ==> exists|a: int| i <= a < starts.len() && starts[a] == #[trigger] r[k][0]
    &&& forall|k: int| 0 <= k < r.len() ==> #[trigger] r[k][1] > r[k][0] || r[k][1] == time_end
    &&& forall|k: int| 0 <= k < r.len() ==> #[trigger] r[k][1] == time_end || exists|b: int| 0 <= b < ends.len() && ends[b] == r[k][1]
    &&& r.len() > 0 ==> r[0][0] >= last_end
    &&& forall|k: int, l: int| 0 <= k && l == k + 1 && l < r.len() ==> #[trigger] r[l][0] >= #[trigger] r[k][1]
}

proof fn lemma_intervals_rec_shape(starts: Seq<u64>, ends: Seq<u64>, time_end: u64, i: int, j: int, last_end: u64)
    requires
        0 <= i,
        0 <= j,
    ensures
        intervals_shaped(starts, ends, time_end, intervals_rec(starts, ends, time_end, i, j, last_end), i, last_end),
    decreases starts.len() - i,
{
    let r = intervals_rec(starts, ends, time_end, i, j, last_end);
    if i >= starts.len() {
    } else if starts[i] < last_end {
        lemma_intervals_rec_shape(starts, ends, time_end, i + 1, j, last_end);
        let rest = intervals_rec(starts, ends, time_end, i + 1, j, last_end);
        assert forall|k: int| 0 <= k < r.len() implies exists|a: int| i <= a < starts.len() && starts[a] == #[trigger] r[k][0] by {
            let a = choose|a: int| i + 1 <= a < starts.len() && starts[a] == #[trigger] rest[k][0];
        }
    } else {
        let k0 = first_end_after(ends, j, starts[i]);
        lemma_first_end_after(ends, j, starts[i]);
        let (end, j2) = if k0 < ends.len() { (ends[k0], k0 + 1) } else { (time_end, k0) };
        lemma_intervals_rec_shape(starts, ends, time_end, i + 1, j2, end);
        let rest = intervals_rec(starts, ends, time_end, i + 1, j2, end);
        assert(r == seq![[starts[i], end]] + rest);
        assert forall|k: int| 0 <= k < r.len() implies exists|a: int| i <= a < starts.len() && starts[a] == #[trigger] r[k][0] by {
            if k == 0 {
                assert(starts[i] == r[0][0]);
            } else {
                assert(r[k] == rest[k - 1]);
                let a = choose|a: int| i + 1 <= a < starts.len() && starts[a] == #[trigger] rest[k - 1][0];
            }
        }
        assert forall|k: int| 0 <= k < r.len() implies #[trigger] r[k][1] > r[k][0] || r[k][1] == time_end by {
            if k > 0 {
                assert(r[k] == rest[k - 1]);
            }
        }
        assert forall|k: int| 0 <= k < r.len() implies #[trigger] r[k][1] == time_end || exists|b: int| 0 <= b < ends.len() && ends[b] == r[k][1] by {
            if k > 0 {
                assert(r[k] == rest[k - 1]);
            } else if k0 < ends.len() {
                assert(ends[k0] == r[0][1]);
            }
        }
        assert forall|k: int, l: int| 0 <= k && l == k + 1 && l < r.len() implies #[trigger] r[l][0] >= #[trigger] r[k][1] by {
            assert(r[l] == rest[k]);
            if k > 0 {
                assert(r[k] == rest[k - 1]);
                assert(rest[k][0] >= rest[k - 1][1]);
            }
        }
    }
}

/// What the intervals of an analyzer are made of: each starts at an activation time and
/// lasts until a later deactivation time, or until the end of the trace; each starts no
/// earlier than the one before it ends.
pub proof fn lemma_intervals_shape(starts: Seq<u64>, ends: Seq<u64>, time_end: u64)
    ensures
        intervals_shaped(starts, ends, time_end, intervals_spec(starts, ends, time_end), 0, 0),
{
    lemma_intervals_rec_shape(starts, ends, time_end, 0, 0, 0);
}

/// Intervals during which an analyzer is active, from its activation times `starts`,
/// its deactivation times `ends`, and the time at which the trace ends.
pub fn intervals_from_times(starts: &Vec<u64>, ends: &Vec<u64>, time_end: u64) -> (r: Vec<[u64; 2]>)
    ensures
        r@ == intervals_spec(starts@, ends@, time_end),
        intervals_shaped(starts@, ends@, time_end, r@, 0, 0),
{
    let mut r: Vec<[u64; 2]> = Vec::new();
    let mut last_end: u64 = 0;
    let mut i: usize = 0;
    let mut j: usize = 0;
    while i < starts.len()
        invariant
            i <= starts@.len(),
            j <= ends@.len(),
            r@ + intervals_rec(starts@, ends@, time_end, i as int, j as int, last_end) == intervals_spec(starts@, ends@, time_end),
        decreases starts@.len() - i,
    {
        let start = starts[i];
        if start < last_end {
            i = i + 1;
            continue;
        }
        let ghost before = r@;
        proof {
            lemma_first_end_after(ends@, j as int, start);
        }
        let mut k: usize = j;
        while k < ends.len() && ends[k] <= start
            invariant
                j <= k <= ends@.len(),
                first_end_after(ends@, j as int, start) == first_end_after(ends@, k as int, start),
            decreases ends@.len() - k,
        {
            k = k + 1;
        }
        if k < ends.len() {
            let end = ends[k];
            r.push([start, end]);
            assert(r@ + intervals_rec(starts@, ends@, time_end, i + 1, k + 1, end) =~= before
                + intervals_rec(starts@, ends@, time_end, i as int, j as int, last_end));
            last_end = end;
            j = k + 1;
        } else {
            r.push([start, time_end]);
            assert(r@ + intervals_rec(starts@, ends@, time_end, i + 1, k as int, time_end) =~= before
                + intervals_rec(starts@, ends@, time_end, i as int, j as int, last_end));
            last_end = time_end;
            j = k;
        }
        i = i + 1;
    }
    assert(r@ =~= intervals_spec(starts@, ends@, time_end));
    proof {
        lemma_intervals_shape(starts@, ends@, time_end);
    }
    r
}

/// Defines when an analyzer should activate and deactivate.
pub struct TriggerSink {
    pub activate: TriggerCombination,
    pub deactivate: TriggerCombination,
}

impl TriggerSink {
    pub fn new(activate: TriggerCombination, deactivate: TriggerCombination) -> (r: Self)
        ensures
            r == (TriggerSink { activate, deactivate }),
    {
        TriggerSink { activate, deactivate }
    }

    /// Names of the triggers that must be analyzed before the sink can tell the
    /// intervals in which its analyzer is active: those of the activation, then those
    /// of the deactivation.
    pub fn required(&self) -> (r: Vec<String>)
        ensures
            r@.map_values(|s: String| s@) == names_of(self.activate) + names_of(self.deactivate),
    {
        let mut req = self.activate.get_names();
        let mut de = self.deactivate.get_names();
        let ghost a = req@;
        let ghost d = de@;
        req.append(&mut de);
        assert(req@.map_values(|s: String| s@) =~= a.map_values(|s: String| s@) + d.map_values(|s: String| s@));
        req
    }

    /// Time periods (intervals) during which the analyzer should be active; the failure
    /// of a required trigger, the activation's first, when there is one.
    pub fn get_intervals(&self, triggers: &DoneTriggers, time_end: u64) -> (r: Result<Vec<[u64; 2]>, String>)
        requires
            all_done(self.activate, *triggers),
            all_done(self.deactivate, *triggers),
        ensures
            r matches Err(e) ==> (first_error(self.activate, *triggers) == Some(e@) || (first_error(
                self.activate,
                *triggers,
            ) is None && first_error(self.deactivate, *triggers) == Some(e@))),
            r is Ok <==> first_error(self.activate, *triggers) is None && first_error(self.deactivate, *triggers) is None,
            r matches Ok(v) ==> exists|starts: Seq<u64>, ends: Seq<u64>|
                times_ok(self.activate, *triggers, starts) && times_ok(self.deactivate, *triggers, ends)
                    && v@ == #[trigger] intervals_spec(starts, ends, time_end),
    {
        let starts = self.activate.get_times(triggers)?;
        let ends = self.deactivate.get_times(triggers)?;
        let r = intervals_from_times(&starts, &ends, time_end);
        assert(times_ok(self.activate, *triggers, starts@) && times_ok(self.deactivate, *triggers, ends@));
        Ok(r)
    }
}

} // verus!
