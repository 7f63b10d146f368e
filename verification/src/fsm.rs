//! Finite state machine triggers: a machine moves between states on the activation
//! of triggers and activates the trigger of each state it enters.
use vstd::prelude::*;
use itertools::Itertools;
use vstd::string::StringExecFns;
use crate::trigger::{copy_times, outcome_view, DoneTriggers, TriggerName, TriggerOutcome};

verus! {

/// A state of a machine.
pub struct FsmState {
    pub name: String,
    /// Triggers that move the machine from this state, with the index of the state each leads to,
    /// in the order of the description.
    pub transitions: Vec<(TriggerName, usize)>,
    /// State entered without waiting for a trigger, if any.
    pub epsilon_transition: Option<usize>,
    /// Index (among the machine's trigger names) of the trigger activated on entering this state.
    pub trigger: Option<usize>,
}

/// A finite state machine. It starts in its first state at time 0.
pub struct Fsm {
    pub name: String,
    pub states: Vec<FsmState>,
    /// Names of the triggers the machine activates, each once.
    pub trigger_names: Vec<TriggerName>,
}

/// Epsilon transitions of the states.
pub open spec fn eps_of(states: Seq<FsmState>) -> Seq<Option<usize>> {
    states.map_values(|s: FsmState| s.epsilon_transition)
}

/// Number of epsilon transitions that lead from state `s` to a state without one,
/// following at most `fuel` of them.
pub open spec fn eps_depth(eps: Seq<Option<usize>>, s: int, fuel: nat) -> Option<nat>
    decreases fuel,
{
    if fuel == 0 || s < 0 || s >= eps.len() {
        None
    } else {
        match eps[s] {
            None => Some(0),
            Some(t) => match eps_depth(eps, t as int, (fuel - 1) as nat) {
                Some(d) => Some(d + 1),
                None => None,
            },
        }
    }
}

/// Following epsilon transitions from any state leads to a state without one.
pub open spec fn eps_acyclic(states: Seq<FsmState>) -> bool {
    forall|s: int| 0 <= s < states.len() ==> (#[trigger] eps_depth(eps_of(states), s, states.len())) is Some
}

impl Fsm {
    /// The machine has a first state, and its transitions and triggers refer to its own
    /// states and trigger names.
    pub open spec fn wf(&self) -> bool {
        &&& self.states@.len() > 0
        &&& forall|s: int, k: int|
            0 <= s < self.states@.len() && 0 <= k < self.states@[s].transitions@.len() ==> #[trigger] self.states@[s].transitions@[k].1
                < self.states@.len()
        &&& forall|s: int|
            0 <= s < self.states@.len() ==> (#[trigger] self.states@[s].epsilon_transition matches Some(t) ==> t
                < self.states@.len())
        &&& forall|s: int|
            0 <= s < self.states@.len() ==> (#[trigger] self.states@[s].trigger matches Some(k) ==> k
                < self.trigger_names@.len())
    }
}

/// Where a machine is during its run: its state, the time, how far each state's
/// transitions have been read, and the activations so far (trigger index and time).
pub struct FsmConfig {
    pub cur: int,
    pub time: u64,
    pub pos: Seq<int>,
    pub events: Seq<(usize, u64)>,
}

/// Position of the first transition at or after `p` that does not come before `time`.
pub open spec fn skip_stale(tr: Seq<(u64, usize)>, p: int, time: u64) -> int
    decreases tr.len() - p,
{
    if 0 <= p < tr.len() && tr[p].0 < time {
        skip_stale(tr, p + 1, time)
    } else {
        p
    }
}

/// The configuration after entering state `s` at time `t`.
pub open spec fn enter(states: Seq<FsmState>, c: FsmConfig, s: int, t: u64, pos: Seq<int>) -> FsmConfig {
    FsmConfig {
        cur: s,
        time: t,
        pos,
        events: match states[s].trigger {
            Some(k) => c.events.push((k, t)),
            None => c.events,
        },
    }
}

/// One move of a machine whose states' transitions, merged by time, are `trans`:
/// transitions that come before the current time are dropped; then the next transition
/// is taken, unless it comes later and the state has an epsilon transition, which is then
/// taken at once; with no transition left, the epsilon transition is taken, and without
/// one the run is over.
pub open spec fn fsm_step(states: Seq<FsmState>, trans: Seq<Seq<(u64, usize)>>, c: FsmConfig) -> Option<FsmConfig> {
    let tr = trans[c.cur];
    let p = skip_stale(tr, c.pos[c.cur], c.time);
    let pos = c.pos.update(c.cur, p);
    let eps = states[c.cur].epsilon_transition;
    if p < tr.len() {
        let (t, to) = tr[p];
        if eps is Some && t > c.time {
            Some(enter(states, c, eps->0 as int, c.time, pos))
        } else {
            Some(enter(states, c, to as int, t, pos.update(c.cur, p + 1)))
        }
    } else if eps is Some {
        Some(enter(states, c, eps->0 as int, c.time, pos))
    } else {
        None
    }
}

/// A machine of `n` states at the start of its run.
pub open spec fn fsm_initial(n: nat) -> FsmConfig {
    FsmConfig { cur: 0, time: 0, pos: Seq::new(n, |i: int| 0int), events: Seq::empty() }
}

/// `run` is the run of the machine from its start to its end.
pub open spec fn is_run(states: Seq<FsmState>, trans: Seq<Seq<(u64, usize)>>, run: Seq<FsmConfig>) -> bool {
    &&& run.len() > 0
    &&& run[0] == fsm_initial(states.len())
    &&& forall|i: int| 0 <= i < run.len() - 1 ==> fsm_step(states, trans, #[trigger] run[i]) == Some(run[i + 1])
    &&& fsm_step(states, trans, run.last()) is None
}

/// Times at which trigger `k` was activated.
pub open spec fn slot_times(events: Seq<(usize, u64)>, k: usize) -> Seq<u64>
    decreases events.len(),
{
    if events.len() == 0 {
        Seq::empty()
    } else if events.last().0 == k {
        slot_times(events.drop_last(), k).push(events.last().1)
    } else {
        slot_times(events.drop_last(), k)
    }
}

/// Transitions read so far do not exceed the lists.
pub open spec fn pos_ok(trans: Seq<Seq<(u64, usize)>>, pos: Seq<int>) -> bool {
    &&& pos.len() == trans.len()
    &&& forall|s: int| 0 <= s < pos.len() ==> 0 <= #[trigger] pos[s] <= trans[s].len()
}

/// Number of transitions not read yet among the first `k` states.
pub open spec fn remaining(trans: Seq<Seq<(u64, usize)>>, pos: Seq<int>, k: int) -> int
    decreases k,
{
    if k <= 0 {
        0
    } else {
        remaining(trans, pos, k - 1) + (trans[k - 1].len() - pos[k - 1])
    }
}

proof fn lemma_remaining_nonneg(trans: Seq<Seq<(u64, usize)>>, pos: Seq<int>, k: int)
    requires
        pos_ok(trans, pos),
        k <= pos.len(),
    ensures
        remaining(trans, pos, k) >= 0,
    decreases k,
{
    if k > 0 {
        lemma_remaining_nonneg(trans, pos, k - 1);
    }
}

proof fn lemma_remaining_update(trans: Seq<Seq<(u64, usize)>>, pos: Seq<int>, s: int, p: int, k: int)
    requires
        pos_ok(trans, pos),
        0 <= s < pos.len(),
        pos[s] <= p <= trans[s].len(),
        k <= pos.len(),
    ensures
        remaining(trans, pos.update(s, p), k) == remaining(trans, pos, k) - (if s < k { p - pos[s] } else { 0 }),
    decreases k,
{
    if k > 0 {
        lemma_remaining_update(trans, pos, s, p, k - 1);
    }
}

proof fn lemma_eps_depth_more_fuel(eps: Seq<Option<usize>>, s: int, f: nat)
    requires
        eps_depth(eps, s, f) is Some,
    ensures
        eps_depth(eps, s, f + 1) == eps_depth(eps, s, f),
    decreases f,
{
    if f > 0 {
        if let Some(t) = eps[s] {
            lemma_eps_depth_more_fuel(eps, t as int, (f - 1) as nat);
        }
    }
}

proof fn lemma_eps_step_rank(states: Seq<FsmState>, s: int, e: usize)
    requires
        eps_acyclic(states),
        0 <= s < states.len(),
        states[s].epsilon_transition == Some(e),
        e < states.len(),
    ensures
        eps_depth(eps_of(states), e as int, states.len())->0 < eps_depth(eps_of(states), s, states.len())->0,
{
    let eps = eps_of(states);
    let n = states.len();
    assert(eps_depth(eps, s, n) is Some);
    assert(eps[s] == Some(e));
    lemma_eps_depth_more_fuel(eps, e as int, (n - 1) as nat);
}

/// Tells whether following epsilon transitions from state `s` leads, within `n` of
/// them, to a state without one.
fn eps_chain_ends(states: &Vec<FsmState>, s: usize) -> (r: bool)
    requires
        s < states@.len(),
        forall|q: int|
            0 <= q < states@.len() ==> (#[trigger] states@[q].epsilon_transition matches Some(t) ==> t < states@.len()),
    ensures
        r == eps_depth(eps_of(states@), s as int, states@.len()) is Some,
{
    let ghost eps = eps_of(states@);
    let mut cur = s;
    let mut fuel = states.len();
    while fuel > 0
        invariant
            cur < states@.len(),
            fuel <= states@.len(),
            eps == eps_of(states@),
            forall|q: int|
                0 <= q < states@.len() ==> (#[trigger] states@[q].epsilon_transition matches Some(t) ==> t < states@.len()),
            eps_depth(eps, s as int, states@.len()) is Some == eps_depth(eps, cur as int, fuel as nat) is Some,
        decreases fuel,
    {
        match states[cur].epsilon_transition {
            None => {
                return true;
            },
            Some(t) => {
                cur = t;
                fuel = fuel - 1;
            },
        }
    }
    false
}

impl Fsm {
    /// Tells whether the machine has a first state and its transitions and triggers refer
    /// to its own states and trigger names.
    pub fn is_wf(&self) -> (r: bool)
        ensures
            r == self.wf(),
    {
        let n = self.states.len();
        if n == 0 {
            return false;
        }
        let mut s: usize = 0;
        while s < n
            invariant
                s <= n,
                n == self.states@.len(),
                forall|q: int, k: int|
                    0 <= q < s && 0 <= k < self.states@[q].transitions@.len() ==> #[trigger] self.states@[q].transitions@[k].1
                        < n,
                forall|q: int| 0 <= q < s ==> (#[trigger] self.states@[q].epsilon_transition matches Some(t) ==> t < n),
                forall|q: int|
                    0 <= q < s ==> (#[trigger] self.states@[q].trigger matches Some(k) ==> k < self.trigger_names@.len()),
            decreases n - s,
        {
            let st = &self.states[s];
            let mut k: usize = 0;
            while k < st.transitions.len()
                invariant
                    k <= st.transitions@.len(),
                    s < n,
                    n == self.states@.len(),
                    *st == self.states@[s as int],
                    forall|j: int| 0 <= j < k ==> #[trigger] st.transitions@[j].1 < n,
                decreases st.transitions@.len() - k,
            {
                if st.transitions[k].1 >= n {
                    assert(self.states@[s as int].transitions@[k as int].1 >= n);
                    return false;
                }
                k = k + 1;
            }
            match st.epsilon_transition {
                Some(t) => {
                    if t >= n {
                        assert(self.states@[s as int].epsilon_transition == Some(t));
                        return false;
                    }
                },
                None => {},
            }
            match st.trigger {
                Some(t) => {
                    if t >= self.trigger_names.len() {
                        assert(self.states@[s as int].trigger == Some(t));
                        return false;
                    }
                },
                None => {},
            }
            s = s + 1;
        }
        true
    }

    /// Tells whether following epsilon transitions from any state leads to a state
    /// without one, so that a run of the machine ends.
    pub fn epsilon_transitions_end(&self) -> (r: bool)
        requires
            self.wf(),
        ensures
            r == eps_acyclic(self.states@),
    {
        let mut s: usize = 0;
        while s < self.states.len()
            invariant
                s <= self.states@.len(),
                self.wf(),
                forall|q: int| 0 <= q < s ==> (#[trigger] eps_depth(eps_of(self.states@), q, self.states@.len())) is Some,
            decreases self.states@.len() - s,
        {
            if !eps_chain_ends(&self.states, s) {
                return false;
            }
            s = s + 1;
        }
        true
    }

    /// Runs the machine on its states' transitions, each state's merged in the order of
    /// time (`trans[s]` holds the time and the target state of each transition of state `s`),
    /// and returns the activation times of each of its triggers, in the order of its trigger names.
    pub fn run(&self, trans: &Vec<Vec<(u64, usize)>>) -> (r: Vec<Vec<u64>>)
        requires
            self.wf(),
            eps_acyclic(self.states@),
            trans@.len() == self.states@.len(),
            forall|s: int, k: int|
                0 <= s < trans@.len() && 0 <= k < trans@[s]@.len() ==> #[trigger] trans@[s]@[k].1 < self.states@.len(),
        ensures
            exists|run: Seq<FsmConfig>|
                is_run(self.states@, views_of_trans(trans@), run) && r@.len() == self.trigger_names@.len()
                    && forall|k: int| 0 <= k < r@.len() ==> #[trigger] r@[k]@ == slot_times(run.last().events, k as usize),
    {
        let ghost states = self.states@;
        let ghost tr = views_of_trans(trans@);
        let n = self.states.len();
        let mut pos: Vec<usize> = Vec::new();
        let mut i: usize = 0;
        while i < n
            invariant
                i <= n,
                n == states.len(),
                pos@.len() == i,
                forall|q: int| 0 <= q < i ==> pos@[q] == 0,
            decreases n - i,
        {
            pos.push(0);
            i = i + 1;
        }
        let mut cur: usize = 0;
        let mut time: u64 = 0;
        let mut events: Vec<(usize, u64)> = Vec::new();
        let ghost mut run: Seq<FsmConfig> = seq![fsm_initial(n as nat)];
        assert(pos_view(pos@) =~= fsm_initial(n as nat).pos);
        proof {
            lemma_remaining_nonneg(tr, pos_view(pos@), n as int);
        }
        loop
            invariant
                self.wf(),
                eps_acyclic(states),
                states == self.states@,
                n == states.len(),
                tr == views_of_trans(trans@),
                tr.len() == n,
                forall|s: int, k: int| 0 <= s < tr.len() && 0 <= k < tr[s].len() ==> #[trigger] tr[s][k].1 < n,
                cur < n,
                pos_ok(tr, pos_view(pos@)),
                run.len() > 0,
                run[0] == fsm_initial(n as nat),
                forall|q: int| 0 <= q < run.len() - 1 ==> fsm_step(states, tr, #[trigger] run[q]) == Some(run[q + 1]),
                run.last() == (FsmConfig { cur: cur as int, time, pos: pos_view(pos@), events: events@ }),
                forall|q: int| 0 <= q < events@.len() ==> #[trigger] events@[q].0 < self.trigger_names@.len(),
            ensures
                fsm_step(states, tr, run.last()) is None,
            decreases remaining(tr, pos_view(pos@), n as int), eps_depth(eps_of(states), cur as int, n as nat)->0,
        {
            let ghost c = run.last();
            let ghost before_remaining = remaining(tr, pos_view(pos@), n as int);
            let list = &trans[cur];
            let mut p = pos[cur];
            while p < list.len() && list[p].0 < time
                invariant
                    pos@[cur as int] <= p <= list@.len(),
                    cur < pos@.len(),
                    list@ == tr[cur as int],
                    cur < tr.len(),
                    tr.len() == pos@.len(),
                    skip_stale(tr[cur as int], pos@[cur as int] as int, time) == skip_stale(tr[cur as int], p as int, time),
                decreases list@.len() - p,
            {
                p = p + 1;
            }
            assert(skip_stale(tr[cur as int], p as int, time) == p);
            let ghost old_pos = pos_view(pos@);
            assert(old_pos.update(cur as int, p as int).update(cur as int, p + 1) =~= old_pos.update(cur as int, p + 1));
            assert(old_pos.update(cur as int, p as int).update(cur as int, p as int) =~= old_pos.update(cur as int, p as int));
            let eps = self.states[cur].epsilon_transition;
            let to: usize;
            let t: u64;
            let newp: usize;
            if p < list.len() {
                let (t0, to0) = list[p];
                match eps {
                    Some(e) if t0 > time => {
                        to = e;
                        t = time;
                        newp = p;
                        proof {
                            lemma_eps_step_rank(states, cur as int, e);
                        }
                    },
                    _ => {
                        to = to0;
                        t = t0;
                        newp = p + 1;
                    },
                }
            } else {
                match eps {
                    Some(e) => {
                        to = e;
                        t = time;
                        newp = p;
                        proof {
                            lemma_eps_step_rank(states, cur as int, e);
                        }
                    },
                    None => {
                        assert(fsm_step(states, tr, run.last()) is None);
                        break;
                    },
                }
            }
            proof {
                lemma_remaining_update(tr, pos_view(pos@), cur as int, newp as int, n as int);
                assert(pos_view(pos@.update(cur as int, newp)) =~= pos_view(pos@).update(cur as int, newp as int));
            }
            pos.set(cur, newp);
            cur = to;
            time = t;
            let ghost events_before = events@;
            match self.states[cur].trigger {
                Some(k) => {
                    events.push((k, time));
                },
                None => {},
            }
            proof {
                let next = FsmConfig { cur: cur as int, time, pos: pos_view(pos@), events: events@ };
                assert(fsm_step(states, tr, c) == Some(next));
                run = run.push(next);
                lemma_remaining_nonneg(tr, pos_view(pos@), n as int);
                assert forall|q: int| 0 <= q < events@.len() implies #[trigger] events@[q].0 < self.trigger_names@.len() by {
                    if q < events_before.len() {
                        assert(events@[q] == events_before[q]);
                    }
                }
            }
        }
        // collect the activation times of each trigger
        let mut r: Vec<Vec<u64>> = Vec::new();
        let mut k: usize = 0;
        while k < self.trigger_names.len()
            invariant
                k <= self.trigger_names@.len(),
                r@.len() == k,
                forall|q: int| 0 <= q < k ==> #[trigger] r@[q]@ == slot_times(events@, q as usize),
            decreases self.trigger_names@.len() - k,
        {
            let times = times_of_slot(&events, k);
            r.push(times);
            k = k + 1;
        }
        assert(is_run(states, tr, run));
        r
    }
}

/// Positions as integers.
pub open spec fn pos_view(p: Seq<usize>) -> Seq<int> {
    p.map_values(|x: usize| x as int)
}

/// Transition lists as sequences.
pub open spec fn views_of_trans(t: Seq<Vec<(u64, usize)>>) -> Seq<Seq<(u64, usize)>> {
    t.map_values(|v: Vec<(u64, usize)>| v@)
}

fn times_of_slot(events: &Vec<(usize, u64)>, k: usize) -> (r: Vec<u64>)
    ensures
        r@ == slot_times(events@, k),
{
    let mut r: Vec<u64> = Vec::new();
    let mut i: usize = 0;
    while i < events.len()
        invariant
            i <= events@.len(),
            r@ == slot_times(events@.take(i as int), k),
        decreases events@.len() - i,
    {
        assert(events@.take(i + 1).drop_last() =~= events@.take(i as int));
        if events[i].0 == k {
            r.push(events[i].1);
        }
        i = i + 1;
    }
    assert(events@.take(events@.len() as int) =~= events@);
    r
}

/// Names of the triggers of a state's transitions.
pub open spec fn state_names(st: FsmState) -> Seq<Seq<char>> {
    st.transitions@.map_values(|t: (TriggerName, usize)| t.0@)
}

/// Names of the triggers of the states' transitions, state by state.
pub open spec fn transition_names(states: Seq<FsmState>) -> Seq<Seq<char>>
    decreases states.len(),
{
    if states.len() == 0 {
        Seq::empty()
    } else {
        transition_names(states.drop_last()) + state_names(states.last())
    }
}

/// Whether transition `a` (its time and the index of its definition in its state) comes
/// before transition `b`: earlier in time, or at the same time and defined first.
fn earlier(a: &(u64, usize), b: &(u64, usize)) -> (r: bool)
    ensures
        r == (a.0 < b.0 || (a.0 == b.0 && a.1 < b.1)),
{
    a.0 < b.0 || (a.0 == b.0 && a.1 < b.1)
}

/// `x` does not come after `y`: by time, then by the index of the transition's definition.
pub open spec fn key_le(x: (u64, usize), y: (u64, usize)) -> bool {
    x.0 < y.0 || (x.0 == y.0 && x.1 <= y.1)
}

/// The transitions are in order of time and, at equal times, of their definitions.
pub open spec fn key_sorted(s: Seq<(u64, usize)>) -> bool {
    forall|a: int, b: int| 0 <= a <= b < s.len() ==> key_le(s[a], s[b])
}

/// The lists' transitions, one list after the other.
pub open spec fn flatten_transitions(lists: Seq<Seq<(u64, usize)>>) -> Seq<(u64, usize)>
    decreases lists.len(),
{
    if lists.len() == 0 {
        Seq::empty()
    } else {
        flatten_transitions(lists.drop_last()) + lists.last()
    }
}

/// What `Itertools::kmerge_by`, ordering by time and then by definition, yields on the
/// given lists of transition times with the index of each transition's definition.
pub uninterp spec fn kmerged_transitions(lists: Seq<Seq<(u64, usize)>>) -> Seq<(u64, usize)>;

/// Merges lists of transitions (time, index of the definition) with `Itertools::kmerge_by`,
/// ordered by [earlier]: the result holds every element of the lists, each as often as the
/// lists do, and is sorted by that order when every list is (as `kmerge_by` documents).
#[verifier::external_body]
fn kmerge_transitions(lists: Vec<Vec<(u64, usize)>>) -> (r: Vec<(u64, usize)>)
    ensures
        r@ == kmerged_transitions(views_of_trans(lists@)),
        r@.to_multiset() == flatten_transitions(views_of_trans(lists@)).to_multiset(),
        forall|k: int| 0 <= k < r@.len() ==> exists|i: int, j: int|
            0 <= i < lists@.len() && 0 <= j < lists@[i]@.len() && #[trigger] r@[k] == lists@[i]@[j],
        (forall|i: int| 0 <= i < lists@.len() ==> key_sorted(#[trigger] lists@[i]@)) ==> key_sorted(r@),
{
    lists.into_iter().kmerge_by(|a, b| earlier(a, b)).collect()
}

/// Times of transition `k` of a state, each with the index `k` of its definition.
pub open spec fn keyed_list(done: DoneTriggers, st: FsmState, k: int) -> Seq<(u64, usize)> {
    match done.lookup(st.transitions@[k].0@) {
        Some(Ok(times)) => times.map_values(|t: u64| (t, k as usize)),
        _ => Seq::empty(),
    }
}

/// The keyed transition lists of a state, in order.
pub open spec fn state_lists(done: DoneTriggers, st: FsmState) -> Seq<Seq<(u64, usize)>> {
    Seq::new(st.transitions@.len(), |k: int| keyed_list(done, st, k))
}

/// Transitions of each state, merged by time and then by definition, each with the index of
/// its definition.
pub open spec fn fsm_keyed(done: DoneTriggers, states: Seq<FsmState>) -> Seq<Seq<(u64, usize)>> {
    Seq::new(states.len(), |s: int| kmerged_transitions(state_lists(done, states[s])))
}

/// The merged transitions of a state with each definition index replaced by the state the
/// transition leads to.
pub open spec fn to_targets(st: FsmState, keyed: Seq<(u64, usize)>) -> Seq<(u64, usize)> {
    keyed.map_values(|e: (u64, usize)| (e.0, st.transitions@[e.1 as int].1))
}

/// Transitions of each state, merged by time and then by definition, each with the state it
/// leads to.
pub open spec fn fsm_trans(done: DoneTriggers, states: Seq<FsmState>) -> Seq<Seq<(u64, usize)>> {
    Seq::new(states.len(), |s: int| to_targets(states[s], fsm_keyed(done, states)[s]))
}

/// The times of each trigger that the state's transitions use are ascending.
pub open spec fn state_times_ascending(done: DoneTriggers, st: FsmState) -> bool {
    forall|k: int| 0 <= k < st.transitions@.len() ==> (#[trigger] done.lookup(st.transitions@[k].0@) matches Some(
        Ok(times),
    ) ==> forall|a: int, b: int| 0 <= a <= b < times.len() ==> times[a] <= times[b])
}

/// The first failed trigger among the first `k` transitions of a state.
pub open spec fn first_failed_in_state(done: DoneTriggers, st: FsmState, k: int) -> Option<Seq<char>>
    decreases k,
{
    if k <= 0 || k > st.transitions@.len() {
        None
    } else {
        match first_failed_in_state(done, st, k - 1) {
            Some(e) => Some(e),
            None => match done.lookup(st.transitions@[k - 1].0@) {
                Some(Err(e)) => Some(e),
                _ => None,
            },
        }
    }
}

/// The first failed trigger among the transitions of the first `s` states.
pub open spec fn first_failed(done: DoneTriggers, states: Seq<FsmState>, s: int) -> Option<Seq<char>>
    decreases s,
{
    if s <= 0 || s > states.len() {
        None
    } else {
        match first_failed(done, states, s - 1) {
            Some(e) => Some(e),
            None => first_failed_in_state(done, states[s - 1], states[s - 1].transitions@.len() as int),
        }
    }
}

/// The outcome reported for each state with a trigger, in order, when a trigger that the
/// machine uses failed with message `e`.
pub open spec fn failure_outputs(states: Seq<FsmState>, names: Seq<String>, e: Seq<char>) -> Seq<(Seq<char>, Seq<char>)>
    decreases states.len(),
{
    if states.len() == 0 {
        Seq::empty()
    } else {
        let rest = failure_outputs(states.drop_last(), names, e);
        match states.last().trigger {
            Some(k) => rest.push((names[k as int]@, "used trigger failed: "@ + e)),
            None => rest,
        }
    }
}

proof fn lemma_failed_in_state_stays(done: DoneTriggers, st: FsmState, k: int, j: int)
    requires
        0 <= k < j <= st.transitions@.len(),
        first_failed_in_state(done, st, k) is None,
        first_failed_in_state(done, st, k + 1) is Some,
    ensures
        first_failed_in_state(done, st, j) == first_failed_in_state(done, st, k + 1),
    decreases j,
{
    if j > k + 1 {
        lemma_failed_in_state_stays(done, st, k, j - 1);
    }
}

proof fn lemma_failed_stays(done: DoneTriggers, states: Seq<FsmState>, s: int, j: int)
    requires
        0 <= s < j <= states.len(),
        first_failed(done, states, s) is None,
        first_failed(done, states, s + 1) is Some,
    ensures
        first_failed(done, states, j) == first_failed(done, states, s + 1),
    decreases j,
{
    if j > s + 1 {
        lemma_failed_stays(done, states, s, j - 1);
    }
}


/// What analyzing the machine `m` gives, once the triggers in `done` are known: when a
/// trigger its transitions use failed, every trigger of the machine fails with the first
/// such failure; else each trigger of the machine with the times of one run of it. The run
/// reads each state's transitions in order of time and, of transitions at the same time,
/// the one defined first first, so that it takes that one.
pub open spec fn fsm_analyzed(m: Fsm, done: DoneTriggers, r: Seq<(String, TriggerOutcome)>) -> bool {
    &&& first_failed(done, m.states@, m.states@.len() as int) matches Some(e) ==> r.len()
        == failure_outputs(m.states@, m.trigger_names@, e).len() && forall|i: int|
        0 <= i < r.len() ==> (#[trigger] r[i]).0@ == failure_outputs(m.states@, m.trigger_names@, e)[i].0
            && outcome_view(r[i].1) == Err::<Seq<u64>, Seq<char>>(failure_outputs(m.states@, m.trigger_names@, e)[i].1)
    &&& first_failed(done, m.states@, m.states@.len() as int) is None ==> exists|run: Seq<FsmConfig>|
        is_run(m.states@, fsm_trans(done, m.states@), run) && r.len() == m.trigger_names@.len()
            && forall|k: int| 0 <= k < r.len() ==> (#[trigger] r[k]).0@ == m.trigger_names@[k]@
                && outcome_view(r[k].1) == Ok::<Seq<u64>, Seq<char>>(slot_times(run.last().events, k as usize))
    &&& first_failed(done, m.states@, m.states@.len() as int) is None ==> forall|s: int|
        0 <= s < m.states@.len() && state_times_ascending(done, #[trigger] m.states@[s]) ==> key_sorted(
            fsm_keyed(done, m.states@)[s],
        )
    &&& first_failed(done, m.states@, m.states@.len() as int) is None ==> forall|s: int|
        0 <= s < m.states@.len() ==> (#[trigger] fsm_keyed(done, m.states@)[s]).to_multiset()
            == flatten_transitions(state_lists(done, m.states@[s])).to_multiset()
}

impl Fsm {
    /// Every trigger the machine's transitions use has been analyzed.
    pub open spec fn inputs_done(&self, done: DoneTriggers) -> bool {
        forall|s: int, k: int|
            0 <= s < self.states@.len() && 0 <= k < self.states@[s].transitions@.len() ==> done.lookup(
                #[trigger] self.states@[s].transitions@[k].0@,
            ) is Some
    }

    /// The outcomes reported when a trigger that the machine uses failed with message `e`.
    fn failed(&self, e: &String) -> (r: Vec<(String, TriggerOutcome)>)
        requires
            self.wf(),
        ensures
            r@.len() == failure_outputs(self.states@, self.trigger_names@, e@).len(),
            forall|i: int| 0 <= i < r@.len() ==> (#[trigger] r@[i]).0@ == failure_outputs(self.states@, self.trigger_names@, e@)[i].0
                && outcome_view(r@[i].1) == Err::<Seq<u64>, Seq<char>>(failure_outputs(self.states@, self.trigger_names@, e@)[i].1),
    {
        let mut r: Vec<(String, TriggerOutcome)> = Vec::new();
        let mut s: usize = 0;
        while s < self.states.len()
            invariant
                s <= self.states@.len(),
                self.wf(),
                r@.len() == failure_outputs(self.states@.take(s as int), self.trigger_names@, e@).len(),
                forall|i: int| 0 <= i < r@.len() ==> (#[trigger] r@[i]).0@ == failure_outputs(self.states@.take(s as int), self.trigger_names@, e@)[i].0
                    && outcome_view(r@[i].1) == Err::<Seq<u64>, Seq<char>>(failure_outputs(self.states@.take(s as int), self.trigger_names@, e@)[i].1),
            decreases self.states@.len() - s,
        {
            assert(self.states@.take(s + 1).drop_last() =~= self.states@.take(s as int));
            match self.states[s].trigger {
                Some(k) => {
                    proof {
                        reveal_strlit("used trigger failed: ");
                    }
                    let mut m = String::from_str("used trigger failed: ");
                    m.append(e.as_str());
                    r.push((self.trigger_names[k].clone(), Err(m)));
                },
                None => {},
            }
            s = s + 1;
        }
        assert(self.states@.take(self.states@.len() as int) =~= self.states@);
        r
    }

    /// Activation times of the machine's triggers: the times at which it entered a state
    /// that sets each trigger. When a trigger that the transitions use failed, every state's
    /// trigger fails with the first such failure.
    pub fn analyze(&self, done: &DoneTriggers) -> (r: Vec<(String, TriggerOutcome)>)
        requires
            self.wf(),
            eps_acyclic(self.states@),
            self.inputs_done(*done),
        ensures
            fsm_analyzed(*self, *done, r@),
    {
        let n = self.states.len();
        let mut trans: Vec<Vec<(u64, usize)>> = Vec::new();
        let mut s: usize = 0;
        while s < n
            invariant
                s <= n,
                n == self.states@.len(),
                self.wf(),
                self.inputs_done(*done),
                trans@.len() == s,
                first_failed(*done, self.states@, s as int) is None,
                forall|q: int| 0 <= q < s ==> #[trigger] trans@[q]@ == fsm_trans(*done, self.states@)[q],
                forall|q: int, k: int| 0 <= q < s && 0 <= k < trans@[q]@.len() ==> #[trigger] trans@[q]@[k].1 < n,
                forall|q: int| 0 <= q < s && state_times_ascending(*done, #[trigger] self.states@[q]) ==> key_sorted(
                    fsm_keyed(*done, self.states@)[q],
                ),
                forall|q: int| 0 <= q < s ==> (#[trigger] fsm_keyed(*done, self.states@)[q]).to_multiset()
                    == flatten_transitions(state_lists(*done, self.states@[q])).to_multiset(),
            decreases n - s,
        {
            let st = &self.states[s];
            let mut lists: Vec<Vec<(u64, usize)>> = Vec::new();
            let mut k: usize = 0;
            while k < st.transitions.len()
                invariant
                    k <= st.transitions@.len(),
                    s < n,
                    n == self.states@.len(),
                    *st == self.states@[s as int],
                    self.wf(),
                    self.inputs_done(*done),
                    lists@.len() == k,
                    first_failed(*done, self.states@, s as int) is None,
                    first_failed_in_state(*done, *st, k as int) is None,
                    forall|q: int| 0 <= q < k ==> #[trigger] lists@[q]@ == keyed_list(*done, *st, q),
                    forall|q: int, j: int| 0 <= q < k && 0 <= j < lists@[q]@.len() ==> #[trigger] lists@[q]@[j].1 == q,
                decreases st.transitions@.len() - k,
            {
                assert(done.lookup(self.states@[s as int].transitions@[k as int].0@) is Some);
                match done.get(st.transitions[k].0.as_str()) {
                    Some(Ok(times)) => {
                        let mut pairs: Vec<(u64, usize)> = Vec::new();
                        let mut j: usize = 0;
                        while j < times.len()
                            invariant
                                j <= times@.len(),
                                pairs@ == times@.take(j as int).map_values(|t: u64| (t, k)),
                            decreases times@.len() - j,
                        {
                            pairs.push((times[j], k));
                            assert(pairs@ =~= times@.take(j + 1).map_values(|t: u64| (t, k)));
                            j = j + 1;
                        }
                        assert(times@.take(times@.len() as int) =~= times@);
                        assert(pairs@ =~= keyed_list(*done, *st, k as int));
                        lists.push(pairs);
                    },
                    Some(Err(e)) => {
                        proof {
                            lemma_failed_in_state_stays(*done, *st, k as int, st.transitions@.len() as int);
                            lemma_failed_stays(*done, self.states@, s as int, n as int);
                        }
                        return self.failed(e);
                    },
                    None => {
                        assert(false);
                    },
                }
                k = k + 1;
            }
            let ghost lv = views_of_trans(lists@);
            assert(lv =~= state_lists(*done, *st));
            proof {
                if state_times_ascending(*done, *st) {
                    assert forall|q: int| 0 <= q < lists@.len() implies key_sorted(#[trigger] lists@[q]@) by {
                        assert(lists@[q]@ == keyed_list(*done, *st, q));
                        assert(done.lookup(st.transitions@[q].0@) is Some);
                    }
                }
            }
            let merged = kmerge_transitions(lists);
            proof {
                assert forall|j: int| 0 <= j < merged@.len() implies #[trigger] merged@[j].1 < st.transitions@.len() by {
                    let (a, b) = choose|a: int, b: int|
                        0 <= a < lists@.len() && 0 <= b < lists@[a]@.len() && #[trigger] merged@[j] == lists@[a]@[b];
                    assert(lists@[a]@[b].1 == a);
                }
                assert(merged@ == fsm_keyed(*done, self.states@)[s as int]);
            }
            let mut targets: Vec<(u64, usize)> = Vec::new();
            let mut j: usize = 0;
            while j < merged.len()
                invariant
                    j <= merged@.len(),
                    s < n,
                    n == self.states@.len(),
                    *st == self.states@[s as int],
                    self.wf(),
                    forall|q: int| 0 <= q < merged@.len() ==> #[trigger] merged@[q].1 < st.transitions@.len(),
                    targets@ == to_targets(*st, merged@.take(j as int)),
                decreases merged@.len() - j,
            {
                let e = merged[j];
                assert(self.states@[s as int].transitions@[e.1 as int].1 < n);
                targets.push((e.0, st.transitions[e.1].1));
                assert(targets@ =~= to_targets(*st, merged@.take(j + 1)));
                j = j + 1;
            }
            assert(merged@.take(merged@.len() as int) =~= merged@);
            proof {
                assert forall|q: int| 0 <= q < targets@.len() implies #[trigger] targets@[q].1 < n by {
                    assert(targets@[q].1 == st.transitions@[merged@[q].1 as int].1);
                    assert(self.states@[s as int].transitions@[merged@[q].1 as int].1 < n);
                }
            }
            trans.push(targets);
            s = s + 1;
        }
        assert(views_of_trans(trans@) =~= fsm_trans(*done, self.states@));
        let times = self.run(&trans);
        let mut r: Vec<(String, TriggerOutcome)> = Vec::new();
        let mut k: usize = 0;
        while k < times.len()
            invariant
                k <= times@.len(),
                times@.len() == self.trigger_names@.len(),
                r@.len() == k,
                forall|q: int| 0 <= q < k ==> (#[trigger] r@[q]).0@ == self.trigger_names@[q]@
                    && outcome_view(r@[q].1) == Ok::<Seq<u64>, Seq<char>>(times@[q]@),
            decreases times@.len() - k,
        {
            r.push((self.trigger_names[k].clone(), Ok(copy_times(&times[k]))));
            k = k + 1;
        }
        r
    }

    /// Names of the triggers the machine's transitions use, state by state.
    pub fn required(&self) -> (r: Vec<String>)
        ensures
            r@.map_values(|x: String| x@) == transition_names(self.states@),
    {
        let mut r: Vec<String> = Vec::new();
        let mut s: usize = 0;
        while s < self.states.len()
            invariant
                s <= self.states@.len(),
                r@.map_values(|x: String| x@) == transition_names(self.states@.take(s as int)),
            decreases self.states@.len() - s,
        {
            let st = &self.states[s];
            let mut k: usize = 0;
            while k < st.transitions.len()
                invariant
                    s < self.states@.len(),
                    *st == self.states@[s as int],
                    k <= st.transitions@.len(),
                    r@.map_values(|x: String| x@) == transition_names(self.states@.take(s as int)) + state_names(*st).take(k as int),
                decreases st.transitions@.len() - k,
            {
                let ghost before = r@;
                r.push(st.transitions[k].0.clone());
                assert(r@.map_values(|x: String| x@) =~= before.map_values(|x: String| x@).push(st.transitions@[k as int].0@));
                assert(state_names(*st).take(k + 1) =~= state_names(*st).take(k as int).push(st.transitions@[k as int].0@));
                k = k + 1;
            }
            assert(state_names(*st).take(k as int) =~= state_names(*st));
            assert(self.states@.take(s + 1).drop_last() =~= self.states@.take(s as int));
            s = s + 1;
        }
        assert(self.states@.take(s as int) =~= self.states@);
        r
    }

    /// Names of the triggers the machine activates.
    pub fn names(&self) -> (r: &Vec<String>)
        ensures
            r@ == self.trigger_names@,
    {
        &self.trigger_names
    }

    /// Name of the machine.
    pub fn name(&self) -> (r: &str)
        ensures
            r@ == self.name@,
    {
        self.name.as_str()
    }
}

proof fn lemma_transition_name_in(states: Seq<FsmState>, s: int, k: int)
    requires
        0 <= s < states.len(),
        0 <= k < states[s].transitions@.len(),
    ensures
        exists|w: int| 0 <= w < transition_names(states).len() && #[trigger] transition_names(states)[w] == states[s].transitions@[k].0@,
    decreases states.len(),
{
    let d = states.drop_last();
    if s < states.len() - 1 {
        assert(d[s] == states[s]);
        lemma_transition_name_in(d, s, k);
        let w = choose|w: int| 0 <= w < transition_names(d).len() && #[trigger] transition_names(d)[w] == d[s].transitions@[k].0@;
        assert(transition_names(states)[w] == transition_names(d)[w]);
    } else {
        let w = transition_names(d).len() + k;
        assert(transition_names(states)[w] == state_names(states.last())[k]);
    }
}

/// When every trigger named by the machine's transitions has been analyzed, every
/// trigger it uses has been.
pub proof fn lemma_transition_names_done(states: Seq<FsmState>, done: DoneTriggers)
    requires
        forall|i: int| 0 <= i < transition_names(states).len() ==> done.lookup(#[trigger] transition_names(states)[i]) is Some,
    ensures
        forall|s: int, k: int|
            0 <= s < states.len() && 0 <= k < states[s].transitions@.len() ==> done.lookup(
                #[trigger] states[s].transitions@[k].0@,
            ) is Some,
{
    assert forall|s: int, k: int|
        0 <= s < states.len() && 0 <= k < states[s].transitions@.len() implies done.lookup(
            #[trigger] states[s].transitions@[k].0@,
        ) is Some by {
        lemma_transition_name_in(states, s, k);
        let w = choose|w: int| 0 <= w < transition_names(states).len() && #[trigger] transition_names(states)[w] == states[s].transitions@[k].0@;
    }
}


proof fn lemma_skip_stale(tr: Seq<(u64, usize)>, p: int, time: u64)
    requires
        0 <= p,
    ensures
        p <= skip_stale(tr, p, time),
        skip_stale(tr, p, time) <= tr.len() || skip_stale(tr, p, time) == p,
        skip_stale(tr, p, time) < tr.len() ==> tr[skip_stale(tr, p, time)].0 >= time,
        forall|j: int| p <= j < skip_stale(tr, p, time) ==> #[trigger] tr[j].0 < time,
    decreases tr.len() - p,
{
    if p < tr.len() && tr[p].0 < time {
        lemma_skip_stale(tr, p + 1, time);
    }
}

/// Law: a machine in a state with an epsilon transition, none of whose remaining
/// transitions comes at the current time, takes the epsilon transition at once: it enters
/// the epsilon target at the current time (activating that state's trigger then), and
/// waits for no later transition of the state it leaves.
pub proof fn lemma_epsilon_taken_at_once(states: Seq<FsmState>, trans: Seq<Seq<(u64, usize)>>, c: FsmConfig, e: usize)
    requires
        0 <= c.cur < states.len(),
        c.cur < trans.len(),
        c.cur < c.pos.len(),
        0 <= c.pos[c.cur],
        states[c.cur].epsilon_transition == Some(e),
        forall|j: int| c.pos[c.cur] <= j < trans[c.cur].len() ==> #[trigger] trans[c.cur][j].0 != c.time,
    ensures
        fsm_step(states, trans, c) matches Some(c2) && c2.cur == e && c2.time == c.time && c2.events == match states[e as int].trigger {
            Some(k) => c.events.push((k, c.time)),
            None => c.events,
        },
{
    lemma_skip_stale(trans[c.cur], c.pos[c.cur], c.time);
}

/// Law: when the transitions of the current state, from those not read yet on, come in
/// the order of time and one of them comes at the current time, the machine takes a
/// transition at the current time, to the target of such a transition, whether or not the
/// state has an epsilon transition.
pub proof fn lemma_transition_at_current_time_taken(states: Seq<FsmState>, trans: Seq<Seq<(u64, usize)>>, c: FsmConfig, j: int)
    requires
        0 <= c.cur < states.len(),
        c.cur < trans.len(),
        c.cur < c.pos.len(),
        0 <= c.pos[c.cur] <= j < trans[c.cur].len(),
        trans[c.cur][j].0 == c.time,
        forall|a: int, b: int|
            c.pos[c.cur] <= a <= b < trans[c.cur].len() ==> #[trigger] trans[c.cur][a].0 <= #[trigger] trans[c.cur][b].0,
    ensures
        fsm_step(states, trans, c) matches Some(c2) && c2.time == c.time && exists|i: int|
            c.pos[c.cur] <= i < trans[c.cur].len() && #[trigger] trans[c.cur][i] == (c.time, c2.cur as usize)
                && c2.cur == trans[c.cur][i].1,
{
    let tr = trans[c.cur];
    lemma_skip_stale(tr, c.pos[c.cur], c.time);
    let r = skip_stale(tr, c.pos[c.cur], c.time);
    if r > j {
        assert(tr[j].0 < c.time);
    }
    assert(tr[r].0 <= tr[j].0);
    assert(tr[r] == (c.time, tr[r].1));
}

/// Law: time never runs backwards in a machine's run. Each move either takes the epsilon
/// transition of the current state at the current time, or takes a transition of the
/// current state not read yet that does not come before the current time, at its time;
/// the run ends exactly when the state has no epsilon transition and every transition of
/// it not read yet comes before the current time.
pub proof fn lemma_fsm_step_moves(states: Seq<FsmState>, trans: Seq<Seq<(u64, usize)>>, c: FsmConfig)
    requires
        0 <= c.cur < states.len(),
        c.cur < trans.len(),
        c.cur < c.pos.len(),
        0 <= c.pos[c.cur],
    ensures
        fsm_step(states, trans, c) matches Some(c2) ==> c2.time >= c.time && ((states[c.cur].epsilon_transition == Some(
            c2.cur as usize,
        ) && c2.cur >= 0 && c2.time == c.time) || exists|i: int|
            c.pos[c.cur] <= i < trans[c.cur].len() && #[trigger] trans[c.cur][i] == (c2.time, c2.cur as usize)
                && c2.cur == trans[c.cur][i].1),
        fsm_step(states, trans, c) is None <==> states[c.cur].epsilon_transition is None && forall|j: int|
            c.pos[c.cur] <= j < trans[c.cur].len() ==> #[trigger] trans[c.cur][j].0 < c.time,
{
    let tr = trans[c.cur];
    lemma_skip_stale(tr, c.pos[c.cur], c.time);
    let r = skip_stale(tr, c.pos[c.cur], c.time);
    if r < tr.len() {
        assert(tr[r] == (tr[r].0, tr[r].1));
        if states[c.cur].epsilon_transition is None {
            assert(!(tr[r].0 < c.time));
        }
    }
}

} // verus!
