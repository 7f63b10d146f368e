//! Control triggers: triggers that depend on other triggers only, not on any signal.
use vstd::prelude::*;
use crate::fsm::{eps_acyclic, fsm_analyzed, transition_names, Fsm};
use crate::trigger::{copy_times, outcome_view, DoneTriggers, TriggerName, TriggerOutcome};
use crate::config::concat;
use crate::run::{all_failed, fail_each, named_outcomes};

verus! {

/// A trigger that activates at given times.
pub struct TimeTrigger {
    pub name: TriggerName,
    pub times: Vec<u64>,
}

impl TimeTrigger {
    pub fn new(name: String, times: Vec<u64>) -> (r: Self)
        ensures
            r == (TimeTrigger { name, times }),
    {
        Self { name, times }
    }

    /// The trigger's name with its activation times.
    pub fn analyze(&self) -> (r: (String, TriggerOutcome))
        ensures
            r.0@ == self.name@,
            outcome_view(r.1) == Ok::<Seq<u64>, Seq<char>>(self.times@),
    {
        (self.name.clone(), Ok(copy_times(&self.times)))
    }
}

/// A timer: a group of triggers that activate at given times.
pub struct TimeControl {
    pub name: String,
    pub triggers: Vec<TimeTrigger>,
}

impl TimeControl {
    /// Names of the timer's triggers.
    pub fn names(&self) -> (r: Vec<String>)
        ensures
            r@.map_values(|s: String| s@) == self.triggers@.map_values(|t: TimeTrigger| t.name@),
    {
        let mut r: Vec<String> = Vec::new();
        let mut i: usize = 0;
        while i < self.triggers.len()
            invariant
                i <= self.triggers@.len(),
                r@.map_values(|s: String| s@) == self.triggers@.take(i as int).map_values(|t: TimeTrigger| t.name@),
            decreases self.triggers@.len() - i,
        {
            let ghost before = r@;
            r.push(self.triggers[i].name.clone());
            assert(r@.map_values(|s: String| s@) =~= before.map_values(|s: String| s@).push(self.triggers@[i as int].name@));
            assert(self.triggers@.take(i + 1).map_values(|t: TimeTrigger| t.name@) =~= self.triggers@.take(i as int).map_values(
                |t: TimeTrigger| t.name@,
            ).push(self.triggers@[i as int].name@));
            i = i + 1;
        }
        assert(self.triggers@.take(i as int) =~= self.triggers@);
        r
    }

    /// Each trigger with its activation times, in order.
    pub fn analyze(&self) -> (r: Vec<(String, TriggerOutcome)>)
        ensures
            r@.len() == self.triggers@.len(),
            forall|i: int| 0 <= i < r@.len() ==> (#[trigger] r@[i]).0@ == self.triggers@[i].name@
                && outcome_view(r@[i].1) == Ok::<Seq<u64>, Seq<char>>(self.triggers@[i].times@),
    {
        let mut r: Vec<(String, TriggerOutcome)> = Vec::new();
        let mut i: usize = 0;
        while i < self.triggers.len()
            invariant
                i <= self.triggers@.len(),
                r@.len() == i,
                forall|q: int| 0 <= q < i ==> (#[trigger] r@[q]).0@ == self.triggers@[q].name@
                    && outcome_view(r@[q].1) == Ok::<Seq<u64>, Seq<char>>(self.triggers@[q].times@),
            decreases self.triggers@.len() - i,
        {
            r.push(self.triggers[i].analyze());
            i = i + 1;
        }
        r
    }

    /// Name of the timer.
    pub fn name(&self) -> (r: &str)
        ensures
            r@ == self.name@,
    {
        self.name.as_str()
    }
}

/// Triggers that depend only on other triggers.
pub enum Control {
    Timer(TimeControl),
    Machine(Fsm),
}

impl Control {
    /// Names of the triggers it needs.
    pub open spec fn required_spec(&self) -> Seq<Seq<char>> {
        match self {
            Control::Timer(_) => Seq::empty(),
            Control::Machine(m) => transition_names(m.states@),
        }
    }

    /// Names of the triggers it provides.
    pub open spec fn names_spec(&self) -> Seq<Seq<char>> {
        match self {
            Control::Timer(t) => t.triggers@.map_values(|x: TimeTrigger| x.name@),
            Control::Machine(m) => m.trigger_names@.map_values(|x: String| x@),
        }
    }

    /// It can be analyzed: a machine is well formed and each of its runs ends.
    pub open spec fn runnable(&self) -> bool {
        match self {
            Control::Timer(_) => true,
            Control::Machine(m) => m.wf() && eps_acyclic(m.states@),
        }
    }

    /// Names of the triggers it needs.
    pub fn required(&self) -> (r: Vec<String>)
        ensures
            r@.map_values(|s: String| s@) == self.required_spec(),
    {
        match self {
            Control::Timer(_) => {
                let r: Vec<String> = Vec::new();
                assert(r@.map_values(|s: String| s@) =~= Seq::<Seq<char>>::empty());
                r
            },
            Control::Machine(m) => m.required(),
        }
    }

    /// Names of the triggers it provides.
    pub fn names(&self) -> (r: Vec<String>)
        ensures
            r@.map_values(|s: String| s@) == self.names_spec(),
    {
        match self {
            Control::Timer(t) => t.names(),
            Control::Machine(m) => {
                let mut r: Vec<String> = Vec::new();
                let mut i: usize = 0;
                while i < m.trigger_names.len()
                    invariant
                        i <= m.trigger_names@.len(),
                        r@.map_values(|s: String| s@) == m.trigger_names@.take(i as int).map_values(|x: String| x@),
                    decreases m.trigger_names@.len() - i,
                {
                    let ghost before = r@;
                    r.push(m.trigger_names[i].clone());
                    assert(r@.map_values(|s: String| s@) =~= before.map_values(|s: String| s@).push(m.trigger_names@[i as int]@));
                    assert(m.trigger_names@.take(i + 1).map_values(|x: String| x@) =~= m.trigger_names@.take(i as int).map_values(
                        |x: String| x@,
                    ).push(m.trigger_names@[i as int]@));
                    i = i + 1;
                }
                assert(m.trigger_names@.take(i as int) =~= m.trigger_names@);
                r
            },
        }
    }

    /// Its name.
    pub open spec fn name_view(&self) -> Seq<char> {
        match self {
            Control::Timer(t) => t.name@,
            Control::Machine(m) => m.name@,
        }
    }

    /// Its name.
    pub fn name(&self) -> (r: &str)
        ensures
            r@ == self.name_view(),
    {
        match self {
            Control::Timer(t) => t.name(),
            Control::Machine(m) => m.name(),
        }
    }

    /// The outcome of each trigger it provides.
    pub fn analyze(&self, done: &DoneTriggers) -> (r: Vec<(String, TriggerOutcome)>)
        requires
            self.runnable(),
            forall|i: int| 0 <= i < self.required_spec().len() ==> done.lookup(#[trigger] self.required_spec()[i]) is Some,
        ensures
            match self {
                Control::Timer(t) => r@.len() == t.triggers@.len() && forall|i: int| 0 <= i < r@.len() ==> (
                #[trigger] r@[i]).0@ == t.triggers@[i].name@ && outcome_view(r@[i].1) == Ok::<Seq<u64>, Seq<char>>(
                    t.triggers@[i].times@,
                ),
                Control::Machine(m) => fsm_analyzed(*m, *done, r@),
            },
    {
        match self {
            Control::Timer(t) => t.analyze(),
            Control::Machine(m) => {
                proof {
                    assert(self.required_spec() == transition_names(m.states@));
                    assert forall|i: int| 0 <= i < transition_names(m.states@).len() implies done.lookup(
                        #[trigger] transition_names(m.states@)[i],
                    ) is Some by {
                        assert(self.required_spec()[i] == transition_names(m.states@)[i]);
                    }
                    crate::fsm::lemma_transition_names_done(m.states@, *done);
                }
                m.analyze(done)
            },
        }
    }
}

/// Why the control trigger cannot be analyzed, if it cannot: a machine whose transitions
/// lead out of it, or one whose epsilon transitions go round in a cycle.
pub open spec fn control_run_failure(c: Control) -> Option<Seq<char>> {
    match c {
        Control::Timer(_) => None,
        Control::Machine(m) => if !m.wf() {
            Some("state machine "@ + m.name@ + " is malformed"@)
        } else if !eps_acyclic(m.states@) {
            Some("state machine "@ + m.name@ + " has a cycle of epsilon transitions"@)
        } else {
            None
        },
    }
}

impl Control {
    /// The outcome of each trigger it provides, once the triggers it needs are in `done`;
    /// when it cannot be analyzed, each of its triggers fails with the reason.
    pub fn run(&self, done: &DoneTriggers) -> (r: Vec<(String, TriggerOutcome)>)
        requires
            forall|i: int| 0 <= i < self.required_spec().len() ==> done.lookup(#[trigger] self.required_spec()[i]) is Some,
        ensures
            match control_run_failure(*self) {
                Some(m) => named_outcomes(r@, self.names_spec(), all_failed(self.names_spec().len(), m)),
                None => match self {
                    Control::Timer(t) => r@.len() == t.triggers@.len() && forall|i: int| 0 <= i < r@.len() ==> (
                    #[trigger] r@[i]).0@ == t.triggers@[i].name@ && outcome_view(r@[i].1) == Ok::<Seq<u64>, Seq<char>>(
                        t.triggers@[i].times@,
                    ),
                    Control::Machine(m) => fsm_analyzed(*m, *done, r@),
                },
            },
    {
        proof {
            reveal_strlit("state machine ");
            reveal_strlit(" is malformed");
            reveal_strlit(" has a cycle of epsilon transitions");
        }
        if let Control::Machine(m) = self {
            let failure = if !m.is_wf() {
                Some(concat(concat("state machine ", m.name()).as_str(), " is malformed"))
            } else if !m.epsilon_transitions_end() {
                Some(concat(concat("state machine ", m.name()).as_str(), " has a cycle of epsilon transitions"))
            } else {
                None
            };
            if let Some(e) = failure {
                return fail_each(&self.names(), &e);
            }
        }
        self.analyze(done)
    }
}

} // verus!
