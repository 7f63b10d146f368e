//! The order in which the analyzers and control triggers run: each round runs the control
//! triggers whose required triggers are done, then the analyzers whose required triggers
//! are done after that; a round in which nothing can run means the triggers form a cycle.
use vstd::prelude::*;
use vstd::string::StringExecFns;
use crate::analyzer::{names_view, ready_set, requirements_done};
use crate::config::concat;
use crate::graph::{join_exec, join_names};
use crate::trigger::DoneTriggers;

verus! {

/// What a round of the analysis does.
pub enum Round {
    /// Run these control triggers (indices, ascending), then the analyzers that are ready.
    Run { controls: Vec<usize> },
    /// Analyzers are left and nothing can run: the triggers form a cycle.
    Cycle,
    /// No analyzer is left.
    Finished,
}

/// The requirement lists as mathematical values.
pub open spec fn needs_views(v: Seq<Vec<String>>) -> Seq<Seq<Seq<char>>> {
    v.map_values(|x: Vec<String>| names_view(x@))
}

/// The positions among the first `k` requirement lists whose requirements are all done,
/// in ascending order.
pub open spec fn ready_positions(needs: Seq<Seq<Seq<char>>>, done: DoneTriggers, k: int) -> Seq<usize>
    decreases k,
{
    if k <= 0 || k > needs.len() {
        Seq::empty()
    } else if requirements_done(needs[k - 1], done) {
        ready_positions(needs, done, k - 1).push((k - 1) as usize)
    } else {
        ready_positions(needs, done, k - 1)
    }
}

/// None of the requirement lists has all its requirements done.
pub open spec fn none_ready(needs: Seq<Seq<Seq<char>>>, done: DoneTriggers) -> bool {
    forall|i: int| 0 <= i < needs.len() ==> !requirements_done(#[trigger] needs[i], done)
}

proof fn lemma_none_ready(needs: Seq<Seq<Seq<char>>>, done: DoneTriggers, k: int)
    requires
        0 <= k <= needs.len(),
    ensures
        ready_positions(needs, done, k).len() == 0 <==> forall|i: int| 0 <= i < k ==> !requirements_done(
            #[trigger] needs[i],
            done,
        ),
    decreases k,
{
    if k > 0 {
        lemma_none_ready(needs, done, k - 1);
    }
}

/// The positions of the lists, among `needs`, whose requirements are all in `done`.
pub fn ready_indices(needs: &Vec<Vec<String>>, done: &DoneTriggers) -> (r: Vec<usize>)
    ensures
        r@ == ready_positions(needs_views(needs@), *done, needs@.len() as int),
{
    let ready = ready_set(needs, done);
    let ghost nv = needs_views(needs@);
    let mut r: Vec<usize> = Vec::new();
    let mut i: usize = 0;
    while i < ready.len()
        invariant
            i <= ready@.len(),
            ready@.len() == needs@.len(),
            nv == needs_views(needs@),
            forall|q: int| 0 <= q < ready@.len() ==> #[trigger] ready@[q] == requirements_done(names_view(needs@[q]@), *done),
            r@ == ready_positions(nv, *done, i as int),
        decreases ready@.len() - i,
    {
        assert(nv[i as int] == names_view(needs@[i as int]@));
        if ready[i] {
            r.push(i);
        }
        i = i + 1;
    }
    r
}

/// What the next round does, given the requirements of the control triggers and of the
/// analyzers that are left, and the triggers done so far.
pub fn next_round(control_needs: &Vec<Vec<String>>, analyzer_needs: &Vec<Vec<String>>, done: &DoneTriggers) -> (r: Round)
    ensures
        r is Finished <==> analyzer_needs@.len() == 0,
        r is Cycle <==> analyzer_needs@.len() > 0 && none_ready(needs_views(control_needs@), *done) && none_ready(
            needs_views(analyzer_needs@),
            *done,
        ),
        r matches Round::Run { controls } ==> controls@ == ready_positions(
            needs_views(control_needs@),
            *done,
            control_needs@.len() as int,
        ),
{
    if analyzer_needs.len() == 0 {
        return Round::Finished;
    }
    let controls = ready_indices(control_needs, done);
    let analyzers = ready_indices(analyzer_needs, done);
    proof {
        lemma_none_ready(needs_views(control_needs@), *done, control_needs@.len() as int);
        lemma_none_ready(needs_views(analyzer_needs@), *done, analyzer_needs@.len() as int);
    }
    if controls.len() == 0 && analyzers.len() == 0 {
        Round::Cycle
    } else {
        Round::Run { controls }
    }
}

/// The message for the analyzers and control triggers left when the triggers form a cycle.
pub fn cycle_message(names: &Vec<String>) -> (r: String)
    ensures
        r@ == join_names(names_view(names@)) + " were not analyzed because of trigger dependency cycle"@,
{
    proof {
        reveal_strlit(" were not analyzed because of trigger dependency cycle");
    }
    let list = join_exec(names);
    concat(list.as_str(), " were not analyzed because of trigger dependency cycle")
}

/// The last position among the first `k` of `names` that holds `n`.
pub open spec fn last_index(names: Seq<Seq<char>>, n: Seq<char>, k: int) -> Option<int>
    decreases k,
{
    if k <= 0 || k > names.len() {
        None
    } else if names[k - 1] == n {
        Some(k - 1)
    } else {
        last_index(names, n, k - 1)
    }
}

/// For the first `i` names of `order`, the position of each one's result among the
/// `finished` results: the last result of that name, once per name, skipping names
/// without a result.
pub open spec fn order_indices(order: Seq<Seq<char>>, finished: Seq<Seq<char>>, i: int) -> Seq<usize>
    decreases i,
{
    if i <= 0 || i > order.len() {
        Seq::empty()
    } else if order.take(i - 1).contains(order[i - 1]) {
        order_indices(order, finished, i - 1)
    } else {
        match last_index(finished, order[i - 1], finished.len() as int) {
            Some(k) => order_indices(order, finished, i - 1).push(k as usize),
            None => order_indices(order, finished, i - 1),
        }
    }
}

fn last_index_exec(names: &Vec<String>, n: &str) -> (r: Option<usize>)
    ensures
        r matches Some(k) ==> last_index(names_view(names@), n@, names@.len() as int) == Some(k as int),
        r is None ==> last_index(names_view(names@), n@, names@.len() as int) is None,
{
    let ghost nv = names_view(names@);
    let mut k: usize = names.len();
    while k > 0
        invariant
            k <= names@.len(),
            nv == names_view(names@),
            last_index(nv, n@, names@.len() as int) == last_index(nv, n@, k as int),
        decreases k,
    {
        if crate::text::str_eq(names[k - 1].as_str(), n) {
            return Some(k - 1);
        }
        k = k - 1;
    }
    None
}

fn seen_before(order: &Vec<String>, i: usize) -> (r: bool)
    requires
        i < order@.len(),
    ensures
        r == names_view(order@).take(i as int).contains(names_view(order@)[i as int]),
{
    let ghost nv = names_view(order@);
    let mut j: usize = 0;
    while j < i
        invariant
            j <= i < order@.len(),
            nv == names_view(order@),
            forall|q: int| 0 <= q < j ==> nv[q] != nv[i as int],
        decreases i - j,
    {
        if crate::text::str_eq(order[j].as_str(), order[i].as_str()) {
            assert(nv.take(i as int)[j as int] == nv[i as int]);
            return true;
        }
        j = j + 1;
    }
    assert forall|q: int| 0 <= q < nv.take(i as int).len() implies nv.take(i as int)[q] != nv[i as int] by {
        assert(nv.take(i as int)[q] == nv[q]);
    }
    false
}

/// The positions, among the `finished` analyzers' results, of the results to report, in the
/// order in which the analyzers were defined (`order`): each name's last result, once.
pub fn result_order(order: &Vec<String>, finished: &Vec<String>) -> (r: Vec<usize>)
    ensures
        r@ == order_indices(names_view(order@), names_view(finished@), order@.len() as int),
{
    let ghost ov = names_view(order@);
    let ghost fv = names_view(finished@);
    let mut r: Vec<usize> = Vec::new();
    let mut i: usize = 0;
    while i < order.len()
        invariant
            i <= order@.len(),
            ov == names_view(order@),
            fv == names_view(finished@),
            r@ == order_indices(ov, fv, i as int),
        decreases order@.len() - i,
    {
        if !seen_before(order, i) {
            match last_index_exec(finished, order[i].as_str()) {
                Some(k) => {
                    r.push(k);
                },
                None => {},
            }
        }
        i = i + 1;
    }
    r
}

} // verus!
