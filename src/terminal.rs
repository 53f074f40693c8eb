//! Checking that a plan has a given step as its one terminal: every step is
//! reached from it by following the steps that its inputs wait on.

use crate::object::{Input, InputView, Plan, StepView};
use crate::scheduler::waits_on;
use crate::table::{entry_views, lemma_table_entry, lemma_table_keys};
use vstd::prelude::*;

verus! {

/// The step at `a` has an input that waits on the step at `b`.
pub open spec fn feeds(m: Map<Seq<char>, StepView>, a: Seq<char>, b: Seq<char>) -> bool {
    m.contains_key(a) && exists|k: Seq<char>| #[trigger] m[a].inputs.contains_key(k) && waits_on(m[a].inputs[k], b)
}

/// `b` is reached from `a` in `n` moves from a step to one it waits on.
pub open spec fn reach(m: Map<Seq<char>, StepView>, a: Seq<char>, b: Seq<char>, n: nat) -> bool
    decreases n,
{
    if n == 0 {
        a == b
    } else {
        exists|c: Seq<char>| reach(m, a, c, (n - 1) as nat) && #[trigger] feeds(m, c, b)
    }
}

pub open spec fn reachable(m: Map<Seq<char>, StepView>, a: Seq<char>, b: Seq<char>) -> bool {
    exists|n: nat| #[trigger] reach(m, a, b, n)
}

/// `t` is the plan's one terminal: every position reached from it is a step,
/// and every step is reached from it.
pub open spec fn is_terminal(m: Map<Seq<char>, StepView>, t: Seq<char>) -> bool {
    &&& forall|b: Seq<char>| #[trigger] reachable(m, t, b) ==> m.contains_key(b)
    &&& forall|k: Seq<char>| #[trigger] m.contains_key(k) ==> reachable(m, t, k)
}

/// Why a step is not the plan's one terminal.
#[derive(Debug, PartialEq, Eq)]
pub enum TerminalError {
    /// A position reached from the terminal names no step.
    MissingStep,
    /// Some step is not reached from the terminal.
    NotTerminal,
}

pub open spec fn count_true(s: Seq<bool>) -> nat
    decreases s.len(),
{
    if s.len() == 0 {
        0
    } else {
        count_true(s.drop_last()) + if s.last() { 1nat } else { 0nat }
    }
}

proof fn lemma_count_bound(s: Seq<bool>)
    ensures
        count_true(s) <= s.len(),
    decreases s.len(),
{
    if s.len() > 0 {
        lemma_count_bound(s.drop_last());
    }
}

proof fn lemma_count_set(s: Seq<bool>, j: int)
    requires
        0 <= j < s.len(),
        !s[j],
    ensures
        count_true(s.update(j, true)) == count_true(s) + 1,
    decreases s.len(),
{
    let t = s.update(j, true);
    if j < s.len() - 1 {
        assert(t.drop_last() =~= s.drop_last().update(j, true));
        lemma_count_set(s.drop_last(), j);
    } else {
        assert(t.drop_last() =~= s.drop_last());
    }
}

/// A marked set of steps that holds the start and every step that a marked
/// step waits on holds every step reached from the start.
proof fn lemma_closed_reach(
    m: Map<Seq<char>, StepView>,
    keys: Seq<Seq<char>>,
    marks: Seq<bool>,
    t: Seq<char>,
    b: Seq<char>,
    n: nat,
)
    requires
        keys.len() == marks.len(),
        exists|j: int| 0 <= j < keys.len() && marks[j] && keys[j] == t,
        forall|i: int, c: Seq<char>| 0 <= i < keys.len() && marks[i] && #[trigger] feeds(m, keys[i], c) ==> exists|j: int|
            0 <= j < keys.len() && marks[j] && keys[j] == c,
        reach(m, t, b, n),
    ensures
        exists|j: int| 0 <= j < keys.len() && marks[j] && keys[j] == b,
    decreases n,
{
    if n > 0 {
        let c = choose|c: Seq<char>| reach(m, t, c, (n - 1) as nat) && #[trigger] feeds(m, c, b);
        lemma_closed_reach(m, keys, marks, t, c, (n - 1) as nat);
        let i = choose|i: int| 0 <= i < keys.len() && marks[i] && keys[i] == c;
        assert(feeds(m, keys[i], b));
    }
}

/// Where the input waits on a step, that step is marked.
pub open spec fn target_marked(iv: InputView, keys: Seq<Seq<char>>, marks: Seq<bool>) -> bool {
    match iv {
        InputView::Pos(p, _) => exists|j: int| 0 <= j < keys.len() && marks[j] && keys[j] == p,
        InputView::Id(_) => true,
    }
}

/// Checks that the step at `terminal` is the plan's one terminal.
pub fn check_terminal(plan: &Plan, terminal: &str) -> (r: Result<(), TerminalError>)
    requires
        plan.wf(),
    ensures
        r is Ok <==> is_terminal(plan@, terminal@),
        r matches Err(TerminalError::MissingStep) ==> exists|b: Seq<char>| reachable(plan@, terminal@, b) && !plan@.contains_key(b),
        r matches Err(TerminalError::NotTerminal) ==> exists|k: Seq<char>| plan@.contains_key(k) && !reachable(plan@, terminal@, k),
{
    let ghost m = plan@;
    let ghost t = terminal@;
    let ghost keys = plan.steps.entries@.map_values(|e: (String, crate::object::Step)| e.0@);
    let n = plan.steps.entries.len();
    proof {
        assert(reach(m, t, t, 0));
    }
    let start = match plan.steps.index_of(terminal) {
        Some(i) => i,
        None => {
            proof {
                assert(reachable(m, t, t));
            }
            return Err(TerminalError::MissingStep);
        },
    };
    let mut marks: Vec<bool> = Vec::new();
    let mut z: usize = 0;
    while z < n
        invariant
            z <= n,
            marks@.len() == z,
            forall|i: int| 0 <= i < z ==> !marks@[i],
            count_true(marks@) == 0,
        decreases n - z,
    {
        let ghost before = marks@;
        marks.push(false);
        proof {
            assert(marks@.drop_last() =~= before);
        }
        z = z + 1;
    }
    proof {
        lemma_count_set(marks@, start as int);
    }
    let ghost unmarked = marks@;
    marks.set(start, true);
    let mut nmarked: usize = 1;
    let mut frontier: Vec<usize> = Vec::new();
    frontier.push(start);
    proof {
        assert(frontier@[0] == start);
        assert forall|i: int| 0 <= i < n && marks@[i] implies i == start by {
            if i != start {
                assert(!unmarked[i]);
            }
        }
        lemma_count_bound(marks@);
        assert(reachable(m, t, keys[start as int]));
    }
    while frontier.len() > 0
        invariant
            plan.wf(),
            m == plan@,
            t == terminal@,
            keys == plan.steps.entries@.map_values(|e: (String, crate::object::Step)| e.0@),
            n == plan.steps.entries@.len(),
            marks@.len() == n,
            start < n,
            marks@[start as int],
            keys[start as int] == t,
            nmarked == count_true(marks@),
            nmarked <= n,
            forall|i: int| 0 <= i < n && marks@[i] ==> reachable(m, t, #[trigger] keys[i]),
            forall|f: int| 0 <= f < frontier@.len() ==> (#[trigger] frontier@[f]) < n && marks@[frontier@[f] as int],
            forall|i: int, c: Seq<char>| 0 <= i < n && marks@[i] && !frontier@.contains(i as usize) && #[trigger] feeds(m, keys[i], c)
                ==> exists|j: int| 0 <= j < n && marks@[j] && keys[j] == c,
        decreases n - nmarked, frontier@.len(),
    {
        let ghost nm0 = nmarked as int;
        let ghost fl0 = frontier@.len();
        let ghost f0 = frontier@;
        let i = match frontier.pop() {
            Some(i) => i,
            None => 0,
        };
        proof {
            assert(frontier@ =~= f0.drop_last());
            assert(i == f0.last());
        }
        assert(plan.steps.entries@[i as int].1.wf());
        let inputs = &plan.steps.entries[i].1.inputs;
        proof {
            lemma_table_entry(&plan.steps, i as int);
            assert(keys[i as int] == plan.steps.entries@[i as int].0@);
            assert(m[keys[i as int]] == plan.steps.entries@[i as int].1@);
        }
        proof {
            assert forall|ii: int, c: Seq<char>| 0 <= ii < n && ii != i && marks@[ii] && !frontier@.contains(ii as usize) && #[trigger] feeds(m, keys[ii], c)
                implies exists|j: int| 0 <= j < n && marks@[j] && keys[j] == c by {
                if f0.contains(ii as usize) {
                    let f = choose|f: int| 0 <= f < f0.len() && f0[f] == ii as usize;
                    if f < f0.len() - 1 {
                        assert(frontier@[f] == ii as usize);
                    }
                }
            }
        }
        let mut e: usize = 0;
        while e < inputs.entries.len()
            invariant
                plan.wf(),
                m == plan@,
                t == terminal@,
            t == terminal@,
                keys == plan.steps.entries@.map_values(|e: (String, crate::object::Step)| e.0@),
                n == plan.steps.entries@.len(),
                i < n,
                inputs.wf(),
                m.contains_key(keys[i as int]),
                m[keys[i as int]].inputs == inputs@,
                marks@.len() == n,
                marks@[i as int],
                start < n,
                marks@[start as int],
                keys[start as int] == t,
                nmarked == count_true(marks@),
                nmarked <= n,
                nmarked >= nm0,
                nmarked == nm0 ==> frontier@.len() == fl0 - 1,
                e <= inputs.entries@.len(),
                forall|ii: int| 0 <= ii < n && marks@[ii] ==> reachable(m, t, #[trigger] keys[ii]),
                forall|f: int| 0 <= f < frontier@.len() ==> (#[trigger] frontier@[f]) < n && marks@[frontier@[f] as int],
                forall|ii: int, c: Seq<char>| 0 <= ii < n && ii != i && marks@[ii] && !frontier@.contains(ii as usize) && #[trigger] feeds(m, keys[ii], c)
                    ==> exists|j: int| 0 <= j < n && marks@[j] && keys[j] == c,
                forall|ee: int| 0 <= ee < e ==> target_marked((#[trigger] inputs.entries@[ee]).1@, keys, marks@),
            decreases inputs.entries@.len() - e,
        {
            if let Input::Pos(p, _) = &inputs.entries[e].1 {
                proof {
                    lemma_table_entry(inputs, e as int);
                    let kk = inputs.entries@[e as int].0@;
                    assert(inputs@.contains_key(kk) && waits_on(inputs@[kk], p@));
                    assert(feeds(m, keys[i as int], p@));
                    let d = choose|d: nat| #[trigger] reach(m, t, keys[i as int], d);
                    assert(reach(m, t, p@, d + 1));
                    assert(reachable(m, t, p@));
                }
                match plan.steps.index_of(p.as_str()) {
                    None => {
                        proof {
                            assert(reachable(plan@, terminal@, p@) && !plan@.contains_key(p@));
                        }
                        return Err(TerminalError::MissingStep);
                    },
                    Some(j) => {
                        proof {
                            assert(keys[j as int] == p@);
                        }
                        if !marks[j] {
                            let ghost mk = marks@;
                            proof {
                                lemma_count_set(marks@, j as int);
                                lemma_count_bound(marks@.update(j as int, true));
                            }
                            marks.set(j, true);
                            nmarked = nmarked + 1;
                            let ghost fr = frontier@;
                            frontier.push(j);
                            proof {
                                assert forall|ii: int, c: Seq<char>| 0 <= ii < n && ii != i && marks@[ii] && !frontier@.contains(ii as usize) && #[trigger] feeds(m, keys[ii], c)
                                    implies exists|jj: int| 0 <= jj < n && marks@[jj] && keys[jj] == c by {
                                    if ii != j {
                                        assert(mk[ii]);
                                        if fr.contains(ii as usize) {
                                            let f = choose|f: int| 0 <= f < fr.len() && fr[f] == ii as usize;
                                            assert(frontier@[f] == ii as usize);
                                        }
                                        let jj = choose|jj: int| 0 <= jj < n && mk[jj] && keys[jj] == c;
                                        assert(marks@[jj]);
                                    } else {
                                        assert(frontier@[frontier@.len() - 1] == j);
                                    }
                                }
                                assert forall|ee: int| 0 <= ee < e implies target_marked((#[trigger] inputs.entries@[ee]).1@, keys, marks@) by {
                                    assert(target_marked(inputs.entries@[ee].1@, keys, mk));
                                    if let InputView::Pos(target, _) = inputs.entries@[ee].1@ {
                                        let jj = choose|jj: int| 0 <= jj < keys.len() && mk[jj] && keys[jj] == target;
                                        assert(marks@[jj]);
                                    }
                                }
                            }
                        }
                    },
                }
            }
            e = e + 1;
        }
        proof {
            assert forall|c: Seq<char>| #[trigger] feeds(m, keys[i as int], c) implies exists|j: int| 0 <= j < n && marks@[j] && keys[j] == c by {
                let kk = choose|kk: Seq<char>| #[trigger] m[keys[i as int]].inputs.contains_key(kk) && waits_on(m[keys[i as int]].inputs[kk], c);
                lemma_table_keys(inputs, kk);
                let ee = choose|ee: int| 0 <= ee < inputs.entries@.len() && #[trigger] inputs.entries@[ee].0@ == kk;
                lemma_table_entry(inputs, ee);
            }
        }
    }
    proof {
        assert forall|i: int, c: Seq<char>| 0 <= i < n && marks@[i] && #[trigger] feeds(m, keys[i], c) implies exists|j: int|
            0 <= j < keys.len() && marks@[j] && keys[j] == c by {
            assert(!frontier@.contains(i as usize));
        }
        assert forall|b: Seq<char>| #[trigger] reachable(m, t, b) implies exists|j: int| 0 <= j < keys.len() && marks@[j] && keys[j] == b by {
            let d = choose|d: nat| #[trigger] reach(m, t, b, d);
            lemma_closed_reach(m, keys, marks@, t, b, d);
        }
    }
    let mut idx: usize = 0;
    while idx < n
        invariant
            plan.wf(),
            m == plan@,
            t == terminal@,
            keys == plan.steps.entries@.map_values(|e: (String, crate::object::Step)| e.0@),
            n == plan.steps.entries@.len(),
            marks@.len() == n,
            idx <= n,
            forall|j: int| 0 <= j < idx ==> marks@[j],
            forall|ii: int| 0 <= ii < n && marks@[ii] ==> reachable(m, t, #[trigger] keys[ii]),
            forall|b: Seq<char>| #[trigger] reachable(m, t, b) ==> exists|j: int| 0 <= j < keys.len() && marks@[j] && keys[j] == b,
        decreases n - idx,
    {
        if !marks[idx] {
            proof {
                lemma_table_entry(&plan.steps, idx as int);
                let k = keys[idx as int];
                assert(m.contains_key(k));
                if reachable(m, t, k) {
                    let j = choose|j: int| 0 <= j < keys.len() && marks@[j] && keys[j] == k;
                    assert(j != idx);
                    assert(entry_views(plan.steps.entries@)[j].0 == keys[j]);
                    assert(entry_views(plan.steps.entries@)[idx as int].0 == keys[idx as int]);
                }
                assert(!reachable(m, t, k));
                assert(plan@.contains_key(k) && !reachable(plan@, terminal@, k));
            }
            return Err(TerminalError::NotTerminal);
        }
        idx = idx + 1;
    }
    proof {
        assert forall|b: Seq<char>| #[trigger] reachable(m, t, b) implies m.contains_key(b) by {
            let j = choose|j: int| 0 <= j < keys.len() && marks@[j] && keys[j] == b;
            lemma_table_entry(&plan.steps, j);
        }
        assert forall|k: Seq<char>| #[trigger] m.contains_key(k) implies reachable(m, t, k) by {
            lemma_table_keys(&plan.steps, k);
            let j = choose|j: int| 0 <= j < plan.steps.entries@.len() && #[trigger] plan.steps.entries@[j].0@ == k;
            assert(keys[j] == k);
        }
    }
    Ok(())
}

} // verus!
