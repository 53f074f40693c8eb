//! The scheduler: picks ready steps, maps finished outputs into the inputs of
//! later steps, and reduces the finished productions to their roots.

use crate::id::Id;
use crate::object::{
    opt_id, Input, InputView, Invocation, InvocationStatus, Plan, ProductionId, ResourceId, Step, StepView,
};
use crate::table::{lemma_table_entry, lemma_table_keys, Table};
use crate::text::{decimal_text, starts_with, strip_prefix, usize_text};
use crate::order::str_eq;
use crate::table::{entry_views, pairs_map};
use crate::object::{opt_text, Job, JobView, Production};
use vstd::prelude::*;

verus! {

/// The views of the plan's steps, in order.
pub open spec fn step_views(p: &Plan) -> Seq<StepView> {
    p.steps.entries@.map_values(|e: (String, Step)| e.1@)
}

pub open spec fn id_views<T>(v: Seq<Id<T>>) -> Seq<Seq<u8>> {
    v.map_values(|x: Id<T>| x@)
}

/// A step can run: it has no production yet and every input is resolved.
pub open spec fn step_ready(s: StepView) -> bool {
    s.production is None && forall|k: Seq<char>| #[trigger] s.inputs.contains_key(k) ==> s.inputs[k] is Id
}

/// Whether the step can run.
pub fn is_ready(step: &Step) -> (r: bool)
    requires
        step.wf(),
    ensures
        r == step_ready(step@),
{
    if step.production.is_some() {
        return false;
    }
    let mut i: usize = 0;
    while i < step.inputs.entries.len()
        invariant
            step.wf(),
            i <= step.inputs.entries@.len(),
            forall|j: int| 0 <= j < i ==> (#[trigger] step.inputs.entries@[j]).1@ is Id,
        decreases step.inputs.entries@.len() - i,
    {
        if let Input::Pos(_, _) = &step.inputs.entries[i].1 {
            proof {
                lemma_table_entry(&step.inputs, i as int);
            }
            return false;
        }
        i = i + 1;
    }
    proof {
        assert forall|k: Seq<char>| #[trigger] step@.inputs.contains_key(k) implies step@.inputs[k] is Id by {
            lemma_table_keys(&step.inputs, k);
            let j = choose|j: int| 0 <= j < step.inputs.entries@.len() && #[trigger] step.inputs.entries@[j].0@ == k;
            lemma_table_entry(&step.inputs, j);
        }
    }
    true
}

/// Step `j` was set aside: the caller gave up on it after an error.
pub open spec fn set_aside(skip: Seq<bool>, j: int) -> bool {
    0 <= j < skip.len() && skip[j]
}

/// The first ready step, in the plan's order, that was not set aside.
pub fn schedule_step(plan: &Plan, skip: &Vec<bool>) -> (r: Option<usize>)
    requires
        plan.wf(),
    ensures
        r matches Some(i) ==> i < plan.steps.entries@.len() && step_ready(step_views(plan)[i as int]) && !set_aside(skip@, i as int)
            && forall|j: int| 0 <= j < i ==> !(step_ready(#[trigger] step_views(plan)[j]) && !set_aside(skip@, j)),
        r is None ==> forall|j: int| 0 <= j < plan.steps.entries@.len() ==> !(step_ready(#[trigger] step_views(plan)[j]) && !set_aside(skip@, j)),
{
    let mut i: usize = 0;
    while i < plan.steps.entries.len()
        invariant
            plan.wf(),
            i <= plan.steps.entries@.len(),
            forall|j: int| 0 <= j < i ==> !(step_ready(#[trigger] step_views(plan)[j]) && !set_aside(skip@, j)),
        decreases plan.steps.entries@.len() - i,
    {
        assert(plan.steps.entries@[i as int].1.wf());
        let skipped = i < skip.len() && skip[i];
        if !skipped && is_ready(&plan.steps.entries[i].1) {
            return Some(i);
        }
        i = i + 1;
    }
    None
}

/// The productions of the steps, in step order.
pub open spec fn produced(steps: Seq<StepView>) -> Seq<Seq<u8>>
    decreases steps.len(),
{
    if steps.len() == 0 {
        Seq::empty()
    } else {
        match steps.last().production {
            Some(x) => produced(steps.drop_last()).push(x),
            None => produced(steps.drop_last()),
        }
    }
}

/// Each value once, where it first stands.
pub open spec fn uniq(s: Seq<Seq<u8>>) -> Seq<Seq<u8>>
    decreases s.len(),
{
    if s.len() == 0 {
        s
    } else if s.drop_last().contains(s.last()) {
        uniq(s.drop_last())
    } else {
        uniq(s.drop_last()).push(s.last())
    }
}

/// Some step records `x` among its dependencies.
pub open spec fn is_dependency(steps: Seq<StepView>, x: Seq<u8>) -> bool {
    exists|i: int, k: Seq<char>|
        0 <= i < steps.len() && #[trigger] steps[i].dependencies.contains_key(k) && steps[i].dependencies[k] == x
}

/// The values of `s` that are no dependency of any step.
pub open spec fn keep_roots(s: Seq<Seq<u8>>, steps: Seq<StepView>) -> Seq<Seq<u8>>
    decreases s.len(),
{
    if s.len() == 0 {
        s
    } else if is_dependency(steps, s.last()) {
        keep_roots(s.drop_last(), steps)
    } else {
        keep_roots(s.drop_last(), steps).push(s.last())
    }
}

/// The roots of a run: each production of a step, once, in step order, that
/// no step records as a dependency.
pub open spec fn roots_of(steps: Seq<StepView>) -> Seq<Seq<u8>> {
    keep_roots(uniq(produced(steps)), steps)
}

proof fn lemma_push_contains(a: Seq<Seq<u8>>, b: Seq<u8>, x: Seq<u8>)
    ensures
        a.push(b).contains(x) <==> a.contains(x) || x == b,
{
    if a.contains(x) {
        let i = choose|i: int| 0 <= i < a.len() && a[i] == x;
        assert(a.push(b)[i] == x);
    }
    if x == b {
        assert(a.push(b)[a.len() as int] == x);
    }
    if a.push(b).contains(x) {
        let i = choose|i: int| 0 <= i < a.len() + 1 && a.push(b)[i] == x;
        if i < a.len() {
            assert(a[i] == x);
        }
    }
}

proof fn lemma_uniq_contains(s: Seq<Seq<u8>>, x: Seq<u8>)
    ensures
        uniq(s).contains(x) <==> s.contains(x),
    decreases s.len(),
{
    if s.len() > 0 {
        lemma_uniq_contains(s.drop_last(), x);
        assert(s =~= s.drop_last().push(s.last()));
        lemma_push_contains(s.drop_last(), s.last(), x);
        lemma_push_contains(uniq(s.drop_last()), s.last(), x);
    }
}

proof fn lemma_keep_roots(s: Seq<Seq<u8>>, steps: Seq<StepView>, x: Seq<u8>)
    ensures
        keep_roots(s, steps).contains(x) <==> s.contains(x) && !is_dependency(steps, x),
    decreases s.len(),
{
    if s.len() > 0 {
        lemma_keep_roots(s.drop_last(), steps, x);
        assert(s =~= s.drop_last().push(s.last()));
        lemma_push_contains(s.drop_last(), s.last(), x);
        lemma_push_contains(keep_roots(s.drop_last(), steps), s.last(), x);
    }
}

/// No root of a run is recorded as a dependency of any step, and every
/// production that no step depends on is a root.
pub proof fn lemma_roots_not_dependencies(steps: Seq<StepView>, x: Seq<u8>)
    ensures
        roots_of(steps).contains(x) ==> !is_dependency(steps, x),
        roots_of(steps).contains(x) <==> produced(steps).contains(x) && !is_dependency(steps, x),
{
    lemma_keep_roots(uniq(produced(steps)), steps, x);
    lemma_uniq_contains(produced(steps), x);
}

fn contains_id<T>(v: &Vec<Id<T>>, x: &Id<T>) -> (r: bool)
    ensures
        r == id_views(v@).contains(x@),
{
    let mut i: usize = 0;
    while i < v.len()
        invariant
            i <= v@.len(),
            forall|j: int| 0 <= j < i ==> v@[j]@ != x@,
        decreases v@.len() - i,
    {
        if v[i].same(x) {
            assert(id_views(v@)[i as int] == x@);
            return true;
        }
        i = i + 1;
    }
    proof {
        if id_views(v@).contains(x@) {
            let j = choose|j: int| 0 <= j < id_views(v@).len() && id_views(v@)[j] == x@;
            assert(v@[j]@ == x@);
        }
    }
    false
}

/// Whether some step of the plan records `x` among its dependencies.
fn is_dependency_of(plan: &Plan, x: &ProductionId) -> (r: bool)
    requires
        plan.wf(),
    ensures
        r == is_dependency(step_views(plan), x@),
{
    let ghost sv = step_views(plan);
    let mut i: usize = 0;
    while i < plan.steps.entries.len()
        invariant
            plan.wf(),
            sv == step_views(plan),
            i <= plan.steps.entries@.len(),
            forall|j: int, k: Seq<char>|
                0 <= j < i && #[trigger] sv[j].dependencies.contains_key(k) ==> sv[j].dependencies[k] != x@,
        decreases plan.steps.entries@.len() - i,
    {
        let deps = &plan.steps.entries[i].1.dependencies;
        assert(plan.steps.entries@[i as int].1.wf());
        let mut k: usize = 0;
        while k < deps.entries.len()
            invariant
                deps.wf(),
                sv == step_views(plan),
                0 <= i < sv.len(),
                sv[i as int].dependencies == deps@,
                k <= deps.entries@.len(),
                forall|j: int| 0 <= j < k ==> (#[trigger] deps.entries@[j]).1@ != x@,
            decreases deps.entries@.len() - k,
        {
            if deps.entries[k].1.same(x) {
                proof {
                    lemma_table_entry(deps, k as int);
                    assert(sv[i as int].dependencies.contains_key(deps.entries@[k as int].0@));
                }
                return true;
            }
            k = k + 1;
        }
        proof {
            assert forall|key: Seq<char>| #[trigger] sv[i as int].dependencies.contains_key(key) implies sv[i as int].dependencies[key] != x@ by {
                lemma_table_keys(deps, key);
                let j = choose|j: int| 0 <= j < deps.entries@.len() && #[trigger] deps.entries@[j].0@ == key;
                lemma_table_entry(deps, j);
            }
        }
        i = i + 1;
    }
    false
}

/// The roots of the run so far: see `roots_of`.
pub fn reduce_productions(plan: &Plan) -> (r: Vec<ProductionId>)
    requires
        plan.wf(),
    ensures
        id_views(r@) == roots_of(step_views(plan)),
{
    let ghost sv = step_views(plan);
    let mut cands: Vec<ProductionId> = Vec::new();
    let mut i: usize = 0;
    proof {
        assert(sv.take(0) =~= Seq::<StepView>::empty());
        assert(id_views(cands@) =~= Seq::empty());
    }
    while i < plan.steps.entries.len()
        invariant
            sv == step_views(plan),
            i <= plan.steps.entries@.len(),
            id_views(cands@) == uniq(produced(sv.take(i as int))),
        decreases plan.steps.entries@.len() - i,
    {
        proof {
            assert(sv.take(i + 1).drop_last() =~= sv.take(i as int));
            assert(sv.take(i + 1).last() == plan.steps.entries@[i as int].1@);
        }
        match plan.steps.entries[i].1.production {
            Some(id) => {
                proof {
                    lemma_uniq_contains(produced(sv.take(i as int)), id@);
                    assert(produced(sv.take(i + 1)) == produced(sv.take(i as int)).push(id@));
                    assert(produced(sv.take(i + 1)).drop_last() =~= produced(sv.take(i as int)));
                }
                let ghost before = id_views(cands@);
                if !contains_id(&cands, &id) {
                    cands.push(id);
                    proof {
                        assert(id_views(cands@) =~= before.push(id@));
                    }
                }
                proof {
                    assert(produced(sv.take(i + 1)).drop_last() =~= produced(sv.take(i as int)));
                }
            },
            None => {
                proof {
                    assert(produced(sv.take(i + 1)) == produced(sv.take(i as int)));
                }
            },
        }
        i = i + 1;
    }
    proof {
        assert(sv.take(plan.steps.entries@.len() as int) =~= sv);
    }
    let ghost all = id_views(cands@);
    let mut out: Vec<ProductionId> = Vec::new();
    let mut k: usize = 0;
    proof {
        assert(all.take(0) =~= Seq::<Seq<u8>>::empty());
        assert(id_views(out@) =~= Seq::empty());
    }
    while k < cands.len()
        invariant
            plan.wf(),
            sv == step_views(plan),
            all == id_views(cands@),
            k <= cands@.len(),
            id_views(out@) == keep_roots(all.take(k as int), sv),
        decreases cands@.len() - k,
    {
        proof {
            assert(all.take(k + 1).drop_last() =~= all.take(k as int));
            assert(all.take(k + 1).last() == cands@[k as int]@);
        }
        let c = cands[k];
        if !is_dependency_of(plan, &c) {
            let ghost before = id_views(out@);
            out.push(c);
            proof {
                assert(id_views(out@) =~= before.push(c@));
            }
        }
        k = k + 1;
    }
    proof {
        assert(all.take(cands@.len() as int) =~= all);
    }
    out
}

/// The key under which an invocation lists its `i`th root.
pub open spec fn partial_key(i: int) -> Seq<char> {
    "partial_production:"@ + decimal_text(i)
}

/// The roots, each under its `partial_production:<i>` key.
pub open spec fn partial_map(roots: Seq<Seq<u8>>) -> Map<Seq<char>, Seq<u8>> {
    pairs_map(Seq::new(roots.len(), |i: int| (partial_key(i), roots[i])))
}

/// Some step owns `root` and exited with 0.
pub open spec fn terminal_ok(steps: Seq<StepView>, root: Seq<u8>) -> bool {
    exists|i: int| 0 <= i < steps.len() && #[trigger] steps[i].production == Some(root) && steps[i].exit_code == Some(0i32)
}

/// The invocation that a run ends in: a success with the single root where
/// there is one, its step exited with 0 and no step was abandoned on an error;
/// else a failure that lists the roots.
pub fn finish(plan: &Plan, roots: &Vec<ProductionId>, plan_id: ResourceId, abandoned: bool) -> (r: Invocation)
    requires
        plan.wf(),
    ensures
        r.plan@ == plan_id@,
        r.partial_productions.wf(),
        !abandoned && roots@.len() == 1 && terminal_ok(step_views(plan), roots@[0]@) ==> r.status == InvocationStatus::Success
            && opt_id(r.production) == Some(roots@[0]@) && r.partial_productions@ == Map::<Seq<char>, Seq<u8>>::empty(),
        !(!abandoned && roots@.len() == 1 && terminal_ok(step_views(plan), roots@[0]@)) ==> r.status == InvocationStatus::Fail
            && r.production is None && r.partial_productions@ == partial_map(id_views(roots@)),
{
    let ghost sv = step_views(plan);
    if !abandoned && roots.len() == 1 {
        let root = roots[0];
        let mut i: usize = 0;
        while i < plan.steps.entries.len()
            invariant
                sv == step_views(plan),
                !abandoned,
                roots@.len() == 1,
                root == roots@[0],
                i <= plan.steps.entries@.len(),
                forall|j: int| 0 <= j < i ==> !(#[trigger] sv[j].production == Some(root@) && sv[j].exit_code == Some(0i32)),
            decreases plan.steps.entries@.len() - i,
        {
            let step = &plan.steps.entries[i].1;
            let hit = match step.production {
                Some(p) => p.same(&root),
                None => false,
            };
            if hit && step.exit_code == Some(0i32) {
                assert(sv[i as int].production == Some(root@));
                return Invocation {
                    production: Some(root),
                    partial_productions: Table::new(),
                    status: InvocationStatus::Success,
                    plan: plan_id,
                };
            }
            i = i + 1;
        }
    }
    let mut partial: Table<ProductionId> = Table::new();
    let ghost rv = id_views(roots@);
    let mut k: usize = 0;
    proof {
        assert(Seq::new(0, |i: int| (partial_key(i), rv[i])) =~= Seq::<(Seq<char>, Seq<u8>)>::empty());
    }
    while k < roots.len()
        invariant
            rv == id_views(roots@),
            k <= roots@.len(),
            partial.wf(),
            partial@ == pairs_map(Seq::new(k as nat, |i: int| (partial_key(i), rv[i]))),
        decreases roots@.len() - k,
    {
        let mut key = "partial_production:".to_owned();
        key.append(usize_text(k).as_str());
        partial.insert(key, roots[k]);
        proof {
            let s1 = Seq::new((k + 1) as nat, |i: int| (partial_key(i), rv[i]));
            assert(s1.drop_last() =~= Seq::new(k as nat, |i: int| (partial_key(i), rv[i])));
        }
        k = k + 1;
    }
    proof {
        assert(Seq::new(roots@.len(), |i: int| (partial_key(i), rv[i])) =~= Seq::new(rv.len(), |i: int| (partial_key(i), rv[i])));
    }
    Invocation { production: None, partial_productions: partial, status: InvocationStatus::Fail, plan: plan_id }
}

/// Drops the first character of a key; an empty key stays empty.
pub open spec fn strip_first(k: Seq<char>) -> Seq<char> {
    if k.len() == 0 {
        k
    } else {
        k.drop_first()
    }
}

/// The dependencies that a production of the step should carry: the step's,
/// each key without its leading `_`.
pub open spec fn expected_dependencies(t: &Table<ProductionId>) -> Map<Seq<char>, Seq<u8>> {
    pairs_map(entry_views(t.entries@).map_values(|p: (Seq<char>, Seq<u8>)| (strip_first(p.0), p.1)))
}

/// The dependencies that a production of the step should carry.
pub fn expected_deps(step: &Step) -> (r: Table<ProductionId>)
    ensures
        r.wf(),
        r@ == expected_dependencies(&step.dependencies),
{
    let ghost es = entry_views(step.dependencies.entries@).map_values(|p: (Seq<char>, Seq<u8>)| (strip_first(p.0), p.1));
    let mut out: Table<ProductionId> = Table::new();
    let mut i: usize = 0;
    proof {
        assert(es.take(0) =~= Seq::<(Seq<char>, Seq<u8>)>::empty());
    }
    while i < step.dependencies.entries.len()
        invariant
            es == entry_views(step.dependencies.entries@).map_values(|p: (Seq<char>, Seq<u8>)| (strip_first(p.0), p.1)),
            i <= step.dependencies.entries@.len(),
            out.wf(),
            out@ == pairs_map(es.take(i as int)),
        decreases step.dependencies.entries@.len() - i,
    {
        let k = step.dependencies.entries[i].0.as_str();
        let n = k.unicode_len();
        let stripped = if n == 0 {
            k.to_owned()
        } else {
            k.substring_char(1, n).to_owned()
        };
        proof {
            assert(es[i as int].0 == strip_first(k@));
            if n > 0 {
                assert(k@.subrange(1, n as int) =~= k@.drop_first());
            }
            assert(es.take(i + 1).drop_last() =~= es.take(i as int));
        }
        out.insert(stripped, step.dependencies.entries[i].1);
        i = i + 1;
    }
    proof {
        assert(es.take(step.dependencies.entries@.len() as int) =~= es);
    }
    out
}

/// Whether two tables of identifiers hold the same keys and values.
pub fn same_table<T>(a: &Table<Id<T>>, b: &Table<Id<T>>) -> (r: bool)
    requires
        a.wf(),
        b.wf(),
    ensures
        r == (a@ == b@),
{
    if !within(a, b) {
        return false;
    }
    if !within(b, a) {
        return false;
    }
    assert(a@ =~= b@);
    true
}

/// Every entry of `a` stands in `b` with the same value.
fn within<T>(a: &Table<Id<T>>, b: &Table<Id<T>>) -> (r: bool)
    requires
        a.wf(),
        b.wf(),
    ensures
        r == (forall|k: Seq<char>| #[trigger] a@.contains_key(k) ==> b@.contains_key(k) && b@[k] == a@[k]),
{
    let mut i: usize = 0;
    while i < a.entries.len()
        invariant
            a.wf(),
            b.wf(),
            i <= a.entries@.len(),
            forall|j: int| 0 <= j < i ==> b@.contains_key(#[trigger] a.entries@[j].0@) && b@[a.entries@[j].0@] == a.entries@[j].1@,
        decreases a.entries@.len() - i,
    {
        proof {
            lemma_table_entry(a, i as int);
        }
        match b.get(a.entries[i].0.as_str()) {
            Some(v) => {
                if !v.same(&a.entries[i].1) {
                    return false;
                }
            },
            None => {
                return false;
            },
        }
        i = i + 1;
    }
    proof {
        assert forall|k: Seq<char>| #[trigger] a@.contains_key(k) implies b@.contains_key(k) && b@[k] == a@[k] by {
            lemma_table_keys(a, k);
            let j = choose|j: int| 0 <= j < a.entries@.len() && #[trigger] a.entries@[j].0@ == k;
            lemma_table_entry(a, j);
        }
    }
    true
}

/// What a cache hit comes to: the production to use, and whether it is new
/// and must be written. Where the cached production's dependencies are those
/// the step expects, it is used as it is. Else the result is a copy with the
/// expected dependencies, the step's source, and `cache` naming the cached
/// production.
pub fn rehydrate(cached: Production, cached_id: ProductionId, step: &Step) -> (r: (Production, bool))
    requires
        cached.dependencies.wf(),
    ensures
        r.0.dependencies.wf(),
        !r.1 <==> cached.dependencies@ == expected_dependencies(&step.dependencies),
        !r.1 ==> r.0 == cached,
        r.1 ==> r.0@.dependencies == expected_dependencies(&step.dependencies) && r.0@.source == opt_text(step.source)
            && r.0@.cache == Some(cached_id@) && r.0@.job == cached@.job && r.0@.exit_code == cached@.exit_code
            && r.0@.outputs == cached@.outputs && r.0@.log == cached@.log && r.0@.invocation == cached@.invocation
            && r.0@.start_ts == cached@.start_ts && r.0@.end_ts == cached@.end_ts,
{
    let expected = expected_deps(step);
    if same_table(&cached.dependencies, &expected) {
        (cached, false)
    } else {
        let source = match &step.source {
            Some(s) => Some(s.clone()),
            None => None,
        };
        (Production { dependencies: expected, source, cache: Some(cached_id), ..cached }, true)
    }
}

/// The resolved inputs of a step, as identifiers.
pub open spec fn input_ids(m: Map<Seq<char>, InputView>) -> Map<Seq<char>, Seq<u8>> {
    m.map_values(|i: InputView| match i {
        InputView::Id(b) => b,
        InputView::Pos(_, _) => Seq::empty(),
    })
}

/// The job of a step whose inputs are all resolved.
pub fn to_job(step: &Step) -> (r: Job)
    requires
        step.wf(),
        forall|k: Seq<char>| #[trigger] step@.inputs.contains_key(k) ==> step@.inputs[k] is Id,
    ensures
        r.inputs.wf(),
        r@ == (JobView { process: step.process@, inputs: input_ids(step@.inputs) }),
{
    let mut inputs: Table<ResourceId> = Table::new();
    let mut i: usize = 0;
    while i < step.inputs.entries.len()
        invariant
            step.wf(),
            forall|k: Seq<char>| #[trigger] step@.inputs.contains_key(k) ==> step@.inputs[k] is Id,
            i <= step.inputs.entries@.len(),
            inputs.wf(),
            forall|k: Seq<char>| #[trigger] inputs@.contains_key(k) <==> exists|j: int| 0 <= j < i && #[trigger] step.inputs.entries@[j].0@ == k,
            forall|k: Seq<char>| #[trigger] inputs@.contains_key(k) ==> step@.inputs.contains_key(k) && inputs@[k] == input_ids(step@.inputs)[k],
        decreases step.inputs.entries@.len() - i,
    {
        proof {
            lemma_table_entry(&step.inputs, i as int);
        }
        let ghost before = inputs@;
        match &step.inputs.entries[i].1 {
            Input::Id(id) => {
                inputs.insert(step.inputs.entries[i].0.clone(), *id);
            },
            Input::Pos(_, _) => {
                assert(false);
            },
        }
        proof {
            assert forall|k: Seq<char>| #[trigger] inputs@.contains_key(k) <==> exists|j: int| 0 <= j < i + 1 && #[trigger] step.inputs.entries@[j].0@ == k by {
                if inputs@.contains_key(k) && k != step.inputs.entries@[i as int].0@ {
                    assert(before.contains_key(k));
                }
                if exists|j: int| 0 <= j < i + 1 && #[trigger] step.inputs.entries@[j].0@ == k {
                    let j = choose|j: int| 0 <= j < i + 1 && #[trigger] step.inputs.entries@[j].0@ == k;
                    if j < i {
                        assert(before.contains_key(k));
                    }
                }
            }
        }
        i = i + 1;
    }
    proof {
        assert forall|k: Seq<char>| #[trigger] input_ids(step@.inputs).contains_key(k) implies inputs@.contains_key(k) by {
            lemma_table_keys(&step.inputs, k);
        }
        assert(inputs@ =~= input_ids(step@.inputs));
    }
    Job { process: step.process.copy(), inputs }
}

/// The path names a directory: it ends with `/`.
pub open spec fn ends_slash(s: Seq<char>) -> bool {
    s.len() > 0 && s.last() == '/'
}

/// Whether the path ends with `/`.
pub(crate) fn is_dir(s: &str) -> (r: bool)
    ensures
        r == ends_slash(s@),
{
    let n = s.unicode_len();
    n > 0 && s.get_char(n - 1) == '/'
}

/// Adds, in output order, each output under the directory `out` as an input
/// under `inpath` with the same suffix.
pub open spec fn expand_into(
    acc: Map<Seq<char>, InputView>,
    inpath: Seq<char>,
    out: Seq<char>,
    outs: Seq<(Seq<char>, Seq<u8>)>,
) -> Map<Seq<char>, InputView>
    decreases outs.len(),
{
    if outs.len() == 0 {
        acc
    } else {
        let a = expand_into(acc, inpath, out, outs.drop_last());
        let o = outs.last();
        if starts_with(o.0, out) {
            a.insert(inpath + o.0.skip(out.len() as int), InputView::Id(o.1))
        } else {
            a
        }
    }
}

/// The input waits on an output of the step at `pos`.
pub open spec fn waits_on(i: InputView, pos: Seq<char>) -> bool {
    i matches InputView::Pos(p, _) && p == pos
}

/// A step's inputs once the step at `pos` has finished with outputs `outs`,
/// taken in order: an input that waits on `pos` is resolved, from every output
/// under it where both paths name directories, else from the one output it
/// names. `None` where that output is missing.
pub open spec fn rewrite_inputs(
    ins: Seq<(Seq<char>, InputView)>,
    pos: Seq<char>,
    outs: Seq<(Seq<char>, Seq<u8>)>,
) -> Option<Map<Seq<char>, InputView>>
    decreases ins.len(),
{
    if ins.len() == 0 {
        Some(Map::empty())
    } else {
        match rewrite_inputs(ins.drop_last(), pos, outs) {
            None => None,
            Some(acc) => {
                let k = ins.last().0;
                let v = ins.last().1;
                match v {
                    InputView::Pos(p, out) => if p == pos {
                        if ends_slash(k) && ends_slash(out) {
                            Some(expand_into(acc, k, out, outs))
                        } else if pairs_map(outs).contains_key(out) {
                            Some(acc.insert(k, InputView::Id(pairs_map(outs)[out])))
                        } else {
                            None
                        }
                    } else {
                        Some(acc.insert(k, v))
                    },
                    InputView::Id(_) => Some(acc.insert(k, v)),
                }
            },
        }
    }
}

/// The key under which a step records the production that fed an input.
pub open spec fn dep_key(inpath: Seq<char>) -> Seq<char> {
    "_dep:"@ + inpath
}

/// A step's dependencies once the step at `pos` has finished as production
/// `id`: one more for each input that waited on `pos`.
pub open spec fn add_dependencies(
    deps: Map<Seq<char>, Seq<u8>>,
    ins: Map<Seq<char>, InputView>,
    pos: Seq<char>,
    id: Seq<u8>,
) -> Map<Seq<char>, Seq<u8>> {
    Map::new(
        |dk: Seq<char>| deps.contains_key(dk) || fed(ins, pos, dk),
        |dk: Seq<char>| if fed(ins, pos, dk) {
            id
        } else {
            deps[dk]
        },
    )
}

/// Some input under a path whose dependency key is `dk` waits on `pos`.
pub open spec fn fed(ins: Map<Seq<char>, InputView>, pos: Seq<char>, dk: Seq<char>) -> bool {
    exists|k: Seq<char>| #[trigger] ins.contains_key(k) && dk == dep_key(k) && waits_on(ins[k], pos)
}

proof fn lemma_dep_key_injective(a: Seq<char>, b: Seq<char>)
    requires
        dep_key(a) == dep_key(b),
    ensures
        a == b,
{
    reveal_strlit("_dep:");
    assert(a =~= dep_key(a).skip(5));
    assert(b =~= dep_key(b).skip(5));
}

proof fn lemma_rewrite_none(ins: Seq<(Seq<char>, InputView)>, n: int, pos: Seq<char>, outs: Seq<(Seq<char>, Seq<u8>)>)
    requires
        0 <= n <= ins.len(),
        rewrite_inputs(ins.take(n), pos, outs) is None,
    ensures
        rewrite_inputs(ins, pos, outs) is None,
    decreases ins.len() - n,
{
    if n < ins.len() {
        assert(ins.take(n + 1).drop_last() =~= ins.take(n));
        lemma_rewrite_none(ins, n + 1, pos, outs);
    } else {
        assert(ins.take(n) =~= ins);
    }
}

proof fn lemma_add_dependency(
    d0: Map<Seq<char>, Seq<u8>>,
    m: Map<Seq<char>, InputView>,
    k: Seq<char>,
    v: InputView,
    pos: Seq<char>,
    id: Seq<u8>,
)
    requires
        !m.contains_key(k),
    ensures
        waits_on(v, pos) ==> add_dependencies(d0, m.insert(k, v), pos, id) == add_dependencies(d0, m, pos, id).insert(dep_key(k), id),
        !waits_on(v, pos) ==> add_dependencies(d0, m.insert(k, v), pos, id) == add_dependencies(d0, m, pos, id),
{
    let m2 = m.insert(k, v);
    let a = add_dependencies(d0, m2, pos, id);
    let b = add_dependencies(d0, m, pos, id);
    assert forall|dk: Seq<char>| #[trigger] fed(m2, pos, dk) <==> (fed(m, pos, dk) || (dk == dep_key(k) && waits_on(v, pos))) by {
        if exists|x: Seq<char>| #[trigger] m2.contains_key(x) && dk == dep_key(x) && waits_on(m2[x], pos) {
            let x = choose|x: Seq<char>| #[trigger] m2.contains_key(x) && dk == dep_key(x) && waits_on(m2[x], pos);
            if x != k {
                assert(m.contains_key(x) && dk == dep_key(x) && waits_on(m[x], pos));
            }
        }
        if exists|x: Seq<char>| #[trigger] m.contains_key(x) && dk == dep_key(x) && waits_on(m[x], pos) {
            let x = choose|x: Seq<char>| #[trigger] m.contains_key(x) && dk == dep_key(x) && waits_on(m[x], pos);
            assert(x != k);
            assert(m2.contains_key(x) && dk == dep_key(x) && waits_on(m2[x], pos));
        }
        if dk == dep_key(k) && waits_on(v, pos) {
            assert(m2.contains_key(k) && dk == dep_key(k) && waits_on(m2[k], pos));
        }
    }
    if waits_on(v, pos) {
        assert(a =~= b.insert(dep_key(k), id));
    } else {
        assert forall|dk: Seq<char>| a.contains_key(dk) == b.contains_key(dk) by {
            if dk == dep_key(k) && (exists|x: Seq<char>| #[trigger] m2.contains_key(x) && dk == dep_key(x) && waits_on(m2[x], pos)) {
                let x = choose|x: Seq<char>| #[trigger] m2.contains_key(x) && dk == dep_key(x) && waits_on(m2[x], pos);
                lemma_dep_key_injective(x, k);
            }
        }
        assert forall|dk: Seq<char>| a.contains_key(dk) implies a[dk] == b[dk] by {
            if dk == dep_key(k) && (exists|x: Seq<char>| #[trigger] m2.contains_key(x) && dk == dep_key(x) && waits_on(m2[x], pos)) {
                let x = choose|x: Seq<char>| #[trigger] m2.contains_key(x) && dk == dep_key(x) && waits_on(m2[x], pos);
                lemma_dep_key_injective(x, k);
            }
        }
        assert(a =~= b);
    }
}

/// Inserts, in output order, each output under `out` as an input under `inpath`.
fn expand_outputs(acc: &mut Table<Input>, inpath: &str, out: &str, outputs: &Table<ResourceId>)
    requires
        old(acc).wf(),
    ensures
        final(acc).wf(),
        final(acc)@ == expand_into(old(acc)@, inpath@, out@, entry_views(outputs.entries@)),
{
    let ghost outs = entry_views(outputs.entries@);
    let mut i: usize = 0;
    proof {
        assert(outs.take(0) =~= Seq::<(Seq<char>, Seq<u8>)>::empty());
    }
    while i < outputs.entries.len()
        invariant
            outs == entry_views(outputs.entries@),
            i <= outputs.entries@.len(),
            acc.wf(),
            acc@ == expand_into(old(acc)@, inpath@, out@, outs.take(i as int)),
        decreases outputs.entries@.len() - i,
    {
        proof {
            assert(outs.take(i + 1).drop_last() =~= outs.take(i as int));
            assert(outs.take(i + 1).last() == outs[i as int]);
        }
        match strip_prefix(outputs.entries[i].0.as_str(), out) {
            Some(suffix) => {
                let mut key = inpath.to_owned();
                key.append(suffix);
                acc.insert(key, Input::Id(outputs.entries[i].1));
            },
            None => {},
        }
        i = i + 1;
    }
    proof {
        assert(outs.take(outputs.entries@.len() as int) =~= outs);
    }
}

/// The map with each of the keys set to `id`, in order.
pub open spec fn insert_all(d: Map<Seq<char>, Seq<u8>>, ks: Seq<Seq<char>>, id: Seq<u8>) -> Map<Seq<char>, Seq<u8>>
    decreases ks.len(),
{
    if ks.len() == 0 {
        d
    } else {
        insert_all(d, ks.drop_last(), id).insert(ks.last(), id)
    }
}

/// Resolves the inputs of one step that wait on the step at `pos`, which
/// finished as production `id` with `outputs`, and records the dependency.
/// `false` where an output that an input names is missing; the step is then
/// left as it was, still waiting.
fn rewrite_step(step: &mut Step, pos: &str, outputs: &Table<ResourceId>, id: ProductionId) -> (r: bool)
    requires
        old(step).wf(),
        outputs.wf(),
    ensures
        final(step).wf(),
        final(step).pos == old(step).pos,
        final(step).process == old(step).process,
        final(step).exit_code == old(step).exit_code,
        final(step).production == old(step).production,
        final(step).source == old(step).source,
        r == (rewrite_inputs(entry_views(old(step).inputs.entries@), pos@, entry_views(outputs.entries@)) is Some),
        r ==> final(step)@.inputs == rewrite_inputs(entry_views(old(step).inputs.entries@), pos@, entry_views(outputs.entries@))->0
            && final(step)@.dependencies == add_dependencies(old(step)@.dependencies, old(step)@.inputs, pos@, id@),
        !r ==> final(step)@.inputs == old(step)@.inputs && final(step)@.dependencies == old(step)@.dependencies,
{
    let ghost ins = entry_views(step.inputs.entries@);
    let ghost outs = entry_views(outputs.entries@);
    let ghost deps0 = step.dependencies@;
    let mut mapped: Table<Input> = Table::new();
    let mut pending: Vec<String> = Vec::new();
    let mut i: usize = 0;
    proof {
        assert(ins.take(0) =~= Seq::<(Seq<char>, InputView)>::empty());
        assert(crate::attributes::string_views(pending@) =~= Seq::<Seq<char>>::empty());
        assert(add_dependencies(deps0, pairs_map(ins.take(0)), pos@, id@) =~= deps0);
    }
    while i < step.inputs.entries.len()
        invariant
            ins == entry_views(step.inputs.entries@),
            outs == entry_views(outputs.entries@),
            *step == *old(step),
            deps0 == old(step)@.dependencies,
            outputs.wf(),
            step.wf(),
            i <= step.inputs.entries@.len(),
            mapped.wf(),
            rewrite_inputs(ins.take(i as int), pos@, outs) == Some(mapped@),
            insert_all(deps0, crate::attributes::string_views(pending@), id@) == add_dependencies(deps0, pairs_map(ins.take(i as int)), pos@, id@),
        decreases step.inputs.entries@.len() - i,
    {
        let ghost taken = ins.take(i as int);
        proof {
            assert(ins.take(i + 1).drop_last() =~= taken);
            assert(ins.take(i + 1).last() == ins[i as int]);
            crate::table::lemma_pairs_map_dom(taken, ins[i as int].0);
            assert(!pairs_map(taken).contains_key(ins[i as int].0));
            lemma_add_dependency(deps0, pairs_map(taken), ins[i as int].0, ins[i as int].1, pos@, id@);
        }
        let inpath = step.inputs.entries[i].0.as_str();
        let mut handled = false;
        if let Input::Pos(p, out) = &step.inputs.entries[i].1 {
            if str_eq(p.as_str(), pos) {
                handled = true;
                let mut dk = "_dep:".to_owned();
                dk.append(inpath);
                let ghost before = crate::attributes::string_views(pending@);
                proof {
                    reveal_strlit("_dep:");
                    assert(dk@ == dep_key(inpath@));
                }
                pending.push(dk);
                proof {
                    assert(crate::attributes::string_views(pending@) =~= before.push(dep_key(inpath@)));
                    assert(crate::attributes::string_views(pending@).drop_last() =~= before);
                    assert(ins[i as int].0 == inpath@);
                    assert(pairs_map(ins.take(i + 1)) == pairs_map(taken).insert(ins[i as int].0, ins[i as int].1));
                }
                if is_dir(inpath) && is_dir(out.as_str()) {
                    expand_outputs(&mut mapped, inpath, out.as_str(), outputs);
                } else {
                    match outputs.get(out.as_str()) {
                        Some(o) => {
                            mapped.insert(inpath.to_owned(), Input::Id(*o));
                        },
                        None => {
                            proof {
                                lemma_rewrite_none(ins, i + 1, pos@, outs);
                            }
                            return false;
                        },
                    }
                }
            }
        }
        if !handled {
            mapped.insert(inpath.to_owned(), step.inputs.entries[i].1.copy());
        }
        i = i + 1;
    }
    proof {
        assert(ins.take(step.inputs.entries@.len() as int) =~= ins);
    }
    let ghost pv = crate::attributes::string_views(pending@);
    let mut q: usize = 0;
    proof {
        assert(pv.take(0) =~= Seq::<Seq<char>>::empty());
    }
    while q < pending.len()
        invariant
            pv == crate::attributes::string_views(pending@),
            q <= pending@.len(),
            step.wf(),
            step.pos == old(step).pos,
            step.process == old(step).process,
            step.exit_code == old(step).exit_code,
            step.production == old(step).production,
            step.source == old(step).source,
            step.inputs == old(step).inputs,
            step.dependencies@ == insert_all(deps0, pv.take(q as int), id@),
        decreases pending@.len() - q,
    {
        proof {
            assert(pv.take(q + 1).drop_last() =~= pv.take(q as int));
            assert(pv.take(q + 1).last() == pending@[q as int]@);
        }
        step.dependencies.insert(pending[q].clone(), id);
        q = q + 1;
    }
    proof {
        assert(pv.take(pending@.len() as int) =~= pv);
    }
    step.inputs = mapped;
    true
}

/// Replacing the value of one entry keeps a plan's keys, so its keys stay unique.
proof fn lemma_replace_step(plan_before: Seq<(String, Step)>, plan_after: Seq<(String, Step)>, j: int)
    requires
        crate::table::keys_unique(entry_views(plan_before)),
        0 <= j < plan_before.len(),
        plan_after.len() == plan_before.len(),
        forall|m: int| 0 <= m < plan_before.len() ==> (#[trigger] plan_after[m]).0 == plan_before[m].0,
    ensures
        crate::table::keys_unique(entry_views(plan_after)),
{
    assert forall|a: int, b: int| 0 <= a < b < plan_after.len() implies entry_views(plan_after)[a].0 != entry_views(plan_after)[b].0 by {
        assert(plan_after[a].0 == plan_before[a].0);
        assert(plan_after[b].0 == plan_before[b].0);
        assert(entry_views(plan_before)[a].0 != entry_views(plan_before)[b].0);
    }
}

/// Records that the step at index `at` finished with `exit_code` as
/// production `production_id`. Where it exited with 0, every step's inputs
/// that wait on it are resolved from its `outputs`, and each such step records
/// the dependency. A step that names an output that is missing is left as it
/// was, still waiting; the others are resolved all the same. `false` where
/// some step names a missing output.
pub fn complete_step(
    plan: &mut Plan,
    at: usize,
    exit_code: i32,
    outputs: &Table<ResourceId>,
    production_id: ProductionId,
) -> (r: bool)
    requires
        old(plan).wf(),
        outputs.wf(),
        at < old(plan).steps.entries@.len(),
    ensures
        final(plan).wf(),
        final(plan).steps.entries@.len() == old(plan).steps.entries@.len(),
        forall|j: int| 0 <= j < final(plan).steps.entries@.len() ==> (#[trigger] final(plan).steps.entries@[j]).0 == old(plan).steps.entries@[j].0
            && final(plan).steps.entries@[j].1.pos == old(plan).steps.entries@[j].1.pos
            && final(plan).steps.entries@[j].1.process == old(plan).steps.entries@[j].1.process
            && final(plan).steps.entries@[j].1.source == old(plan).steps.entries@[j].1.source,
        forall|j: int| 0 <= j < final(plan).steps.entries@.len() && j != at ==> (#[trigger] final(plan).steps.entries@[j]).1.exit_code == old(plan).steps.entries@[j].1.exit_code
            && final(plan).steps.entries@[j].1.production == old(plan).steps.entries@[j].1.production,
        step_views(final(plan))[at as int].exit_code == Some(exit_code),
        step_views(final(plan))[at as int].production == Some(production_id@),
        exit_code != 0 ==> r && forall|j: int| 0 <= j < final(plan).steps.entries@.len() ==> (#[trigger] step_views(final(plan))[j]).inputs == step_views(old(plan))[j].inputs
            && step_views(final(plan))[j].dependencies == step_views(old(plan))[j].dependencies,
        exit_code == 0 ==> (r <==> forall|j: int| 0 <= j < old(plan).steps.entries@.len() ==> (#[trigger] rewrite_inputs(entry_views(old(plan).steps.entries@[j].1.inputs.entries@), old(plan).steps.entries@[at as int].0@, entry_views(outputs.entries@))) is Some),
        exit_code == 0 ==> forall|j: int| 0 <= j < final(plan).steps.entries@.len() ==> (#[trigger] step_views(final(plan))[j]).inputs == (match rewrite_inputs(entry_views(old(plan).steps.entries@[j].1.inputs.entries@), old(plan).steps.entries@[at as int].0@, entry_views(outputs.entries@)) {
                Some(ins) => ins,
                None => step_views(old(plan))[j].inputs,
            })
            && step_views(final(plan))[j].dependencies == (if rewrite_inputs(entry_views(old(plan).steps.entries@[j].1.inputs.entries@), old(plan).steps.entries@[at as int].0@, entry_views(outputs.entries@)) is Some {
                add_dependencies(step_views(old(plan))[j].dependencies, step_views(old(plan))[j].inputs, old(plan).steps.entries@[at as int].0@, production_id@)
            } else {
                step_views(old(plan))[j].dependencies
            }),
{
    let ghost e0 = plan.steps.entries@;
    let (k0, mut s0) = plan.steps.entries.remove(at);
    s0.exit_code = Some(exit_code);
    s0.production = Some(production_id);
    let pos = k0.clone();
    plan.steps.entries.insert(at, (k0, s0));
    proof {
        assert(plan.steps.entries@ =~= e0.update(at as int, plan.steps.entries@[at as int]));
        lemma_replace_step(e0, plan.steps.entries@, at as int);
    }
    if exit_code != 0 {
        return true;
    }
    let ghost e1 = plan.steps.entries@;
    let mut all_ok = true;
    let mut j: usize = 0;
    while j < plan.steps.entries.len()
        invariant
            plan.wf(),
            outputs.wf(),
            e0 == old(plan).steps.entries@,
            exit_code == 0,
            pos@ == e0[at as int].0@,
            at < e0.len(),
            e1.len() == e0.len(),
            plan.steps.entries@.len() == e0.len(),
            j <= e0.len(),
            forall|m: int| 0 <= m < e0.len() ==> (#[trigger] e1[m]).0 == e0[m].0 && e1[m].1.pos == e0[m].1.pos
                && e1[m].1.process == e0[m].1.process && e1[m].1.source == e0[m].1.source && e1[m].1.inputs == e0[m].1.inputs
                && e1[m].1.dependencies == e0[m].1.dependencies,
            forall|m: int| 0 <= m < e0.len() && m != at ==> (#[trigger] e1[m]).1.exit_code == e0[m].1.exit_code && e1[m].1.production == e0[m].1.production,
            e1[at as int].1.exit_code == Some(exit_code),
            e1[at as int].1.production == Some(production_id),
            forall|m: int| 0 <= m < e0.len() ==> (#[trigger] plan.steps.entries@[m]).0 == e0[m].0 && plan.steps.entries@[m].1.pos == e0[m].1.pos
                && plan.steps.entries@[m].1.process == e0[m].1.process && plan.steps.entries@[m].1.source == e0[m].1.source
                && plan.steps.entries@[m].1.exit_code == e1[m].1.exit_code && plan.steps.entries@[m].1.production == e1[m].1.production,
            forall|m: int| j <= m < e0.len() ==> (#[trigger] plan.steps.entries@[m]) == e1[m],
            all_ok == forall|m: int| 0 <= m < j ==> (#[trigger] rewrite_inputs(entry_views(e0[m].1.inputs.entries@), pos@, entry_views(outputs.entries@))) is Some,
            forall|m: int| 0 <= m < j ==> (#[trigger] plan.steps.entries@[m]).1@.inputs == (match rewrite_inputs(entry_views(e0[m].1.inputs.entries@), pos@, entry_views(outputs.entries@)) {
                    Some(ins) => ins,
                    None => e0[m].1@.inputs,
                })
                && plan.steps.entries@[m].1@.dependencies == (if rewrite_inputs(entry_views(e0[m].1.inputs.entries@), pos@, entry_views(outputs.entries@)) is Some {
                    add_dependencies(e0[m].1@.dependencies, e0[m].1@.inputs, pos@, production_id@)
                } else {
                    e0[m].1@.dependencies
                }),
        decreases e0.len() - j,
    {
        let ghost before = plan.steps.entries@;
        assert(before[j as int].1.wf());
        let (k, mut st) = plan.steps.entries.remove(j);
        let ok = rewrite_step(&mut st, pos.as_str(), outputs, production_id);
        plan.steps.entries.insert(j, (k, st));
        proof {
            assert(plan.steps.entries@ =~= before.update(j as int, plan.steps.entries@[j as int]));
            lemma_replace_step(before, plan.steps.entries@, j as int);
        }
        all_ok = all_ok && ok;
        proof {
            if !all_ok {
                if !ok {
                    assert(rewrite_inputs(entry_views(e0[j as int].1.inputs.entries@), pos@, entry_views(outputs.entries@)) is None);
                }
            }
        }
        j = j + 1;
    }
    all_ok
}

} // verus!
