//! The decisions of running jobs and plans: the nested-plan rewrite, the
//! identity process, the inputs of a command, and the productions of command
//! and dynamic jobs. Running processes and touching the store is left to the
//! caller.

use crate::id::hex_of;
use crate::object::{
    opt_id, opt_text, Input, InputView, InvocationId, InvocationStatus, Job, JobId, Plan, Process,
    ProcessView, Production, ProductionView, ResourceId, Step, StepView,
};
use crate::table::{entry_views, lemma_table_entry, lemma_table_keys, pairs_map, Table};
use crate::text::{has_prefix, starts_with, strip_prefix, Timestamp};
use crate::plan::{insert_step, FileTable, TextInput, TextInputView, TextPlan, TextStep};
use crate::scheduler::{expected_dependencies, expected_deps};
use crate::order::str_eq;
use vstd::prelude::*;

verus! {

/// The command step that a nested step becomes: at `<pos>@plan`, running the
/// command, with the step's inputs and `@plan` after its source.
pub open spec fn plan_command_step(pos: Seq<char>, s: StepView, cmd: Seq<char>) -> StepView {
    StepView {
        pos: Some(pos + "@plan"@),
        process: ProcessView::Command(cmd),
        source: match s.source {
            Some(src) => Some(src + "@plan"@),
            None => Some("plan"@),
        },
        ..s
    }
}

/// The dynamic step that a nested step becomes: at its own position, reading
/// every output of the command step as its input directory.
pub open spec fn plan_dynamic_step(pos: Seq<char>, s: StepView) -> StepView {
    StepView {
        pos: s.pos,
        process: ProcessView::Dynamic,
        exit_code: None,
        production: None,
        source: s.source,
        inputs: Map::empty().insert("in/"@, InputView::Pos(pos + "@plan"@, "out/"@)),
        dependencies: Map::empty(),
    }
}

/// The steps of a plan once each nested step is split in two, taken in order.
pub open spec fn split_nested(entries: Seq<(Seq<char>, StepView)>) -> Map<Seq<char>, StepView>
    decreases entries.len(),
{
    if entries.len() == 0 {
        Map::empty()
    } else {
        let m = split_nested(entries.drop_last());
        let (pos, s) = entries.last();
        match s.process {
            ProcessView::Nested(cmd) => m.insert(pos + "@plan"@, plan_command_step(pos, s, cmd)).insert(
                pos,
                plan_dynamic_step(pos, s),
            ),
            _ => m.insert(pos, s),
        }
    }
}

/// The views of a plan's entries.
pub open spec fn plan_entries(p: &Plan) -> Seq<(Seq<char>, StepView)> {
    entry_views(p.steps.entries@)
}

/// Splits each nested step of the plan in two: a command step at
/// `<pos>@plan` that writes the sub-plan, and a dynamic step at `<pos>` that
/// runs it. Other steps stay as they are.
pub fn expand_nested(plan: Plan) -> (r: Plan)
    requires
        plan.wf(),
    ensures
        r.wf(),
        r@ == split_nested(plan_entries(&plan)),
{
    let ghost e0 = plan_entries(&plan);
    let ghost n = plan.steps.entries@.len();
    let len0 = plan.steps.entries.len();
    let mut src = plan.steps.entries;
    let mut out: Table<Step> = Table::new();
    let mut done: usize = 0;
    proof {
        assert(e0.take(0) =~= Seq::<(Seq<char>, StepView)>::empty());
        assert(entry_views(src@) =~= e0.skip(0));
    }
    while src.len() > 0
        invariant
            n == e0.len(),
            n == len0,
            done + src@.len() == n,
            entry_views(src@) == e0.skip(done as int),
            forall|i: int| 0 <= i < src@.len() ==> (#[trigger] src@[i]).1.wf(),
            out.wf(),
            forall|i: int| 0 <= i < out.entries@.len() ==> (#[trigger] out.entries@[i]).1.wf(),
            out@ == split_nested(e0.take(done as int)),
        decreases src@.len(),
    {
        let ghost s0 = src@;
        let (pos, mut step) = src.remove(0);
        proof {
            assert(s0[0].1.wf());
            assert(entry_views(s0)[0] == (pos@, step@));
            assert(e0.skip(done as int)[0] == e0[done as int]);
            assert(src@ =~= s0.remove(0));
            assert(entry_views(src@) =~= entry_views(s0).skip(1));
            assert(e0.skip(done as int).skip(1) =~= e0.skip(done + 1));
            assert(e0.take(done + 1).drop_last() =~= e0.take(done as int));
            assert(e0.take(done + 1).last() == (pos@, step@));
            assert forall|i: int| 0 <= i < src@.len() implies (#[trigger] src@[i]).1.wf() by {
                assert(src@[i] == s0[i + 1]);
            }
        }
        let ghost sv = step@;
        match step.process {
            Process::Nested(cmd) => {
                let mut command_pos = pos.clone();
                command_pos.append("@plan");
                let dynamic_source = match &step.source {
                    Some(s) => Some(s.clone()),
                    None => None,
                };
                let command_source = match &step.source {
                    Some(s) => {
                        let mut t = s.clone();
                        t.append("@plan");
                        t
                    },
                    None => "plan".to_owned(),
                };
                let dynamic_pos = match &step.pos {
                    Some(p) => Some(p.clone()),
                    None => None,
                };
                let mut dynamic_inputs: Table<Input> = Table::new();
                dynamic_inputs.insert("in/".to_owned(), Input::Pos(command_pos.clone(), "out/".to_owned()));
                let dynamic_step = Step {
                    pos: dynamic_pos,
                    process: Process::Dynamic,
                    exit_code: None,
                    production: None,
                    source: dynamic_source,
                    inputs: dynamic_inputs,
                    dependencies: Table::new(),
                };
                let command_step = Step {
                    pos: Some(command_pos.clone()),
                    process: Process::Command(cmd),
                    source: Some(command_source),
                    ..step
                };
                proof {
                    assert(command_step@ == plan_command_step(pos@, sv, cmd@));
                    assert(dynamic_step@.inputs =~= Map::empty().insert("in/"@, InputView::Pos(pos@ + "@plan"@, "out/"@)));
                    assert(dynamic_step@ == plan_dynamic_step(pos@, sv));
                }
                insert_step(&mut out, command_pos, command_step);
                insert_step(&mut out, pos, dynamic_step);
            },
            _ => {
                insert_step(&mut out, pos, step);
            },
        }
        done = done + 1;
    }
    proof {
        assert(e0.take(n as int) =~= e0);
    }
    Plan { steps: out }
}

/// The outputs of an identity job: each input under `in/<p>` as the output
/// `out/<p>`.
pub open spec fn identity_outputs(inputs: Map<Seq<char>, Seq<u8>>) -> Map<Seq<char>, Seq<u8>> {
    Map::new(
        |k: Seq<char>| starts_with(k, "out/"@) && inputs.contains_key("in/"@ + k.skip(4)),
        |k: Seq<char>| inputs["in/"@ + k.skip(4)],
    )
}

/// A production with nothing but its job, exit code and outputs.
pub open spec fn bare_production(job: Seq<u8>, exit_code: i32, outputs: Map<Seq<char>, Seq<u8>>) -> ProductionView {
    ProductionView {
        job,
        exit_code,
        outputs,
        dependencies: Map::empty(),
        log: None,
        invocation: None,
        cache: None,
        source: None,
        start_ts: None,
        end_ts: None,
    }
}

/// Runs an identity job: every input, which must lie under `in/`, becomes the
/// output of the same name under `out/`; exit code 0. `None` where an input
/// lies elsewhere.
pub fn run_identity(job_id: JobId, job: &Job) -> (r: Option<Production>)
    requires
        job.inputs.wf(),
    ensures
        r is Some <==> forall|k: Seq<char>| #[trigger] job@.inputs.contains_key(k) ==> starts_with(k, "in/"@),
        r matches Some(p) ==> p.outputs.wf() && p.dependencies.wf() && p@ == bare_production(job_id@, 0, identity_outputs(job@.inputs)),
{
    proof {
        reveal_strlit("in/");
        reveal_strlit("out/");
        assert("in/"@.len() == 3);
        assert("out/"@.len() == 4);
    }
    let mut outputs: Table<ResourceId> = Table::new();
    let mut i: usize = 0;
    while i < job.inputs.entries.len()
        invariant
            job.inputs.wf(),
            i <= job.inputs.entries@.len(),
            outputs.wf(),
            forall|j: int| 0 <= j < i ==> starts_with(#[trigger] job.inputs.entries@[j].0@, "in/"@),
            forall|k: Seq<char>| #[trigger] outputs@.contains_key(k) <==> (starts_with(k, "out/"@) && exists|j: int| 0 <= j < i && #[trigger] job.inputs.entries@[j].0@ == "in/"@ + k.skip(4)),
            forall|k: Seq<char>| #[trigger] outputs@.contains_key(k) ==> outputs@[k] == job@.inputs["in/"@ + k.skip(4)],
        decreases job.inputs.entries@.len() - i,
    {
        proof {
            lemma_table_entry(&job.inputs, i as int);
        }
        let key = job.inputs.entries[i].0.as_str();
        match strip_prefix(key, "in/") {
            Some(rest) => {
                let mut out_key = "out/".to_owned();
                out_key.append(rest);
                let ghost ok = out_key@;
                proof {
                    reveal_strlit("out/");
                    assert("out/"@.len() == 4);
                    assert(ok =~= "out/"@ + rest@);
                    assert(ok.skip(4) =~= rest@);
                    assert(key@ =~= "in/"@ + rest@);
                    assert(starts_with(ok, "out/"@)) by {
                        assert(ok.take(4) =~= "out/"@);
                    }
                }
                let ghost before = outputs@;
                outputs.insert(out_key, job.inputs.entries[i].1);
                proof {
                    assert forall|k: Seq<char>| #[trigger] outputs@.contains_key(k) <==> (starts_with(k, "out/"@) && exists|j: int| 0 <= j < i + 1 && #[trigger] job.inputs.entries@[j].0@ == "in/"@ + k.skip(4)) by {
                        if k == ok {
                            assert(job.inputs.entries@[i as int].0@ == "in/"@ + k.skip(4));
                        } else if starts_with(k, "out/"@) && exists|j: int| 0 <= j < i + 1 && #[trigger] job.inputs.entries@[j].0@ == "in/"@ + k.skip(4) {
                            let j = choose|j: int| 0 <= j < i + 1 && #[trigger] job.inputs.entries@[j].0@ == "in/"@ + k.skip(4);
                            if j == i {
                                assert(k.skip(4) =~= rest@);
                                assert(k =~= k.take(4) + k.skip(4));
                                assert(ok =~= ok.take(4) + ok.skip(4));
                            }
                        }
                    }
                }
            },
            None => {
                proof {
                    lemma_table_keys(&job.inputs, key@);
                }
                return None;
            },
        }
        i = i + 1;
    }
    proof {
        assert forall|k: Seq<char>| #[trigger] job@.inputs.contains_key(k) implies starts_with(k, "in/"@) by {
            lemma_table_keys(&job.inputs, k);
        }
        assert forall|k: Seq<char>| #[trigger] identity_outputs(job@.inputs).contains_key(k) <==> outputs@.contains_key(k) by {
            lemma_table_keys(&job.inputs, "in/"@ + k.skip(4));
        }
        assert(outputs@ =~= identity_outputs(job@.inputs));
    }
    let p = Production {
        job: job_id,
        exit_code: 0,
        outputs,
        dependencies: Table::new(),
        log: None,
        invocation: None,
        cache: None,
        source: None,
        start_ts: None,
        end_ts: None,
    };
    Some(p)
}

/// How one input of a command job appears in its working directory.
#[derive(Debug, PartialEq, Eq)]
pub enum InputFile {
    /// The file holds the resource's bytes.
    Content(ResourceId),
    /// The file holds this text: the identifier's hex and a newline.
    Reference(String),
}

pub enum InputFileView {
    Content(Seq<u8>),
    Reference(Seq<char>),
}

impl View for InputFile {
    type V = InputFileView;

    open spec fn view(&self) -> InputFileView {
        match self {
            InputFile::Content(id) => InputFileView::Content(id@),
            InputFile::Reference(t) => InputFileView::Reference(t@),
        }
    }
}

/// What the input at `k` becomes: its content under `in/`, a reference under
/// `inref/`; nothing elsewhere.
pub open spec fn input_file(k: Seq<char>, id: Seq<u8>) -> Option<InputFileView> {
    if starts_with(k, "in/"@) {
        Some(InputFileView::Content(id))
    } else if starts_with(k, "inref/"@) {
        Some(InputFileView::Reference(hex_of(id) + seq!['\n']))
    } else {
        None
    }
}

/// The files to write into a command job's working directory, one per input
/// in order; `None` where an input lies neither under `in/` nor `inref/`.
pub fn input_files(job: &Job) -> (r: Option<Vec<(String, InputFile)>>)
    ensures
        r is Some <==> forall|i: int| 0 <= i < job.inputs.entries@.len() ==> input_file(#[trigger] job.inputs.entries@[i].0@, job.inputs.entries@[i].1@) is Some,
        r matches Some(v) ==> v@.len() == job.inputs.entries@.len() && forall|i: int| 0 <= i < v@.len() ==> (#[trigger] v@[i]).0@ == job.inputs.entries@[i].0@
            && Some(v@[i].1@) == input_file(job.inputs.entries@[i].0@, job.inputs.entries@[i].1@),
{
    let mut out: Vec<(String, InputFile)> = Vec::new();
    let mut i: usize = 0;
    while i < job.inputs.entries.len()
        invariant
            i <= job.inputs.entries@.len(),
            out@.len() == i,
            forall|j: int| 0 <= j < i ==> (#[trigger] out@[j]).0@ == job.inputs.entries@[j].0@
                && Some(out@[j].1@) == input_file(job.inputs.entries@[j].0@, job.inputs.entries@[j].1@),
        decreases job.inputs.entries@.len() - i,
    {
        let key = job.inputs.entries[i].0.as_str();
        let id = job.inputs.entries[i].1;
        let ghost before = out@;
        let file = if has_prefix(key, "in/") {
            InputFile::Content(id)
        } else if has_prefix(key, "inref/") {
            let mut t = id.hex();
            t.append("\n");
            proof {
                reveal_strlit("\n");
                assert(t@ =~= hex_of(id@) + seq!['\n']);
            }
            InputFile::Reference(t)
        } else {
            return None;
        };
        assert(Some(file@) == input_file(key@, id@));
        out.push((key.to_owned(), file));
        proof {
            assert forall|j: int| 0 <= j < i + 1 implies (#[trigger] out@[j]).0@ == job.inputs.entries@[j].0@
                && Some(out@[j].1@) == input_file(job.inputs.entries@[j].0@, job.inputs.entries@[j].1@) by {
                if j < i {
                    assert(out@[j] == before[j]);
                }
            }
        }
        i = i + 1;
    }
    proof {
        assert forall|j: int| 0 <= j < job.inputs.entries@.len() implies input_file(#[trigger] job.inputs.entries@[j].0@, job.inputs.entries@[j].1@) is Some by {
            assert(Some(out@[j].1@) == input_file(job.inputs.entries@[j].0@, job.inputs.entries@[j].1@));
        }
    }
    Some(out)
}

/// The production of a command job: its exit code, outputs, log and times.
pub fn command_production(
    job_id: JobId,
    exit_code: i32,
    outputs: Table<ResourceId>,
    log: Option<ResourceId>,
    start_ts: Timestamp,
    end_ts: Timestamp,
) -> (r: Production)
    ensures
        r.outputs == outputs,
        r@ == (ProductionView {
            log: opt_id(log),
            start_ts: Some(start_ts@),
            end_ts: Some(end_ts@),
            ..bare_production(job_id@, exit_code, outputs@)
        }),
{
    Production {
        job: job_id,
        exit_code,
        outputs,
        dependencies: Table::new(),
        log,
        invocation: None,
        cache: None,
        source: None,
        start_ts: Some(start_ts),
        end_ts: Some(end_ts),
    }
}

/// The production of a dynamic job. `outcome` is the sub-invocation's
/// identifier and status, or `None` where running it failed; `outputs` are
/// those of its successful production. Exit code 0 only on a success; on a
/// failure to run, no outputs.
pub fn dynamic_production(
    job_id: JobId,
    outcome: Option<(InvocationId, InvocationStatus)>,
    outputs: Table<ResourceId>,
    start_ts: Timestamp,
    end_ts: Timestamp,
) -> (r: Production)
    requires
        outputs.wf(),
    ensures
        r.outputs.wf(),
        r@.job == job_id@,
        r@.exit_code == (if outcome matches Some((_, InvocationStatus::Success)) { 0i32 } else { 1i32 }),
        r@.invocation == (match outcome {
            Some((id, _)) => Some(id@),
            None => None,
        }),
        r@.outputs == (if outcome is Some { outputs@ } else { Map::empty() }),
        r@.dependencies == Map::<Seq<char>, Seq<u8>>::empty(),
        r@.log is None && r@.cache is None && r@.source is None,
        r@.start_ts == Some(start_ts@) && r@.end_ts == Some(end_ts@),
{
    let (exit_code, invocation, outs) = match outcome {
        Some((id, InvocationStatus::Success)) => (0i32, Some(id), outputs),
        Some((id, InvocationStatus::Fail)) => (1i32, Some(id), outputs),
        None => (1i32, None, Table::new()),
    };
    Production {
        job: job_id,
        exit_code,
        outputs: outs,
        dependencies: Table::new(),
        log: None,
        invocation,
        cache: None,
        source: None,
        start_ts: Some(start_ts),
        end_ts: Some(end_ts),
    }
}

/// A fresh production given the step's provenance: the step's source, and the
/// dependencies that the step expects.
pub fn with_provenance(production: Production, step: &Step) -> (r: Production)
    ensures
        r.dependencies.wf(),
        r@ == (ProductionView {
            dependencies: expected_dependencies(&step.dependencies),
            source: opt_text(step.source),
            ..production@
        }),
{
    let source = match &step.source {
        Some(s) => Some(s.clone()),
        None => None,
    };
    Production { dependencies: expected_deps(step), source, ..production }
}

/// The files that a job offers a nested plan: input `in/files/<p>` is file `p`.
pub fn job_files(job: &Job) -> (r: FileTable)
    requires
        job.inputs.wf(),
    ensures
        r.prefix@ == "in/files/"@,
        r.files.wf(),
        entry_views(r.files.entries@) == entry_views(job.inputs.entries@),
{
    let mut entries: Vec<(String, ResourceId)> = Vec::new();
    let mut i: usize = 0;
    while i < job.inputs.entries.len()
        invariant
            i <= job.inputs.entries@.len(),
            entry_views(entries@) == entry_views(job.inputs.entries@).take(i as int),
        decreases job.inputs.entries@.len() - i,
    {
        let ghost before = entries@;
        entries.push((job.inputs.entries[i].0.clone(), job.inputs.entries[i].1));
        proof {
            let ev = entry_views(job.inputs.entries@);
            assert(ev.take(i + 1) =~= ev.take(i as int).push(ev[i as int]));
            assert(entry_views(entries@) =~= entry_views(before).push(ev[i as int]));
            assert(entry_views(entries@) =~= entry_views(job.inputs.entries@).take(i + 1));
        }
        i = i + 1;
    }
    proof {
        assert(entry_views(job.inputs.entries@).take(i as int) =~= entry_views(job.inputs.entries@));
    }
    FileTable { prefix: "in/files/".to_owned(), files: Table { entries } }
}

/// The parameters that a dynamic job hands to its plan: each input
/// `in/param/<name>` as the input `in/<name>`, in order.
pub open spec fn param_inputs(es: Seq<(Seq<char>, Seq<u8>)>) -> Seq<(Seq<char>, TextInputView)>
    decreases es.len(),
{
    if es.len() == 0 {
        Seq::empty()
    } else {
        let p = param_inputs(es.drop_last());
        let (k, v) = es.last();
        if starts_with(k, "in/param/"@) {
            p.push(("in/"@ + k.skip(9), TextInputView::Id(v)))
        } else {
            p
        }
    }
}

/// A step's source, or where it has none, one that names its position in
/// the nested plan.
pub open spec fn nested_source(pos: Seq<char>, source: Option<Seq<char>>) -> Option<Seq<char>> {
    match source {
        Some(x) => Some(x),
        None => Some("nested:_pos:"@ + pos),
    }
}

/// The parameters of a job, as inputs of the `_param` step.
pub open spec fn job_params(job: &Job) -> Seq<(Seq<char>, TextInputView)> {
    param_inputs(entry_views(job.inputs.entries@))
}

/// The index of the last step at `_param`, if any.
pub open spec fn last_param(steps: Seq<TextStep>) -> Option<int>
    decreases steps.len(),
{
    if steps.len() == 0 {
        None
    } else if steps.last().pos@ == "_param"@ {
        Some(steps.len() - 1)
    } else {
        last_param(steps.drop_last())
    }
}

/// Readies the text plan of a dynamic job: every step without a source gets
/// one that names its position, and each parameter of the job becomes an
/// input of the `_param` step (the last one, or a new identity step at the
/// end where there is none).
pub fn prepare_dynamic(text_plan: TextPlan, job: &Job) -> (r: TextPlan)
    requires
        forall|i: int| 0 <= i < text_plan.steps@.len() ==> (#[trigger] text_plan.steps@[i]).inputs.wf(),
    ensures
        forall|i: int| 0 <= i < r.steps@.len() ==> (#[trigger] r.steps@[i]).inputs.wf(),
        r.steps@.len() == text_plan.steps@.len() + (if job_params(job).len() > 0 && last_param(text_plan.steps@) is None { 1int } else { 0int }),
        forall|i: int| 0 <= i < text_plan.steps@.len() ==> (#[trigger] r.steps@[i])@.pos == text_plan.steps@[i]@.pos
            && r.steps@[i]@.process == text_plan.steps@[i]@.process
            && r.steps@[i]@.source == nested_source(text_plan.steps@[i]@.pos, text_plan.steps@[i]@.source),
        forall|i: int| 0 <= i < text_plan.steps@.len() ==> (#[trigger] r.steps@[i])@.inputs == (if job_params(job).len() > 0 && last_param(text_plan.steps@) == Some(i) {
                text_plan.steps@[i]@.inputs.union_prefer_right(pairs_map(job_params(job)))
            } else {
                text_plan.steps@[i]@.inputs
            }),
        job_params(job).len() > 0 && last_param(text_plan.steps@) is None ==> r.steps@.last()@.pos == "_param"@
            && r.steps@.last()@.source is None && r.steps@.last()@.process == ProcessView::Identity
            && r.steps@.last()@.inputs == pairs_map(job_params(job)),
{
    let ghost old_steps = text_plan.steps@;
    let n = text_plan.steps.len();
    let mut src = text_plan.steps;
    let mut steps: Vec<TextStep> = Vec::new();
    let mut param_at: Option<usize> = None;
    let mut done: usize = 0;
    while src.len() > 0
        invariant
            n == old_steps.len(),
            done + src@.len() == n,
            src@ == old_steps.skip(done as int),
            forall|i: int| 0 <= i < old_steps.len() ==> (#[trigger] old_steps[i]).inputs.wf(),
            steps@.len() == done,
            forall|i: int| 0 <= i < done ==> (#[trigger] steps@[i])@.pos == old_steps[i]@.pos
                && steps@[i]@.process == old_steps[i]@.process
                && steps@[i]@.source == nested_source(old_steps[i]@.pos, old_steps[i]@.source)
                && steps@[i]@.inputs == old_steps[i]@.inputs && steps@[i].inputs.wf(),
            param_at matches Some(q) ==> q < done,
            (param_at matches Some(q) ==> last_param(old_steps.take(done as int)) == Some(q as int)),
            param_at is None ==> last_param(old_steps.take(done as int)) is None,
        decreases src@.len(),
    {
        let ghost s0 = src@;
        let mut st = src.remove(0);
        proof {
            assert(s0[0] == old_steps[done as int]);
            assert(src@ =~= old_steps.skip(done + 1));
            assert(old_steps.take(done + 1).drop_last() =~= old_steps.take(done as int));
            assert(old_steps.take(done + 1).last() == old_steps[done as int]);
        }
        if st.source.is_none() {
            let mut t = "nested:_pos:".to_owned();
            t.append(st.pos.as_str());
            st.source = Some(t);
        }
        if str_eq(st.pos.as_str(), "_param") {
            param_at = Some(done);
        }
        let ghost before = steps@;
        steps.push(st);
        proof {
            assert forall|i: int| 0 <= i < done + 1 implies (#[trigger] steps@[i])@.pos == old_steps[i]@.pos
                && steps@[i]@.process == old_steps[i]@.process
                && steps@[i]@.source == nested_source(old_steps[i]@.pos, old_steps[i]@.source)
                && steps@[i]@.inputs == old_steps[i]@.inputs && steps@[i].inputs.wf() by {
                if i < done {
                    assert(steps@[i] == before[i]);
                }
            }
        }
        done = done + 1;
    }
    proof {
        assert(old_steps.take(n as int) =~= old_steps);
    }
    let ghost filled = steps@;
    let ghost es = entry_views(job.inputs.entries@);
    let mut params: Vec<(String, TextInput)> = Vec::new();
    let mut i: usize = 0;
    proof {
        assert(es.take(0) =~= Seq::<(Seq<char>, Seq<u8>)>::empty());
        assert(entry_views(params@) =~= param_inputs(es.take(0)));
    }
    while i < job.inputs.entries.len()
        invariant
            es == entry_views(job.inputs.entries@),
            i <= job.inputs.entries@.len(),
            entry_views(params@) == param_inputs(es.take(i as int)),
        decreases job.inputs.entries@.len() - i,
    {
        proof {
            assert(es.take(i + 1).drop_last() =~= es.take(i as int));
            assert(es.take(i + 1).last() == es[i as int]);
        }
        match strip_prefix(job.inputs.entries[i].0.as_str(), "in/param/") {
            Some(name) => {
                let mut k = "in/".to_owned();
                k.append(name);
                let ghost before = params@;
                params.push((k, TextInput::Id(job.inputs.entries[i].1)));
                proof {
                    reveal_strlit("in/param/");
                    assert("in/param/"@.len() == 9);
                    assert(entry_views(params@) =~= entry_views(before).push(("in/"@ + es[i as int].0.skip(9), TextInputView::Id(es[i as int].1))));
                }
            },
            None => {},
        }
        i = i + 1;
    }
    proof {
        assert(es.take(job.inputs.entries@.len() as int) =~= es);
    }
    let ghost pv = entry_views(params@);
    if params.len() == 0 {
        return TextPlan { steps };
    }
    proof {
        assert(pv.len() > 0);
    }
    let (mut target, at_end) = match param_at {
        Some(q) => {
            let t = steps.remove(q);
            proof {
                assert(t == filled[q as int]);
                assert(steps@ == filled.remove(q as int));
            }
            (t, false)
        },
        None => (
            TextStep { pos: "_param".to_owned(), source: None, process: Process::Identity, inputs: Table::new() },
            true,
        ),
    };
    let ghost base = target.inputs@;
    let ghost t0 = target;
    let mut k: usize = 0;
    proof {
        assert(pv.take(0) =~= Seq::<(Seq<char>, TextInputView)>::empty());
        assert(base.union_prefer_right(pairs_map(pv.take(0))) =~= base);
    }
    while k < params.len()
        invariant
            pv == entry_views(params@),
            k <= params@.len(),
            target.inputs.wf(),
            target.inputs@ == base.union_prefer_right(pairs_map(pv.take(k as int))),
            target.pos == t0.pos,
            target.source == t0.source,
            target.process == t0.process,
        decreases params@.len() - k,
    {
        target.inputs.insert(params[k].0.clone(), params[k].1.copy());
        proof {
            assert(pv.take(k + 1).drop_last() =~= pv.take(k as int));
            assert(pv.take(k + 1).last() == pv[k as int]);
            assert(target.inputs@ =~= base.union_prefer_right(pairs_map(pv.take(k + 1))));
        }
        k = k + 1;
    }
    proof {
        assert(pv.take(params@.len() as int) =~= pv);
    }
    if at_end {
        proof {
            assert(base =~= Map::<Seq<char>, TextInputView>::empty());
            assert(target.inputs@ =~= pairs_map(pv));
        }
        steps.push(target);
    } else {
        match param_at {
            Some(q) => {
                let ghost t = target;
                steps.insert(q, target);
                proof {
                    assert(steps@ =~= filled.update(q as int, t));
                    assert(last_param(old_steps) == Some(q as int));
                }
            },
            None => {},
        }
    }
    TextPlan { steps }
}

} // verus!
