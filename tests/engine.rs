use kbuild::execution::{expand_nested, input_files, prepare_dynamic, run_identity, InputFile};
use kbuild::id::Id;
use kbuild::object::{Input, InvocationStatus, Job, Plan, Process, Production, ProductionId, ResourceId, Step};
use kbuild::plan::{FileTable, TextInput, TextPlan, TextStep};
use kbuild::scheduler::{complete_step, finish, reduce_productions, rehydrate, schedule_step, to_job};
use kbuild::table::Table;
use kbuild::terminal::{check_terminal, TerminalError};

const A: &str = "01e79c32a8c99c557f0757da7cb6d65b3414466d";
const B: &str = "2d6976f9b54866fa6afeb9080bfd843098f107bb";
const C: &str = "f16725e71499854fcda3059ac4a2611bfd3a5237";
const D: &str = "4233117e9199336269c23534c78a7088dc5e4893";

fn rid(s: &str) -> ResourceId {
    Id::parse(s).unwrap()
}

fn pid(s: &str) -> ProductionId {
    Id::parse(s).unwrap()
}

fn step(pos: &str, process: Process, inputs: Vec<(&str, Input)>) -> Step {
    let mut t = Table::new();
    for (k, v) in inputs {
        t.insert(k.to_string(), v);
    }
    Step {
        pos: Some(pos.to_string()),
        process,
        exit_code: None,
        production: None,
        source: None,
        inputs: t,
        dependencies: Table::new(),
    }
}

fn plan_of(steps: Vec<Step>) -> Plan {
    let mut t = Table::new();
    for s in steps {
        t.insert(s.pos.clone().unwrap(), s);
    }
    Plan { steps: t }
}

fn text_step(pos: &str, process: Process, inputs: Vec<(&str, TextInput)>) -> TextStep {
    let mut t = Table::new();
    for (k, v) in inputs {
        t.insert(k.to_string(), v);
    }
    TextStep { pos: pos.to_string(), source: None, process, inputs: t }
}

#[test]
fn identity_job_copies_inputs() {
    let mut inputs = Table::new();
    inputs.insert("in/data".to_string(), rid(A));
    let job = Job { process: Process::Identity, inputs };
    let p = run_identity(Id::parse(D).unwrap(), &job).unwrap();
    assert_eq!(p.exit_code, 0);
    assert_eq!(p.outputs.entries.len(), 1);
    assert_eq!(p.outputs.get("out/data"), Some(&rid(A)));
    assert_eq!(p.log, None);
    assert_eq!(p.start_ts, None);

    let mut bad = Table::new();
    bad.insert("inref/data".to_string(), rid(A));
    assert!(run_identity(Id::parse(D).unwrap(), &Job { process: Process::Identity, inputs: bad }).is_none());
}

#[test]
fn failure_stops_propagation() {
    let mut plan = plan_of(vec![
        step("a", Process::Command("false".into()), vec![]),
        step("b", Process::Command("true".into()), vec![("in/x", Input::Pos("a".into(), "out/z".into()))]),
    ]);
    assert_eq!(schedule_step(&plan, &vec![]), Some(0));
    let outputs = Table::new();
    assert!(complete_step(&mut plan, 0, 1, &outputs, pid(C)));
    assert_eq!(schedule_step(&plan, &vec![]), None);
    let roots = reduce_productions(&plan);
    assert_eq!(roots, vec![pid(C)]);
    let inv = finish(&plan, &roots, rid(A), false);
    assert_eq!(inv.status, InvocationStatus::Fail);
    assert_eq!(inv.production, None);
    assert_eq!(inv.partial_productions.get("partial_production:0"), Some(&pid(C)));
}

#[test]
fn success_maps_outputs_and_reduces_to_terminal() {
    let mut plan = plan_of(vec![
        step("src", Process::Identity, vec![("in/_", Input::Id(rid(A)))]),
        step("main", Process::Command("cat".into()), vec![("in/x", Input::Pos("src".into(), "out/_".into()))]),
    ]);
    assert_eq!(schedule_step(&plan, &vec![]), Some(0));
    let mut outputs = Table::new();
    outputs.insert("out/_".to_string(), rid(B));
    assert!(complete_step(&mut plan, 0, 0, &outputs, pid(C)));
    let main = &plan.steps.get("main").unwrap();
    assert_eq!(main.inputs.get("in/x"), Some(&Input::Id(rid(B))));
    assert_eq!(main.dependencies.get("_dep:in/x"), Some(&pid(C)));
    assert_eq!(schedule_step(&plan, &vec![]), Some(1));
    let job = to_job(&plan.steps.entries[1].1);
    assert_eq!(job.inputs.get("in/x"), Some(&rid(B)));
    assert!(complete_step(&mut plan, 1, 0, &Table::new(), pid(D)));
    let roots = reduce_productions(&plan);
    assert_eq!(roots, vec![pid(D)]);
    let inv = finish(&plan, &roots, rid(A), false);
    assert_eq!(inv.status, InvocationStatus::Success);
    assert_eq!(inv.production, Some(pid(D)));
    let abandoned = finish(&plan, &roots, rid(A), true);
    assert_eq!(abandoned.status, InvocationStatus::Fail);
    assert_eq!(abandoned.partial_productions.get("partial_production:0"), Some(&pid(D)));
}

#[test]
fn missing_output_leaves_step_unresolved() {
    let mut plan = plan_of(vec![
        step("a", Process::Identity, vec![]),
        step(
            "b",
            Process::Identity,
            vec![("in/x", Input::Pos("a".into(), "out/missing".into())), ("in/y", Input::Pos("a".into(), "out/_".into()))],
        ),
        step("c", Process::Identity, vec![("in/z", Input::Pos("a".into(), "out/_".into()))]),
    ]);
    let mut outputs = Table::new();
    outputs.insert("out/_".to_string(), rid(B));
    assert!(!complete_step(&mut plan, 0, 0, &outputs, pid(C)));
    let b = plan.steps.get("b").unwrap();
    assert_eq!(b.inputs.get("in/x"), Some(&Input::Pos("a".into(), "out/missing".into())));
    assert_eq!(b.inputs.get("in/y"), Some(&Input::Pos("a".into(), "out/_".into())));
    assert_eq!(b.dependencies.entries.len(), 0);
    let c = plan.steps.get("c").unwrap();
    assert_eq!(c.inputs.get("in/z"), Some(&Input::Id(rid(B))));
    assert_eq!(c.dependencies.get("_dep:in/z"), Some(&pid(C)));
    assert_eq!(schedule_step(&plan, &vec![]), Some(2));
    assert_eq!(schedule_step(&plan, &vec![false, false, true]), None);
}

#[test]
fn directory_outputs_map_by_suffix() {
    let mut plan = plan_of(vec![
        step("a", Process::Identity, vec![]),
        step("b", Process::Dynamic, vec![("in/", Input::Pos("a".into(), "out/".into()))]),
    ]);
    let mut outputs = Table::new();
    outputs.insert("out/plan".to_string(), rid(A));
    outputs.insert("out/files/x".to_string(), rid(B));
    assert!(complete_step(&mut plan, 0, 0, &outputs, pid(C)));
    let b = plan.steps.get("b").unwrap();
    assert_eq!(b.inputs.get("in/plan"), Some(&Input::Id(rid(A))));
    assert_eq!(b.inputs.get("in/files/x"), Some(&Input::Id(rid(B))));
    assert_eq!(b.inputs.entries.len(), 2);
}

#[test]
fn shared_production_is_one_root_and_dependencies_are_not_roots() {
    let mut a = step("a", Process::Identity, vec![]);
    a.production = Some(pid(C));
    a.exit_code = Some(0);
    let mut b = step("b", Process::Identity, vec![]);
    b.production = Some(pid(C));
    b.exit_code = Some(0);
    let mut c = step("c", Process::Identity, vec![]);
    c.production = Some(pid(D));
    c.exit_code = Some(0);
    c.dependencies.insert("_dep:in/x".to_string(), pid(C));
    let plan = plan_of(vec![a, b, c]);
    assert_eq!(reduce_productions(&plan), vec![pid(D)]);
}

#[test]
fn cache_hit_with_same_dependencies_is_used_as_is() {
    let mut s = step("main", Process::Identity, vec![]);
    s.dependencies.insert("_dep:in/x".to_string(), pid(C));
    let mut deps = Table::new();
    deps.insert("dep:in/x".to_string(), pid(C));
    let cached = Production {
        job: Id::parse(D).unwrap(),
        exit_code: 0,
        outputs: Table::new(),
        dependencies: deps,
        log: None,
        invocation: None,
        cache: None,
        source: None,
        start_ts: None,
        end_ts: None,
    };
    let (p, fresh) = rehydrate(cached, pid(B), &s);
    assert!(!fresh);
    assert_eq!(p.cache, None);
    assert_eq!(p.dependencies.get("dep:in/x"), Some(&pid(C)));
}

#[test]
fn cache_hit_with_other_dependencies_is_copied() {
    let mut s = step("main", Process::Identity, vec![]);
    s.source = Some("edited".into());
    s.dependencies.insert("_dep:in/x".to_string(), pid(A));
    let mut deps = Table::new();
    deps.insert("dep:in/x".to_string(), pid(C));
    let mut outputs = Table::new();
    outputs.insert("out/y".to_string(), rid(B));
    let cached = Production {
        job: Id::parse(D).unwrap(),
        exit_code: 0,
        outputs,
        dependencies: deps,
        log: None,
        invocation: None,
        cache: None,
        source: None,
        start_ts: None,
        end_ts: None,
    };
    let (p, fresh) = rehydrate(cached, pid(B), &s);
    assert!(fresh);
    assert_eq!(p.cache, Some(pid(B)));
    assert_eq!(p.dependencies.get("dep:in/x"), Some(&pid(A)));
    assert_eq!(p.source, Some("edited".to_string()));
    assert_eq!(p.outputs.get("out/y"), Some(&rid(B)));
}

#[test]
fn inline_value_gets_an_identity_step() {
    let tp = TextPlan {
        steps: vec![text_step(
            "main",
            Process::Command("cat in/x > out/y".into()),
            vec![("in/x", TextInput::Value("hi".into()))],
        )],
    };
    let mut values = Table::new();
    values.insert("hi".to_string(), rid(A));
    let files = FileTable { prefix: String::new(), files: Table::new() };
    let plan = tp.encode(&files, &values).unwrap();
    assert_eq!(plan.steps.entries.len(), 2);
    let (aux_pos, aux) = &plan.steps.entries[0];
    assert_eq!(aux.source, Some("value:hi".to_string()));
    assert_eq!(aux.process, Process::Identity);
    assert_eq!(aux.inputs.get("in/_"), Some(&Input::Id(rid(A))));
    assert_eq!(aux_pos, "5020ad031bdf42628a3a93a9dbb583a00f04a003");
    let main = plan.steps.get("main").unwrap();
    assert_eq!(main.inputs.get("in/x"), Some(&Input::Pos(aux_pos.clone(), "out/_".into())));
    assert_eq!(check_terminal(&plan, "main"), Ok(()));
}

#[test]
fn equal_files_share_one_identity_step() {
    let tp = TextPlan {
        steps: vec![text_step(
            "main",
            Process::Command("cat".into()),
            vec![("in/x", TextInput::File("a.txt".into())), ("in/y", TextInput::File("a.txt".into()))],
        )],
    };
    let mut files = Table::new();
    files.insert("a.txt".to_string(), rid(A));
    let plan = tp.encode(&FileTable { prefix: String::new(), files }, &Table::new()).unwrap();
    assert_eq!(plan.steps.entries.len(), 2);
    let main = plan.steps.get("main").unwrap();
    assert_eq!(main.inputs.get("in/x"), main.inputs.get("in/y"));
}

#[test]
fn directory_input_expands_per_file() {
    let tp = TextPlan {
        steps: vec![text_step("main", Process::Command("ls".into()), vec![("in/src/", TextInput::File("src/".into()))])],
    };
    let mut files = Table::new();
    files.insert("src/a.txt".to_string(), rid(A));
    files.insert("src/b/c.txt".to_string(), rid(B));
    files.insert("other.txt".to_string(), rid(C));
    let plan = tp.encode(&FileTable { prefix: String::new(), files }, &Table::new()).unwrap();
    let main = plan.steps.get("main").unwrap();
    assert_eq!(main.inputs.entries.len(), 2);
    assert!(matches!(main.inputs.get("in/src/a.txt"), Some(Input::Pos(_, _))));
    assert!(matches!(main.inputs.get("in/src/b/c.txt"), Some(Input::Pos(_, _))));
    assert_eq!(plan.steps.entries.len(), 3);
}

#[test]
fn missing_file_fails_encoding() {
    let tp = TextPlan {
        steps: vec![text_step("main", Process::Identity, vec![("in/x", TextInput::File("nope".into()))])],
    };
    let files = FileTable { prefix: String::new(), files: Table::new() };
    assert!(tp.encode(&files, &Table::new()).is_err());
}

#[test]
fn nested_step_splits_in_two() {
    let plan = plan_of(vec![step("gen", Process::Nested("make-plan".into()), vec![("in/a", Input::Id(rid(A)))])]);
    let plan = expand_nested(plan);
    assert_eq!(plan.steps.entries.len(), 2);
    let cmd = plan.steps.get("gen@plan").unwrap();
    assert_eq!(cmd.process, Process::Command("make-plan".into()));
    assert_eq!(cmd.source, Some("plan".to_string()));
    assert_eq!(cmd.inputs.get("in/a"), Some(&Input::Id(rid(A))));
    let dynamic = plan.steps.get("gen").unwrap();
    assert_eq!(dynamic.process, Process::Dynamic);
    assert_eq!(dynamic.inputs.get("in/"), Some(&Input::Pos("gen@plan".into(), "out/".into())));
}

#[test]
fn terminal_check() {
    let plan = plan_of(vec![
        step("a", Process::Identity, vec![]),
        step("main", Process::Identity, vec![("in/x", Input::Pos("a".into(), "out/_".into()))]),
    ]);
    assert_eq!(check_terminal(&plan, "main"), Ok(()));
    assert_eq!(check_terminal(&plan, "a"), Err(TerminalError::NotTerminal));
    assert_eq!(check_terminal(&plan, "zzz"), Err(TerminalError::MissingStep));
    let broken = plan_of(vec![step("main", Process::Identity, vec![("in/x", Input::Pos("gone".into(), "out/_".into()))])]);
    assert_eq!(check_terminal(&broken, "main"), Err(TerminalError::MissingStep));
}

#[test]
fn text_plan_round_trip() {
    let text = "_pos=main\nin/x=inline:hi\nprocess=command:cat in/x > out/y\n\n_pos=b\nin/p=param:n\nprocess=identity\n\n";
    let tp = TextPlan::from_text(text).unwrap();
    assert_eq!(tp.steps.len(), 2);
    assert_eq!(tp.steps[0].inputs.get("in/x"), Some(&TextInput::Value("hi".into())));
    assert_eq!(tp.steps[1].inputs.get("in/p"), Some(&TextInput::Pos("_param".into(), "n".into())));
    let written = tp.to_text().unwrap();
    assert_eq!(written, text.replace("param:n", "_pos:_param:n"));
    assert_eq!(TextPlan::from_text(&written).unwrap(), tp);
}

#[test]
fn dynamic_plan_gets_sources_and_params() {
    let tp = TextPlan { steps: vec![text_step("main", Process::Identity, vec![])] };
    let mut inputs = Table::new();
    inputs.insert("in/plan".to_string(), rid(A));
    inputs.insert("in/param/n".to_string(), rid(B));
    let job = Job { process: Process::Dynamic, inputs };
    let tp = prepare_dynamic(tp, &job);
    assert_eq!(tp.steps.len(), 2);
    assert_eq!(tp.steps[0].source, Some("nested:_pos:main".to_string()));
    assert_eq!(tp.steps[1].pos, "_param");
    assert_eq!(tp.steps[1].inputs.get("in/n"), Some(&TextInput::Id(rid(B))));
}

#[test]
fn command_inputs_become_files() {
    let mut inputs = Table::new();
    inputs.insert("in/a".to_string(), rid(A));
    inputs.insert("inref/b".to_string(), rid(B));
    let job = Job { process: Process::Command("true".into()), inputs };
    let files = input_files(&job).unwrap();
    assert_eq!(files[0], ("in/a".to_string(), InputFile::Content(rid(A))));
    assert_eq!(files[1], ("inref/b".to_string(), InputFile::Reference(format!("{}\n", B))));
    let mut bad = Table::new();
    bad.insert("other/c".to_string(), rid(C));
    assert!(input_files(&Job { process: Process::Identity, inputs: bad }).is_none());
}
