//! The object model: jobs, productions, invocations, and the steps of a plan.

use crate::attributes::{split_once, split_once_str};
use crate::id::{bytes_of_hex, hex_of, is_hex_of_len, Id};
use crate::order::str_eq;
use crate::table::Table;
use crate::text::Timestamp;
use vstd::prelude::*;

verus! {

/// Marks an identifier of a resource.
#[derive(Debug, PartialEq, Eq)]
pub struct ResourceMarker;

/// Marks an identifier of a job.
#[derive(Debug, PartialEq, Eq)]
pub struct JobMarker;

/// Marks an identifier of a production.
#[derive(Debug, PartialEq, Eq)]
pub struct ProductionMarker;

/// Marks an identifier of an invocation.
#[derive(Debug, PartialEq, Eq)]
pub struct InvocationMarker;

pub type ResourceId = Id<ResourceMarker>;

pub type JobId = Id<JobMarker>;

pub type ProductionId = Id<ProductionMarker>;

pub type InvocationId = Id<InvocationMarker>;

/// Raw bytes held in the store.
#[derive(Debug, PartialEq, Eq)]
pub struct Resource(pub Vec<u8>);

/// What a job runs.
#[derive(Clone, Debug, PartialEq, Eq)]
pub enum Process {
    /// Copies each `in/` input to the matching `out/` output.
    Identity,
    /// A shell command.
    Command(String),
    /// A command whose output is a plan, run in turn.
    Nested(String),
    /// Runs the plan among its inputs.
    Dynamic,
}

pub enum ProcessView {
    Identity,
    Command(Seq<char>),
    Nested(Seq<char>),
    Dynamic,
}

impl View for Process {
    type V = ProcessView;

    open spec fn view(&self) -> ProcessView {
        match self {
            Process::Identity => ProcessView::Identity,
            Process::Command(c) => ProcessView::Command(c@),
            Process::Nested(c) => ProcessView::Nested(c@),
            Process::Dynamic => ProcessView::Dynamic,
        }
    }
}

/// The text form of a process.
pub open spec fn process_text(p: ProcessView) -> Seq<char> {
    match p {
        ProcessView::Identity => "identity"@,
        ProcessView::Command(c) => "command:"@ + c,
        ProcessView::Nested(c) => "nested:"@ + c,
        ProcessView::Dynamic => "dynamic"@,
    }
}

/// The process that a text names.
pub open spec fn parse_process(s: Seq<char>) -> Option<ProcessView> {
    if s == "identity"@ {
        Some(ProcessView::Identity)
    } else if s == "dynamic"@ {
        Some(ProcessView::Dynamic)
    } else {
        match split_once(s, ':') {
            Some((kind, tail)) => if kind == "command"@ {
                Some(ProcessView::Command(tail))
            } else if kind == "nested"@ {
                Some(ProcessView::Nested(tail))
            } else {
                None
            },
            None => None,
        }
    }
}

impl Process {
    pub fn copy(&self) -> (r: Process)
        ensures
            r@ == self@,
    {
        match self {
            Process::Identity => Process::Identity,
            Process::Command(c) => Process::Command(c.clone()),
            Process::Nested(c) => Process::Nested(c.clone()),
            Process::Dynamic => Process::Dynamic,
        }
    }

    /// The text form: `identity`, `dynamic`, `command:<cmd>` or `nested:<cmd>`.
    pub fn text(&self) -> (r: String)
        ensures
            r@ == process_text(self@),
    {
        match self {
            Process::Identity => "identity".to_owned(),
            Process::Command(c) => {
                let mut s = "command:".to_owned();
                s.append(c.as_str());
                s
            },
            Process::Nested(c) => {
                let mut s = "nested:".to_owned();
                s.append(c.as_str());
                s
            },
            Process::Dynamic => "dynamic".to_owned(),
        }
    }

    /// Reads the text form of a process.
    pub fn parse(s: &str) -> (r: Option<Process>)
        ensures
            r is Some <==> parse_process(s@) is Some,
            r matches Some(p) ==> p@ == parse_process(s@)->0,
    {
        if str_eq(s, "identity") {
            return Some(Process::Identity);
        }
        if str_eq(s, "dynamic") {
            return Some(Process::Dynamic);
        }
        match split_once_str(s, ':') {
            Some((kind, tail)) => {
                if str_eq(kind, "command") {
                    Some(Process::Command(tail.to_owned()))
                } else if str_eq(kind, "nested") {
                    Some(Process::Nested(tail.to_owned()))
                } else {
                    None
                }
            },
            None => None,
        }
    }
}

/// A step input: a resource, or an output of another step still to come.
#[derive(Debug, PartialEq, Eq)]
pub enum Input {
    Id(ResourceId),
    /// The step's position and the output's path.
    Pos(String, String),
}

pub enum InputView {
    Id(Seq<u8>),
    Pos(Seq<char>, Seq<char>),
}

impl View for Input {
    type V = InputView;

    open spec fn view(&self) -> InputView {
        match self {
            Input::Id(id) => InputView::Id(id@),
            Input::Pos(p, o) => InputView::Pos(p@, o@),
        }
    }
}

/// The text form of an input: the bare identifier, or `_pos:<step>:<path>`.
pub open spec fn input_text(i: InputView) -> Seq<char> {
    match i {
        InputView::Id(b) => hex_of(b),
        InputView::Pos(p, o) => "_pos:"@ + p + ":"@ + o,
    }
}

/// The input that a text names.
pub open spec fn parse_input(s: Seq<char>) -> Option<InputView> {
    match split_once(s, ':') {
        Some((prefix, rest)) => if prefix == "_pos"@ {
            match split_once(rest, ':') {
                Some((p, o)) => Some(InputView::Pos(p, o)),
                None => None,
            }
        } else {
            None
        },
        None => if is_hex_of_len(s, 20) {
            Some(InputView::Id(bytes_of_hex(s)))
        } else {
            None
        },
    }
}

impl Input {
    pub fn copy(&self) -> (r: Input)
        ensures
            r@ == self@,
    {
        match self {
            Input::Id(id) => Input::Id(*id),
            Input::Pos(p, o) => Input::Pos(p.clone(), o.clone()),
        }
    }

    pub fn text(&self) -> (r: String)
        ensures
            r@ == input_text(self@),
    {
        match self {
            Input::Id(id) => id.hex(),
            Input::Pos(p, o) => {
                let mut s = "_pos:".to_owned();
                s.append(p.as_str());
                s.append(":");
                s.append(o.as_str());
                s
            },
        }
    }

    /// Reads the text form of an input.
    pub fn parse(s: &str) -> (r: Option<Input>)
        ensures
            r is Some <==> parse_input(s@) is Some,
            r matches Some(i) ==> i@ == parse_input(s@)->0,
    {
        match split_once_str(s, ':') {
            Some((prefix, rest)) => {
                if str_eq(prefix, "_pos") {
                    match split_once_str(rest, ':') {
                        Some((p, o)) => Some(Input::Pos(p.to_owned(), o.to_owned())),
                        None => None,
                    }
                } else {
                    None
                }
            },
            None => match Id::parse(s) {
                Some(id) => Some(Input::Id(id)),
                None => None,
            },
        }
    }
}

/// The views of an optional identifier.
pub open spec fn opt_id<T>(o: Option<Id<T>>) -> Option<Seq<u8>> {
    match o {
        Some(id) => Some(id@),
        None => None,
    }
}

pub open spec fn opt_text(o: Option<String>) -> Option<Seq<char>> {
    match o {
        Some(s) => Some(s@),
        None => None,
    }
}

pub open spec fn opt_ts(o: Option<Timestamp>) -> Option<Seq<char>> {
    match o {
        Some(t) => Some(t@),
        None => None,
    }
}

/// A pure statement of work: a process and its inputs by path.
#[derive(Debug, PartialEq, Eq)]
pub struct Job {
    pub process: Process,
    pub inputs: Table<ResourceId>,
}

pub struct JobView {
    pub process: ProcessView,
    pub inputs: Map<Seq<char>, Seq<u8>>,
}

impl View for Job {
    type V = JobView;

    open spec fn view(&self) -> JobView {
        JobView { process: self.process@, inputs: self.inputs@ }
    }
}

/// The record of one run of a job.
#[derive(Debug, PartialEq, Eq)]
pub struct Production {
    pub job: JobId,
    pub exit_code: i32,
    pub outputs: Table<ResourceId>,
    pub dependencies: Table<ProductionId>,
    pub log: Option<ResourceId>,
    pub invocation: Option<InvocationId>,
    pub cache: Option<ProductionId>,
    pub source: Option<String>,
    pub start_ts: Option<Timestamp>,
    pub end_ts: Option<Timestamp>,
}

pub struct ProductionView {
    pub job: Seq<u8>,
    pub exit_code: i32,
    pub outputs: Map<Seq<char>, Seq<u8>>,
    pub dependencies: Map<Seq<char>, Seq<u8>>,
    pub log: Option<Seq<u8>>,
    pub invocation: Option<Seq<u8>>,
    pub cache: Option<Seq<u8>>,
    pub source: Option<Seq<char>>,
    pub start_ts: Option<Seq<char>>,
    pub end_ts: Option<Seq<char>>,
}

impl View for Production {
    type V = ProductionView;

    open spec fn view(&self) -> ProductionView {
        ProductionView {
            job: self.job@,
            exit_code: self.exit_code,
            outputs: self.outputs@,
            dependencies: self.dependencies@,
            log: opt_id(self.log),
            invocation: opt_id(self.invocation),
            cache: opt_id(self.cache),
            source: opt_text(self.source),
            start_ts: opt_ts(self.start_ts),
            end_ts: opt_ts(self.end_ts),
        }
    }
}

/// How a plan's run ended.
#[derive(Clone, Copy, Debug, PartialEq, Eq)]
pub enum InvocationStatus {
    /// Written `ok` in a record.
    Success,
    /// Written `fail` in a record.
    Fail,
}

/// The outcome of running a plan.
#[derive(Debug, PartialEq, Eq)]
pub struct Invocation {
    pub production: Option<ProductionId>,
    pub partial_productions: Table<ProductionId>,
    pub status: InvocationStatus,
    pub plan: ResourceId,
}

pub struct InvocationView {
    pub production: Option<Seq<u8>>,
    pub partial_productions: Map<Seq<char>, Seq<u8>>,
    pub status: InvocationStatus,
    pub plan: Seq<u8>,
}

impl View for Invocation {
    type V = InvocationView;

    open spec fn view(&self) -> InvocationView {
        InvocationView {
            production: opt_id(self.production),
            partial_productions: self.partial_productions@,
            status: self.status,
            plan: self.plan@,
        }
    }
}

/// One node of a plan under way.
#[derive(Debug, PartialEq, Eq)]
pub struct Step {
    pub pos: Option<String>,
    pub process: Process,
    pub exit_code: Option<i32>,
    pub production: Option<ProductionId>,
    pub source: Option<String>,
    pub inputs: Table<Input>,
    pub dependencies: Table<ProductionId>,
}

pub struct StepView {
    pub pos: Option<Seq<char>>,
    pub process: ProcessView,
    pub exit_code: Option<i32>,
    pub production: Option<Seq<u8>>,
    pub source: Option<Seq<char>>,
    pub inputs: Map<Seq<char>, InputView>,
    pub dependencies: Map<Seq<char>, Seq<u8>>,
}

impl View for Step {
    type V = StepView;

    open spec fn view(&self) -> StepView {
        StepView {
            pos: opt_text(self.pos),
            process: self.process@,
            exit_code: self.exit_code,
            production: opt_id(self.production),
            source: opt_text(self.source),
            inputs: self.inputs@,
            dependencies: self.dependencies@,
        }
    }
}

impl Step {
    /// Its tables have unique keys.
    pub open spec fn wf(&self) -> bool {
        self.inputs.wf() && self.dependencies.wf()
    }
}

/// The steps of a run, by position, in the order they were added.
#[derive(Debug, PartialEq, Eq)]
pub struct Plan {
    pub steps: Table<Step>,
}

impl View for Plan {
    type V = Map<Seq<char>, StepView>;

    open spec fn view(&self) -> Map<Seq<char>, StepView> {
        self.steps@
    }
}

impl Plan {
    pub open spec fn wf(&self) -> bool {
        &&& self.steps.wf()
        &&& forall|i: int| 0 <= i < self.steps.entries@.len() ==> (#[trigger] self.steps.entries@[i]).1.wf()
    }
}

} // verus!
