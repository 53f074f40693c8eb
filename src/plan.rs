//! The text plan: the user's steps, with file references, inline values and
//! parameters, as records separated by blank lines.

use crate::attributes::{field_views, fields_clean, parse_record, record_text, split_once, split_once_str, to_text, Error};
use crate::id::{bytes_of_hex, hex_of, is_hex_of_len, Id};
use crate::object::{opt_text, parse_process, process_text, Input, InputView, Plan, Process, ProcessView, ResourceId, Step, StepView};
use crate::scheduler::ends_slash;
use crate::table::pairs_map;
use crate::text::{starts_with, strip_prefix};
use crate::order::str_eq;
use crate::records::{push_field, key_in, keys_within, opt_field, text_at, DecodeError};
use crate::table::{entry_views, lemma_table_entry, lemma_table_keys, Table};
use vstd::prelude::*;

verus! {

/// An input as the user writes it.
#[derive(Debug, PartialEq, Eq)]
pub enum TextInput {
    /// A resource by identifier.
    Id(ResourceId),
    /// A file, or a directory where the path ends with `/`.
    File(String),
    /// An output of another step: its position and the output's path.
    Pos(String, String),
    /// An inline value.
    Value(String),
}

pub enum TextInputView {
    Id(Seq<u8>),
    File(Seq<char>),
    Pos(Seq<char>, Seq<char>),
    Value(Seq<char>),
}

impl View for TextInput {
    type V = TextInputView;

    open spec fn view(&self) -> TextInputView {
        match self {
            TextInput::Id(id) => TextInputView::Id(id@),
            TextInput::File(p) => TextInputView::File(p@),
            TextInput::Pos(p, o) => TextInputView::Pos(p@, o@),
            TextInput::Value(v) => TextInputView::Value(v@),
        }
    }
}

/// The text form of a text input.
pub open spec fn text_input_text(i: TextInputView) -> Seq<char> {
    match i {
        TextInputView::Id(b) => hex_of(b),
        TextInputView::File(p) => "file:"@ + p,
        TextInputView::Pos(p, o) => "_pos:"@ + p + ":"@ + o,
        TextInputView::Value(v) => "inline:"@ + v,
    }
}

/// The text input that a text names: `file:<path>`, `_pos:<step>:<path>`,
/// `inline:<value>`, `param:<name>` (an output of the `_param` step), or a
/// bare identifier.
pub open spec fn parse_text_input(s: Seq<char>) -> Option<TextInputView> {
    match split_once(s, ':') {
        Some((prefix, rest)) => if prefix == "file"@ {
            Some(TextInputView::File(rest))
        } else if prefix == "_pos"@ {
            match split_once(rest, ':') {
                Some((p, o)) => Some(TextInputView::Pos(p, o)),
                None => None,
            }
        } else if prefix == "inline"@ {
            Some(TextInputView::Value(rest))
        } else if prefix == "param"@ {
            Some(TextInputView::Pos("_param"@, rest))
        } else {
            None
        },
        None => if is_hex_of_len(s, 20) {
            Some(TextInputView::Id(bytes_of_hex(s)))
        } else {
            None
        },
    }
}

impl TextInput {
    pub fn copy(&self) -> (r: TextInput)
        ensures
            r@ == self@,
    {
        match self {
            TextInput::Id(id) => TextInput::Id(*id),
            TextInput::File(p) => TextInput::File(p.clone()),
            TextInput::Pos(p, o) => TextInput::Pos(p.clone(), o.clone()),
            TextInput::Value(v) => TextInput::Value(v.clone()),
        }
    }

    pub fn text(&self) -> (r: String)
        ensures
            r@ == text_input_text(self@),
    {
        match self {
            TextInput::Id(id) => id.hex(),
            TextInput::File(p) => {
                let mut s = "file:".to_owned();
                s.append(p.as_str());
                s
            },
            TextInput::Pos(p, o) => {
                let mut s = "_pos:".to_owned();
                s.append(p.as_str());
                s.append(":");
                s.append(o.as_str());
                s
            },
            TextInput::Value(v) => {
                let mut s = "inline:".to_owned();
                s.append(v.as_str());
                s
            },
        }
    }

    /// Reads the text form of a text input.
    pub fn parse(s: &str) -> (r: Option<TextInput>)
        ensures
            r is Some <==> parse_text_input(s@) is Some,
            r matches Some(i) ==> i@ == parse_text_input(s@)->0,
    {
        match split_once_str(s, ':') {
            Some((prefix, rest)) => {
                if str_eq(prefix, "file") {
                    Some(TextInput::File(rest.to_owned()))
                } else if str_eq(prefix, "_pos") {
                    match split_once_str(rest, ':') {
                        Some((p, o)) => Some(TextInput::Pos(p.to_owned(), o.to_owned())),
                        None => None,
                    }
                } else if str_eq(prefix, "inline") {
                    Some(TextInput::Value(rest.to_owned()))
                } else if str_eq(prefix, "param") {
                    Some(TextInput::Pos("_param".to_owned(), rest.to_owned()))
                } else {
                    None
                }
            },
            None => match Id::parse(s) {
                Some(id) => Some(TextInput::Id(id)),
                None => None,
            },
        }
    }
}

/// One step as the user writes it.
#[derive(Debug, PartialEq, Eq)]
pub struct TextStep {
    pub pos: String,
    pub source: Option<String>,
    pub process: Process,
    pub inputs: Table<TextInput>,
}

pub struct TextStepView {
    pub pos: Seq<char>,
    pub source: Option<Seq<char>>,
    pub process: ProcessView,
    pub inputs: Map<Seq<char>, TextInputView>,
}

impl View for TextStep {
    type V = TextStepView;

    open spec fn view(&self) -> TextStepView {
        TextStepView { pos: self.pos@, source: opt_text(self.source), process: self.process@, inputs: self.inputs@ }
    }
}

/// One field per input, the value in text form.
pub open spec fn text_input_fields(t: &Table<TextInput>) -> Seq<(Seq<char>, Seq<char>)> {
    t.entries@.map_values(|p: (String, TextInput)| (p.0@, text_input_text(p.1@)))
}

/// The fields of a text step's record.
pub open spec fn text_step_fields(s: &TextStep) -> Seq<(Seq<char>, Seq<char>)> {
    seq![("_pos"@, s.pos@)] + opt_field("_source"@, opt_text(s.source)) + seq![("process"@, process_text(s.process@))]
        + text_input_fields(&s.inputs)
}

/// Every value under a key that begins with `in/` or `inref/` is a text input.
pub open spec fn text_inputs_ok(m: Map<Seq<char>, Seq<char>>) -> bool {
    forall|k: Seq<char>| #[trigger] m.contains_key(k) && key_in(k, "in/"@, "inref/"@) ==> parse_text_input(m[k]) is Some
}

pub open spec fn text_step_rest(m: Map<Seq<char>, Seq<char>>) -> Map<Seq<char>, Seq<char>> {
    m.remove("_pos"@).remove("_source"@).remove("process"@)
}

/// The text step that a record describes: a position, a process, an optional
/// source, and inputs under `in/` or `inref/`.
pub open spec fn text_step_from_map(m: Map<Seq<char>, Seq<char>>) -> Option<TextStepView> {
    let rest = text_step_rest(m);
    if m.contains_key("_pos"@) && m.contains_key("process"@) && parse_process(m["process"@]) is Some && keys_within(
        rest,
        "in/"@,
        "inref/"@,
    ) && text_inputs_ok(rest) {
        Some(
            TextStepView {
                pos: m["_pos"@],
                source: text_at(m, "_source"@),
                process: parse_process(m["process"@])->0,
                inputs: Map::new(|k: Seq<char>| rest.contains_key(k), |k: Seq<char>| parse_text_input(rest[k])->0),
            },
        )
    } else {
        None
    }
}

impl TextStep {
    /// The fields of the step's record, unsorted.
    pub fn fields(&self) -> (r: Vec<(String, String)>)
        ensures
            field_views(r@) == text_step_fields(self),
    {
        let mut out: Vec<(String, String)> = Vec::new();
        push_field(&mut out, "_pos", self.pos.clone());
        match &self.source {
            Some(s) => push_field(&mut out, "_source", s.clone()),
            None => {},
        }
        push_field(&mut out, "process", self.process.text());
        let ghost base = field_views(out@);
        let mut i: usize = 0;
        proof {
            assert(text_input_fields(&self.inputs).take(0) =~= Seq::<(Seq<char>, Seq<char>)>::empty());
            assert(field_views(out@) =~= base + text_input_fields(&self.inputs).take(0));
        }
        while i < self.inputs.entries.len()
            invariant
                i <= self.inputs.entries@.len(),
                field_views(out@) == base + text_input_fields(&self.inputs).take(i as int),
            decreases self.inputs.entries@.len() - i,
        {
            push_field(&mut out, self.inputs.entries[i].0.as_str(), self.inputs.entries[i].1.text());
            proof {
                let f = text_input_fields(&self.inputs);
                assert(f.take(i + 1) =~= f.take(i as int).push(f[i as int]));
                assert(field_views(out@) =~= base + f.take(i + 1));
            }
            i = i + 1;
        }
        proof {
            assert(text_input_fields(&self.inputs).take(self.inputs.entries@.len() as int) =~= text_input_fields(&self.inputs));
            assert(field_views(out@) =~= text_step_fields(self));
        }
        out
    }

    /// The step's record. Fails where a value holds a newline.
    pub fn to_text(&self) -> (r: Result<String, Error>)
        ensures
            r is Ok <==> fields_clean(text_step_fields(self)),
            r matches Ok(t) ==> t@ == record_text(text_step_fields(self)),
    {
        to_text(&self.fields())
    }

    /// Reads a text step from its record.
    pub fn from_text(text: &str) -> (r: Result<TextStep, DecodeError>)
        ensures
            (r matches Err(DecodeError::Record)) <==> parse_record(text@) is None,
            (r matches Err(DecodeError::Content)) <==> (parse_record(text@) matches Some(m) && text_step_from_map(m) is None),
            r matches Ok(s) ==> s.inputs.wf() && (parse_record(text@) matches Some(m) && text_step_from_map(m) == Some(s@)),
    {
        let mut a = match crate::attributes::Attributes::parse(text) {
            Ok(a) => a,
            Err(_) => return Err(DecodeError::Record),
        };
        let ghost m = a@;
        proof {
            reveal_strlit("_pos");
            reveal_strlit("_source");
            reveal_strlit("process");
            assert("_pos"@.len() == 4 && "_source"@.len() == 7 && "process"@.len() == 7);
            assert("_source"@[0] == '_' && "process"@[0] == 'p');
        }
        let pos = match a.consume("_pos") {
            Some(p) => p,
            None => return Err(DecodeError::Content),
        };
        let source = a.consume("_source");
        let p = match a.consume("process") {
            Some(p) => p,
            None => return Err(DecodeError::Content),
        };
        let process = match Process::parse(p.as_str()) {
            Some(process) => process,
            None => return Err(DecodeError::Content),
        };
        proof {
            assert(a@ == text_step_rest(m));
        }
        if !crate::records::all_keys_in(&a.0, "in/", "inref/") {
            return Err(DecodeError::Content);
        }
        let inputs = match collect_text_inputs(&a.0) {
            Some(t) => t,
            None => return Err(DecodeError::Content),
        };
        let s = TextStep { pos, source, process, inputs };
        proof {
            assert(s@.inputs =~= Map::new(|k: Seq<char>| a@.contains_key(k), |k: Seq<char>| parse_text_input(a@[k])->0));
        }
        Ok(s)
    }
}

/// Each value of the table read as a text input; `None` where one is not.
fn collect_text_inputs(t: &Table<String>) -> (r: Option<Table<TextInput>>)
    requires
        t.wf(),
        keys_within(t@, "in/"@, "inref/"@),
    ensures
        r is Some <==> text_inputs_ok(t@),
        r matches Some(x) ==> x.wf() && x@ == Map::new(|k: Seq<char>| t@.contains_key(k), |k: Seq<char>| parse_text_input(t@[k])->0),
{
    let mut out: Table<TextInput> = Table::new();
    let mut i: usize = 0;
    while i < t.entries.len()
        invariant
            t.wf(),
            keys_within(t@, "in/"@, "inref/"@),
            out.wf(),
            i <= t.entries@.len(),
            forall|k: Seq<char>| #[trigger] out@.contains_key(k) <==> (exists|j: int| 0 <= j < i && #[trigger] t.entries@[j].0@ == k),
            forall|k: Seq<char>| #[trigger] out@.contains_key(k) ==> t@.contains_key(k) && out@[k] == parse_text_input(t@[k])->0,
            forall|j: int| 0 <= j < i ==> parse_text_input(#[trigger] t.entries@[j].1@) is Some,
        decreases t.entries@.len() - i,
    {
        proof {
            lemma_table_entry(t, i as int);
        }
        match TextInput::parse(t.entries[i].1.as_str()) {
            Some(v) => {
                out.insert(t.entries[i].0.clone(), v);
            },
            None => {
                return None;
            },
        }
        proof {
            assert forall|k2: Seq<char>| #[trigger] out@.contains_key(k2) <==> (exists|j: int| 0 <= j < i + 1 && #[trigger] t.entries@[j].0@ == k2) by {
                if out@.contains_key(k2) && k2 != t.entries@[i as int].0@ {
                    let j = choose|j: int| 0 <= j < i && #[trigger] t.entries@[j].0@ == k2;
                }
                if exists|j: int| 0 <= j < i + 1 && #[trigger] t.entries@[j].0@ == k2 {
                    let j = choose|j: int| 0 <= j < i + 1 && #[trigger] t.entries@[j].0@ == k2;
                    if j < i {
                        assert(out@.contains_key(k2));
                    }
                }
            }
        }
        i = i + 1;
    }
    proof {
        assert forall|k: Seq<char>| #[trigger] t@.contains_key(k) && key_in(k, "in/"@, "inref/"@) implies parse_text_input(t@[k]) is Some by {
            lemma_table_keys(t, k);
            let j = choose|j: int| 0 <= j < t.entries@.len() && #[trigger] t.entries@[j].0@ == k;
            lemma_table_entry(t, j);
        }
        assert forall|k: Seq<char>| #[trigger] t@.contains_key(k) implies out@.contains_key(k) by {
            lemma_table_keys(t, k);
            let j = choose|j: int| 0 <= j < t.entries@.len() && #[trigger] t.entries@[j].0@ == k;
        }
        assert(out@ =~= Map::new(|k: Seq<char>| t@.contains_key(k), |k: Seq<char>| parse_text_input(t@[k])->0));
    }
    Some(out)
}

/// A plan as the user writes it: its steps in order.
#[derive(Debug, PartialEq, Eq)]
pub struct TextPlan {
    pub steps: Vec<TextStep>,
}

/// The pieces of `s` after the current piece `cur`, split at each blank line
/// (two newlines in a row, taken from the left).
pub open spec fn split_blank_from(s: Seq<char>, cur: Seq<char>) -> Seq<Seq<char>>
    decreases s.len(),
{
    if s.len() == 0 {
        seq![cur]
    } else if s.len() >= 2 && s[0] == '\n' && s[1] == '\n' {
        seq![cur] + split_blank_from(s.skip(2), Seq::empty())
    } else {
        split_blank_from(s.drop_first(), cur.push(s[0]))
    }
}

/// The non-empty pieces, in order.
pub open spec fn non_empty(s: Seq<Seq<char>>) -> Seq<Seq<char>>
    decreases s.len(),
{
    if s.len() == 0 {
        s
    } else if s.last().len() == 0 {
        non_empty(s.drop_last())
    } else {
        non_empty(s.drop_last()).push(s.last())
    }
}

/// The records of a plan's text: its non-empty pieces between blank lines.
pub open spec fn plan_chunks(s: Seq<char>) -> Seq<Seq<char>> {
    non_empty(split_blank_from(s, Seq::empty()))
}

/// A chunk reads as a text step.
pub open spec fn chunk_step(c: Seq<char>) -> Option<TextStepView> {
    match parse_record(c) {
        Some(m) => text_step_from_map(m),
        None => None,
    }
}

/// The error that reading a chunk gives.
pub open spec fn chunk_error(c: Seq<char>) -> DecodeError {
    if parse_record(c) is None {
        DecodeError::Record
    } else {
        DecodeError::Content
    }
}

/// The text of a plan: each step's record followed by a blank line.
pub open spec fn plan_text(steps: Seq<TextStep>) -> Seq<char>
    decreases steps.len(),
{
    if steps.len() == 0 {
        Seq::empty()
    } else {
        plan_text(steps.drop_last()) + record_text(text_step_fields(&steps.last())) + seq!['\n']
    }
}

/// The pieces of a text between blank lines.
fn split_blank(text: &str) -> (r: Vec<String>)
    ensures
        r@.map_values(|s: String| s@) == split_blank_from(text@, Seq::empty()),
{
    let n = text.unicode_len();
    let mut out: Vec<String> = Vec::new();
    let mut start: usize = 0;
    let mut i: usize = 0;
    proof {
        assert(text@.subrange(0, 0) =~= Seq::<char>::empty());
        assert(text@.skip(0) =~= text@);
        assert(out@.map_values(|s: String| s@) =~= Seq::empty());
    }
    while i < n
        invariant
            n == text@.len(),
            start <= i <= n,
            split_blank_from(text@, Seq::empty()) == out@.map_values(|s: String| s@) + split_blank_from(
                text@.skip(i as int),
                text@.subrange(start as int, i as int),
            ),
        decreases n - i,
    {
        let c = text.get_char(i);
        let rest = Ghost(text@.skip(i as int));
        proof {
            assert(rest@[0] == c);
            assert(rest@.drop_first() =~= text@.skip(i + 1));
        }
        if c == '\n' && i + 1 < n && text.get_char(i + 1) == '\n' {
            let piece = text.substring_char(start, i).to_owned();
            let ghost before = out@.map_values(|s: String| s@);
            out.push(piece);
            proof {
                assert(rest@[1] == '\n');
                assert(rest@.skip(2) =~= text@.skip(i + 2));
                assert(out@.map_values(|s: String| s@) =~= before.push(piece@));
                assert(text@.subrange(i + 2, i + 2) =~= Seq::<char>::empty());
                assert(seq![piece@] + split_blank_from(text@.skip(i + 2), Seq::empty()) == split_blank_from(rest@, text@.subrange(start as int, i as int)));
                assert(before.push(piece@) + split_blank_from(text@.skip(i + 2), Seq::empty()) =~= before + (seq![piece@] + split_blank_from(text@.skip(i + 2), Seq::empty())));
            }
            i = i + 2;
            start = i;
        } else {
            proof {
                if i + 1 < n {
                    assert(rest@[1] == text@[i + 1]);
                }
                assert(text@.subrange(start as int, i + 1) =~= text@.subrange(start as int, i as int).push(c));
            }
            i = i + 1;
        }
    }
    let piece = text.substring_char(start, n).to_owned();
    let ghost before = out@.map_values(|s: String| s@);
    out.push(piece);
    proof {
        assert(text@.skip(n as int) =~= Seq::<char>::empty());
        assert(out@.map_values(|s: String| s@) =~= before.push(piece@));
        assert(before.push(piece@) =~= before + seq![piece@]);
    }
    out
}

impl TextPlan {
    /// Reads a plan: one text step per non-empty piece between blank lines.
    /// Fails on the first piece that is not a text step, with its error.
    pub fn from_text(text: &str) -> (r: Result<TextPlan, DecodeError>)
        ensures
            r is Ok <==> forall|i: int| 0 <= i < plan_chunks(text@).len() ==> chunk_step(#[trigger] plan_chunks(text@)[i]) is Some,
            r matches Ok(p) ==> p.steps@.len() == plan_chunks(text@).len() && forall|i: int| 0 <= i < p.steps@.len() ==> (#[trigger] p.steps@[i]).inputs.wf() && chunk_step(plan_chunks(text@)[i]) == Some(p.steps@[i]@),
            r matches Err(e) ==> exists|i: int| 0 <= i < plan_chunks(text@).len() && chunk_step(#[trigger] plan_chunks(text@)[i]) is None && e == chunk_error(plan_chunks(text@)[i]),
    {
        let pieces = split_blank(text);
        let ghost all = pieces@.map_values(|s: String| s@);
        let mut steps: Vec<TextStep> = Vec::new();
        let mut i: usize = 0;
        proof {
            assert(all.take(0) =~= Seq::<Seq<char>>::empty());
        }
        while i < pieces.len()
            invariant
                all == pieces@.map_values(|s: String| s@),
                all == split_blank_from(text@, Seq::empty()),
                i <= pieces@.len(),
                steps@.len() == non_empty(all.take(i as int)).len(),
                forall|j: int| 0 <= j < steps@.len() ==> (#[trigger] steps@[j]).inputs.wf() && chunk_step(non_empty(all.take(i as int))[j]) == Some(steps@[j]@),
            decreases pieces@.len() - i,
        {
            proof {
                assert(all.take(i + 1).drop_last() =~= all.take(i as int));
                assert(all.take(i + 1).last() == pieces@[i as int]@);
            }
            if pieces[i].unicode_len() > 0 {
                match TextStep::from_text(pieces[i].as_str()) {
                    Ok(st) => {
                        steps.push(st);
                    },
                    Err(e) => {
                        proof {
                            let ne = non_empty(all.take(i + 1));
                            assert(ne == non_empty(all.take(i as int)).push(pieces@[i as int]@));
                            lemma_non_empty_prefix(all, i + 1);
                            let k = ne.len() - 1;
                            assert(ne[k] == pieces@[i as int]@);
                            assert(plan_chunks(text@)[k] == pieces@[i as int]@);
                        }
                        return Err(e);
                    },
                }
            }
            i = i + 1;
        }
        proof {
            assert(all.take(pieces@.len() as int) =~= all);
            assert forall|i: int| 0 <= i < plan_chunks(text@).len() implies chunk_step(#[trigger] plan_chunks(text@)[i]) is Some by {
                assert(chunk_step(non_empty(all)[i]) == Some(steps@[i]@));
            }
        }
        Ok(TextPlan { steps })
    }

    /// The plan's text in UTF-8. Fails where a value holds a newline.
    pub fn to_bytes(&self) -> (r: Result<Vec<u8>, Error>)
        ensures
            r is Ok <==> forall|i: int| 0 <= i < self.steps@.len() ==> fields_clean(text_step_fields(#[trigger] &self.steps@[i])),
            r matches Ok(b) ==> b@ == vstd::utf8::encode_utf8(plan_text(self.steps@)),
    {
        let t = self.to_text()?;
        Ok(t.as_str().as_bytes_vec())
    }

    /// The plan's text: each step's record followed by a blank line. Fails
    /// where a value holds a newline.
    pub fn to_text(&self) -> (r: Result<String, Error>)
        ensures
            r is Ok <==> forall|i: int| 0 <= i < self.steps@.len() ==> fields_clean(text_step_fields(#[trigger] &self.steps@[i])),
            r matches Ok(t) ==> t@ == plan_text(self.steps@),
    {
        let mut out = String::new();
        let mut i: usize = 0;
        proof {
            assert(self.steps@.take(0) =~= Seq::<TextStep>::empty());
        }
        while i < self.steps.len()
            invariant
                i <= self.steps@.len(),
                forall|j: int| 0 <= j < i ==> fields_clean(text_step_fields(#[trigger] &self.steps@[j])),
                out@ == plan_text(self.steps@.take(i as int)),
            decreases self.steps@.len() - i,
        {
            match self.steps[i].to_text() {
                Ok(t) => {
                    out.append(t.as_str());
                    out.append("\n");
                    proof {
                        reveal_strlit("\n");
                        assert(self.steps@.take(i + 1).drop_last() =~= self.steps@.take(i as int));
                        assert(self.steps@.take(i + 1).last() == self.steps@[i as int]);
                    }
                },
                Err(e) => {
                    return Err(e);
                },
            }
            i = i + 1;
        }
        proof {
            assert(self.steps@.take(self.steps@.len() as int) =~= self.steps@);
        }
        Ok(out)
    }
}

/// The non-empty pieces of a prefix are a prefix of the non-empty pieces.
proof fn lemma_non_empty_prefix(s: Seq<Seq<char>>, n: int)
    requires
        0 <= n <= s.len(),
    ensures
        non_empty(s.take(n)).len() <= non_empty(s).len(),
        forall|j: int| 0 <= j < non_empty(s.take(n)).len() ==> #[trigger] non_empty(s.take(n))[j] == non_empty(s)[j],
    decreases s.len() - n,
{
    if n < s.len() {
        lemma_non_empty_prefix(s, n + 1);
        assert(s.take(n + 1).drop_last() =~= s.take(n));
        let a = non_empty(s.take(n));
        let b = non_empty(s.take(n + 1));
        assert forall|j: int| 0 <= j < a.len() implies #[trigger] a[j] == non_empty(s)[j] by {
            assert(a[j] == b[j]);
        }
    } else {
        assert(s.take(n) =~= s);
    }
}

/// The SHA-1 digest of a text's UTF-8 bytes.
pub uninterp spec fn sha1_of(s: Seq<char>) -> Seq<u8>;

/// Relies on sha1::Sha1::digest: the 20-byte SHA-1 digest of the bytes.
#[verifier::external_body]
fn sha1_digest(s: &str) -> (r: [u8; 20])
    ensures
        r@ == sha1_of(s@),
{
    <sha1::Sha1 as sha1::Digest>::digest(s.as_bytes()).into()
}

/// The position of the identity step that carries a source: the hex of the
/// source's SHA-1 digest.
pub open spec fn identity_pos(source: Seq<char>) -> Seq<char> {
    hex_of(sha1_of(source))
}

pub open spec fn file_source(p: Seq<char>) -> Seq<char> {
    "file:"@ + p
}

pub open spec fn value_source(v: Seq<char>) -> Seq<char> {
    "value:"@ + v
}

/// The identity step that carries one resource under its source.
pub open spec fn identity_step(source: Seq<char>, id: Seq<u8>) -> StepView {
    StepView {
        pos: Some(identity_pos(source)),
        process: ProcessView::Identity,
        exit_code: None,
        production: None,
        source: Some(source),
        inputs: Map::empty().insert("in/_"@, InputView::Id(id)),
        dependencies: Map::empty(),
    }
}

/// The input that reads the output of the identity step of a source.
pub open spec fn identity_ref(source: Seq<char>) -> InputView {
    InputView::Pos(identity_pos(source), "out/_"@)
}

/// The bytes of the resource that an inline value stands for: the value
/// followed by a newline, in UTF-8.
pub fn inline_value_bytes(v: &str) -> (r: Vec<u8>)
    ensures
        r@ == vstd::utf8::encode_utf8(v@ + seq!['\n']),
{
    let mut t = v.to_owned();
    t.append("\n");
    proof {
        reveal_strlit("\n");
        assert(t@ =~= v@ + seq!['\n']);
    }
    t.as_str().as_bytes_vec()
}

/// The identity step of a source, and its position.
fn make_identity_step(source: String, id: ResourceId) -> (r: (String, Step))
    ensures
        r.0@ == identity_pos(source@),
        r.0@.len() == 40,
        r.1@ == identity_step(source@, id@),
        r.1.wf(),
{
    let digest = crate::id::UntypedId(sha1_digest(source.as_str()));
    let name = digest.hex();
    proof {
        crate::id::lemma_hex_round_trip(digest@);
    }
    let mut inputs: Table<Input> = Table::new();
    inputs.insert("in/_".to_owned(), Input::Id(id));
    let step = Step {
        pos: Some(name.clone()),
        process: Process::Identity,
        exit_code: None,
        production: None,
        source: Some(source),
        inputs,
        dependencies: Table::new(),
    };
    proof {
        assert(step@.inputs =~= Map::empty().insert("in/_"@, InputView::Id(id@)));
    }
    (name, step)
}

/// The files that a plan may name: path `p` is the entry under `prefix + p`.
pub struct FileTable {
    pub prefix: String,
    pub files: Table<ResourceId>,
}

impl FileTable {
    /// Whether some file lies under the directory `path`.
    pub fn has_files_under(&self, path: &str) -> (r: bool)
        ensures
            r == exists|i: int| 0 <= i < self.files.entries@.len() && starts_with(#[trigger] self.files.entries@[i].0@, self.prefix@ + path@),
    {
        let mut root = self.prefix.clone();
        root.append(path);
        let mut i: usize = 0;
        while i < self.files.entries.len()
            invariant
                root@ == self.prefix@ + path@,
                i <= self.files.entries@.len(),
                forall|j: int| 0 <= j < i ==> !starts_with(#[trigger] self.files.entries@[j].0@, root@),
            decreases self.files.entries@.len() - i,
        {
            if crate::text::has_prefix(self.files.entries[i].0.as_str(), root.as_str()) {
                return true;
            }
            i = i + 1;
        }
        false
    }
}

/// Adds an identity step for each file under the directory `path`, in the
/// table's order, and an input under `key` with the same suffix that reads it.
pub open spec fn expand_dir(
    st: Map<Seq<char>, StepView>,
    im: Map<Seq<char>, InputView>,
    key: Seq<char>,
    path: Seq<char>,
    root: Seq<char>,
    entries: Seq<(Seq<char>, Seq<u8>)>,
) -> (Map<Seq<char>, StepView>, Map<Seq<char>, InputView>)
    decreases entries.len(),
{
    if entries.len() == 0 {
        (st, im)
    } else {
        let (st1, im1) = expand_dir(st, im, key, path, root, entries.drop_last());
        let e = entries.last();
        if starts_with(e.0, root) {
            let suffix = e.0.skip(root.len() as int);
            let src = file_source(path + suffix);
            (st1.insert(identity_pos(src), identity_step(src, e.1)), im1.insert(key + suffix, identity_ref(src)))
        } else {
            (st1, im1)
        }
    }
}

/// Encodes a step's inputs in order on top of the steps `st`: an identifier
/// or a step output stays as it is; an inline value and a file each get an
/// identity step and an input that reads it; a directory under a directory
/// key gets one of each per file. `None` where a file or value is missing.
pub open spec fn encode_inputs(
    st: Map<Seq<char>, StepView>,
    ins: Seq<(Seq<char>, TextInputView)>,
    prefix: Seq<char>,
    files: Seq<(Seq<char>, Seq<u8>)>,
    values: Map<Seq<char>, Seq<u8>>,
) -> Option<(Map<Seq<char>, StepView>, Map<Seq<char>, InputView>)>
    decreases ins.len(),
{
    if ins.len() == 0 {
        Some((st, Map::empty()))
    } else {
        match encode_inputs(st, ins.drop_last(), prefix, files, values) {
            None => None,
            Some((st1, im1)) => {
                let k = ins.last().0;
                match ins.last().1 {
                    TextInputView::Id(b) => Some((st1, im1.insert(k, InputView::Id(b)))),
                    TextInputView::Pos(p, o) => Some((st1, im1.insert(k, InputView::Pos(p, o)))),
                    TextInputView::Value(v) => if values.contains_key(v) {
                        let src = value_source(v);
                        Some((st1.insert(identity_pos(src), identity_step(src, values[v])), im1.insert(k, identity_ref(src))))
                    } else {
                        None
                    },
                    TextInputView::File(p) => if ends_slash(k) && ends_slash(p) {
                        Some(expand_dir(st1, im1, k, p, prefix + p, files))
                    } else if pairs_map(files).contains_key(prefix + p) {
                        let src = file_source(p);
                        Some((st1.insert(identity_pos(src), identity_step(src, pairs_map(files)[prefix + p])), im1.insert(k, identity_ref(src))))
                    } else {
                        None
                    },
                }
            },
        }
    }
}

/// The plan step that a text step becomes, given its encoded inputs.
pub open spec fn plan_step(ts: &TextStep, im: Map<Seq<char>, InputView>) -> StepView {
    StepView {
        pos: Some(ts.pos@),
        process: ts.process@,
        exit_code: None,
        production: None,
        source: opt_text(ts.source),
        inputs: im,
        dependencies: Map::empty(),
    }
}

/// Encodes the text steps in order: each adds the identity steps of its
/// inputs, then itself at its position.
pub open spec fn encode_steps(
    steps: Seq<TextStep>,
    prefix: Seq<char>,
    files: Seq<(Seq<char>, Seq<u8>)>,
    values: Map<Seq<char>, Seq<u8>>,
) -> Option<Map<Seq<char>, StepView>>
    decreases steps.len(),
{
    if steps.len() == 0 {
        Some(Map::empty())
    } else {
        match encode_steps(steps.drop_last(), prefix, files, values) {
            None => None,
            Some(st) => {
                let ts = steps.last();
                match encode_inputs(st, entry_views(ts.inputs.entries@), prefix, files, values) {
                    None => None,
                    Some((st1, im)) => Some(st1.insert(ts.pos@, plan_step(&ts, im))),
                }
            },
        }
    }
}

/// Why a text plan could not be encoded.
#[derive(Debug, PartialEq, Eq)]
pub enum EncodeError {
    /// A file that an input names is not in the file table.
    MissingFile,
    /// An inline value has no resource in the value table.
    MissingValue,
}

fn insert_identity(steps: &mut Table<Step>, source: String, id: ResourceId) -> (r: Input)
    requires
        old(steps).wf(),
        forall|i: int| 0 <= i < old(steps).entries@.len() ==> (#[trigger] old(steps).entries@[i]).1.wf(),
    ensures
        final(steps).wf(),
        forall|i: int| 0 <= i < final(steps).entries@.len() ==> (#[trigger] final(steps).entries@[i]).1.wf(),
        final(steps)@ == old(steps)@.insert(identity_pos(source@), identity_step(source@, id@)),
        r@ == identity_ref(source@),
{
    let (name, step) = make_identity_step(source, id);
    let r = Input::Pos(name.clone(), "out/_".to_owned());
    insert_step(steps, name, step);
    r
}

/// Sets a step of a table of well-formed steps.
pub(crate) fn insert_step(steps: &mut Table<Step>, key: String, step: Step)
    requires
        old(steps).wf(),
        forall|i: int| 0 <= i < old(steps).entries@.len() ==> (#[trigger] old(steps).entries@[i]).1.wf(),
        step.wf(),
    ensures
        final(steps).wf(),
        forall|i: int| 0 <= i < final(steps).entries@.len() ==> (#[trigger] final(steps).entries@[i]).1.wf(),
        final(steps)@ == old(steps)@.insert(key@, step@),
{
    let ghost e0 = steps.entries@;
    let ghost pair = (key, step);
    steps.insert(key, step);
    proof {
        assert forall|i: int| 0 <= i < steps.entries@.len() implies (#[trigger] steps.entries@[i]).1.wf() by {
            if i < e0.len() && steps.entries@[i] != pair {
                assert(steps.entries@[i] == e0[i]);
            }
        }
    }
}

/// Adds an identity step and an input for each file under the directory.
fn expand_dir_exec(
    steps: &mut Table<Step>,
    inputs: &mut Table<Input>,
    key: &str,
    path: &str,
    files: &FileTable,
)
    requires
        old(steps).wf(),
        forall|i: int| 0 <= i < old(steps).entries@.len() ==> (#[trigger] old(steps).entries@[i]).1.wf(),
        old(inputs).wf(),
    ensures
        final(steps).wf(),
        forall|i: int| 0 <= i < final(steps).entries@.len() ==> (#[trigger] final(steps).entries@[i]).1.wf(),
        final(inputs).wf(),
        (final(steps)@, final(inputs)@) == expand_dir(old(steps)@, old(inputs)@, key@, path@, files.prefix@ + path@, entry_views(files.files.entries@)),
{
    let mut root = files.prefix.clone();
    root.append(path);
    let ghost es = entry_views(files.files.entries@);
    let mut i: usize = 0;
    proof {
        assert(es.take(0) =~= Seq::<(Seq<char>, Seq<u8>)>::empty());
    }
    while i < files.files.entries.len()
        invariant
            es == entry_views(files.files.entries@),
            root@ == files.prefix@ + path@,
            i <= files.files.entries@.len(),
            steps.wf(),
            forall|j: int| 0 <= j < steps.entries@.len() ==> (#[trigger] steps.entries@[j]).1.wf(),
            inputs.wf(),
            (steps@, inputs@) == expand_dir(old(steps)@, old(inputs)@, key@, path@, root@, es.take(i as int)),
        decreases files.files.entries@.len() - i,
    {
        proof {
            assert(es.take(i + 1).drop_last() =~= es.take(i as int));
            assert(es.take(i + 1).last() == es[i as int]);
        }
        match strip_prefix(files.files.entries[i].0.as_str(), root.as_str()) {
            Some(suffix) => {
                let mut source = "file:".to_owned();
                source.append(path);
                source.append(suffix);
                let input = insert_identity(steps, source, files.files.entries[i].1);
                let mut k = key.to_owned();
                k.append(suffix);
                inputs.insert(k, input);
                proof {
                    reveal_strlit("file:");
                    assert(source@ =~= file_source(path@ + suffix@));
                }
            },
            None => {},
        }
        i = i + 1;
    }
    proof {
        assert(es.take(files.files.entries@.len() as int) =~= es);
    }
}

/// Encodes one text step's inputs, adding identity steps to `steps`.
fn encode_step_inputs(
    steps: &mut Table<Step>,
    ts: &TextStep,
    files: &FileTable,
    values: &Table<ResourceId>,
) -> (r: Result<Table<Input>, EncodeError>)
    requires
        old(steps).wf(),
        forall|i: int| 0 <= i < old(steps).entries@.len() ==> (#[trigger] old(steps).entries@[i]).1.wf(),
        files.files.wf(),
        values.wf(),
    ensures
        final(steps).wf(),
        forall|i: int| 0 <= i < final(steps).entries@.len() ==> (#[trigger] final(steps).entries@[i]).1.wf(),
        r is Ok <==> encode_inputs(old(steps)@, entry_views(ts.inputs.entries@), files.prefix@, entry_views(files.files.entries@), values@) is Some,
        r matches Ok(im) ==> im.wf() && Some((final(steps)@, im@)) == encode_inputs(old(steps)@, entry_views(ts.inputs.entries@), files.prefix@, entry_views(files.files.entries@), values@),
{
    let ghost ins = entry_views(ts.inputs.entries@);
    let ghost fe = entry_views(files.files.entries@);
    let mut inputs: Table<Input> = Table::new();
    let mut i: usize = 0;
    proof {
        assert(ins.take(0) =~= Seq::<(Seq<char>, TextInputView)>::empty());
    }
    while i < ts.inputs.entries.len()
        invariant
            ins == entry_views(ts.inputs.entries@),
            fe == entry_views(files.files.entries@),
            files.files.wf(),
            values.wf(),
            i <= ts.inputs.entries@.len(),
            steps.wf(),
            forall|j: int| 0 <= j < steps.entries@.len() ==> (#[trigger] steps.entries@[j]).1.wf(),
            inputs.wf(),
            encode_inputs(old(steps)@, ins.take(i as int), files.prefix@, fe, values@) == Some((steps@, inputs@)),
        decreases ts.inputs.entries@.len() - i,
    {
        proof {
            assert(ins.take(i + 1).drop_last() =~= ins.take(i as int));
            assert(ins.take(i + 1).last() == ins[i as int]);
        }
        let key = ts.inputs.entries[i].0.as_str();
        match &ts.inputs.entries[i].1 {
            TextInput::Id(id) => {
                inputs.insert(key.to_owned(), Input::Id(*id));
            },
            TextInput::Pos(p, o) => {
                inputs.insert(key.to_owned(), Input::Pos(p.clone(), o.clone()));
            },
            TextInput::Value(v) => {
                match values.get(v.as_str()) {
                    Some(id) => {
                        let mut source = "value:".to_owned();
                        source.append(v.as_str());
                        proof {
                            reveal_strlit("value:");
                            assert(source@ =~= value_source(v@));
                        }
                        let input = insert_identity(steps, source, *id);
                        inputs.insert(key.to_owned(), input);
                    },
                    None => {
                        proof {
                            lemma_encode_none(old(steps)@, ins, i + 1, files.prefix@, fe, values@);
                        }
                        return Err(EncodeError::MissingValue);
                    },
                }
            },
            TextInput::File(p) => {
                if crate::scheduler::is_dir(key) && crate::scheduler::is_dir(p.as_str()) {
                    expand_dir_exec(steps, &mut inputs, key, p.as_str(), files);
                } else {
                    let mut full = files.prefix.clone();
                    full.append(p.as_str());
                    match files.files.get(full.as_str()) {
                        Some(id) => {
                            let mut source = "file:".to_owned();
                            source.append(p.as_str());
                            proof {
                                reveal_strlit("file:");
                                assert(source@ =~= file_source(p@));
                            }
                            let input = insert_identity(steps, source, *id);
                            inputs.insert(key.to_owned(), input);
                        },
                        None => {
                            proof {
                                lemma_encode_none(old(steps)@, ins, i + 1, files.prefix@, fe, values@);
                            }
                            return Err(EncodeError::MissingFile);
                        },
                    }
                }
            },
        }
        i = i + 1;
    }
    proof {
        assert(ins.take(ts.inputs.entries@.len() as int) =~= ins);
    }
    Ok(inputs)
}

proof fn lemma_encode_none(
    st: Map<Seq<char>, StepView>,
    ins: Seq<(Seq<char>, TextInputView)>,
    n: int,
    prefix: Seq<char>,
    files: Seq<(Seq<char>, Seq<u8>)>,
    values: Map<Seq<char>, Seq<u8>>,
)
    requires
        0 <= n <= ins.len(),
        encode_inputs(st, ins.take(n), prefix, files, values) is None,
    ensures
        encode_inputs(st, ins, prefix, files, values) is None,
    decreases ins.len() - n,
{
    if n < ins.len() {
        assert(ins.take(n + 1).drop_last() =~= ins.take(n));
        lemma_encode_none(st, ins, n + 1, prefix, files, values);
    } else {
        assert(ins.take(n) =~= ins);
    }
}

proof fn lemma_encode_steps_none(
    steps: Seq<TextStep>,
    n: int,
    prefix: Seq<char>,
    files: Seq<(Seq<char>, Seq<u8>)>,
    values: Map<Seq<char>, Seq<u8>>,
)
    requires
        0 <= n <= steps.len(),
        encode_steps(steps.take(n), prefix, files, values) is None,
    ensures
        encode_steps(steps, prefix, files, values) is None,
    decreases steps.len() - n,
{
    if n < steps.len() {
        assert(steps.take(n + 1).drop_last() =~= steps.take(n));
        lemma_encode_steps_none(steps, n + 1, prefix, files, values);
    } else {
        assert(steps.take(n) =~= steps);
    }
}

impl TextPlan {
    /// Encodes the plan into a plan to run: files resolve through `files`,
    /// inline values through `values` (value text to the resource of its
    /// `inline_value_bytes`). Each file or value gets an identity step at the
    /// hex of the SHA-1 of its source, so equal sources share one step.
    pub fn encode(&self, files: &FileTable, values: &Table<ResourceId>) -> (r: Result<Plan, EncodeError>)
        requires
            files.files.wf(),
            values.wf(),
        ensures
            r is Ok <==> encode_steps(self.steps@, files.prefix@, entry_views(files.files.entries@), values@) is Some,
            r matches Ok(p) ==> p.wf() && Some(p@) == encode_steps(self.steps@, files.prefix@, entry_views(files.files.entries@), values@),
    {
        let ghost fe = entry_views(files.files.entries@);
        let mut steps: Table<Step> = Table::new();
        let mut i: usize = 0;
        proof {
            assert(self.steps@.take(0) =~= Seq::<TextStep>::empty());
        }
        while i < self.steps.len()
            invariant
                fe == entry_views(files.files.entries@),
                files.files.wf(),
                values.wf(),
                i <= self.steps@.len(),
                steps.wf(),
                forall|j: int| 0 <= j < steps.entries@.len() ==> (#[trigger] steps.entries@[j]).1.wf(),
                encode_steps(self.steps@.take(i as int), files.prefix@, fe, values@) == Some(steps@),
            decreases self.steps@.len() - i,
        {
            proof {
                assert(self.steps@.take(i + 1).drop_last() =~= self.steps@.take(i as int));
                assert(self.steps@.take(i + 1).last() == self.steps@[i as int]);
            }
            let ts = &self.steps[i];
            match encode_step_inputs(&mut steps, ts, files, values) {
                Ok(inputs) => {
                    let step = Step {
                        pos: Some(ts.pos.clone()),
                        process: ts.process.copy(),
                        exit_code: None,
                        production: None,
                        source: match &ts.source {
                            Some(s) => Some(s.clone()),
                            None => None,
                        },
                        inputs,
                        dependencies: Table::new(),
                    };
                    insert_step(&mut steps, ts.pos.clone(), step);
                },
                Err(e) => {
                    proof {
                        lemma_encode_steps_none(self.steps@, i + 1, files.prefix@, fe, values@);
                    }
                    return Err(e);
                },
            }
            i = i + 1;
        }
        proof {
            assert(self.steps@.take(self.steps@.len() as int) =~= self.steps@);
        }
        Ok(Plan { steps })
    }
}

} // verus!
