//! Jobs, productions and invocations as attribute records.

use crate::attributes::{field_views, fields_clean, parse_record, record_text, to_text, Attributes, Error};
use crate::id::{bytes_of_hex, hex_of, is_hex_of_len, Id};
use crate::object::{
    opt_id, opt_text, opt_ts, parse_process, process_text, Invocation, InvocationStatus, InvocationView, Job, JobView,
    Process, Production, ProductionView,
};
use crate::table::{lemma_table_entry, lemma_table_keys, Table};
use crate::text::{
    decimal_text, has_prefix, i32_text, is_timestamp_text, parse_i32, parse_i32_spec, starts_with, Timestamp,
};
use crate::order::str_eq;
use vstd::prelude::*;

verus! {

/// Why an object could not be read from its text.
#[derive(Debug, PartialEq, Eq)]
pub enum DecodeError {
    /// The text is not a record: a line holds no `=`.
    Record,
    /// The record is not an object of the kind asked for: a key is missing or
    /// unknown, or a value does not parse.
    Content,
}

/// One field per entry of a table of identifiers, the value in hex.
pub open spec fn id_fields<T>(t: &Table<Id<T>>) -> Seq<(Seq<char>, Seq<char>)> {
    t.entries@.map_values(|p: (String, Id<T>)| (p.0@, hex_of(p.1@)))
}

/// A field for an optional value: none where the value is absent.
pub open spec fn opt_field(k: Seq<char>, v: Option<Seq<char>>) -> Seq<(Seq<char>, Seq<char>)> {
    match v {
        Some(x) => seq![(k, x)],
        None => Seq::empty(),
    }
}

pub open spec fn opt_hex(o: Option<Seq<u8>>) -> Option<Seq<char>> {
    match o {
        Some(b) => Some(hex_of(b)),
        None => None,
    }
}

/// `k` begins with `pre_a` or with `pre_b`.
pub open spec fn key_in(k: Seq<char>, pre_a: Seq<char>, pre_b: Seq<char>) -> bool {
    starts_with(k, pre_a) || starts_with(k, pre_b)
}

/// Every key begins with `pre_a` or with `pre_b`.
pub open spec fn keys_within(m: Map<Seq<char>, Seq<char>>, pre_a: Seq<char>, pre_b: Seq<char>) -> bool {
    forall|k: Seq<char>| #[trigger] m.contains_key(k) ==> key_in(k, pre_a, pre_b)
}

/// Every value under a key that begins with `pre_a` or `pre_b` is an identifier.
pub open spec fn ids_ok(m: Map<Seq<char>, Seq<char>>, pre_a: Seq<char>, pre_b: Seq<char>) -> bool {
    forall|k: Seq<char>| #[trigger] m.contains_key(k) && key_in(k, pre_a, pre_b) ==> is_hex_of_len(m[k], 20)
}

/// The identifiers under the keys that begin with `pre_a` or `pre_b`.
pub open spec fn ids_under(m: Map<Seq<char>, Seq<char>>, pre_a: Seq<char>, pre_b: Seq<char>) -> Map<Seq<char>, Seq<u8>> {
    Map::new(|k: Seq<char>| m.contains_key(k) && key_in(k, pre_a, pre_b), |k: Seq<char>| bytes_of_hex(m[k]))
}

/// An optional identifier under `k` is absent, or 40 hex digits.
pub open spec fn opt_id_ok(m: Map<Seq<char>, Seq<char>>, k: Seq<char>) -> bool {
    m.contains_key(k) ==> is_hex_of_len(m[k], 20)
}

/// The identifier under `k`, where the key is present.
pub open spec fn id_at(m: Map<Seq<char>, Seq<char>>, k: Seq<char>) -> Option<Seq<u8>> {
    if m.contains_key(k) {
        Some(bytes_of_hex(m[k]))
    } else {
        None
    }
}

/// An optional timestamp under `k` is absent, or text that chrono reads.
pub open spec fn opt_ts_ok(m: Map<Seq<char>, Seq<char>>, k: Seq<char>) -> bool {
    m.contains_key(k) ==> is_timestamp_text(m[k])
}

/// The text under `k`, where there is one.
pub open spec fn text_at(m: Map<Seq<char>, Seq<char>>, k: Seq<char>) -> Option<Seq<char>> {
    if m.contains_key(k) {
        Some(m[k])
    } else {
        None
    }
}

pub(crate) fn push_field(out: &mut Vec<(String, String)>, k: &str, v: String)
    ensures
        field_views(final(out)@) == field_views(old(out)@).push((k@, v@)),
{
    out.push((k.to_owned(), v));
    proof {
        assert(field_views(final(out)@) =~= field_views(old(out)@).push((k@, v@)));
    }
}

fn push_id_fields<T>(out: &mut Vec<(String, String)>, t: &Table<Id<T>>)
    ensures
        field_views(final(out)@) == field_views(old(out)@) + id_fields(t),
{
    let mut i: usize = 0;
    proof {
        assert(field_views(out@) =~= field_views(old(out)@) + id_fields(t).take(0));
    }
    while i < t.entries.len()
        invariant
            i <= t.entries@.len(),
            field_views(out@) == field_views(old(out)@) + id_fields(t).take(i as int),
        decreases t.entries@.len() - i,
    {
        let ghost before = field_views(out@);
        push_field(out, t.entries[i].0.as_str(), t.entries[i].1.hex());
        proof {
            assert(id_fields(t).take(i + 1) =~= id_fields(t).take(i as int).push(id_fields(t)[i as int]));
            assert(field_views(out@) =~= field_views(old(out)@) + id_fields(t).take(i + 1));
        }
        i = i + 1;
    }
    proof {
        assert(id_fields(t).take(t.entries@.len() as int) =~= id_fields(t));
    }
}

fn push_opt_id<T>(out: &mut Vec<(String, String)>, k: &str, v: &Option<Id<T>>)
    ensures
        field_views(final(out)@) == field_views(old(out)@) + opt_field(k@, opt_hex(opt_id(*v))),
{
    match v {
        Some(id) => push_field(out, k, id.hex()),
        None => {
            assert(field_views(out@) =~= field_views(old(out)@) + opt_field(k@, opt_hex(opt_id(*v))));
        },
    }
}

fn push_opt_text(out: &mut Vec<(String, String)>, k: &str, v: Option<String>)
    ensures
        field_views(final(out)@) == field_views(old(out)@) + opt_field(k@, opt_text(v)),
{
    match v {
        Some(s) => push_field(out, k, s),
        None => {
            assert(field_views(out@) =~= field_views(old(out)@) + opt_field(k@, opt_text(v)));
        },
    }
}

fn opt_ts_text(t: &Option<Timestamp>) -> (r: Option<String>)
    ensures
        opt_text(r) == opt_ts(*t),
{
    match t {
        Some(ts) => Some(ts.text().clone()),
        None => None,
    }
}

fn opt_string(s: &Option<String>) -> (r: Option<String>)
    ensures
        opt_text(r) == opt_text(*s),
{
    match s {
        Some(x) => Some(x.clone()),
        None => None,
    }
}

/// Whether every key of the table begins with `pre_a` or `pre_b`.
pub(crate) fn all_keys_in(t: &Table<String>, pre_a: &str, pre_b: &str) -> (r: bool)
    requires
        t.wf(),
    ensures
        r == keys_within(t@, pre_a@, pre_b@),
{
    let mut i: usize = 0;
    while i < t.entries.len()
        invariant
            t.wf(),
            i <= t.entries@.len(),
            forall|j: int| 0 <= j < i ==> key_in(#[trigger] t.entries@[j].0@, pre_a@, pre_b@),
        decreases t.entries@.len() - i,
    {
        let k = t.entries[i].0.as_str();
        if !has_prefix(k, pre_a) && !has_prefix(k, pre_b) {
            proof {
                lemma_table_entry(t, i as int);
            }
            return false;
        }
        i = i + 1;
    }
    proof {
        assert forall|k: Seq<char>| #[trigger] t@.contains_key(k) implies key_in(k, pre_a@, pre_b@) by {
            lemma_table_keys(t, k);
        }
    }
    true
}

/// The identifiers under the keys that begin with `pre_a` or `pre_b`; `None` where
/// one of those values is no identifier.
fn collect_ids<T>(t: &Table<String>, pre_a: &str, pre_b: &str) -> (r: Option<Table<Id<T>>>)
    requires
        t.wf(),
    ensures
        r is Some <==> ids_ok(t@, pre_a@, pre_b@),
        r matches Some(x) ==> x.wf() && x@ == ids_under(t@, pre_a@, pre_b@),
{
    let mut out: Table<Id<T>> = Table::new();
    let mut i: usize = 0;
    while i < t.entries.len()
        invariant
            t.wf(),
            out.wf(),
            i <= t.entries@.len(),
            forall|k: Seq<char>| #[trigger] out@.contains_key(k) <==> (exists|j: int| 0 <= j < i && #[trigger] t.entries@[j].0@ == k && key_in(k, pre_a@, pre_b@)),
            forall|k: Seq<char>| #[trigger] out@.contains_key(k) ==> t@.contains_key(k) && out@[k] == bytes_of_hex(t@[k]),
            forall|j: int| 0 <= j < i && key_in(#[trigger] t.entries@[j].0@, pre_a@, pre_b@) ==> is_hex_of_len(t.entries@[j].1@, 20),
        decreases t.entries@.len() - i,
    {
        let k = t.entries[i].0.as_str();
        proof {
            lemma_table_entry(t, i as int);
        }
        if has_prefix(k, pre_a) || has_prefix(k, pre_b) {
            match Id::<T>::parse(t.entries[i].1.as_str()) {
                Some(id) => {
                    out.insert(k.to_owned(), id);
                },
                None => {
                    return None;
                },
            }
        }
        proof {
            assert forall|k2: Seq<char>| #[trigger] out@.contains_key(k2) <==> (exists|j: int| 0 <= j < i + 1 && #[trigger] t.entries@[j].0@ == k2 && key_in(k2, pre_a@, pre_b@)) by {
                if out@.contains_key(k2) && k2 != t.entries@[i as int].0@ {
                    let j = choose|j: int| 0 <= j < i && #[trigger] t.entries@[j].0@ == k2 && key_in(k2, pre_a@, pre_b@);
                }
                if exists|j: int| 0 <= j < i + 1 && #[trigger] t.entries@[j].0@ == k2 && key_in(k2, pre_a@, pre_b@) {
                    let j = choose|j: int| 0 <= j < i + 1 && #[trigger] t.entries@[j].0@ == k2 && key_in(k2, pre_a@, pre_b@);
                    if j < i {
                        assert(out@.contains_key(k2));
                    }
                }
            }
        }
        i = i + 1;
    }
    proof {
        assert forall|k: Seq<char>| #[trigger] t@.contains_key(k) && key_in(k, pre_a@, pre_b@) implies is_hex_of_len(t@[k], 20) by {
            lemma_table_keys(t, k);
            let j = choose|j: int| 0 <= j < t.entries@.len() && #[trigger] t.entries@[j].0@ == k;
            lemma_table_entry(t, j);
        }
        assert forall|k: Seq<char>| #[trigger] ids_under(t@, pre_a@, pre_b@).contains_key(k) implies out@.contains_key(k) by {
            lemma_table_keys(t, k);
            let j = choose|j: int| 0 <= j < t.entries@.len() && #[trigger] t.entries@[j].0@ == k;
        }
        assert(out@ =~= ids_under(t@, pre_a@, pre_b@));
    }
    Some(out)
}

/// Takes the optional identifier `key` out of the record. An error where the
/// key is present and its value is no identifier.
fn take_id<T>(a: &mut Attributes, key: &str) -> (r: Result<Option<Id<T>>, DecodeError>)
    requires
        old(a).wf(),
    ensures
        final(a).wf(),
        final(a)@ == old(a)@.remove(key@),
        r is Ok <==> opt_id_ok(old(a)@, key@),
        r matches Ok(o) ==> opt_id(o) == id_at(old(a)@, key@),
        r matches Err(e) ==> e == DecodeError::Content,
{
    match a.consume(key) {
        Some(v) => match Id::<T>::parse(v.as_str()) {
            Some(id) => Ok(Some(id)),
            None => Err(DecodeError::Content),
        },
        None => Ok(None),
    }
}

/// Takes the optional timestamp `key` out of the record. An error where the
/// key is present and its value is no timestamp.
fn take_ts(a: &mut Attributes, key: &str) -> (r: Result<Option<Timestamp>, DecodeError>)
    requires
        old(a).wf(),
    ensures
        final(a).wf(),
        final(a)@ == old(a)@.remove(key@),
        r is Ok <==> opt_ts_ok(old(a)@, key@),
        r matches Ok(o) ==> opt_ts(o) == text_at(old(a)@, key@),
        r matches Err(e) ==> e == DecodeError::Content,
{
    match a.consume(key) {
        Some(v) => match Timestamp::parse(v.as_str()) {
            Some(t) => Ok(Some(t)),
            None => Err(DecodeError::Content),
        },
        None => Ok(None),
    }
}

fn parse_attributes(text: &str) -> (r: Result<Attributes, DecodeError>)
    ensures
        r is Ok <==> parse_record(text@) is Some,
        r matches Ok(a) ==> a.wf() && a@ == parse_record(text@)->0,
        r matches Err(e) ==> e == DecodeError::Record,
{
    match Attributes::parse(text) {
        Ok(a) => Ok(a),
        Err(_) => Err(DecodeError::Record),
    }
}

// ---------------------------------------------------------------- Job

/// The fields of a job's record.
pub open spec fn job_fields(j: &Job) -> Seq<(Seq<char>, Seq<char>)> {
    seq![("process"@, process_text(j.process@))] + id_fields(&j.inputs)
}

/// The job that a record describes: a process, and inputs under `in/` or
/// `inref/` whose values are identifiers.
pub open spec fn job_from_map(m: Map<Seq<char>, Seq<char>>) -> Option<JobView> {
    let rest = m.remove("process"@);
    if m.contains_key("process"@) && parse_process(m["process"@]) is Some && keys_within(rest, "in/"@, "inref/"@)
        && ids_ok(rest, "in/"@, "inref/"@) {
        Some(JobView { process: parse_process(m["process"@])->0, inputs: ids_under(rest, "in/"@, "inref/"@) })
    } else {
        None
    }
}

impl Job {
    /// The fields of the job's record, unsorted.
    pub fn fields(&self) -> (r: Vec<(String, String)>)
        ensures
            field_views(r@) == job_fields(self),
    {
        let mut out: Vec<(String, String)> = Vec::new();
        push_field(&mut out, "process", self.process.text());
        push_id_fields(&mut out, &self.inputs);
        proof {
            assert(field_views(out@) =~= job_fields(self));
        }
        out
    }

    /// The job's record. Fails exactly where the process text or an input
    /// key holds a newline.
    pub fn to_text(&self) -> (r: Result<String, Error>)
        ensures
            r is Ok <==> fields_clean(job_fields(self)),
            r is Ok <==> !process_text(self.process@).contains('\n') && forall|i: int|
                0 <= i < self.inputs.entries@.len() ==> !(#[trigger] self.inputs.entries@[i]).0@.contains('\n'),
            r matches Ok(t) ==> t@ == record_text(job_fields(self)),
    {
        proof {
            crate::laws::lemma_job_clean(self);
        }
        to_text(&self.fields())
    }

    /// Reads a job from its record.
    pub fn from_text(text: &str) -> (r: Result<Job, DecodeError>)
        ensures
            (r matches Err(DecodeError::Record)) <==> parse_record(text@) is None,
            (r matches Err(DecodeError::Content)) <==> (parse_record(text@) matches Some(m) && job_from_map(m) is None),
            r matches Ok(j) ==> j.inputs.wf() && (parse_record(text@) matches Some(m) && job_from_map(m) == Some(j@)),
    {
        let mut a = parse_attributes(text)?;
        let ghost m = a@;
        let p = match a.consume("process") {
            Some(p) => p,
            None => return Err(DecodeError::Content),
        };
        let process = match Process::parse(p.as_str()) {
            Some(process) => process,
            None => return Err(DecodeError::Content),
        };
        if !all_keys_in(&a.0, "in/", "inref/") {
            return Err(DecodeError::Content);
        }
        let inputs = match collect_ids(&a.0, "in/", "inref/") {
            Some(t) => t,
            None => return Err(DecodeError::Content),
        };
        Ok(Job { process, inputs })
    }
}

// ---------------------------------------------------------------- Production

/// The fields of a production's record. Absent optional fields have none.
pub open spec fn production_fields(p: &Production) -> Seq<(Seq<char>, Seq<char>)> {
    seq![("job"@, hex_of(p.job@)), ("exit_code"@, decimal_text(p.exit_code as int))] + id_fields(&p.outputs)
        + id_fields(&p.dependencies) + opt_field("log"@, opt_hex(opt_id(p.log))) + opt_field(
        "invocation"@,
        opt_hex(opt_id(p.invocation)),
    ) + opt_field("cache"@, opt_hex(opt_id(p.cache))) + opt_field("_source"@, opt_text(p.source)) + opt_field(
        "start_ts"@,
        opt_ts(p.start_ts),
    ) + opt_field("end_ts"@, opt_ts(p.end_ts))
}

/// What is left of a production's record once its named fields are out.
pub open spec fn production_rest(m: Map<Seq<char>, Seq<char>>) -> Map<Seq<char>, Seq<char>> {
    m.remove("job"@).remove("invocation"@).remove("cache"@).remove("exit_code"@).remove("log"@).remove(
        "_source"@,
    ).remove("start_ts"@).remove("end_ts"@)
}

/// The production that a record describes. `job` and `exit_code` must parse,
/// and so must each optional identifier or timestamp that is present; every
/// other key begins with `dep:` or `out/` and holds an identifier.
pub open spec fn production_from_map(m: Map<Seq<char>, Seq<char>>) -> Option<ProductionView> {
    let rest = production_rest(m);
    if m.contains_key("job"@) && is_hex_of_len(m["job"@], 20) && m.contains_key("exit_code"@) && parse_i32_spec(
        m["exit_code"@],
    ) is Some && keys_within(rest, "dep:"@, "out/"@) && ids_ok(rest, "dep:"@, "dep:"@) && ids_ok(
        rest,
        "out/"@,
        "out/"@,
    ) && opt_id_ok(m, "log"@) && opt_id_ok(m, "invocation"@) && opt_id_ok(m, "cache"@) && opt_ts_ok(m, "start_ts"@)
        && opt_ts_ok(m, "end_ts"@) {
        Some(
            ProductionView {
                job: bytes_of_hex(m["job"@]),
                exit_code: parse_i32_spec(m["exit_code"@])->0,
                outputs: ids_under(rest, "out/"@, "out/"@),
                dependencies: ids_under(rest, "dep:"@, "dep:"@),
                log: id_at(m, "log"@),
                invocation: id_at(m, "invocation"@),
                cache: id_at(m, "cache"@),
                source: text_at(m, "_source"@),
                start_ts: text_at(m, "start_ts"@),
                end_ts: text_at(m, "end_ts"@),
            },
        )
    } else {
        None
    }
}

impl Production {
    /// The fields of the production's record, unsorted.
    pub fn fields(&self) -> (r: Vec<(String, String)>)
        ensures
            field_views(r@) == production_fields(self),
    {
        let mut out: Vec<(String, String)> = Vec::new();
        push_field(&mut out, "job", self.job.hex());
        push_field(&mut out, "exit_code", i32_text(self.exit_code));
        push_id_fields(&mut out, &self.outputs);
        push_id_fields(&mut out, &self.dependencies);
        push_opt_id(&mut out, "log", &self.log);
        push_opt_id(&mut out, "invocation", &self.invocation);
        push_opt_id(&mut out, "cache", &self.cache);
        push_opt_text(&mut out, "_source", opt_string(&self.source));
        push_opt_text(&mut out, "start_ts", opt_ts_text(&self.start_ts));
        push_opt_text(&mut out, "end_ts", opt_ts_text(&self.end_ts));
        proof {
            assert(field_views(out@) =~= production_fields(self));
        }
        out
    }

    /// The production's record. Fails exactly where a table key, the source
    /// or a timestamp holds a newline. Where
    /// its table keys are readable, the record reads back as the production.
    pub fn to_text(&self) -> (r: Result<String, Error>)
        ensures
            r is Ok <==> fields_clean(production_fields(self)),
            r is Ok <==> crate::laws::production_strings_clean(self),
            r matches Ok(t) ==> t@ == record_text(production_fields(self)),
            r is Ok && crate::laws::production_keys_readable(self) ==> (parse_record(r->Ok_0@) matches Some(m)
                && production_from_map(m) == Some(self@)),
    {
        if let Some(t) = &self.start_ts {
            let _ = t.text();
        }
        if let Some(t) = &self.end_ts {
            let _ = t.text();
        }
        let r = to_text(&self.fields());
        proof {
            crate::laws::lemma_production_clean(self);
            if r is Ok && crate::laws::production_keys_readable(self) {
                crate::laws::lemma_production_clean_parts(self);
                crate::laws::lemma_production_round_trip(self);
            }
        }
        r
    }

    /// Reads a production from its record.
    pub fn from_text(text: &str) -> (r: Result<Production, DecodeError>)
        ensures
            (r matches Err(DecodeError::Record)) <==> parse_record(text@) is None,
            (r matches Err(DecodeError::Content)) <==> (parse_record(text@) matches Some(m) && production_from_map(m) is None),
            r matches Ok(p) ==> p.outputs.wf() && p.dependencies.wf() && (parse_record(text@) matches Some(m)
                && production_from_map(m) == Some(p@)),
    {
        let mut a = parse_attributes(text)?;
        let ghost m = a@;
        proof {
            reveal_strlit("job");
            reveal_strlit("invocation");
            reveal_strlit("cache");
            reveal_strlit("exit_code");
            reveal_strlit("log");
            reveal_strlit("_source");
            reveal_strlit("start_ts");
            reveal_strlit("end_ts");
            assert("job"@.len() == 3 && "job"@[0] == 'j');
            assert("invocation"@.len() == 10 && "invocation"@[0] == 'i');
            assert("cache"@.len() == 5 && "cache"@[0] == 'c');
            assert("exit_code"@.len() == 9 && "exit_code"@[0] == 'e');
            assert("log"@.len() == 3 && "log"@[0] == 'l');
            assert("_source"@.len() == 7 && "_source"@[0] == '_');
            assert("start_ts"@.len() == 8 && "start_ts"@[0] == 's');
            assert("end_ts"@.len() == 6 && "end_ts"@[0] == 'e');
        }
        let job_text = match a.consume("job") {
            Some(v) => v,
            None => return Err(DecodeError::Content),
        };
        let invocation = take_id(&mut a, "invocation")?;
        let cache = take_id(&mut a, "cache")?;
        let exit_text = match a.consume("exit_code") {
            Some(v) => v,
            None => return Err(DecodeError::Content),
        };
        let log = take_id(&mut a, "log")?;
        let source = a.consume("_source");
        let start_ts = take_ts(&mut a, "start_ts")?;
        let end_ts = take_ts(&mut a, "end_ts")?;
        let job = match Id::parse(job_text.as_str()) {
            Some(id) => id,
            None => return Err(DecodeError::Content),
        };
        let exit_code = match parse_i32(exit_text.as_str()) {
            Some(n) => n,
            None => return Err(DecodeError::Content),
        };
        proof {
            assert(a@ == production_rest(m));
        }
        if !all_keys_in(&a.0, "dep:", "out/") {
            return Err(DecodeError::Content);
        }
        let dependencies = match collect_ids(&a.0, "dep:", "dep:") {
            Some(t) => t,
            None => return Err(DecodeError::Content),
        };
        let outputs = match collect_ids(&a.0, "out/", "out/") {
            Some(t) => t,
            None => return Err(DecodeError::Content),
        };
        let p = Production {
            job,
            exit_code,
            outputs,
            dependencies,
            log,
            invocation,
            cache,
            source,
            start_ts,
            end_ts,
        };
        proof {
            assert(opt_text(p.source) == text_at(m, "_source"@));
        }
        Ok(p)
    }
}

// ---------------------------------------------------------------- Invocation

pub open spec fn status_text(s: InvocationStatus) -> Seq<char> {
    match s {
        InvocationStatus::Success => "ok"@,
        InvocationStatus::Fail => "fail"@,
    }
}

pub open spec fn parse_status(s: Seq<char>) -> Option<InvocationStatus> {
    if s == "ok"@ {
        Some(InvocationStatus::Success)
    } else if s == "fail"@ {
        Some(InvocationStatus::Fail)
    } else {
        None
    }
}

/// The fields of an invocation's record.
pub open spec fn invocation_fields(i: &Invocation) -> Seq<(Seq<char>, Seq<char>)> {
    opt_field("production"@, opt_hex(opt_id(i.production))) + id_fields(&i.partial_productions) + seq![
        ("status"@, status_text(i.status)),
        ("plan"@, hex_of(i.plan@)),
    ]
}

pub open spec fn invocation_rest(m: Map<Seq<char>, Seq<char>>) -> Map<Seq<char>, Seq<char>> {
    m.remove("production"@).remove("plan"@).remove("status"@)
}

/// The invocation that a record describes. `plan` and `status` must parse,
/// and so must `production` where it is present; every other key begins with
/// `partial_production:` and holds an identifier.
pub open spec fn invocation_from_map(m: Map<Seq<char>, Seq<char>>) -> Option<InvocationView> {
    let rest = invocation_rest(m);
    let pp = "partial_production:"@;
    if m.contains_key("plan"@) && is_hex_of_len(m["plan"@], 20) && m.contains_key("status"@) && parse_status(
        m["status"@],
    ) is Some && keys_within(rest, pp, pp) && ids_ok(rest, pp, pp) && opt_id_ok(m, "production"@) {
        Some(
            InvocationView {
                production: id_at(m, "production"@),
                partial_productions: ids_under(rest, pp, pp),
                status: parse_status(m["status"@])->0,
                plan: bytes_of_hex(m["plan"@]),
            },
        )
    } else {
        None
    }
}

impl InvocationStatus {
    /// `ok` or `fail`.
    pub fn text(&self) -> (r: String)
        ensures
            r@ == status_text(*self),
    {
        match self {
            InvocationStatus::Success => "ok".to_owned(),
            InvocationStatus::Fail => "fail".to_owned(),
        }
    }

    pub fn parse(s: &str) -> (r: Option<InvocationStatus>)
        ensures
            r == parse_status(s@),
    {
        if str_eq(s, "ok") {
            Some(InvocationStatus::Success)
        } else if str_eq(s, "fail") {
            Some(InvocationStatus::Fail)
        } else {
            None
        }
    }
}

impl Invocation {
    /// The fields of the invocation's record, unsorted.
    pub fn fields(&self) -> (r: Vec<(String, String)>)
        ensures
            field_views(r@) == invocation_fields(self),
    {
        let mut out: Vec<(String, String)> = Vec::new();
        push_opt_id(&mut out, "production", &self.production);
        push_id_fields(&mut out, &self.partial_productions);
        push_field(&mut out, "status", self.status.text());
        push_field(&mut out, "plan", self.plan.hex());
        proof {
            assert(field_views(out@) =~= invocation_fields(self));
        }
        out
    }

    /// The invocation's record. Fails exactly where a partial key holds a
    /// newline.
    pub fn to_text(&self) -> (r: Result<String, Error>)
        ensures
            r is Ok <==> fields_clean(invocation_fields(self)),
            r is Ok <==> forall|i: int| 0 <= i < self.partial_productions.entries@.len()
                ==> !(#[trigger] self.partial_productions.entries@[i]).0@.contains('\n'),
            r matches Ok(t) ==> t@ == record_text(invocation_fields(self)),
    {
        proof {
            crate::laws::lemma_invocation_clean(self);
        }
        to_text(&self.fields())
    }

    /// Reads an invocation from its record.
    pub fn from_text(text: &str) -> (r: Result<Invocation, DecodeError>)
        ensures
            (r matches Err(DecodeError::Record)) <==> parse_record(text@) is None,
            (r matches Err(DecodeError::Content)) <==> (parse_record(text@) matches Some(m) && invocation_from_map(m) is None),
            r matches Ok(i) ==> i.partial_productions.wf() && (parse_record(text@) matches Some(m)
                && invocation_from_map(m) == Some(i@)),
    {
        let mut a = parse_attributes(text)?;
        let ghost m = a@;
        proof {
            reveal_strlit("production");
            reveal_strlit("plan");
            reveal_strlit("status");
            assert("production"@.len() == 10 && "production"@[0] == 'p');
            assert("plan"@.len() == 4 && "plan"@[0] == 'p');
            assert("status"@.len() == 6 && "status"@[0] == 's');
        }
        let production = take_id(&mut a, "production")?;
        let plan_text = match a.consume("plan") {
            Some(v) => v,
            None => return Err(DecodeError::Content),
        };
        let status_text = match a.consume("status") {
            Some(v) => v,
            None => return Err(DecodeError::Content),
        };
        let plan = match Id::parse(plan_text.as_str()) {
            Some(id) => id,
            None => return Err(DecodeError::Content),
        };
        let status = match InvocationStatus::parse(status_text.as_str()) {
            Some(s) => s,
            None => return Err(DecodeError::Content),
        };
        if !all_keys_in(&a.0, "partial_production:", "partial_production:") {
            return Err(DecodeError::Content);
        }
        let partial_productions = match collect_ids(&a.0, "partial_production:", "partial_production:") {
            Some(t) => t,
            None => return Err(DecodeError::Content),
        };
        Ok(Invocation { production, partial_productions, status, plan })
    }
}

} // verus!
