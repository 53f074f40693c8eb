//! Laws that relate the library's functions: objects read back as written,
//! shared identity steps, and directory expansion.

use crate::attributes::{split_lines, lemma_record_text_determined, fields_readable, fields_clean, parse_record, record_text, lemma_record_round_trip, lemma_split_once, first_at};
use crate::id::{bytes_of_hex, hex_of, is_hex_of_len, lemma_hex_round_trip};
use crate::object::{parse_process, process_text, Job, JobView, ProcessView, StepView, InputView};
use crate::plan::{encode_inputs, expand_dir, file_source, identity_pos, identity_ref, identity_step, TextInputView};
use crate::records::{
    id_fields, ids_ok, ids_under, invocation_fields, invocation_from_map, invocation_rest, job_fields, job_from_map,
    key_in, keys_within, id_at, opt_field, opt_hex, parse_status, status_text,
};
use crate::object::{opt_id, opt_text, opt_ts, Invocation, Production};
use crate::records::{opt_id_ok, opt_ts_ok, production_fields, production_from_map, production_rest, text_at};
use crate::text::{decimal_text, is_timestamp_text, lemma_decimal_round_trip, parse_i32_spec};
use crate::scheduler::ends_slash;
use crate::plan::{encode_steps, plan_step, parse_text_input, text_input_text, text_step_fields, text_step_from_map, text_step_rest, TextStep};
use crate::table::{entry_views, keys_unique, lemma_pairs_map_dom, lemma_pairs_map_value, pairs_map, lemma_table_entry, lemma_table_keys};
use crate::text::starts_with;
use vstd::prelude::*;

verus! {

/// Reading back the text form of a process gives the process.
pub proof fn lemma_process_round_trip(p: ProcessView)
    ensures
        parse_process(process_text(p)) == Some(p),
{
    reveal_strlit("identity");
    reveal_strlit("dynamic");
    reveal_strlit("command:");
    reveal_strlit("nested:");
    reveal_strlit("command");
    reveal_strlit("nested");
    match p {
        ProcessView::Command(c) => {
            let s = process_text(p);
            assert(s[7] == ':');
            assert(first_at(s, ':', 7));
            lemma_split_once(s, ':', 7);
            assert(s.take(7) =~= "command"@);
            assert(s.skip(8) =~= c);
            assert(s != "identity"@) by {
                assert(s[0] != "identity"@[0]);
            }
            assert(s != "dynamic"@) by {
                assert(s[0] != "dynamic"@[0]);
            }
        },
        ProcessView::Nested(c) => {
            let s = process_text(p);
            assert(s[6] == ':');
            assert(first_at(s, ':', 6));
            lemma_split_once(s, ':', 6);
            assert(s.take(6) =~= "nested"@);
            assert(s.skip(7) =~= c);
            assert(s != "identity"@) by {
                assert(s[0] != "identity"@[0]);
            }
            assert(s != "dynamic"@) by {
                assert(s[0] != "dynamic"@[0]);
            }
            assert(s.take(6) != "command"@);
        },
        ProcessView::Dynamic => {
            assert("dynamic"@ != "identity"@) by {
                assert("dynamic"@[0] != "identity"@[0]);
            }
        },
        ProcessView::Identity => {},
    }
}

/// A job whose record reads back: its input keys lie under `in/` or
/// `inref/` and hold no `=` or newline, and its process text no newline.
pub open spec fn job_readable(j: &Job) -> bool {
    &&& j.inputs.wf()
    &&& !process_text(j.process@).contains('\n')
    &&& forall|i: int| 0 <= i < j.inputs.entries@.len() ==> key_in(#[trigger] j.inputs.entries@[i].0@, "in/"@, "inref/"@)
        && !j.inputs.entries@[i].0@.contains('=') && !j.inputs.entries@[i].0@.contains('\n')
}

/// A job's record reads back as the job: writing it succeeds, and reading
/// the text gives the same process and inputs.
pub proof fn lemma_job_round_trip(j: &Job)
    requires
        job_readable(j),
    ensures
        fields_clean(job_fields(j)),
        parse_record(record_text(job_fields(j))) matches Some(m) && job_from_map(m) == Some(j@),
{
    let f = job_fields(j);
    let e = j.inputs.entries@;
    let pk = "process"@;
    reveal_strlit("process");
    reveal_strlit("in/");
    reveal_strlit("inref/");
    assert(pk.len() == 7 && pk[0] == 'p');
    assert(!pk.contains('=') && !pk.contains('\n')) by {
        assert(pk =~= seq!['p', 'r', 'o', 'c', 'e', 's', 's']);
    }
    assert forall|i: int| 1 <= i < f.len() implies (#[trigger] f[i]).0 == e[i - 1].0@ && f[i].1 == hex_of(e[i - 1].1@)
        && key_in(f[i].0, "in/"@, "inref/"@) && f[i].0[0] == 'i' by {
        assert(key_in(e[i - 1].0@, "in/"@, "inref/"@));
        if starts_with(e[i - 1].0@, "in/"@) {
            assert(e[i - 1].0@[0] == e[i - 1].0@.take(3)[0]);
        } else {
            assert(e[i - 1].0@[0] == e[i - 1].0@.take(6)[0]);
        }
    }
    assert forall|i: int| 0 <= i < f.len() implies !(#[trigger] f[i]).0.contains('\n') && !f[i].1.contains('\n') && !f[i].0.contains('=') by {
        if i > 0 {
            lemma_hex_round_trip(e[i - 1].1@);
        }
    }
    assert(keys_unique(f)) by {
        assert forall|a: int, b: int| 0 <= a < b < f.len() implies f[a].0 != f[b].0 by {
            if a > 0 {
                assert(entry_views(e)[a - 1].0 != entry_views(e)[b - 1].0);
            } else {
                assert(f[b].0[0] == 'i');
            }
        }
    }
    lemma_record_round_trip(f);
    let m = pairs_map(f);
    lemma_pairs_map_value(f, 0);
    lemma_process_round_trip(j.process@);
    let rest = m.remove(pk);
    assert forall|k: Seq<char>| #[trigger] rest.contains_key(k) <==> j.inputs@.contains_key(k) by {
        lemma_pairs_map_dom(f, k);
        lemma_table_keys(&j.inputs, k);
        if rest.contains_key(k) {
            let i = choose|i: int| 0 <= i < f.len() && f[i].0 == k;
            assert(i != 0);
            assert(e[i - 1].0@ == k);
        }
        if j.inputs@.contains_key(k) {
            let i = choose|i: int| 0 <= i < e.len() && #[trigger] e[i].0@ == k;
            assert(f[i + 1].0 == k);
            assert(k[0] == 'i');
        }
    }
    assert forall|k: Seq<char>| #[trigger] rest.contains_key(k) implies key_in(k, "in/"@, "inref/"@) && is_hex_of_len(rest[k], 20)
        && bytes_of_hex(rest[k]) == j.inputs@[k] by {
        lemma_table_keys(&j.inputs, k);
        let i = choose|i: int| 0 <= i < e.len() && #[trigger] e[i].0@ == k;
        lemma_table_entry(&j.inputs, i);
        lemma_pairs_map_value(f, i + 1);
        assert(f[i + 1].0 == k);
        lemma_hex_round_trip(e[i].1@);
        assert(e[i].1@.len() == 20);
    }
    assert(keys_within(rest, "in/"@, "inref/"@));
    assert(ids_ok(rest, "in/"@, "inref/"@));
    assert(ids_under(rest, "in/"@, "inref/"@) =~= j.inputs@);
}

/// Each key of a sequence of fields with unique keys has the value of its field.
proof fn lemma_field_value(f: Seq<(Seq<char>, Seq<char>)>, k: Seq<char>, v: Seq<char>)
    requires
        keys_unique(f),
        f.contains((k, v)),
    ensures
        pairs_map(f).contains_key(k),
        pairs_map(f)[k] == v,
{
    let i = choose|i: int| 0 <= i < f.len() && f[i] == (k, v);
    lemma_pairs_map_value(f, i);
}

/// An invocation whose record reads back: its partial keys lie under
/// `partial_production:` and hold no `=` or newline.
pub open spec fn invocation_readable(v: &Invocation) -> bool {
    &&& v.partial_productions.wf()
    &&& forall|i: int| 0 <= i < v.partial_productions.entries@.len() ==> starts_with(
        #[trigger] v.partial_productions.entries@[i].0@,
        "partial_production:"@,
    ) && !v.partial_productions.entries@[i].0@.contains('=') && !v.partial_productions.entries@[i].0@.contains('\n')
}

/// An invocation's record reads back as the invocation.
#[verifier::spinoff_prover]
#[verifier::rlimit(100)]
pub proof fn lemma_invocation_round_trip(v: &Invocation)
    requires
        invocation_readable(v),
    ensures
        fields_clean(invocation_fields(v)),
        fields_readable(invocation_fields(v)),
        keys_unique(invocation_fields(v)),
        parse_record(record_text(invocation_fields(v))) matches Some(m) && invocation_from_map(m) == Some(v@),
{
    let pp = "partial_production:"@;
    reveal_strlit("partial_production:");
    reveal_strlit("production");
    reveal_strlit("status");
    reveal_strlit("plan");
    reveal_strlit("ok");
    reveal_strlit("fail");
    let a = opt_field("production"@, opt_hex(opt_id(v.production)));
    let b = id_fields(&v.partial_productions);
    let c = seq![("status"@, status_text(v.status)), ("plan"@, hex_of(v.plan@))];
    let f = invocation_fields(v);
    assert(f == a + b + c);
    let e = v.partial_productions.entries@;
    assert("production"@ =~= seq!['p', 'r', 'o', 'd', 'u', 'c', 't', 'i', 'o', 'n']);
    assert("status"@ =~= seq!['s', 't', 'a', 't', 'u', 's']);
    assert("plan"@ =~= seq!['p', 'l', 'a', 'n']);
    assert("ok"@ =~= seq!['o', 'k']);
    assert("fail"@ =~= seq!['f', 'a', 'i', 'l']);
    assert(pp.len() == 19 && pp[0] == 'p' && pp[1] == 'a');
    assert forall|i: int| 0 <= i < b.len() implies (#[trigger] b[i]).0 == e[i].0@ && b[i].1 == hex_of(e[i].1@)
        && b[i].0.len() >= 19 && b[i].0[0] == 'p' && b[i].0[1] == 'a' by {
        assert(starts_with(e[i].0@, pp));
        assert(e[i].0@[0] == e[i].0@.take(19)[0]);
        assert(e[i].0@[1] == e[i].0@.take(19)[1]);
    }
    if let Some(id) = v.production {
        lemma_hex_round_trip(id@);
    }
    lemma_hex_round_trip(v.plan@);
    assert forall|i: int| 0 <= i < f.len() implies !(#[trigger] f[i]).0.contains('\n') && !f[i].1.contains('\n') && !f[i].0.contains('=') by {
        if a.len() <= i < a.len() + b.len() {
            assert(f[i] == b[i - a.len()]);
            lemma_hex_round_trip(e[i - a.len()].1@);
        }
    }
    assert(keys_unique(f)) by {
        assert forall|x: int, y: int| 0 <= x < y < f.len() implies f[x].0 != f[y].0 by {
            if a.len() <= x < a.len() + b.len() && a.len() <= y < a.len() + b.len() {
                assert(entry_views(e)[x - a.len()].0 != entry_views(e)[y - a.len()].0);
            } else if a.len() <= x < a.len() + b.len() {
                assert(f[x] == b[x - a.len()]);
            } else if a.len() <= y < a.len() + b.len() {
                assert(f[y] == b[y - a.len()]);
            }
        }
    }
    lemma_record_round_trip(f);
    let m = pairs_map(f);
    assert(f.contains(("status"@, status_text(v.status)))) by {
        assert(f[(a.len() + b.len()) as int] == ("status"@, status_text(v.status)));
    }
    assert(f.contains(("plan"@, hex_of(v.plan@)))) by {
        assert(f[(a.len() + b.len() + 1) as int] == ("plan"@, hex_of(v.plan@)));
    }
    lemma_field_value(f, "status"@, status_text(v.status));
    lemma_field_value(f, "plan"@, hex_of(v.plan@));
    assert(parse_status(status_text(v.status)) == Some(v.status));
    match v.production {
        Some(id) => {
            assert(f[0] == ("production"@, hex_of(id@)));
            lemma_field_value(f, "production"@, hex_of(id@));
            assert(id_at(m, "production"@) == Some(id@));
            assert(opt_id_ok(m, "production"@));
        },
        None => {
            lemma_pairs_map_dom(f, "production"@);
            if m.contains_key("production"@) {
                let i = choose|i: int| 0 <= i < f.len() && f[i].0 == "production"@;
                if a.len() <= i < a.len() + b.len() {
                    assert(f[i] == b[i - a.len()]);
                }
            }
            assert(id_at(m, "production"@) is None);
            assert(opt_id_ok(m, "production"@));
        },
    }
    let rest = invocation_rest(m);
    assert forall|k: Seq<char>| #[trigger] rest.contains_key(k) <==> v.partial_productions@.contains_key(k) by {
        lemma_pairs_map_dom(f, k);
        lemma_table_keys(&v.partial_productions, k);
        if rest.contains_key(k) {
            let i = choose|i: int| 0 <= i < f.len() && f[i].0 == k;
            if a.len() <= i < a.len() + b.len() {
                assert(f[i] == b[i - a.len()]);
                assert(e[i - a.len()].0@ == k);
            } else if i >= a.len() + b.len() {
                assert(f[i] == c[i - a.len() - b.len()]);
            }
        }
        if v.partial_productions@.contains_key(k) {
            let i = choose|i: int| 0 <= i < e.len() && #[trigger] e[i].0@ == k;
            assert(f[a.len() + i] == b[i]);
        }
    }
    assert forall|k: Seq<char>| #[trigger] rest.contains_key(k) implies key_in(k, pp, pp) && is_hex_of_len(rest[k], 20)
        && bytes_of_hex(rest[k]) == v.partial_productions@[k] by {
        lemma_table_keys(&v.partial_productions, k);
        let i = choose|i: int| 0 <= i < e.len() && #[trigger] e[i].0@ == k;
        lemma_table_entry(&v.partial_productions, i);
        assert(f[a.len() + i] == b[i]);
        lemma_pairs_map_value(f, a.len() + i);
        lemma_hex_round_trip(e[i].1@);
        assert(e[i].1@.len() == 20);
    }
    assert(keys_within(rest, pp, pp));
    assert(ids_ok(rest, pp, pp));
    assert forall|k: Seq<char>| #[trigger] ids_under(rest, pp, pp).contains_key(k) <==> v.partial_productions@.contains_key(k) by {
        if v.partial_productions@.contains_key(k) {
            assert(rest.contains_key(k));
        }
    }
    assert forall|k: Seq<char>| #[trigger] ids_under(rest, pp, pp).contains_key(k) implies ids_under(rest, pp, pp)[k] == v.partial_productions@[k] by {
        assert(rest.contains_key(k));
    }
    assert(ids_under(rest, pp, pp) =~= v.partial_productions@);
}

proof fn lemma_unique_concat(x: Seq<(Seq<char>, Seq<char>)>, y: Seq<(Seq<char>, Seq<char>)>)
    requires
        keys_unique(x),
        keys_unique(y),
        forall|i: int, j: int| 0 <= i < x.len() && 0 <= j < y.len() ==> x[i].0 != y[j].0,
    ensures
        keys_unique(x + y),
{
    assert forall|i: int, j: int| 0 <= i < j < (x + y).len() implies (x + y)[i].0 != (x + y)[j].0 by {
        if j < x.len() {
        } else if i < x.len() {
            assert((x + y)[j] == y[j - x.len()]);
        } else {
            assert((x + y)[i] == y[i - x.len()]);
            assert((x + y)[j] == y[j - x.len()]);
        }
    }
}

/// The keys that a production's record names outside its tables.
pub open spec fn production_key(k: Seq<char>) -> bool {
    k == "job"@ || k == "exit_code"@ || k == "log"@ || k == "invocation"@ || k == "cache"@ || k == "_source"@
        || k == "start_ts"@ || k == "end_ts"@
}

/// Output keys lie under `out/`, dependency keys under `dep:`, and none holds
/// `=` or a newline.
pub open spec fn production_keys_readable(p: &Production) -> bool {
    &&& p.outputs.wf()
    &&& p.dependencies.wf()
    &&& forall|i: int| 0 <= i < p.outputs.entries@.len() ==> starts_with(#[trigger] p.outputs.entries@[i].0@, "out/"@)
        && !p.outputs.entries@[i].0@.contains('=') && !p.outputs.entries@[i].0@.contains('\n')
    &&& forall|i: int| 0 <= i < p.dependencies.entries@.len() ==> starts_with(#[trigger] p.dependencies.entries@[i].0@, "dep:"@)
        && !p.dependencies.entries@[i].0@.contains('=') && !p.dependencies.entries@[i].0@.contains('\n')
}

/// Where a production's record is clean, its source and timestamps hold no
/// newline.
pub proof fn lemma_production_clean_parts(p: &Production)
    requires
        fields_clean(production_fields(p)),
    ensures
        p.source matches Some(s) ==> !s@.contains('\n'),
        p.start_ts matches Some(t) ==> !t@.contains('\n'),
        p.end_ts matches Some(t) ==> !t@.contains('\n'),
{
    let a = seq![("job"@, hex_of(p.job@)), ("exit_code"@, decimal_text(p.exit_code as int))];
    let b = id_fields(&p.outputs);
    let d = id_fields(&p.dependencies);
    let o1 = opt_field("log"@, opt_hex(opt_id(p.log)));
    let o2 = opt_field("invocation"@, opt_hex(opt_id(p.invocation)));
    let o3 = opt_field("cache"@, opt_hex(opt_id(p.cache)));
    let o4 = opt_field("_source"@, opt_text(p.source));
    let o5 = opt_field("start_ts"@, opt_ts(p.start_ts));
    let o6 = opt_field("end_ts"@, opt_ts(p.end_ts));
    let f = production_fields(p);
    assert(f == a + b + d + o1 + o2 + o3 + o4 + o5 + o6);
    assert forall|e: (Seq<char>, Seq<char>)| o4.contains(e) || o5.contains(e) || o6.contains(e) implies #[trigger] f.contains(e) by {
        lemma_concat_contains(a + b + d + o1 + o2 + o3, o4, e);
        lemma_concat_contains(a + b + d + o1 + o2 + o3 + o4, o5, e);
        lemma_concat_contains(a + b + d + o1 + o2 + o3 + o4 + o5, o6, e);
    }
    assert forall|e: (Seq<char>, Seq<char>)| #[trigger] f.contains(e) implies !e.1.contains('\n') by {
        let i = choose|i: int| 0 <= i < f.len() && f[i] == e;
        assert(!f[i].1.contains('\n'));
    }
    if let Some(x) = p.source {
        assert(o4.contains(o4[0]));
        assert(f.contains(o4[0]));
        assert(o4[0] == ("_source"@, x@) && o4.contains(o4[0]));
    }
    if let Some(x) = p.start_ts {
        assert(o5.contains(o5[0]));
        assert(f.contains(o5[0]));
        assert(o5[0] == ("start_ts"@, x@) && o5.contains(o5[0]));
    }
    if let Some(x) = p.end_ts {
        assert(o6.contains(o6[0]));
        assert(f.contains(o6[0]));
        assert(o6[0] == ("end_ts"@, x@) && o6.contains(o6[0]));
    }
}

/// A production whose record reads back: output keys lie under `out/`,
/// dependency keys under `dep:`, none holds `=` or a newline, and the source
/// and timestamps hold no newline; the timestamps are ones that chrono reads.
pub open spec fn production_readable(p: &Production) -> bool {
    &&& production_keys_readable(p)
    &&& p.source matches Some(s) ==> !s@.contains('\n')
    &&& p.start_ts matches Some(t) ==> !t@.contains('\n') && is_timestamp_text(t@)
    &&& p.end_ts matches Some(t) ==> !t@.contains('\n') && is_timestamp_text(t@)
}

proof fn lemma_table_fields<T>(t: &crate::table::Table<crate::id::Id<T>>, prefix: Seq<char>, c: char)
    requires
        t.wf(),
        prefix.len() > 0,
        prefix[0] == c,
        forall|i: int| 0 <= i < t.entries@.len() ==> starts_with(#[trigger] t.entries@[i].0@, prefix)
            && !t.entries@[i].0@.contains('=') && !t.entries@[i].0@.contains('\n'),
    ensures
        keys_unique(id_fields(t)),
        forall|i: int| 0 <= i < id_fields(t).len() ==> (#[trigger] id_fields(t)[i]).0 == t.entries@[i].0@
            && id_fields(t)[i].1 == hex_of(t.entries@[i].1@) && id_fields(t)[i].0.len() > 0 && id_fields(t)[i].0[0] == c
            && starts_with(id_fields(t)[i].0, prefix) && !id_fields(t)[i].0.contains('=') && !id_fields(t)[i].0.contains('\n')
            && !id_fields(t)[i].1.contains('\n') && is_hex_of_len(id_fields(t)[i].1, 20)
            && bytes_of_hex(id_fields(t)[i].1) == t.entries@[i].1@,
{
    let e = t.entries@;
    assert forall|i: int| 0 <= i < id_fields(t).len() implies (#[trigger] id_fields(t)[i]).0 == e[i].0@
        && id_fields(t)[i].1 == hex_of(e[i].1@) && id_fields(t)[i].0.len() > 0 && id_fields(t)[i].0[0] == c
        && starts_with(id_fields(t)[i].0, prefix) && !id_fields(t)[i].0.contains('=') && !id_fields(t)[i].0.contains('\n')
        && !id_fields(t)[i].1.contains('\n') && is_hex_of_len(id_fields(t)[i].1, 20)
        && bytes_of_hex(id_fields(t)[i].1) == e[i].1@ by {
        assert(starts_with(e[i].0@, prefix));
        assert(e[i].0@[0] == e[i].0@.take(prefix.len() as int)[0]);
        lemma_hex_round_trip(e[i].1@);
        assert(e[i].1@.len() == 20);
    }
    assert forall|a: int, b: int| 0 <= a < b < id_fields(t).len() implies id_fields(t)[a].0 != id_fields(t)[b].0 by {
        assert(entry_views(e)[a].0 != entry_views(e)[b].0);
    }
}

#[verifier::spinoff_prover]
#[verifier::rlimit(100)]
proof fn lemma_production_fields(p: &Production)
    requires
        production_readable(p),
    ensures
        fields_clean(production_fields(p)),
        fields_readable(production_fields(p)),
        keys_unique(production_fields(p)),
        forall|e: (Seq<char>, Seq<char>)| #[trigger] production_fields(p).contains(e) ==> (e == ("job"@, hex_of(p.job@)))
            || (e == ("exit_code"@, decimal_text(p.exit_code as int))) || id_fields(&p.outputs).contains(e)
            || id_fields(&p.dependencies).contains(e) || opt_field("log"@, opt_hex(opt_id(p.log))).contains(e)
            || opt_field("invocation"@, opt_hex(opt_id(p.invocation))).contains(e)
            || opt_field("cache"@, opt_hex(opt_id(p.cache))).contains(e) || opt_field("_source"@, opt_text(p.source)).contains(e)
            || opt_field("start_ts"@, opt_ts(p.start_ts)).contains(e) || opt_field("end_ts"@, opt_ts(p.end_ts)).contains(e),
        forall|e: (Seq<char>, Seq<char>)| #[trigger] id_fields(&p.outputs).contains(e) ==> production_fields(p).contains(e),
        forall|e: (Seq<char>, Seq<char>)| #[trigger] id_fields(&p.dependencies).contains(e) ==> production_fields(p).contains(e),
        forall|e: (Seq<char>, Seq<char>)| #[trigger] opt_field("log"@, opt_hex(opt_id(p.log))).contains(e) ==> production_fields(p).contains(e),
        forall|e: (Seq<char>, Seq<char>)| #[trigger] opt_field("invocation"@, opt_hex(opt_id(p.invocation))).contains(e) ==> production_fields(p).contains(e),
        forall|e: (Seq<char>, Seq<char>)| #[trigger] opt_field("cache"@, opt_hex(opt_id(p.cache))).contains(e) ==> production_fields(p).contains(e),
        forall|e: (Seq<char>, Seq<char>)| #[trigger] opt_field("_source"@, opt_text(p.source)).contains(e) ==> production_fields(p).contains(e),
        forall|e: (Seq<char>, Seq<char>)| #[trigger] opt_field("start_ts"@, opt_ts(p.start_ts)).contains(e) ==> production_fields(p).contains(e),
        forall|e: (Seq<char>, Seq<char>)| #[trigger] opt_field("end_ts"@, opt_ts(p.end_ts)).contains(e) ==> production_fields(p).contains(e),
        production_fields(p).contains(("job"@, hex_of(p.job@))),
        production_fields(p).contains(("exit_code"@, decimal_text(p.exit_code as int))),
{
    reveal_strlit("job");
    reveal_strlit("exit_code");
    reveal_strlit("log");
    reveal_strlit("invocation");
    reveal_strlit("cache");
    reveal_strlit("_source");
    reveal_strlit("start_ts");
    reveal_strlit("end_ts");
    reveal_strlit("out/");
    reveal_strlit("dep:");
    assert("job"@ =~= seq!['j', 'o', 'b']);
    assert("exit_code"@ =~= seq!['e', 'x', 'i', 't', '_', 'c', 'o', 'd', 'e']);
    assert("log"@ =~= seq!['l', 'o', 'g']);
    assert("invocation"@ =~= seq!['i', 'n', 'v', 'o', 'c', 'a', 't', 'i', 'o', 'n']);
    assert("cache"@ =~= seq!['c', 'a', 'c', 'h', 'e']);
    assert("_source"@ =~= seq!['_', 's', 'o', 'u', 'r', 'c', 'e']);
    assert("start_ts"@ =~= seq!['s', 't', 'a', 'r', 't', '_', 't', 's']);
    assert("end_ts"@ =~= seq!['e', 'n', 'd', '_', 't', 's']);
    assert("out/"@ =~= seq!['o', 'u', 't', '/']);
    assert("dep:"@ =~= seq!['d', 'e', 'p', ':']);
    lemma_table_fields(&p.outputs, "out/"@, 'o');
    lemma_table_fields(&p.dependencies, "dep:"@, 'd');
    lemma_hex_round_trip(p.job@);
    lemma_decimal_round_trip(p.exit_code as int);
    let a = seq![("job"@, hex_of(p.job@)), ("exit_code"@, decimal_text(p.exit_code as int))];
    let b = id_fields(&p.outputs);
    let d = id_fields(&p.dependencies);
    let o1 = opt_field("log"@, opt_hex(opt_id(p.log)));
    let o2 = opt_field("invocation"@, opt_hex(opt_id(p.invocation)));
    let o3 = opt_field("cache"@, opt_hex(opt_id(p.cache)));
    let o4 = opt_field("_source"@, opt_text(p.source));
    let o5 = opt_field("start_ts"@, opt_ts(p.start_ts));
    let o6 = opt_field("end_ts"@, opt_ts(p.end_ts));
    let f = production_fields(p);
    assert(f == a + b + d + o1 + o2 + o3 + o4 + o5 + o6);
    if let Some(x) = p.log {
        lemma_hex_round_trip(x@);
    }
    if let Some(x) = p.invocation {
        lemma_hex_round_trip(x@);
    }
    if let Some(x) = p.cache {
        lemma_hex_round_trip(x@);
    }
    assert(!decimal_text(p.exit_code as int).contains('\n')) by {
        let s = decimal_text(p.exit_code as int);
        assert(crate::text::decimal_value(s) is Some);
        if s.contains('\n') {
            let i = choose|i: int| 0 <= i < s.len() && s[i] == '\n';
            if s.len() > 0 && (s[0] == '-' || s[0] == '+') && crate::text::all_digits(s.drop_first()) {
                if i > 0 {
                    assert(s.drop_first()[i - 1] == '\n');
                    assert(crate::text::is_digit(s.drop_first()[i - 1]));
                }
            } else {
                assert(crate::text::is_digit(s[i]));
            }
        }
    }
    lemma_unique_concat(a, b);
    lemma_unique_concat(a + b, d);
    lemma_unique_concat(a + b + d, o1);
    lemma_unique_concat(a + b + d + o1, o2);
    lemma_unique_concat(a + b + d + o1 + o2, o3);
    lemma_unique_concat(a + b + d + o1 + o2 + o3, o4);
    lemma_unique_concat(a + b + d + o1 + o2 + o3 + o4, o5);
    lemma_unique_concat(a + b + d + o1 + o2 + o3 + o4 + o5, o6);
    assert(fields_clean(f));
    assert forall|e: (Seq<char>, Seq<char>)| #[trigger] f.contains(e) <==> a.contains(e) || b.contains(e) || d.contains(e)
        || o1.contains(e) || o2.contains(e) || o3.contains(e) || o4.contains(e) || o5.contains(e) || o6.contains(e) by {
        lemma_concat_contains(a, b, e);
        lemma_concat_contains(a + b, d, e);
        lemma_concat_contains(a + b + d, o1, e);
        lemma_concat_contains(a + b + d + o1, o2, e);
        lemma_concat_contains(a + b + d + o1 + o2, o3, e);
        lemma_concat_contains(a + b + d + o1 + o2 + o3, o4, e);
        lemma_concat_contains(a + b + d + o1 + o2 + o3 + o4, o5, e);
        lemma_concat_contains(a + b + d + o1 + o2 + o3 + o4 + o5, o6, e);
    }
    assert(a.contains(a[0]) && a.contains(a[1]));
}

/// A production's record reads back as the production: every field, and an
/// absent optional field stays absent while an empty source stays empty.
#[verifier::spinoff_prover]
#[verifier::rlimit(100)]
pub proof fn lemma_production_round_trip(p: &Production)
    requires
        production_readable(p),
    ensures
        fields_clean(production_fields(p)),
        parse_record(record_text(production_fields(p))) matches Some(m) && production_from_map(m) == Some(p@),
{
    reveal_strlit("job");
    reveal_strlit("exit_code");
    reveal_strlit("log");
    reveal_strlit("invocation");
    reveal_strlit("cache");
    reveal_strlit("_source");
    reveal_strlit("start_ts");
    reveal_strlit("end_ts");
    reveal_strlit("out/");
    reveal_strlit("dep:");
    assert("job"@ =~= seq!['j', 'o', 'b']);
    assert("exit_code"@ =~= seq!['e', 'x', 'i', 't', '_', 'c', 'o', 'd', 'e']);
    assert("log"@ =~= seq!['l', 'o', 'g']);
    assert("invocation"@ =~= seq!['i', 'n', 'v', 'o', 'c', 'a', 't', 'i', 'o', 'n']);
    assert("cache"@ =~= seq!['c', 'a', 'c', 'h', 'e']);
    assert("_source"@ =~= seq!['_', 's', 'o', 'u', 'r', 'c', 'e']);
    assert("start_ts"@ =~= seq!['s', 't', 'a', 'r', 't', '_', 't', 's']);
    assert("end_ts"@ =~= seq!['e', 'n', 'd', '_', 't', 's']);
    assert("out/"@ =~= seq!['o', 'u', 't', '/']);
    assert("dep:"@ =~= seq!['d', 'e', 'p', ':']);
    lemma_production_fields(p);
    lemma_table_fields(&p.outputs, "out/"@, 'o');
    lemma_table_fields(&p.dependencies, "dep:"@, 'd');
    lemma_hex_round_trip(p.job@);
    lemma_decimal_round_trip(p.exit_code as int);
    let f = production_fields(p);
    let b = id_fields(&p.outputs);
    let d = id_fields(&p.dependencies);
    if let Some(x) = p.log {
        lemma_hex_round_trip(x@);
    }
    if let Some(x) = p.invocation {
        lemma_hex_round_trip(x@);
    }
    if let Some(x) = p.cache {
        lemma_hex_round_trip(x@);
    }
    // every field's key: a named one, or a table key beginning with `o` or `d`
    assert forall|e: (Seq<char>, Seq<char>)| #[trigger] f.contains(e) implies production_key(e.0) || (b.contains(e) && e.0[0] == 'o') || (d.contains(e) && e.0[0] == 'd') by {
        if b.contains(e) {
            let i = choose|i: int| 0 <= i < b.len() && b[i] == e;
        }
        if d.contains(e) {
            let i = choose|i: int| 0 <= i < d.len() && d[i] == e;
        }
    }
    lemma_record_round_trip(f);
    let m = pairs_map(f);
    assert forall|k: Seq<char>| #[trigger] m.contains_key(k) <==> exists|e: (Seq<char>, Seq<char>)| #[trigger] f.contains(e) && e.0 == k by {
        lemma_pairs_map_dom(f, k);
        if m.contains_key(k) {
            let i = choose|i: int| 0 <= i < f.len() && f[i].0 == k;
            assert(f.contains(f[i]));
        }
        if exists|e: (Seq<char>, Seq<char>)| #[trigger] f.contains(e) && e.0 == k {
            let e = choose|e: (Seq<char>, Seq<char>)| #[trigger] f.contains(e) && e.0 == k;
            let i = choose|i: int| 0 <= i < f.len() && f[i] == e;
        }
    }
    lemma_field_value(f, "job"@, hex_of(p.job@));
    lemma_field_value(f, "exit_code"@, decimal_text(p.exit_code as int));
    lemma_opt_field(f, m, opt_field("log"@, opt_hex(opt_id(p.log))), "log"@, opt_hex(opt_id(p.log)));
    lemma_opt_field(f, m, opt_field("invocation"@, opt_hex(opt_id(p.invocation))), "invocation"@, opt_hex(opt_id(p.invocation)));
    lemma_opt_field(f, m, opt_field("cache"@, opt_hex(opt_id(p.cache))), "cache"@, opt_hex(opt_id(p.cache)));
    lemma_opt_field(f, m, opt_field("_source"@, opt_text(p.source)), "_source"@, opt_text(p.source));
    lemma_opt_field(f, m, opt_field("start_ts"@, opt_ts(p.start_ts)), "start_ts"@, opt_ts(p.start_ts));
    lemma_opt_field(f, m, opt_field("end_ts"@, opt_ts(p.end_ts)), "end_ts"@, opt_ts(p.end_ts));
    let rest = production_rest(m);
    assert forall|k: Seq<char>| #[trigger] rest.contains_key(k) <==> p.outputs@.contains_key(k) || p.dependencies@.contains_key(k) by {
        lemma_table_keys(&p.outputs, k);
        lemma_table_keys(&p.dependencies, k);
        if rest.contains_key(k) {
            let e = choose|e: (Seq<char>, Seq<char>)| #[trigger] f.contains(e) && e.0 == k;
            if b.contains(e) {
                let i = choose|i: int| 0 <= i < b.len() && b[i] == e;
                assert(p.outputs.entries@[i].0@ == k);
            } else if d.contains(e) {
                let i = choose|i: int| 0 <= i < d.len() && d[i] == e;
                assert(p.dependencies.entries@[i].0@ == k);
            }
        }
        if p.outputs@.contains_key(k) {
            let i = choose|i: int| 0 <= i < p.outputs.entries@.len() && #[trigger] p.outputs.entries@[i].0@ == k;
            assert(b.contains(b[i]));
            assert(f.contains(b[i]));
            assert(k[0] == 'o');
        }
        if p.dependencies@.contains_key(k) {
            let i = choose|i: int| 0 <= i < p.dependencies.entries@.len() && #[trigger] p.dependencies.entries@[i].0@ == k;
            assert(d.contains(d[i]));
            assert(f.contains(d[i]));
            assert(k[0] == 'd');
        }
    }
    assert forall|k: Seq<char>| #[trigger] rest.contains_key(k) implies (p.outputs@.contains_key(k) ==> starts_with(k, "out/"@)
        && is_hex_of_len(rest[k], 20) && bytes_of_hex(rest[k]) == p.outputs@[k] && !starts_with(k, "dep:"@))
        && (p.dependencies@.contains_key(k) ==> starts_with(k, "dep:"@) && is_hex_of_len(rest[k], 20)
        && bytes_of_hex(rest[k]) == p.dependencies@[k] && !starts_with(k, "out/"@)) by {
        if p.outputs@.contains_key(k) {
            lemma_table_keys(&p.outputs, k);
            let i = choose|i: int| 0 <= i < p.outputs.entries@.len() && #[trigger] p.outputs.entries@[i].0@ == k;
            lemma_table_entry(&p.outputs, i);
            assert(b.contains(b[i]));
            lemma_field_value(f, b[i].0, b[i].1);
            assert(k.take(4)[0] == k[0]);
        }
        if p.dependencies@.contains_key(k) {
            lemma_table_keys(&p.dependencies, k);
            let i = choose|i: int| 0 <= i < p.dependencies.entries@.len() && #[trigger] p.dependencies.entries@[i].0@ == k;
            lemma_table_entry(&p.dependencies, i);
            assert(d.contains(d[i]));
            lemma_field_value(f, d[i].0, d[i].1);
            assert(k.take(4)[0] == k[0]);
        }
    }
    assert(keys_within(rest, "dep:"@, "out/"@));
    assert(ids_ok(rest, "dep:"@, "dep:"@));
    assert(ids_ok(rest, "out/"@, "out/"@));
    assert(ids_under(rest, "out/"@, "out/"@) =~= p.outputs@);
    assert(ids_under(rest, "dep:"@, "dep:"@) =~= p.dependencies@);
    assert(parse_i32_spec(decimal_text(p.exit_code as int)) == Some(p.exit_code));
    assert(id_at(m, "log"@) == opt_id(p.log));
    assert(id_at(m, "invocation"@) == opt_id(p.invocation));
    assert(id_at(m, "cache"@) == opt_id(p.cache));
    assert(text_at(m, "_source"@) == opt_text(p.source));
    assert(text_at(m, "start_ts"@) == opt_ts(p.start_ts));
    assert(text_at(m, "end_ts"@) == opt_ts(p.end_ts));
    assert(opt_id_ok(m, "log"@) && opt_id_ok(m, "invocation"@) && opt_id_ok(m, "cache"@));
    assert(opt_ts_ok(m, "start_ts"@) && opt_ts_ok(m, "end_ts"@));
}

proof fn lemma_concat_contains<A>(x: Seq<A>, y: Seq<A>, e: A)
    ensures
        (x + y).contains(e) <==> x.contains(e) || y.contains(e),
{
    if x.contains(e) {
        let i = choose|i: int| 0 <= i < x.len() && x[i] == e;
        assert((x + y)[i] == e);
    }
    if y.contains(e) {
        let i = choose|i: int| 0 <= i < y.len() && y[i] == e;
        assert((x + y)[x.len() + i] == e);
    }
    if (x + y).contains(e) {
        let i = choose|i: int| 0 <= i < (x + y).len() && (x + y)[i] == e;
        if i < x.len() {
            assert(x[i] == e);
        } else {
            assert(y[i - x.len()] == e);
        }
    }
}

/// An optional field of a record with unique keys is in its map exactly when present.
proof fn lemma_opt_field(
    f: Seq<(Seq<char>, Seq<char>)>,
    m: Map<Seq<char>, Seq<char>>,
    o: Seq<(Seq<char>, Seq<char>)>,
    k: Seq<char>,
    v: Option<Seq<char>>,
)
    requires
        keys_unique(f),
        m == pairs_map(f),
        o == opt_field(k, v),
        forall|e: (Seq<char>, Seq<char>)| #[trigger] o.contains(e) ==> f.contains(e),
        v is None ==> forall|e: (Seq<char>, Seq<char>)| #[trigger] f.contains(e) ==> e.0 != k,
    ensures
        v matches Some(x) ==> m.contains_key(k) && m[k] == x,
        v is None ==> !m.contains_key(k),
{
    match v {
        Some(x) => {
            assert(o[0] == (k, x));
            assert(o.contains((k, x)));
            lemma_field_value(f, k, x);
        },
        None => {
            lemma_pairs_map_dom(f, k);
            if m.contains_key(k) {
                let i = choose|i: int| 0 <= i < f.len() && f[i].0 == k;
                assert(f.contains(f[i]));
            }
        },
    }
}


/// Two inputs of one step that name the same file share one identity step:
/// encoding both adds exactly the steps that encoding the first adds, and both
/// inputs read the same output.
pub proof fn lemma_identity_sharing(
    st: Map<Seq<char>, StepView>,
    k1: Seq<char>,
    k2: Seq<char>,
    p: Seq<char>,
    prefix: Seq<char>,
    files: Seq<(Seq<char>, Seq<u8>)>,
    values: Map<Seq<char>, Seq<u8>>,
)
    requires
        pairs_map(files).contains_key(prefix + p),
        !(ends_slash(k1) && ends_slash(p)),
        !(ends_slash(k2) && ends_slash(p)),
    ensures
        encode_inputs(st, seq![(k1, TextInputView::File(p))], prefix, files, values) matches Some(one)
            && encode_inputs(st, seq![(k1, TextInputView::File(p)), (k2, TextInputView::File(p))], prefix, files, values) matches Some(two)
            && two.0 == one.0
            && one.0 == st.insert(identity_pos(file_source(p)), identity_step(file_source(p), pairs_map(files)[prefix + p]))
            && two.1[k1] == identity_ref(file_source(p)) && two.1[k2] == identity_ref(file_source(p)),
{
    let s1 = seq![(k1, TextInputView::File(p))];
    let s2 = seq![(k1, TextInputView::File(p)), (k2, TextInputView::File(p))];
    assert(s1.drop_last() =~= Seq::<(Seq<char>, TextInputView)>::empty());
    assert(s2.drop_last() =~= s1);
    let src = file_source(p);
    let stp = identity_step(src, pairs_map(files)[prefix + p]);
    let e = Seq::<(Seq<char>, TextInputView)>::empty();
    assert(encode_inputs(st, e, prefix, files, values) == Some((st, Map::<Seq<char>, InputView>::empty())));
    assert(s1.last() == (k1, TextInputView::File(p)));
    let st1 = st.insert(identity_pos(src), stp);
    let im1 = Map::<Seq<char>, InputView>::empty().insert(k1, identity_ref(src));
    assert(encode_inputs(st, s1, prefix, files, values) == Some((st1, im1)));
    assert(s2.last() == (k2, TextInputView::File(p)));
    assert(st1.insert(identity_pos(src), stp) =~= st1);
    assert(encode_inputs(st, s2, prefix, files, values) == Some((st1, im1.insert(k2, identity_ref(src)))));
}

/// Expanding a directory input adds an input under `key + suffix` for each
/// file `root + suffix` of the table, and no other.
pub proof fn lemma_directory_expansion(
    st: Map<Seq<char>, StepView>,
    im: Map<Seq<char>, InputView>,
    key: Seq<char>,
    path: Seq<char>,
    root: Seq<char>,
    entries: Seq<(Seq<char>, Seq<u8>)>,
    k: Seq<char>,
)
    ensures
        expand_dir(st, im, key, path, root, entries).1.contains_key(k) <==> im.contains_key(k) || exists|i: int|
            0 <= i < entries.len() && starts_with(#[trigger] entries[i].0, root) && k == key + entries[i].0.skip(root.len() as int),
    decreases entries.len(),
{
    if entries.len() > 0 {
        let prev = entries.drop_last();
        lemma_directory_expansion(st, im, key, path, root, prev, k);
        if exists|i: int| 0 <= i < prev.len() && starts_with(#[trigger] prev[i].0, root) && k == key + prev[i].0.skip(root.len() as int) {
            let i = choose|i: int| 0 <= i < prev.len() && starts_with(#[trigger] prev[i].0, root) && k == key + prev[i].0.skip(root.len() as int);
            assert(entries[i] == prev[i]);
        }
        if exists|i: int| 0 <= i < entries.len() && starts_with(#[trigger] entries[i].0, root) && k == key + entries[i].0.skip(root.len() as int) {
            let i = choose|i: int| 0 <= i < entries.len() && starts_with(#[trigger] entries[i].0, root) && k == key + entries[i].0.skip(root.len() as int);
            if i < prev.len() {
                assert(entries[i] == prev[i]);
            }
        }
    }
}

/// The key-to-value map of a job's record: the process, and each input's
/// identifier in hex.
pub open spec fn job_map(v: JobView) -> Map<Seq<char>, Seq<char>> {
    v.inputs.map_values(|b: Seq<u8>| hex_of(b)).insert("process"@, process_text(v.process))
}

proof fn lemma_job_fields_map(j: &Job)
    requires
        job_readable(j),
    ensures
        fields_readable(job_fields(j)),
        keys_unique(job_fields(j)),
        pairs_map(job_fields(j)) == job_map(j@),
{
    lemma_job_round_trip(j);
    let f = job_fields(j);
    let e = j.inputs.entries@;
    reveal_strlit("process");
    reveal_strlit("in/");
    reveal_strlit("inref/");
    assert("process"@ =~= seq!['p', 'r', 'o', 'c', 'e', 's', 's']);
    assert forall|i: int| 1 <= i < f.len() implies (#[trigger] f[i]).0 == e[i - 1].0@ && f[i].1 == hex_of(e[i - 1].1@)
        && f[i].0[0] == 'i' by {
        assert(key_in(e[i - 1].0@, "in/"@, "inref/"@));
        if starts_with(e[i - 1].0@, "in/"@) {
            assert(e[i - 1].0@[0] == e[i - 1].0@.take(3)[0]);
        } else {
            assert(e[i - 1].0@[0] == e[i - 1].0@.take(6)[0]);
        }
    }
    assert forall|i: int| 0 <= i < f.len() implies !(#[trigger] f[i]).0.contains('\n') && !f[i].1.contains('\n') && !f[i].0.contains('=') by {
        if i > 0 {
            lemma_hex_round_trip(e[i - 1].1@);
        }
    }
    assert(keys_unique(f)) by {
        assert forall|a: int, b: int| 0 <= a < b < f.len() implies f[a].0 != f[b].0 by {
            if a > 0 {
                assert(entry_views(e)[a - 1].0 != entry_views(e)[b - 1].0);
            } else {
                assert(f[b].0[0] == 'i');
            }
        }
    }
    let m = pairs_map(f);
    let w = job_map(j@);
    assert forall|k: Seq<char>| #[trigger] m.contains_key(k) <==> w.contains_key(k) by {
        lemma_pairs_map_dom(f, k);
        lemma_table_keys(&j.inputs, k);
        if m.contains_key(k) && k != "process"@ {
            let i = choose|i: int| 0 <= i < f.len() && f[i].0 == k;
            assert(e[i - 1].0@ == k);
        }
        if j.inputs@.contains_key(k) {
            let i = choose|i: int| 0 <= i < e.len() && #[trigger] e[i].0@ == k;
            assert(f[i + 1].0 == k);
        }
        if k == "process"@ {
            assert(f[0].0 == k);
        }
    }
    assert forall|k: Seq<char>| #[trigger] m.contains_key(k) implies m[k] == w[k] by {
        if k == "process"@ {
            lemma_pairs_map_value(f, 0);
        } else {
            lemma_table_keys(&j.inputs, k);
            let i = choose|i: int| 0 <= i < e.len() && #[trigger] e[i].0@ == k;
            lemma_table_entry(&j.inputs, i);
            lemma_pairs_map_value(f, i + 1);
            assert(f[i + 1].0 == k);
        }
    }
    assert(m =~= w);
}

/// A job's record depends only on the job: two jobs with the same process and
/// inputs write the same text, whatever the order of their inputs, so the
/// store names them with the same identifier.
pub proof fn lemma_job_text_determined(a: &Job, b: &Job)
    requires
        job_readable(a),
        job_readable(b),
        a@ == b@,
    ensures
        record_text(job_fields(a)) == record_text(job_fields(b)),
{
    lemma_job_fields_map(a);
    lemma_job_fields_map(b);
    lemma_record_text_determined(job_fields(a), job_fields(b));
}

/// An absent optional field of a production writes no line, and a present
/// one writes its line, an empty source included.
#[verifier::spinoff_prover]
#[verifier::rlimit(100)]
pub proof fn lemma_production_elision(p: &Production)
    requires
        production_readable(p),
    ensures
        p.source is None <==> forall|e: (Seq<char>, Seq<char>)| #[trigger] production_fields(p).contains(e) ==> e.0 != "_source"@,
        p.source matches Some(s) ==> production_fields(p).contains(("_source"@, s@)),
        p.log is None <==> forall|e: (Seq<char>, Seq<char>)| #[trigger] production_fields(p).contains(e) ==> e.0 != "log"@,
        p.invocation is None <==> forall|e: (Seq<char>, Seq<char>)| #[trigger] production_fields(p).contains(e) ==> e.0 != "invocation"@,
        p.cache is None <==> forall|e: (Seq<char>, Seq<char>)| #[trigger] production_fields(p).contains(e) ==> e.0 != "cache"@,
        p.start_ts is None <==> forall|e: (Seq<char>, Seq<char>)| #[trigger] production_fields(p).contains(e) ==> e.0 != "start_ts"@,
        p.end_ts is None <==> forall|e: (Seq<char>, Seq<char>)| #[trigger] production_fields(p).contains(e) ==> e.0 != "end_ts"@,
{
    reveal_strlit("job");
    reveal_strlit("exit_code");
    reveal_strlit("log");
    reveal_strlit("invocation");
    reveal_strlit("cache");
    reveal_strlit("_source");
    reveal_strlit("start_ts");
    reveal_strlit("end_ts");
    reveal_strlit("out/");
    reveal_strlit("dep:");
    assert("job"@ =~= seq!['j', 'o', 'b']);
    assert("exit_code"@ =~= seq!['e', 'x', 'i', 't', '_', 'c', 'o', 'd', 'e']);
    assert("log"@ =~= seq!['l', 'o', 'g']);
    assert("invocation"@ =~= seq!['i', 'n', 'v', 'o', 'c', 'a', 't', 'i', 'o', 'n']);
    assert("cache"@ =~= seq!['c', 'a', 'c', 'h', 'e']);
    assert("_source"@ =~= seq!['_', 's', 'o', 'u', 'r', 'c', 'e']);
    assert("start_ts"@ =~= seq!['s', 't', 'a', 'r', 't', '_', 't', 's']);
    assert("end_ts"@ =~= seq!['e', 'n', 'd', '_', 't', 's']);
    assert("out/"@ =~= seq!['o', 'u', 't', '/']);
    assert("dep:"@ =~= seq!['d', 'e', 'p', ':']);
    lemma_production_fields(p);
    lemma_table_fields(&p.outputs, "out/"@, 'o');
    lemma_table_fields(&p.dependencies, "dep:"@, 'd');
    let f = production_fields(p);
    let b = id_fields(&p.outputs);
    let d = id_fields(&p.dependencies);
    assert forall|e: (Seq<char>, Seq<char>)| #[trigger] f.contains(e) implies (production_key(e.0) && e.0 != "log"@ && e.0 != "invocation"@ && e.0 != "cache"@ && e.0 != "_source"@ && e.0 != "start_ts"@ && e.0 != "end_ts"@)
        || (b.contains(e) && e.0[0] == 'o') || (d.contains(e) && e.0[0] == 'd')
        || opt_field("log"@, opt_hex(opt_id(p.log))).contains(e) || opt_field("invocation"@, opt_hex(opt_id(p.invocation))).contains(e)
        || opt_field("cache"@, opt_hex(opt_id(p.cache))).contains(e) || opt_field("_source"@, opt_text(p.source)).contains(e)
        || opt_field("start_ts"@, opt_ts(p.start_ts)).contains(e) || opt_field("end_ts"@, opt_ts(p.end_ts)).contains(e) by {
        if b.contains(e) {
            let i = choose|i: int| 0 <= i < b.len() && b[i] == e;
        }
        if d.contains(e) {
            let i = choose|i: int| 0 <= i < d.len() && d[i] == e;
        }
    }
    lemma_opt_presence(f, "log"@, opt_hex(opt_id(p.log)));
    lemma_opt_presence(f, "invocation"@, opt_hex(opt_id(p.invocation)));
    lemma_opt_presence(f, "cache"@, opt_hex(opt_id(p.cache)));
    lemma_opt_presence(f, "_source"@, opt_text(p.source));
    lemma_opt_presence(f, "start_ts"@, opt_ts(p.start_ts));
    lemma_opt_presence(f, "end_ts"@, opt_ts(p.end_ts));
}

/// A present optional field stands among the fields that hold it.
proof fn lemma_opt_presence(f: Seq<(Seq<char>, Seq<char>)>, k: Seq<char>, v: Option<Seq<char>>)
    requires
        forall|e: (Seq<char>, Seq<char>)| #[trigger] opt_field(k, v).contains(e) ==> f.contains(e),
    ensures
        v matches Some(x) ==> f.contains((k, x)),
        forall|e: (Seq<char>, Seq<char>)| #[trigger] opt_field(k, v).contains(e) ==> v is Some && e.0 == k,
{
    if let Some(x) = v {
        assert(opt_field(k, v)[0] == (k, x));
        assert(opt_field(k, v).contains((k, x)));
    }
}

/// Reading back the text form of a text input gives the input, where a step
/// position that it names holds no `:` and an identifier has its 20 bytes.
pub proof fn lemma_text_input_round_trip(i: TextInputView)
    requires
        i matches TextInputView::Pos(p, _) ==> !p.contains(':'),
        i matches TextInputView::Id(b) ==> b.len() == 20,
    ensures
        parse_text_input(text_input_text(i)) == Some(i),
{
    reveal_strlit("file:");
    reveal_strlit("_pos:");
    reveal_strlit(":");
    reveal_strlit("inline:");
    reveal_strlit("file");
    reveal_strlit("_pos");
    reveal_strlit("inline");
    reveal_strlit("param");
    let s = text_input_text(i);
    match i {
        TextInputView::Id(b) => {
            lemma_hex_round_trip(b);
        },
        TextInputView::File(p) => {
            assert(first_at(s, ':', 4));
            lemma_split_once(s, ':', 4);
            assert(s.take(4) =~= "file"@);
            assert(s.skip(5) =~= p);
        },
        TextInputView::Value(v) => {
            assert(first_at(s, ':', 6));
            lemma_split_once(s, ':', 6);
            assert(s.take(6) =~= "inline"@);
            assert(s.skip(7) =~= v);
            assert(s.take(6) != "file"@);
            assert(s.take(6) != "_pos"@);
        },
        TextInputView::Pos(p, o) => {
            assert(first_at(s, ':', 4));
            lemma_split_once(s, ':', 4);
            assert(s.take(4) =~= "_pos"@);
            let rest = s.skip(5);
            assert(rest =~= p + ":"@ + o);
            assert forall|j: int| 0 <= j < p.len() implies rest[j] != ':' by {
                assert(rest[j] == p[j]);
            }
            assert(first_at(rest, ':', p.len() as int));
            lemma_split_once(rest, ':', p.len() as int);
            assert(rest.take(p.len() as int) =~= p);
            assert(rest.skip(p.len() as int + 1) =~= o);
            assert("file"@[0] == 'f' && s.take(4)[0] == '_');
        },
    }
}

/// A text step whose record reads back: its input keys lie under `in/` or
/// `inref/` and hold no `=` or newline, no value holds a newline, and no step
/// position that an input names holds `:`.
pub open spec fn text_step_readable(s: &TextStep) -> bool {
    &&& s.inputs.wf()
    &&& !s.pos@.contains('\n')
    &&& (s.source matches Some(x) ==> !x@.contains('\n'))
    &&& !process_text(s.process@).contains('\n')
    &&& forall|i: int| 0 <= i < s.inputs.entries@.len() ==> key_in(#[trigger] s.inputs.entries@[i].0@, "in/"@, "inref/"@)
        && !s.inputs.entries@[i].0@.contains('=') && !s.inputs.entries@[i].0@.contains('\n')
        && !text_input_text(s.inputs.entries@[i].1@).contains('\n')
        && (s.inputs.entries@[i].1@ matches TextInputView::Pos(p, _) ==> !p.contains(':'))
}

/// A text step's record reads back as the step.
#[verifier::spinoff_prover]
#[verifier::rlimit(100)]
pub proof fn lemma_text_step_round_trip(s: &TextStep)
    requires
        text_step_readable(s),
    ensures
        fields_clean(text_step_fields(s)),
        fields_readable(text_step_fields(s)),
        keys_unique(text_step_fields(s)),
        parse_record(record_text(text_step_fields(s))) matches Some(m) && text_step_from_map(m) == Some(s@),
{
    reveal_strlit("_pos");
    reveal_strlit("_source");
    reveal_strlit("process");
    reveal_strlit("in/");
    reveal_strlit("inref/");
    assert("_pos"@ =~= seq!['_', 'p', 'o', 's']);
    assert("_source"@ =~= seq!['_', 's', 'o', 'u', 'r', 'c', 'e']);
    assert("process"@ =~= seq!['p', 'r', 'o', 'c', 'e', 's', 's']);
    let f = text_step_fields(s);
    let e = s.inputs.entries@;
    let a = seq![("_pos"@, s.pos@)] + opt_field("_source"@, opt_text(s.source)) + seq![("process"@, process_text(s.process@))];
    let t = crate::plan::text_input_fields(&s.inputs);
    let n = a.len() as int;
    assert(f == a + t);
    assert(n == 2 || n == 3);
    assert forall|i: int| n <= i < f.len() implies (#[trigger] f[i]).0 == e[i - n].0@ && f[i].1 == text_input_text(e[i - n].1@)
        && f[i].0[0] == 'i' by {
        assert(f[i] == t[i - n]);
        assert(key_in(e[i - n].0@, "in/"@, "inref/"@));
        if starts_with(e[i - n].0@, "in/"@) {
            assert(e[i - n].0@[0] == e[i - n].0@.take(3)[0]);
        } else {
            assert(e[i - n].0@[0] == e[i - n].0@.take(6)[0]);
        }
    }
    assert forall|i: int| 0 <= i < n implies (#[trigger] f[i]).0[0] != 'i' && !f[i].0.contains('=') && !f[i].0.contains('\n') && !f[i].1.contains('\n') by {
        assert(f[i] == a[i]);
    }
    assert(fields_readable(f));
    assert(keys_unique(f)) by {
        assert forall|x: int, y: int| 0 <= x < y < f.len() implies f[x].0 != f[y].0 by {
            if x >= n {
                assert(entry_views(e)[x - n].0 != entry_views(e)[y - n].0);
            } else if y >= n {
                assert(f[y].0[0] == 'i');
            } else {
                assert(f[x] == a[x] && f[y] == a[y]);
            }
        }
    }
    lemma_record_round_trip(f);
    let m = pairs_map(f);
    lemma_pairs_map_value(f, 0);
    lemma_pairs_map_value(f, n - 1);
    assert(f[n - 1] == ("process"@, process_text(s.process@)));
    lemma_process_round_trip(s.process@);
    match s.source {
        Some(x) => {
            assert(f[1] == ("_source"@, x@));
            lemma_pairs_map_value(f, 1);
        },
        None => {
            lemma_pairs_map_dom(f, "_source"@);
            if m.contains_key("_source"@) {
                let i = choose|i: int| 0 <= i < f.len() && f[i].0 == "_source"@;
                if i < n {
                    assert(f[i] == a[i]);
                }
            }
        },
    }
    let rest = text_step_rest(m);
    assert forall|k: Seq<char>| #[trigger] rest.contains_key(k) <==> s.inputs@.contains_key(k) by {
        lemma_pairs_map_dom(f, k);
        lemma_table_keys(&s.inputs, k);
        if rest.contains_key(k) {
            let i = choose|i: int| 0 <= i < f.len() && f[i].0 == k;
            if i < n {
                assert(f[i] == a[i]);
            } else {
                assert(e[i - n].0@ == k);
            }
        }
        if s.inputs@.contains_key(k) {
            let i = choose|i: int| 0 <= i < e.len() && #[trigger] e[i].0@ == k;
            assert(f[i + n].0 == k);
            assert(k[0] == 'i');
        }
    }
    assert forall|k: Seq<char>| #[trigger] rest.contains_key(k) implies key_in(k, "in/"@, "inref/"@)
        && parse_text_input(rest[k]) == Some(s.inputs@[k]) by {
        lemma_table_keys(&s.inputs, k);
        let i = choose|i: int| 0 <= i < e.len() && #[trigger] e[i].0@ == k;
        lemma_table_entry(&s.inputs, i);
        lemma_pairs_map_value(f, i + n);
        assert(f[i + n].0 == k);
        if let TextInputView::Id(b) = e[i].1@ {
            assert(b.len() == 20);
        }
        lemma_text_input_round_trip(e[i].1@);
    }
    assert(keys_within(rest, "in/"@, "inref/"@));
    assert(crate::plan::text_inputs_ok(rest));
    assert(Map::new(|k: Seq<char>| rest.contains_key(k), |k: Seq<char>| parse_text_input(rest[k])->0) =~= s.inputs@);
}

/// In the text of a production's record, an absent optional field has no
/// `key=` line, and a present source has its line, empty or not.
#[verifier::spinoff_prover]
pub proof fn lemma_production_elision_text(p: &Production)
    requires
        production_readable(p),
    ensures
        p.log is None ==> forall|i: int| 0 <= i < split_lines(record_text(production_fields(p))).len()
            ==> !starts_with(#[trigger] split_lines(record_text(production_fields(p)))[i], "log="@),
        p.invocation is None ==> forall|i: int| 0 <= i < split_lines(record_text(production_fields(p))).len()
            ==> !starts_with(#[trigger] split_lines(record_text(production_fields(p)))[i], "invocation="@),
        p.cache is None ==> forall|i: int| 0 <= i < split_lines(record_text(production_fields(p))).len()
            ==> !starts_with(#[trigger] split_lines(record_text(production_fields(p)))[i], "cache="@),
        p.source is None ==> forall|i: int| 0 <= i < split_lines(record_text(production_fields(p))).len()
            ==> !starts_with(#[trigger] split_lines(record_text(production_fields(p)))[i], "_source="@),
        p.start_ts is None ==> forall|i: int| 0 <= i < split_lines(record_text(production_fields(p))).len()
            ==> !starts_with(#[trigger] split_lines(record_text(production_fields(p)))[i], "start_ts="@),
        p.end_ts is None ==> forall|i: int| 0 <= i < split_lines(record_text(production_fields(p))).len()
            ==> !starts_with(#[trigger] split_lines(record_text(production_fields(p)))[i], "end_ts="@),
        p.source matches Some(s) ==> split_lines(record_text(production_fields(p))).contains("_source="@ + s@),
{
    lemma_production_fields(p);
    lemma_production_elision(p);
    let f = production_fields(p);
    reveal_strlit("log=");
    reveal_strlit("log");
    reveal_strlit("invocation=");
    reveal_strlit("invocation");
    reveal_strlit("cache=");
    reveal_strlit("cache");
    reveal_strlit("_source=");
    reveal_strlit("_source");
    reveal_strlit("start_ts=");
    reveal_strlit("start_ts");
    reveal_strlit("end_ts=");
    reveal_strlit("end_ts");
    assert("log="@ =~= "log"@ + seq!['=']);
    assert("invocation="@ =~= "invocation"@ + seq!['=']);
    assert("cache="@ =~= "cache"@ + seq!['=']);
    assert("_source="@ =~= "_source"@ + seq!['=']);
    assert("start_ts="@ =~= "start_ts"@ + seq!['=']);
    assert("end_ts="@ =~= "end_ts"@ + seq!['=']);
    assert("log"@ =~= seq!['l', 'o', 'g']);
    assert("invocation"@ =~= seq!['i', 'n', 'v', 'o', 'c', 'a', 't', 'i', 'o', 'n']);
    assert("cache"@ =~= seq!['c', 'a', 'c', 'h', 'e']);
    assert("_source"@ =~= seq!['_', 's', 'o', 'u', 'r', 'c', 'e']);
    assert("start_ts"@ =~= seq!['s', 't', 'a', 'r', 't', '_', 't', 's']);
    assert("end_ts"@ =~= seq!['e', 'n', 'd', '_', 't', 's']);
    if p.log is None {
        assert forall|i: int| 0 <= i < f.len() implies (#[trigger] f[i]).0 != "log"@ by {
            assert(f.contains(f[i]));
        }
        crate::attributes::lemma_elided_line(f, "log"@);
    }
    if p.invocation is None {
        assert forall|i: int| 0 <= i < f.len() implies (#[trigger] f[i]).0 != "invocation"@ by {
            assert(f.contains(f[i]));
        }
        crate::attributes::lemma_elided_line(f, "invocation"@);
    }
    if p.cache is None {
        assert forall|i: int| 0 <= i < f.len() implies (#[trigger] f[i]).0 != "cache"@ by {
            assert(f.contains(f[i]));
        }
        crate::attributes::lemma_elided_line(f, "cache"@);
    }
    if p.source is None {
        assert forall|i: int| 0 <= i < f.len() implies (#[trigger] f[i]).0 != "_source"@ by {
            assert(f.contains(f[i]));
        }
        crate::attributes::lemma_elided_line(f, "_source"@);
    }
    if p.start_ts is None {
        assert forall|i: int| 0 <= i < f.len() implies (#[trigger] f[i]).0 != "start_ts"@ by {
            assert(f.contains(f[i]));
        }
        crate::attributes::lemma_elided_line(f, "start_ts"@);
    }
    if p.end_ts is None {
        assert forall|i: int| 0 <= i < f.len() implies (#[trigger] f[i]).0 != "end_ts"@ by {
            assert(f.contains(f[i]));
        }
        crate::attributes::lemma_elided_line(f, "end_ts"@);
    }
    if let Some(s) = p.source {
        let i = choose|i: int| 0 <= i < f.len() && f[i] == ("_source"@, s@);
        crate::attributes::lemma_present_line(f, i);
        assert(crate::attributes::line_of("_source"@, s@) =~= "_source="@ + s@);
    }
}

/// Neither the key nor the value of a field holds a newline.
pub open spec fn field_clean(e: (Seq<char>, Seq<char>)) -> bool {
    !e.0.contains('\n') && !e.1.contains('\n')
}

proof fn lemma_clean_by_contains(f: Seq<(Seq<char>, Seq<char>)>)
    ensures
        fields_clean(f) <==> forall|e: (Seq<char>, Seq<char>)| #[trigger] f.contains(e) ==> field_clean(e),
{
    if fields_clean(f) {
        assert forall|e: (Seq<char>, Seq<char>)| #[trigger] f.contains(e) implies field_clean(e) by {
            let i = choose|i: int| 0 <= i < f.len() && f[i] == e;
        }
    }
    if forall|e: (Seq<char>, Seq<char>)| #[trigger] f.contains(e) ==> field_clean(e) {
        assert forall|i: int| 0 <= i < f.len() implies !(#[trigger] f[i]).0.contains('\n') && !f[i].1.contains('\n') by {
            assert(f.contains(f[i]));
        }
    }
}

proof fn lemma_id_fields_clean<T>(t: &crate::table::Table<crate::id::Id<T>>)
    ensures
        forall|e: (Seq<char>, Seq<char>)| #[trigger] id_fields(t).contains(e) ==> (field_clean(e) <==> !e.0.contains('\n')),
        (forall|e: (Seq<char>, Seq<char>)| #[trigger] id_fields(t).contains(e) ==> field_clean(e)) <==> (forall|i: int|
            0 <= i < t.entries@.len() ==> !(#[trigger] t.entries@[i]).0@.contains('\n')),
{
    assert forall|e: (Seq<char>, Seq<char>)| #[trigger] id_fields(t).contains(e) implies (field_clean(e) <==> !e.0.contains('\n')) by {
        let i = choose|i: int| 0 <= i < id_fields(t).len() && id_fields(t)[i] == e;
        lemma_hex_round_trip(t.entries@[i].1@);
    }
    if forall|i: int| 0 <= i < t.entries@.len() ==> !(#[trigger] t.entries@[i]).0@.contains('\n') {
        assert forall|e: (Seq<char>, Seq<char>)| #[trigger] id_fields(t).contains(e) implies field_clean(e) by {
            let i = choose|i: int| 0 <= i < id_fields(t).len() && id_fields(t)[i] == e;
            assert(!t.entries@[i].0@.contains('\n'));
        }
    }
    if forall|e: (Seq<char>, Seq<char>)| #[trigger] id_fields(t).contains(e) ==> field_clean(e) {
        assert forall|i: int| 0 <= i < t.entries@.len() implies !(#[trigger] t.entries@[i]).0@.contains('\n') by {
            assert(id_fields(t)[i] == (t.entries@[i].0@, hex_of(t.entries@[i].1@)));
            assert(id_fields(t).contains(id_fields(t)[i]));
        }
    }
}

/// The strings of a production that its record writes as they are: the
/// table keys, the source and the timestamps.
pub open spec fn production_strings_clean(p: &Production) -> bool {
    &&& forall|i: int| 0 <= i < p.outputs.entries@.len() ==> !(#[trigger] p.outputs.entries@[i]).0@.contains('\n')
    &&& forall|i: int| 0 <= i < p.dependencies.entries@.len() ==> !(#[trigger] p.dependencies.entries@[i]).0@.contains('\n')
    &&& (p.source matches Some(s) ==> !s@.contains('\n'))
    &&& (p.start_ts matches Some(t) ==> !t@.contains('\n'))
    &&& (p.end_ts matches Some(t) ==> !t@.contains('\n'))
}

/// Writing a production fails exactly where one of its strings holds a
/// newline: identifiers and the exit code never do.
#[verifier::spinoff_prover]
#[verifier::rlimit(100)]
pub proof fn lemma_production_clean(p: &Production)
    ensures
        fields_clean(production_fields(p)) <==> production_strings_clean(p),
{
    let a = seq![("job"@, hex_of(p.job@)), ("exit_code"@, decimal_text(p.exit_code as int))];
    let b = id_fields(&p.outputs);
    let d = id_fields(&p.dependencies);
    let o1 = opt_field("log"@, opt_hex(opt_id(p.log)));
    let o2 = opt_field("invocation"@, opt_hex(opt_id(p.invocation)));
    let o3 = opt_field("cache"@, opt_hex(opt_id(p.cache)));
    let o4 = opt_field("_source"@, opt_text(p.source));
    let o5 = opt_field("start_ts"@, opt_ts(p.start_ts));
    let o6 = opt_field("end_ts"@, opt_ts(p.end_ts));
    let f = production_fields(p);
    assert(f == a + b + d + o1 + o2 + o3 + o4 + o5 + o6);
    assert forall|e: (Seq<char>, Seq<char>)| #[trigger] f.contains(e) <==> a.contains(e) || b.contains(e) || d.contains(e)
        || o1.contains(e) || o2.contains(e) || o3.contains(e) || o4.contains(e) || o5.contains(e) || o6.contains(e) by {
        lemma_concat_contains(a, b, e);
        lemma_concat_contains(a + b, d, e);
        lemma_concat_contains(a + b + d, o1, e);
        lemma_concat_contains(a + b + d + o1, o2, e);
        lemma_concat_contains(a + b + d + o1 + o2, o3, e);
        lemma_concat_contains(a + b + d + o1 + o2 + o3, o4, e);
        lemma_concat_contains(a + b + d + o1 + o2 + o3 + o4, o5, e);
        lemma_concat_contains(a + b + d + o1 + o2 + o3 + o4 + o5, o6, e);
    }
    lemma_clean_by_contains(f);
    lemma_id_fields_clean(&p.outputs);
    lemma_id_fields_clean(&p.dependencies);
    reveal_strlit("job");
    reveal_strlit("exit_code");
    reveal_strlit("log");
    reveal_strlit("invocation");
    reveal_strlit("cache");
    reveal_strlit("_source");
    reveal_strlit("start_ts");
    reveal_strlit("end_ts");
    assert("job"@ =~= seq!['j', 'o', 'b']);
    assert("exit_code"@ =~= seq!['e', 'x', 'i', 't', '_', 'c', 'o', 'd', 'e']);
    assert("log"@ =~= seq!['l', 'o', 'g']);
    assert("invocation"@ =~= seq!['i', 'n', 'v', 'o', 'c', 'a', 't', 'i', 'o', 'n']);
    assert("cache"@ =~= seq!['c', 'a', 'c', 'h', 'e']);
    assert("_source"@ =~= seq!['_', 's', 'o', 'u', 'r', 'c', 'e']);
    assert("start_ts"@ =~= seq!['s', 't', 'a', 'r', 't', '_', 't', 's']);
    assert("end_ts"@ =~= seq!['e', 'n', 'd', '_', 't', 's']);
    lemma_hex_round_trip(p.job@);
    lemma_decimal_clean(p.exit_code as int);
    if let Some(x) = p.log {
        lemma_hex_round_trip(x@);
    }
    if let Some(x) = p.invocation {
        lemma_hex_round_trip(x@);
    }
    if let Some(x) = p.cache {
        lemma_hex_round_trip(x@);
    }
    assert forall|e: (Seq<char>, Seq<char>)| #[trigger] a.contains(e) || o1.contains(e) || o2.contains(e) || o3.contains(e) implies field_clean(e) by {
        if a.contains(e) {
            let i = choose|i: int| 0 <= i < a.len() && a[i] == e;
        }
    }
    if let Some(x) = p.source {
        assert(o4[0] == ("_source"@, x@) && o4.contains(o4[0]));
    }
    if let Some(x) = p.start_ts {
        assert(o5[0] == ("start_ts"@, x@) && o5.contains(o5[0]));
    }
    if let Some(x) = p.end_ts {
        assert(o6[0] == ("end_ts"@, x@) && o6.contains(o6[0]));
    }
    assert forall|e: (Seq<char>, Seq<char>)| #[trigger] o4.contains(e) implies p.source matches Some(x) && e == ("_source"@, x@) by {
        let i = choose|i: int| 0 <= i < o4.len() && o4[i] == e;
    }
    assert forall|e: (Seq<char>, Seq<char>)| #[trigger] o5.contains(e) implies p.start_ts matches Some(x) && e == ("start_ts"@, x@) by {
        let i = choose|i: int| 0 <= i < o5.len() && o5[i] == e;
    }
    assert forall|e: (Seq<char>, Seq<char>)| #[trigger] o6.contains(e) implies p.end_ts matches Some(x) && e == ("end_ts"@, x@) by {
        let i = choose|i: int| 0 <= i < o6.len() && o6[i] == e;
    }
    if forall|e: (Seq<char>, Seq<char>)| #[trigger] f.contains(e) ==> field_clean(e) {
        assert forall|e: (Seq<char>, Seq<char>)| #[trigger] b.contains(e) implies field_clean(e) by {
            assert(f.contains(e));
        }
        assert forall|e: (Seq<char>, Seq<char>)| #[trigger] d.contains(e) implies field_clean(e) by {
            assert(f.contains(e));
        }
        if let Some(x) = p.source {
            assert(f.contains(o4[0]));
        }
        if let Some(x) = p.start_ts {
            assert(f.contains(o5[0]));
        }
        if let Some(x) = p.end_ts {
            assert(f.contains(o6[0]));
        }
        assert(production_strings_clean(p));
    }
    if production_strings_clean(p) {
        assert forall|e: (Seq<char>, Seq<char>)| #[trigger] f.contains(e) implies field_clean(e) by {
            if b.contains(e) {
            } else if d.contains(e) {
            } else if o4.contains(e) {
            } else if o5.contains(e) {
            } else if o6.contains(e) {
            }
        }
    }
}

/// A decimal integer's text holds no newline.
proof fn lemma_decimal_clean(n: int)
    ensures
        !decimal_text(n).contains('\n'),
{
    lemma_decimal_round_trip(n);
    let s = decimal_text(n);
    if s.contains('\n') {
        let i = choose|i: int| 0 <= i < s.len() && s[i] == '\n';
        if s.len() > 0 && (s[0] == '-' || s[0] == '+') && crate::text::all_digits(s.drop_first()) {
            if i > 0 {
                assert(s.drop_first()[i - 1] == '\n');
                assert(crate::text::is_digit(s.drop_first()[i - 1]));
            }
        } else {
            assert(crate::text::is_digit(s[i]));
        }
    }
}

/// Writing a job fails exactly where its process text or an input key holds a
/// newline.
pub proof fn lemma_job_clean(j: &Job)
    ensures
        fields_clean(job_fields(j)) <==> !process_text(j.process@).contains('\n') && forall|i: int|
            0 <= i < j.inputs.entries@.len() ==> !(#[trigger] j.inputs.entries@[i]).0@.contains('\n'),
{
    let a = seq![("process"@, process_text(j.process@))];
    let b = id_fields(&j.inputs);
    let f = job_fields(j);
    assert forall|e: (Seq<char>, Seq<char>)| #[trigger] f.contains(e) <==> a.contains(e) || b.contains(e) by {
        lemma_concat_contains(a, b, e);
    }
    lemma_clean_by_contains(f);
    lemma_id_fields_clean(&j.inputs);
    reveal_strlit("process");
    assert("process"@ =~= seq!['p', 'r', 'o', 'c', 'e', 's', 's']);
    assert(!"process"@.contains('\n'));
    assert(a.contains(a[0]));
    if forall|e: (Seq<char>, Seq<char>)| #[trigger] f.contains(e) ==> field_clean(e) {
        assert(f.contains(a[0]));
        assert forall|e: (Seq<char>, Seq<char>)| #[trigger] b.contains(e) implies field_clean(e) by {
            assert(f.contains(e));
        }
    }
    if !process_text(j.process@).contains('\n') && forall|i: int| 0 <= i < j.inputs.entries@.len() ==> !(#[trigger] j.inputs.entries@[i]).0@.contains('\n') {
        assert forall|e: (Seq<char>, Seq<char>)| #[trigger] f.contains(e) implies field_clean(e) by {
            if a.contains(e) {
                let i = choose|i: int| 0 <= i < a.len() && a[i] == e;
                assert(e == a[0]);
            } else {
                assert(b.contains(e));
            }
        }
    }
}

/// Writing an invocation fails exactly where a partial key holds a newline.
pub proof fn lemma_invocation_clean(v: &Invocation)
    ensures
        fields_clean(invocation_fields(v)) <==> forall|i: int|
            0 <= i < v.partial_productions.entries@.len() ==> !(#[trigger] v.partial_productions.entries@[i]).0@.contains('\n'),
{
    let a = opt_field("production"@, opt_hex(opt_id(v.production)));
    let b = id_fields(&v.partial_productions);
    let c = seq![("status"@, status_text(v.status)), ("plan"@, hex_of(v.plan@))];
    let f = invocation_fields(v);
    assert(f == a + b + c);
    assert forall|e: (Seq<char>, Seq<char>)| #[trigger] f.contains(e) <==> a.contains(e) || b.contains(e) || c.contains(e) by {
        lemma_concat_contains(a, b, e);
        lemma_concat_contains(a + b, c, e);
    }
    lemma_clean_by_contains(f);
    lemma_id_fields_clean(&v.partial_productions);
    reveal_strlit("production");
    reveal_strlit("status");
    reveal_strlit("plan");
    reveal_strlit("ok");
    reveal_strlit("fail");
    assert("production"@ =~= seq!['p', 'r', 'o', 'd', 'u', 'c', 't', 'i', 'o', 'n']);
    assert("status"@ =~= seq!['s', 't', 'a', 't', 'u', 's']);
    assert("plan"@ =~= seq!['p', 'l', 'a', 'n']);
    assert("ok"@ =~= seq!['o', 'k']);
    assert("fail"@ =~= seq!['f', 'a', 'i', 'l']);
    lemma_hex_round_trip(v.plan@);
    if let Some(x) = v.production {
        lemma_hex_round_trip(x@);
    }
    assert forall|e: (Seq<char>, Seq<char>)| #[trigger] a.contains(e) || c.contains(e) implies field_clean(e) by {
        if c.contains(e) {
            let i = choose|i: int| 0 <= i < c.len() && c[i] == e;
        }
        if a.contains(e) {
            let i = choose|i: int| 0 <= i < a.len() && a[i] == e;
        }
    }
    if forall|e: (Seq<char>, Seq<char>)| #[trigger] f.contains(e) ==> field_clean(e) {
        assert forall|e: (Seq<char>, Seq<char>)| #[trigger] b.contains(e) implies field_clean(e) by {
            assert(f.contains(e));
        }
    }
    if forall|i: int| 0 <= i < v.partial_productions.entries@.len() ==> !(#[trigger] v.partial_productions.entries@[i]).0@.contains('\n') {
        assert forall|e: (Seq<char>, Seq<char>)| #[trigger] f.contains(e) implies field_clean(e) by {
            if b.contains(e) {
            } else if a.contains(e) {
            } else {
                assert(c.contains(e));
            }
        }
    }
}

/// Encoding a plan of one step whose two inputs name the same file gives one
/// identity step for the file, beside the step, and both inputs read it.
pub proof fn lemma_plan_identity_sharing(
    ts: TextStep,
    k1: Seq<char>,
    k2: Seq<char>,
    p: Seq<char>,
    prefix: Seq<char>,
    files: Seq<(Seq<char>, Seq<u8>)>,
    values: Map<Seq<char>, Seq<u8>>,
)
    requires
        entry_views(ts.inputs.entries@) == seq![(k1, TextInputView::File(p)), (k2, TextInputView::File(p))],
        pairs_map(files).contains_key(prefix + p),
        !(ends_slash(k1) && ends_slash(p)),
        !(ends_slash(k2) && ends_slash(p)),
    ensures
        encode_steps(seq![ts], prefix, files, values) matches Some(m) && m == Map::<Seq<char>, StepView>::empty().insert(
            identity_pos(file_source(p)),
            identity_step(file_source(p), pairs_map(files)[prefix + p]),
        ).insert(ts.pos@, m[ts.pos@]) && m[ts.pos@].inputs[k1] == identity_ref(file_source(p))
            && m[ts.pos@].inputs[k2] == identity_ref(file_source(p)),
{
    let st = Map::<Seq<char>, StepView>::empty();
    lemma_identity_sharing(st, k1, k2, p, prefix, files, values);
    let one = seq![ts];
    assert(one.drop_last() =~= Seq::<TextStep>::empty());
    assert(one.last() == ts);
    assert(encode_steps(Seq::<TextStep>::empty(), prefix, files, values) == Some(st));
}

/// Encoding a plan of one step whose one input is a directory under a
/// directory key gives the step an input under `key + suffix` for each file
/// `prefix + path + suffix` of the table, and no other.
pub proof fn lemma_plan_directory_expansion(
    ts: TextStep,
    key: Seq<char>,
    path: Seq<char>,
    prefix: Seq<char>,
    files: Seq<(Seq<char>, Seq<u8>)>,
    values: Map<Seq<char>, Seq<u8>>,
    k: Seq<char>,
)
    requires
        entry_views(ts.inputs.entries@) == seq![(key, TextInputView::File(path))],
        ends_slash(key),
        ends_slash(path),
    ensures
        encode_steps(seq![ts], prefix, files, values) matches Some(m) && (m[ts.pos@].inputs.contains_key(k) <==> exists|i: int|
            0 <= i < files.len() && starts_with(#[trigger] files[i].0, prefix + path) && k == key + files[i].0.skip(
                (prefix + path).len() as int,
            )),
{
    let st = Map::<Seq<char>, StepView>::empty();
    let ins = seq![(key, TextInputView::File(path))];
    assert(ins.drop_last() =~= Seq::<(Seq<char>, TextInputView)>::empty());
    assert(ins.last() == (key, TextInputView::File(path)));
    let e = Seq::<(Seq<char>, TextInputView)>::empty();
    assert(encode_inputs(st, e, prefix, files, values) == Some((st, Map::<Seq<char>, InputView>::empty())));
    let one = seq![ts];
    assert(one.drop_last() =~= Seq::<TextStep>::empty());
    assert(one.last() == ts);
    assert(encode_steps(Seq::<TextStep>::empty(), prefix, files, values) == Some(st));
    lemma_directory_expansion(st, Map::empty(), key, path, prefix + path, files, k);
}

/// Each line comes before the next, and no two are equal.
pub open spec fn strictly_sorted(ls: Seq<Seq<char>>) -> bool {
    forall|i: int, j: int| 0 <= i < j < ls.len() ==> crate::order::lex_leq(ls[i], ls[j]) && ls[i] != ls[j]
}

/// The lines of a job's record are strictly increasing.
pub proof fn lemma_job_lines_strict(j: &Job)
    requires
        job_readable(j),
    ensures
        strictly_sorted(split_lines(record_text(job_fields(j)))),
{
    lemma_job_fields_map(j);
    crate::attributes::lemma_record_sorted(job_fields(j));
}

/// The lines of a production's record are strictly increasing.
pub proof fn lemma_production_lines_strict(p: &Production)
    requires
        production_readable(p),
    ensures
        strictly_sorted(split_lines(record_text(production_fields(p)))),
{
    lemma_production_fields(p);
    crate::attributes::lemma_record_sorted(production_fields(p));
}

/// The lines of an invocation's record are strictly increasing.
pub proof fn lemma_invocation_lines_strict(v: &Invocation)
    requires
        invocation_readable(v),
    ensures
        strictly_sorted(split_lines(record_text(invocation_fields(v)))),
{
    lemma_invocation_round_trip(v);
    crate::attributes::lemma_record_sorted(invocation_fields(v));
}

/// The lines of a text step's record are strictly increasing.
pub proof fn lemma_text_step_lines_strict(s: &TextStep)
    requires
        text_step_readable(s),
    ensures
        strictly_sorted(split_lines(record_text(text_step_fields(s)))),
{
    lemma_text_step_round_trip(s);
    crate::attributes::lemma_record_sorted(text_step_fields(s));
}

/// Two productions that differ only in an absent against an empty source
/// write different texts, and each reads back as itself: the absent source
/// as absent, the empty one as empty.
pub proof fn lemma_absent_and_empty_source(p1: &Production, p2: &Production)
    requires
        production_readable(p1),
        production_readable(p2),
        p1.source is None,
        p2.source matches Some(s) && s@.len() == 0,
    ensures
        record_text(production_fields(p1)) != record_text(production_fields(p2)),
        parse_record(record_text(production_fields(p1))) matches Some(m) && production_from_map(m) == Some(p1@),
        parse_record(record_text(production_fields(p2))) matches Some(m) && production_from_map(m) == Some(p2@),
        p1@.source is None && p2@.source == Some(Seq::<char>::empty()),
{
    lemma_production_round_trip(p1);
    lemma_production_round_trip(p2);
    lemma_production_elision_text(p1);
    lemma_production_elision_text(p2);
    let s2 = p2.source->0;
    let l = "_source="@ + s2@;
    let ls2 = split_lines(record_text(production_fields(p2)));
    assert(ls2.contains(l));
    let i = choose|i: int| 0 <= i < ls2.len() && ls2[i] == l;
    reveal_strlit("_source=");
    assert(starts_with(l, "_source="@)) by {
        assert(l.take("_source="@.len() as int) =~= "_source="@);
    }
    if record_text(production_fields(p1)) == record_text(production_fields(p2)) {
        assert(!starts_with(split_lines(record_text(production_fields(p1)))[i], "_source="@));
    }
}

/// Encoding a plan of two steps that each name the same file gives one
/// identity step for the file, beside the two steps, and both read it.
pub proof fn lemma_plan_identity_sharing_across_steps(
    t1: TextStep,
    t2: TextStep,
    k1: Seq<char>,
    k2: Seq<char>,
    p: Seq<char>,
    prefix: Seq<char>,
    files: Seq<(Seq<char>, Seq<u8>)>,
    values: Map<Seq<char>, Seq<u8>>,
)
    requires
        entry_views(t1.inputs.entries@) == seq![(k1, TextInputView::File(p))],
        entry_views(t2.inputs.entries@) == seq![(k2, TextInputView::File(p))],
        pairs_map(files).contains_key(prefix + p),
        !(ends_slash(k1) && ends_slash(p)),
        !(ends_slash(k2) && ends_slash(p)),
        t1.pos@ != identity_pos(file_source(p)),
        t2.pos@ != identity_pos(file_source(p)),
    ensures
        encode_steps(seq![t1, t2], prefix, files, values) matches Some(m) && m.dom() =~= set![
            identity_pos(file_source(p)),
            t1.pos@,
            t2.pos@,
        ] && m[identity_pos(file_source(p))] == identity_step(file_source(p), pairs_map(files)[prefix + p])
            && m[t2.pos@].inputs[k2] == identity_ref(file_source(p)) && (t1.pos@ != t2.pos@ ==> m[t1.pos@].inputs[k1]
            == identity_ref(file_source(p))),
{
    let src = file_source(p);
    let ip = identity_pos(src);
    let stp = identity_step(src, pairs_map(files)[prefix + p]);
    let empty_steps = Map::<Seq<char>, StepView>::empty();
    let e = Seq::<(Seq<char>, TextInputView)>::empty();
    let i1 = entry_views(t1.inputs.entries@);
    let i2 = entry_views(t2.inputs.entries@);
    assert(i1.drop_last() =~= e);
    assert(i2.drop_last() =~= e);
    let im1 = Map::<Seq<char>, InputView>::empty().insert(k1, identity_ref(src));
    let im2 = Map::<Seq<char>, InputView>::empty().insert(k2, identity_ref(src));
    assert(encode_inputs(empty_steps, e, prefix, files, values) == Some((empty_steps, Map::<Seq<char>, InputView>::empty())));
    assert(encode_inputs(empty_steps, i1, prefix, files, values) == Some((empty_steps.insert(ip, stp), im1)));
    let st1 = empty_steps.insert(ip, stp).insert(t1.pos@, plan_step(&t1, im1));
    assert(encode_inputs(st1, e, prefix, files, values) == Some((st1, Map::<Seq<char>, InputView>::empty())));
    assert(encode_inputs(st1, i2, prefix, files, values) == Some((st1.insert(ip, stp), im2)));
    let both = seq![t1, t2];
    let one = seq![t1];
    assert(both.drop_last() =~= one);
    assert(one.drop_last() =~= Seq::<TextStep>::empty());
    assert(encode_steps(Seq::<TextStep>::empty(), prefix, files, values) == Some(empty_steps));
    assert(encode_steps(one, prefix, files, values) == Some(st1));
    let m = st1.insert(ip, stp).insert(t2.pos@, plan_step(&t2, im2));
    assert(encode_steps(both, prefix, files, values) == Some(m));
}

/// The identity step that a directory expansion adds for a file carries that
/// file's resource, where no later file of the directory lands on the same
/// position.
pub proof fn lemma_directory_identity_step(
    st: Map<Seq<char>, StepView>,
    im: Map<Seq<char>, InputView>,
    key: Seq<char>,
    path: Seq<char>,
    root: Seq<char>,
    entries: Seq<(Seq<char>, Seq<u8>)>,
    i: int,
)
    requires
        0 <= i < entries.len(),
        starts_with(entries[i].0, root),
        forall|j: int| i < j < entries.len() && starts_with(#[trigger] entries[j].0, root) ==> identity_pos(
            file_source(path + entries[j].0.skip(root.len() as int)),
        ) != identity_pos(file_source(path + entries[i].0.skip(root.len() as int))),
    ensures
        ({
            let src = file_source(path + entries[i].0.skip(root.len() as int));
            expand_dir(st, im, key, path, root, entries).0.contains_key(identity_pos(src))
                && expand_dir(st, im, key, path, root, entries).0[identity_pos(src)] == identity_step(src, entries[i].1)
        }),
    decreases entries.len(),
{
    let prev = entries.drop_last();
    if i < entries.len() - 1 {
        assert forall|j: int| i < j < prev.len() && starts_with(#[trigger] prev[j].0, root) implies identity_pos(
            file_source(path + prev[j].0.skip(root.len() as int)),
        ) != identity_pos(file_source(path + prev[i].0.skip(root.len() as int))) by {
            assert(prev[j] == entries[j]);
        }
        assert(prev[i] == entries[i]);
        lemma_directory_identity_step(st, im, key, path, root, prev, i);
        let last = entries.len() - 1;
        if starts_with(entries[last].0, root) {
            assert(entries.last() == entries[last]);
        }
    }
}

/// Encoding a plan of one step whose one input is a directory gives, for each
/// file under it whose position no later file shares, an identity step that
/// carries the file's resource.
pub proof fn lemma_plan_directory_identity_steps(
    ts: TextStep,
    key: Seq<char>,
    path: Seq<char>,
    prefix: Seq<char>,
    files: Seq<(Seq<char>, Seq<u8>)>,
    values: Map<Seq<char>, Seq<u8>>,
    i: int,
)
    requires
        entry_views(ts.inputs.entries@) == seq![(key, TextInputView::File(path))],
        ends_slash(key),
        ends_slash(path),
        0 <= i < files.len(),
        starts_with(files[i].0, prefix + path),
        forall|j: int| i < j < files.len() && starts_with(#[trigger] files[j].0, prefix + path) ==> identity_pos(
            file_source(path + files[j].0.skip((prefix + path).len() as int)),
        ) != identity_pos(file_source(path + files[i].0.skip((prefix + path).len() as int))),
        ts.pos@ != identity_pos(file_source(path + files[i].0.skip((prefix + path).len() as int))),
    ensures
        ({
            let src = file_source(path + files[i].0.skip((prefix + path).len() as int));
            encode_steps(seq![ts], prefix, files, values) matches Some(m) && m.contains_key(identity_pos(src))
                && m[identity_pos(src)] == identity_step(src, files[i].1)
        }),
{
    let st = Map::<Seq<char>, StepView>::empty();
    let ins = seq![(key, TextInputView::File(path))];
    assert(ins.drop_last() =~= Seq::<(Seq<char>, TextInputView)>::empty());
    assert(ins.last() == (key, TextInputView::File(path)));
    let e = Seq::<(Seq<char>, TextInputView)>::empty();
    assert(encode_inputs(st, e, prefix, files, values) == Some((st, Map::<Seq<char>, InputView>::empty())));
    let one = seq![ts];
    assert(one.drop_last() =~= Seq::<TextStep>::empty());
    assert(one.last() == ts);
    assert(encode_steps(Seq::<TextStep>::empty(), prefix, files, values) == Some(st));
    lemma_directory_identity_step(st, Map::empty(), key, path, prefix + path, files, i);
}

} // verus!
