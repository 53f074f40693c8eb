use kbuild::attributes::{to_text, Error};
use kbuild::id::Id;
use kbuild::object::{Input, Invocation, InvocationStatus, Job, Process, Production, ProductionId};
use kbuild::records::DecodeError;
use kbuild::table::Table;
use kbuild::text::Timestamp;

fn fields(pairs: &[(&str, &str)]) -> Vec<(String, String)> {
    pairs.iter().map(|(k, v)| (k.to_string(), v.to_string())).collect()
}

#[test]
fn parse_invocation() {
    let raw = "production=5a85adff7fc597bdb1c2efa56a3a7d758854ced5
plan=00478c2684ff7c617cf87fd103c89114342adddb
status=ok
";
    assert_eq!(
        Invocation::from_text(raw).unwrap(),
        Invocation {
            production: Some(Id::parse("5a85adff7fc597bdb1c2efa56a3a7d758854ced5").unwrap()),
            partial_productions: Table::new(),
            status: InvocationStatus::Success,
            plan: Id::parse("00478c2684ff7c617cf87fd103c89114342adddb").unwrap(),
        }
    );
}

#[test]
fn parse_production() {
    let raw = "_source=unit:flow/basic/tac.unit
dep:in/data=f16725e71499854fcda3059ac4a2611bfd3a5237
end_ts=2021-01-02T04:32:43-0800
exit_code=0
job=4233117e9199336269c23534c78a7088dc5e4893
out/_=2d6976f9b54866fa6afeb9080bfd843098f107bb
start_ts=2021-01-02T04:32:43-0800
";
    let mut outputs = Table::new();
    outputs.insert("out/_".to_string(), Id::parse("2d6976f9b54866fa6afeb9080bfd843098f107bb").unwrap());
    let mut dependencies = Table::new();
    let dep: ProductionId = Id::parse("f16725e71499854fcda3059ac4a2611bfd3a5237").unwrap();
    dependencies.insert("dep:in/data".to_string(), dep);
    assert_eq!(
        Production::from_text(raw).unwrap(),
        Production {
            job: Id::parse("4233117e9199336269c23534c78a7088dc5e4893").unwrap(),
            exit_code: 0,
            outputs,
            dependencies,
            log: None,
            invocation: None,
            cache: None,
            source: Some("unit:flow/basic/tac.unit".into()),
            start_ts: Some(Timestamp::parse("2021-01-02T04:32:43-0800").unwrap()),
            end_ts: Some(Timestamp::parse("2021-01-02T04:32:43-0800").unwrap()),
        }
    );
}

#[test]
fn parse_job() {
    let raw = "in/data=01e79c32a8c99c557f0757da7cb6d65b3414466d
process=command:perl -e 'print reverse <>' in/data > out/_
";
    let mut inputs = Table::new();
    inputs.insert("in/data".to_string(), Id::parse("01e79c32a8c99c557f0757da7cb6d65b3414466d").unwrap());
    assert_eq!(
        Job::from_text(raw).unwrap(),
        Job { process: Process::Command("perl -e 'print reverse <>' in/data > out/_".into()), inputs }
    );
}

#[test]
fn parse_input() {
    assert_eq!(
        Input::parse("01e79c32a8c99c557f0757da7cb6d65b3414466d").unwrap(),
        Input::Id(Id::parse("01e79c32a8c99c557f0757da7cb6d65b3414466d").unwrap())
    );
    assert_eq!(Input::parse("_pos:main@0:out/_").unwrap(), Input::Pos("main@0".into(), "out/_".into()));
}

enum Variant {
    Unit,
    Newtype(String),
}

struct Struct {
    i32: i32,
    u8_array: [u8; 4],
    string: String,
    option: Option<String>,
    variant: Variant,
    newtype_struct: String,
    map: Vec<(String, String)>,
}

/// The record fields of a `Struct`: `string` renamed, `option` left out when
/// absent, `u8_array` in hex, the map flattened.
fn struct_fields(v: &Struct) -> Vec<(String, String)> {
    let mut f = vec![
        ("i32".to_string(), v.i32.to_string()),
        ("u8_array".to_string(), v.u8_array.iter().map(|b| format!("{:02x}", b)).collect()),
        ("renamed".to_string(), v.string.clone()),
        (
            "variant".to_string(),
            match &v.variant {
                Variant::Unit => "unit".to_string(),
                Variant::Newtype(s) => format!("newtype:{}", s),
            },
        ),
        ("newtype_struct".to_string(), v.newtype_struct.clone()),
    ];
    if let Some(o) = &v.option {
        f.push(("option".to_string(), o.clone()));
    }
    f.extend(v.map.iter().cloned());
    f
}

#[test]
fn serialize() {
    let mut value = Struct {
        i32: -1,
        u8_array: *b"cows",
        string: "string".into(),
        option: Some("tuple".into()),
        variant: Variant::Unit,
        newtype_struct: "struct".into(),
        map: Vec::new(),
    };
    assert_eq!(
        to_text(&struct_fields(&value)).unwrap(),
        "i32=-1\n\
        newtype_struct=struct\n\
        option=tuple\n\
        renamed=string\n\
        u8_array=636f7773\n\
        variant=unit\n"
    );

    value.option.take();
    value.variant = Variant::Newtype("inner".into());
    value.map.push(("key1".into(), "value1".into()));
    value.map.push(("key2".into(), "value2".into()));
    assert_eq!(
        to_text(&struct_fields(&value)).unwrap(),
        "i32=-1\n\
        key1=value1\n\
        key2=value2\n\
        newtype_struct=struct\n\
        renamed=string\n\
        u8_array=636f7773\n\
        variant=newtype:inner\n"
    );
}

#[test]
fn newline_in_value_fails() {
    assert_eq!(to_text(&fields(&[("a", "x\ny")])), Err(Error::Newline));
    assert_eq!(to_text(&fields(&[("a\n", "x")])), Err(Error::Newline));
    assert_eq!(to_text(&fields(&[("a", "x")])).unwrap(), "a=x\n");
}

#[test]
fn lines_come_out_sorted() {
    let t = to_text(&fields(&[("b", "2"), ("a", "1"), ("c", "0"), ("ab", "9")])).unwrap();
    assert_eq!(t, "a=1\nab=9\nb=2\nc=0\n");
}

#[test]
fn empty_record_is_empty_text() {
    assert_eq!(to_text(&Vec::new()).unwrap(), "");
}

#[test]
fn absent_and_empty_source_differ() {
    let job: Id<_> = Id::parse("4233117e9199336269c23534c78a7088dc5e4893").unwrap();
    let mut p = Production {
        job,
        exit_code: -3,
        outputs: Table::new(),
        dependencies: Table::new(),
        log: None,
        invocation: None,
        cache: None,
        source: None,
        start_ts: None,
        end_ts: None,
    };
    let absent = p.to_text().unwrap();
    assert_eq!(absent, "exit_code=-3\njob=4233117e9199336269c23534c78a7088dc5e4893\n");
    p.source = Some(String::new());
    let empty = p.to_text().unwrap();
    assert_eq!(empty, "_source=\nexit_code=-3\njob=4233117e9199336269c23534c78a7088dc5e4893\n");
    assert_eq!(Production::from_text(&absent).unwrap().source, None);
    assert_eq!(Production::from_text(&empty).unwrap().source, Some(String::new()));
}

#[test]
fn job_round_trip() {
    let mut inputs = Table::new();
    inputs.insert("in/b".to_string(), Id::parse("01e79c32a8c99c557f0757da7cb6d65b3414466d").unwrap());
    inputs.insert("inref/a".to_string(), Id::parse("2d6976f9b54866fa6afeb9080bfd843098f107bb").unwrap());
    let job = Job { process: Process::Nested("make plan".into()), inputs };
    let text = job.to_text().unwrap();
    assert_eq!(
        text,
        "in/b=01e79c32a8c99c557f0757da7cb6d65b3414466d\n\
         inref/a=2d6976f9b54866fa6afeb9080bfd843098f107bb\n\
         process=nested:make plan\n"
    );
    assert_eq!(Job::from_text(&text).unwrap(), job);
}

#[test]
fn invocation_round_trip() {
    let mut partial = Table::new();
    partial.insert("partial_production:0".to_string(), Id::parse("2d6976f9b54866fa6afeb9080bfd843098f107bb").unwrap());
    let inv = Invocation {
        production: None,
        partial_productions: partial,
        status: InvocationStatus::Fail,
        plan: Id::parse("00478c2684ff7c617cf87fd103c89114342adddb").unwrap(),
    };
    let text = inv.to_text().unwrap();
    assert_eq!(Invocation::from_text(&text).unwrap(), inv);
}

#[test]
fn decode_errors() {
    assert_eq!(Job::from_text("process=identity\nnoequals\n"), Err(DecodeError::Record));
    assert_eq!(Job::from_text("process=bogus\n"), Err(DecodeError::Content));
    assert_eq!(Job::from_text("process=identity\nout/x=01e79c32a8c99c557f0757da7cb6d65b3414466d\n"), Err(DecodeError::Content));
    assert_eq!(Job::from_text("process=identity\nin/x=zz\n"), Err(DecodeError::Content));
    assert_eq!(Invocation::from_text("plan=00478c2684ff7c617cf87fd103c89114342adddb\nstatus=maybe\n"), Err(DecodeError::Content));
    assert_eq!(Production::from_text("job=4233117e9199336269c23534c78a7088dc5e4893\n"), Err(DecodeError::Content));
}

#[test]
fn process_text_forms() {
    assert_eq!(Process::parse("identity"), Some(Process::Identity));
    assert_eq!(Process::parse("dynamic"), Some(Process::Dynamic));
    assert_eq!(Process::parse("command:a:b"), Some(Process::Command("a:b".into())));
    assert_eq!(Process::parse("nested:x"), Some(Process::Nested("x".into())));
    assert_eq!(Process::parse("shell:x"), None);
    assert_eq!(Process::parse("identityx"), None);
    assert_eq!(Process::Command("cat".into()).text(), "command:cat");
}

#[test]
fn id_hex_is_strict() {
    let id: Id<()> = Id::parse("01E79C32A8C99C557F0757DA7CB6D65B3414466D").unwrap();
    assert_eq!(id.hex(), "01e79c32a8c99c557f0757da7cb6d65b3414466d");
    assert!(Id::<()>::parse("01e79c").is_none());
    assert!(Id::<()>::parse("01e79c32a8c99c557f0757da7cb6d65b3414466g").is_none());
}

#[test]
fn job_text_ignores_input_order() {
    let mut one = Table::new();
    one.insert("in/a".to_string(), Id::parse("01e79c32a8c99c557f0757da7cb6d65b3414466d").unwrap());
    one.insert("in/b".to_string(), Id::parse("2d6976f9b54866fa6afeb9080bfd843098f107bb").unwrap());
    let mut two = Table::new();
    two.insert("in/b".to_string(), Id::parse("2d6976f9b54866fa6afeb9080bfd843098f107bb").unwrap());
    two.insert("in/a".to_string(), Id::parse("01e79c32a8c99c557f0757da7cb6d65b3414466d").unwrap());
    let a = Job { process: Process::Identity, inputs: one };
    let b = Job { process: Process::Identity, inputs: two };
    assert_eq!(a.to_text().unwrap(), b.to_text().unwrap());
}

#[test]
fn bad_optional_fields_are_errors() {
    let job = "job=4233117e9199336269c23534c78a7088dc5e4893\n";
    assert_eq!(Production::from_text(&format!("cache=nothex\nexit_code=0\n{}", job)), Err(DecodeError::Content));
    assert_eq!(Production::from_text(&format!("exit_code=0\n{}log=zz\n", job)), Err(DecodeError::Content));
    assert_eq!(Production::from_text(&format!("exit_code=0\n{}start_ts=yesterday\n", job)), Err(DecodeError::Content));
    assert_eq!(
        Invocation::from_text("plan=00478c2684ff7c617cf87fd103c89114342adddb\nproduction=x\nstatus=ok\n"),
        Err(DecodeError::Content)
    );
    let p = Production::from_text(&format!("exit_code=-12\n{}", job)).unwrap();
    assert_eq!(p.exit_code, -12);
    assert_eq!(p.log, None);
    assert_eq!(Production::from_text(&format!("exit_code=x\n{}", job)), Err(DecodeError::Content));
    assert_eq!(Production::from_text(&format!("exit_code=+7\n{}", job)).unwrap().exit_code, 7);
}

#[test]
fn inline_value_resource_ends_with_newline() {
    assert_eq!(kbuild::plan::inline_value_bytes("hi"), b"hi\n".to_vec());
}

#[test]
fn production_round_trip() {
    let mut outputs = Table::new();
    outputs.insert("out/y".to_string(), Id::parse("2d6976f9b54866fa6afeb9080bfd843098f107bb").unwrap());
    let mut dependencies = Table::new();
    let dep: ProductionId = Id::parse("f16725e71499854fcda3059ac4a2611bfd3a5237").unwrap();
    dependencies.insert("dep:in/x".to_string(), dep);
    let p = Production {
        job: Id::parse("4233117e9199336269c23534c78a7088dc5e4893").unwrap(),
        exit_code: 2,
        outputs,
        dependencies,
        log: Some(Id::parse("01e79c32a8c99c557f0757da7cb6d65b3414466d").unwrap()),
        invocation: None,
        cache: Some(dep),
        source: Some("value:hi".into()),
        start_ts: Some(Timestamp::parse("2021-01-02T04:32:43-08:00").unwrap()),
        end_ts: None,
    };
    let text = p.to_text().unwrap();
    assert_eq!(Production::from_text(&text).unwrap(), p);
}

#[test]
fn timestamps_are_checked() {
    assert!(Timestamp::parse("2021-01-02T04:32:43-08:00").is_some());
    assert!(Timestamp::parse("not a time").is_none());
}

#[test]
fn record_parse_keeps_last_of_a_key() {
    let a = kbuild::attributes::Attributes::parse("k=1
k=2
x=a=b").unwrap();
    assert_eq!(a.0.get("k"), Some(&"2".to_string()));
    assert_eq!(a.0.get("x"), Some(&"a=b".to_string()));
    assert!(kbuild::attributes::Attributes::parse("a=1

").is_err());
}
