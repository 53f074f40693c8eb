//! The attribute record: newline-terminated `key=value` lines, sorted.

use crate::order::{lemma_lex_total, lex_leq, str_leq};
use crate::table::{pairs_map, Table};
use vstd::prelude::*;
use vstd::relations::*;
use vstd::seq_lib::*;

verus! {

broadcast use vstd::seq_lib::group_to_multiset_ensures;

/// Why a record could not be written.
#[derive(Debug, PartialEq, Eq)]
pub enum Error {
    /// A key or a value holds a newline.
    Newline,
}

/// Why a record could not be read.
#[derive(Debug, PartialEq, Eq)]
pub enum ParseError {
    /// A line holds no `=`.
    MissingEquals,
}

/// The order of lines in a record.
pub open spec fn line_leq() -> spec_fn(Seq<char>, Seq<char>) -> bool {
    |a: Seq<char>, b: Seq<char>| lex_leq(a, b)
}

pub open spec fn line_of(key: Seq<char>, value: Seq<char>) -> Seq<char> {
    key + seq!['='] + value
}

pub open spec fn field_views(f: Seq<(String, String)>) -> Seq<(Seq<char>, Seq<char>)> {
    f.map_values(|p: (String, String)| (p.0@, p.1@))
}

pub open spec fn string_views(v: Seq<String>) -> Seq<Seq<char>> {
    v.map_values(|s: String| s@)
}

/// The line of each field, in the fields' order.
pub open spec fn field_lines(f: Seq<(Seq<char>, Seq<char>)>) -> Seq<Seq<char>> {
    f.map_values(|p: (Seq<char>, Seq<char>)| line_of(p.0, p.1))
}

/// Each line followed by a newline.
pub open spec fn join_lines(ls: Seq<Seq<char>>) -> Seq<char>
    decreases ls.len(),
{
    if ls.len() == 0 {
        Seq::empty()
    } else {
        ls[0] + seq!['\n'] + join_lines(ls.drop_first())
    }
}

/// No key or value holds a newline.
pub open spec fn fields_clean(f: Seq<(Seq<char>, Seq<char>)>) -> bool {
    forall|i: int| 0 <= i < f.len() ==> !(#[trigger] f[i]).0.contains('\n') && !f[i].1.contains('\n')
}

/// The text of a record: the fields' lines in sorted order.
pub open spec fn record_text(f: Seq<(Seq<char>, Seq<char>)>) -> Seq<char> {
    join_lines(field_lines(f).sort_by(line_leq()))
}

proof fn lemma_join_push(ls: Seq<Seq<char>>, x: Seq<char>)
    ensures
        join_lines(ls.push(x)) == join_lines(ls) + x + seq!['\n'],
    decreases ls.len(),
{
    if ls.len() == 0 {
        assert(ls.push(x).drop_first() =~= Seq::<Seq<char>>::empty());
        assert(ls.push(x)[0] == x);
        assert(join_lines(ls.push(x)) == x + seq!['\n'] + join_lines(Seq::<Seq<char>>::empty()));
        assert(join_lines(ls.push(x)) =~= join_lines(ls) + x + seq!['\n']);
    } else {
        assert(ls.push(x).drop_first() =~= ls.drop_first().push(x));
        assert(ls.push(x)[0] == ls[0]);
        lemma_join_push(ls.drop_first(), x);
        assert(join_lines(ls.push(x)) == ls[0] + seq!['\n'] + (join_lines(ls.drop_first()) + x + seq!['\n']));
        assert(join_lines(ls.push(x)) =~= join_lines(ls) + x + seq!['\n']);
    }
}

/// Whether `s` holds the character `c`.
pub fn has_char(s: &str, c: char) -> (r: bool)
    ensures
        r == s@.contains(c),
{
    let n = s.unicode_len();
    let mut i: usize = 0;
    while i < n
        invariant
            n == s@.len(),
            i <= n,
            forall|j: int| 0 <= j < i ==> s@[j] != c,
        decreases n - i,
    {
        if s.get_char(i) == c {
            return true;
        }
        i = i + 1;
    }
    false
}

/// Puts `line` into `sorted` at its place in order.
fn insert_sorted(sorted: &mut Vec<String>, line: String)
    requires
        sorted_by(string_views(old(sorted)@), line_leq()),
    ensures
        sorted_by(string_views(final(sorted)@), line_leq()),
        string_views(final(sorted)@).to_multiset() == string_views(old(sorted)@).to_multiset().insert(line@),
{
    proof {
        lemma_lex_total();
    }
    let ghost leq = line_leq();
    let mut j: usize = 0;
    while j < sorted.len() && str_leq(sorted[j].as_str(), line.as_str())
        invariant
            sorted == old(sorted),
            j <= sorted@.len(),
            forall|k: int| 0 <= k < j ==> lex_leq(#[trigger] sorted@[k]@, line@),
        decreases sorted@.len() - j,
    {
        j = j + 1;
    }
    let ghost s = string_views(sorted@);
    let ghost x = line@;
    proof {
        if j < sorted@.len() {
            assert(!lex_leq(s[j as int], x));
            assert(leq(s[j as int], x) || leq(x, s[j as int]));
            assert forall|k: int| j <= k < s.len() implies lex_leq(x, #[trigger] s[k]) by {
                if k > j {
                    assert(leq(s[j as int], s[k]));
                    assert(leq(x, s[j as int]) && leq(s[j as int], s[k]) ==> leq(x, s[k]));
                }
            }
        }
    }
    sorted.insert(j, line);
    proof {
        let n = string_views(sorted@);
        assert(n =~= s.insert(j as int, x));
        assert forall|a: int, b: int| 0 <= a < b < n.len() implies leq(n[a], n[b]) by {
            if b < j {
                assert(n[a] == s[a] && n[b] == s[b]);
            } else if b == j {
                assert(n[a] == s[a]);
                assert(lex_leq(sorted@[a]@, x));
            } else if a == j {
                assert(n[b] == s[b - 1]);
            } else if a < j {
                assert(n[a] == s[a] && n[b] == s[b - 1]);
                assert(lex_leq(sorted@[a]@, x));
                assert(leq(n[a], x) && leq(x, n[b]) ==> leq(n[a], n[b]));
            } else {
                assert(n[a] == s[a - 1] && n[b] == s[b - 1]);
            }
        }
    }
}

/// Writes a record: one `key=value` line per field, sorted, each ended by a
/// newline. Fails when a key or a value holds a newline.
pub fn to_text(fields: &Vec<(String, String)>) -> (r: Result<String, Error>)
    ensures
        r is Ok <==> fields_clean(field_views(fields@)),
        r matches Ok(t) ==> t@ == record_text(field_views(fields@)),
{
    let ghost fv = field_views(fields@);
    let mut i: usize = 0;
    while i < fields.len()
        invariant
            fv == field_views(fields@),
            i <= fields@.len(),
            forall|j: int| 0 <= j < i ==> !(#[trigger] fv[j]).0.contains('\n') && !fv[j].1.contains('\n'),
        decreases fields@.len() - i,
    {
        if has_char(fields[i].0.as_str(), '\n') || has_char(fields[i].1.as_str(), '\n') {
            proof {
                assert(fv[i as int] == (fields@[i as int].0@, fields@[i as int].1@));
            }
            return Err(Error::Newline);
        }
        i = i + 1;
    }
    let mut sorted: Vec<String> = Vec::new();
    let mut i: usize = 0;
    proof {
        assert(string_views(sorted@) =~= Seq::empty());
        assert(field_lines(fv.take(0)) =~= Seq::empty());
    }
    while i < fields.len()
        invariant
            fv == field_views(fields@),
            i <= fields@.len(),
            sorted_by(string_views(sorted@), line_leq()),
            string_views(sorted@).to_multiset() == field_lines(fv.take(i as int)).to_multiset(),
        decreases fields@.len() - i,
    {
        let mut line = fields[i].0.clone();
        line.append("=");
        line.append(fields[i].1.as_str());
        let ghost l = line@;
        proof {
            reveal_strlit("=");
            assert(l =~= line_of(fv[i as int].0, fv[i as int].1));
        }
        insert_sorted(&mut sorted, line);
        proof {
            assert(field_lines(fv.take(i + 1)) =~= field_lines(fv.take(i as int)).push(l));
        }
        i = i + 1;
    }
    let ghost lines = field_lines(fv);
    proof {
        assert(fv.take(fields@.len() as int) =~= fv);
        lemma_lex_total();
        lines.lemma_sort_by_ensures(line_leq());
        lemma_sorted_unique(string_views(sorted@), lines.sort_by(line_leq()), line_leq());
    }
    let mut out = String::new();
    let mut k: usize = 0;
    proof {
        assert(string_views(sorted@).take(0) =~= Seq::empty());
    }
    while k < sorted.len()
        invariant
            k <= sorted@.len(),
            out@ == join_lines(string_views(sorted@).take(k as int)),
        decreases sorted@.len() - k,
    {
        proof {
            let sv = string_views(sorted@);
            assert(sv.take(k + 1) =~= sv.take(k as int).push(sorted@[k as int]@));
            lemma_join_push(sv.take(k as int), sorted@[k as int]@);
        }
        out.append(sorted[k].as_str());
        out.append("\n");
        proof {
            reveal_strlit("\n");
            assert(out@ =~= join_lines(string_views(sorted@).take(k as int)) + sorted@[k as int]@ + seq!['\n']);
        }
        k = k + 1;
    }
    proof {
        assert(string_views(sorted@).take(sorted@.len() as int) =~= string_views(sorted@));
    }
    Ok(out)
}

/// The lines of `s` after the current partial line `cur`: split at each
/// newline; a last line without a newline still counts.
pub open spec fn split_lines_from(s: Seq<char>, cur: Seq<char>) -> Seq<Seq<char>>
    decreases s.len(),
{
    if s.len() == 0 {
        if cur.len() == 0 {
            Seq::empty()
        } else {
            seq![cur]
        }
    } else if s[0] == '\n' {
        seq![cur] + split_lines_from(s.drop_first(), Seq::empty())
    } else {
        split_lines_from(s.drop_first(), cur.push(s[0]))
    }
}

/// The lines of a text.
pub open spec fn split_lines(s: Seq<char>) -> Seq<Seq<char>> {
    split_lines_from(s, Seq::empty())
}

/// `i` is where `c` first stands in `s`.
pub open spec fn first_at(s: Seq<char>, c: char, i: int) -> bool {
    0 <= i < s.len() && s[i] == c && forall|j: int| 0 <= j < i ==> s[j] != c
}

/// The parts of `s` before and after the first `c`, if any.
pub open spec fn split_once(s: Seq<char>, c: char) -> Option<(Seq<char>, Seq<char>)> {
    if s.contains(c) {
        let i = choose|i: int| first_at(s, c, i);
        Some((s.take(i), s.skip(i + 1)))
    } else {
        None
    }
}

pub proof fn lemma_split_once(s: Seq<char>, c: char, i: int)
    requires
        first_at(s, c, i),
    ensures
        split_once(s, c) == Some((s.take(i), s.skip(i + 1))),
{
    assert(s.contains(c));
    let k = choose|k: int| first_at(s, c, k);
    assert(first_at(s, c, k));
    if k < i {
        assert(s[k] != c);
    }
    if i < k {
        assert(s[i] != c);
    }
}

/// Splits `s` at the first `c`.
pub fn split_once_str(s: &str, c: char) -> (r: Option<(&str, &str)>)
    ensures
        r is None <==> split_once(s@, c) is None,
        r matches Some(p) ==> split_once(s@, c) == Some((p.0@, p.1@)),
{
    let n = s.unicode_len();
    let mut i: usize = 0;
    while i < n
        invariant
            n == s@.len(),
            i <= n,
            forall|j: int| 0 <= j < i ==> s@[j] != c,
        decreases n - i,
    {
        if s.get_char(i) == c {
            proof {
                lemma_split_once(s@, c, i as int);
            }
            return Some((s.substring_char(0, i), s.substring_char(i + 1, n)));
        }
        i = i + 1;
    }
    None
}

/// Splitting a string at the first occurrence of a character.
pub trait StrExt {
    fn split_once_ext(&self, delimiter: char) -> Option<(&str, &str)>;
}

impl StrExt for str {
    fn split_once_ext(&self, delimiter: char) -> (r: Option<(&str, &str)>) {
        split_once_str(self, delimiter)
    }
}

/// The lines of a text: split at each newline, a last line without a newline
/// still counting.
pub fn lines_of(text: &str) -> (r: Vec<String>)
    ensures
        string_views(r@) == split_lines(text@),
{
    let n = text.unicode_len();
    let mut out: Vec<String> = Vec::new();
    let mut start: usize = 0;
    let mut i: usize = 0;
    proof {
        assert(text@.subrange(0, 0) =~= Seq::<char>::empty());
        assert(text@.skip(0) =~= text@);
        assert(string_views(out@) =~= Seq::empty());
    }
    while i < n
        invariant
            n == text@.len(),
            start <= i <= n,
            split_lines(text@) == string_views(out@) + split_lines_from(
                text@.skip(i as int),
                text@.subrange(start as int, i as int),
            ),
        decreases n - i,
    {
        let c = text.get_char(i);
        proof {
            let rest = text@.skip(i as int);
            assert(rest[0] == c);
            assert(rest.drop_first() =~= text@.skip(i + 1));
        }
        if c == '\n' {
            let line = text.substring_char(start, i).to_owned();
            let ghost before = string_views(out@);
            out.push(line);
            proof {
                assert(string_views(out@) =~= before.push(line@));
                assert(text@.subrange(i + 1, i + 1) =~= Seq::<char>::empty());
            }
            start = i + 1;
        } else {
            proof {
                assert(text@.subrange(start as int, i + 1) =~= text@.subrange(start as int, i as int).push(c));
            }
        }
        i = i + 1;
    }
    if start < n {
        let line = text.substring_char(start, n).to_owned();
        let ghost before = string_views(out@);
        out.push(line);
        proof {
            assert(string_views(out@) =~= before.push(line@));
        }
    }
    proof {
        assert(text@.skip(n as int) =~= Seq::<char>::empty());
    }
    out
}

/// The key and value of each line, or `None` where a line holds no `=`.
pub open spec fn line_pairs(ls: Seq<Seq<char>>) -> Option<Seq<(Seq<char>, Seq<char>)>> {
    if forall|i: int| 0 <= i < ls.len() ==> (#[trigger] ls[i]).contains('=') {
        Some(ls.map_values(|l: Seq<char>| split_once(l, '=')->0))
    } else {
        None
    }
}

/// What a record's text says: each key with the value of its last line.
pub open spec fn parse_record(text: Seq<char>) -> Option<Map<Seq<char>, Seq<char>>> {
    match line_pairs(split_lines(text)) {
        Some(p) => Some(pairs_map(p)),
        None => None,
    }
}

/// A record read back from its text: a table from key to value.
pub struct Attributes(pub Table<String>);

impl View for Attributes {
    type V = Map<Seq<char>, Seq<char>>;

    open spec fn view(&self) -> Map<Seq<char>, Seq<char>> {
        self.0@
    }
}

impl Attributes {
    pub open spec fn wf(&self) -> bool {
        self.0.wf()
    }

    /// Reads a record. A line without `=` is an error; where a key comes
    /// twice, the later line wins.
    pub fn parse(text: &str) -> (r: Result<Attributes, ParseError>)
        ensures
            r is Ok <==> parse_record(text@) is Some,
            r matches Ok(a) ==> a.wf() && a@ == parse_record(text@)->0,
    {
        let lines = lines_of(text);
        let ghost ls = split_lines(text@);
        let mut table: Table<String> = Table::new();
        let mut i: usize = 0;
        while i < lines.len()
            invariant
                string_views(lines@) == ls,
                ls == split_lines(text@),
                i <= lines@.len(),
                table.wf(),
                forall|j: int| 0 <= j < i ==> (#[trigger] ls[j]).contains('='),
                table@ == pairs_map(ls.take(i as int).map_values(|l: Seq<char>| split_once(l, '=')->0)),
            decreases lines@.len() - i,
        {
            assert(ls[i as int] == lines@[i as int]@);
            match split_once_str(lines[i].as_str(), '=') {
                Some((k, v)) => {
                    table.insert(k.to_owned(), v.to_owned());
                    proof {
                        let f = |l: Seq<char>| split_once(l, '=')->0;
                        assert(ls.take(i + 1).map_values(f).drop_last() =~= ls.take(i as int).map_values(f));
                        assert(split_once(ls[i as int], '=') is Some);
                        assert(ls[i as int].contains('='));
                    }
                },
                None => {
                    proof {
                        assert(!ls[i as int].contains('='));
                        assert(line_pairs(ls) is None);
                        assert(parse_record(text@) is None);
                    }
                    return Err(ParseError::MissingEquals);
                },
            }
            i = i + 1;
        }
        proof {
            assert(ls.take(lines@.len() as int) =~= ls);
        }
        Ok(Attributes(table))
    }

    /// Takes `key` out of the record, handing back its value.
    pub fn consume(&mut self, key: &str) -> (r: Option<String>)
        requires
            old(self).wf(),
        ensures
            final(self).wf(),
            final(self)@ == old(self)@.remove(key@),
            r is None <==> !old(self)@.contains_key(key@),
            r matches Some(v) ==> v@ == old(self)@[key@],
    {
        self.0.remove(key)
    }
}

/// No key holds `=`, and no key or value a newline.
pub open spec fn fields_readable(f: Seq<(Seq<char>, Seq<char>)>) -> bool {
    &&& fields_clean(f)
    &&& forall|i: int| 0 <= i < f.len() ==> !(#[trigger] f[i]).0.contains('=')
}

proof fn lemma_split_line(k: Seq<char>, v: Seq<char>)
    requires
        !k.contains('='),
    ensures
        line_of(k, v).contains('='),
        split_once(line_of(k, v), '=') == Some((k, v)),
{
    let l = line_of(k, v);
    assert(l[k.len() as int] == '=');
    assert forall|j: int| 0 <= j < k.len() implies l[j] != '=' by {
        assert(l[j] == k[j]);
    }
    assert(first_at(l, '=', k.len() as int));
    lemma_split_once(l, '=', k.len() as int);
    assert(l.take(k.len() as int) =~= k);
    assert(l.skip(k.len() as int + 1) =~= v);
}

proof fn lemma_split_lines_line(l: Seq<char>, rest: Seq<char>, cur: Seq<char>)
    requires
        !l.contains('\n'),
    ensures
        split_lines_from(l + seq!['\n'] + rest, cur) == seq![cur + l] + split_lines_from(rest, Seq::empty()),
    decreases l.len(),
{
    let s = l + seq!['\n'] + rest;
    if l.len() == 0 {
        assert(s[0] == '\n');
        assert(s.drop_first() =~= rest);
        assert(cur + l =~= cur);
    } else {
        assert(s[0] == l[0]);
        assert(s.drop_first() =~= l.drop_first() + seq!['\n'] + rest);
        assert(!l.drop_first().contains('\n')) by {
            if l.drop_first().contains('\n') {
                let j = choose|j: int| 0 <= j < l.drop_first().len() && l.drop_first()[j] == '\n';
                assert(l[j + 1] == '\n');
            }
        }
        lemma_split_lines_line(l.drop_first(), rest, cur.push(l[0]));
        assert(cur.push(l[0]) + l.drop_first() =~= cur + l);
    }
}

proof fn lemma_split_join(ls: Seq<Seq<char>>)
    requires
        forall|i: int| 0 <= i < ls.len() ==> !(#[trigger] ls[i]).contains('\n'),
    ensures
        split_lines(join_lines(ls)) == ls,
    decreases ls.len(),
{
    if ls.len() == 0 {
        assert(split_lines(join_lines(ls)) =~= ls);
    } else {
        lemma_split_join(ls.drop_first());
        lemma_split_lines_line(ls[0], join_lines(ls.drop_first()), Seq::empty());
        assert(Seq::<char>::empty() + ls[0] =~= ls[0]);
        assert(seq![ls[0]] + ls.drop_first() =~= ls);
    }
}

proof fn lemma_pairs_map_some<W>(s: Seq<(Seq<char>, W)>, k: Seq<char>)
    requires
        pairs_map(s).contains_key(k),
    ensures
        exists|i: int| 0 <= i < s.len() && s[i].0 == k && pairs_map(s)[k] == s[i].1,
    decreases s.len(),
{
    if s.last().0 != k {
        lemma_pairs_map_some(s.drop_last(), k);
        let i = choose|i: int| 0 <= i < s.len() - 1 && s.drop_last()[i].0 == k && pairs_map(s.drop_last())[k] == s.drop_last()[i].1;
        assert(s[i] == s.drop_last()[i]);
    } else {
        assert(s[s.len() - 1].0 == k);
    }
}

/// The sorted lines of a record, as written.
pub open spec fn record_lines(f: Seq<(Seq<char>, Seq<char>)>) -> Seq<Seq<char>> {
    field_lines(f).sort_by(line_leq())
}

pub proof fn lemma_record_lines_facts(f: Seq<(Seq<char>, Seq<char>)>)
    requires
        fields_readable(f),
    ensures
        sorted_by(record_lines(f), line_leq()),
        record_lines(f).to_multiset() == field_lines(f).to_multiset(),
        forall|i: int| 0 <= i < record_lines(f).len() ==> field_lines(f).contains(#[trigger] record_lines(f)[i]),
        forall|i: int| 0 <= i < record_lines(f).len() ==> !(#[trigger] record_lines(f)[i]).contains('\n'),
        split_lines(record_text(f)) == record_lines(f),
{
    let l = field_lines(f);
    let s = record_lines(f);
    lemma_lex_total();
    l.lemma_sort_by_ensures(line_leq());
    assert forall|i: int| 0 <= i < s.len() implies l.contains(#[trigger] s[i]) && !s[i].contains('\n') by {
        assert(s.contains(s[i]));
        assert(s.to_multiset().count(s[i]) > 0);
        let a = choose|a: int| 0 <= a < l.len() && l[a] == s[i];
        let (k, v) = f[a];
        assert(l[a] == line_of(k, v));
        if s[i].contains('\n') {
            let j = choose|j: int| 0 <= j < s[i].len() && s[i][j] == '\n';
            if j < k.len() {
                assert(k[j] == '\n');
            } else if j == k.len() {
            } else {
                assert(v[j - k.len() - 1] == '\n');
            }
        }
    }
    lemma_split_join(s);
}

/// A record's lines come out in strictly increasing order: each is
/// lexicographically less than the next, where no key holds `=` and no two
/// fields share a key.
pub proof fn lemma_record_sorted(f: Seq<(Seq<char>, Seq<char>)>)
    requires
        fields_readable(f),
        crate::table::keys_unique(f),
    ensures
        split_lines(record_text(f)) == record_lines(f),
        forall|i: int, j: int|
            0 <= i < j < record_lines(f).len() ==> lex_leq(record_lines(f)[i], record_lines(f)[j])
                && record_lines(f)[i] != record_lines(f)[j],
{
    lemma_record_lines_facts(f);
    let l = field_lines(f);
    let s = record_lines(f);
    assert(l.no_duplicates()) by {
        assert forall|a: int, b: int| 0 <= a < l.len() && 0 <= b < l.len() && a != b implies l[a] != l[b] by {
            lemma_split_line(f[a].0, f[a].1);
            lemma_split_line(f[b].0, f[b].1);
        }
    }
    l.lemma_multiset_has_no_duplicates();
    assert forall|x: Seq<char>| s.to_multiset().contains(x) implies s.to_multiset().count(x) == 1 by {
        assert(l.to_multiset().contains(x));
    }
    s.lemma_multiset_has_no_duplicates_conv();
    assert forall|i: int, j: int| 0 <= i < j < s.len() implies lex_leq(s[i], s[j]) && s[i] != s[j] by {
        assert(line_leq()(s[i], s[j]));
    }
}

/// Reading back what was written gives each field's key its value, where no
/// key holds `=`, no key or value a newline, and no two fields share a key.
pub proof fn lemma_record_round_trip(f: Seq<(Seq<char>, Seq<char>)>)
    requires
        fields_readable(f),
        crate::table::keys_unique(f),
    ensures
        parse_record(record_text(f)) == Some(pairs_map(f)),
{
    lemma_record_lines_facts(f);
    let l = field_lines(f);
    let s = record_lines(f);
    let sp = |x: Seq<char>| split_once(x, '=')->0;
    assert forall|i: int| 0 <= i < s.len() implies (#[trigger] s[i]).contains('=') && exists|a: int| 0 <= a < f.len() && sp(s[i]) == f[a] by {
        let a = choose|a: int| 0 <= a < l.len() && l[a] == s[i];
        lemma_split_line(f[a].0, f[a].1);
    }
    let p = s.map_values(sp);
    assert(line_pairs(s) == Some(p));
    assert forall|k: Seq<char>| #[trigger] pairs_map(p).contains_key(k) <==> pairs_map(f).contains_key(k) by {
        crate::table::lemma_pairs_map_dom(p, k);
        crate::table::lemma_pairs_map_dom(f, k);
        if exists|i: int| 0 <= i < p.len() && p[i].0 == k {
            let i = choose|i: int| 0 <= i < p.len() && p[i].0 == k;
            assert(s[i].contains('='));
            let a = choose|a: int| 0 <= a < f.len() && sp(s[i]) == f[a];
            assert(f[a].0 == k);
        }
        if exists|a: int| 0 <= a < f.len() && f[a].0 == k {
            let a = choose|a: int| 0 <= a < f.len() && f[a].0 == k;
            assert(l[a] == line_of(f[a].0, f[a].1));
            assert(l.contains(l[a]));
            assert(l.to_multiset().count(l[a]) > 0);
            assert(s.contains(l[a]));
            let i = choose|i: int| 0 <= i < s.len() && s[i] == l[a];
            lemma_split_line(f[a].0, f[a].1);
            assert(p[i].0 == k);
        }
    }
    assert forall|k: Seq<char>| #[trigger] pairs_map(p).contains_key(k) implies pairs_map(p)[k] == pairs_map(f)[k] by {
        lemma_pairs_map_some(p, k);
        let i = choose|i: int| 0 <= i < p.len() && p[i].0 == k && pairs_map(p)[k] == p[i].1;
        assert(s[i].contains('='));
        let a = choose|a: int| 0 <= a < f.len() && sp(s[i]) == f[a];
        crate::table::lemma_pairs_map_value(f, a);
    }
    assert(pairs_map(p) =~= pairs_map(f));
}

proof fn lemma_lines_contain(f: Seq<(Seq<char>, Seq<char>)>, x: Seq<char>)
    requires
        fields_readable(f),
    ensures
        field_lines(f).contains(x) <==> exists|i: int| 0 <= i < f.len() && x == line_of(#[trigger] f[i].0, f[i].1),
{
    if field_lines(f).contains(x) {
        let i = choose|i: int| 0 <= i < field_lines(f).len() && field_lines(f)[i] == x;
        assert(x == line_of(f[i].0, f[i].1));
    }
    if exists|i: int| 0 <= i < f.len() && x == line_of(#[trigger] f[i].0, f[i].1) {
        let i = choose|i: int| 0 <= i < f.len() && x == line_of(#[trigger] f[i].0, f[i].1);
        assert(field_lines(f)[i] == x);
    }
}

/// A record's text depends only on what it maps each key to: two field lists
/// with unique, readable keys and the same map give the same text, whatever
/// their order.
pub proof fn lemma_record_text_determined(f: Seq<(Seq<char>, Seq<char>)>, g: Seq<(Seq<char>, Seq<char>)>)
    requires
        fields_readable(f),
        fields_readable(g),
        crate::table::keys_unique(f),
        crate::table::keys_unique(g),
        pairs_map(f) == pairs_map(g),
    ensures
        record_text(f) == record_text(g),
{
    let lf = field_lines(f);
    let lg = field_lines(g);
    assert forall|x: Seq<char>| lf.contains(x) <==> lg.contains(x) by {
        lemma_lines_contain(f, x);
        lemma_lines_contain(g, x);
        if lf.contains(x) {
            let i = choose|i: int| 0 <= i < f.len() && x == line_of(#[trigger] f[i].0, f[i].1);
            crate::table::lemma_pairs_map_value(f, i);
            crate::table::lemma_pairs_map_dom(g, f[i].0);
            let j = choose|j: int| 0 <= j < g.len() && g[j].0 == f[i].0;
            crate::table::lemma_pairs_map_value(g, j);
            assert(x == line_of(g[j].0, g[j].1));
        }
        if lg.contains(x) {
            let j = choose|j: int| 0 <= j < g.len() && x == line_of(#[trigger] g[j].0, g[j].1);
            crate::table::lemma_pairs_map_value(g, j);
            crate::table::lemma_pairs_map_dom(f, g[j].0);
            let i = choose|i: int| 0 <= i < f.len() && f[i].0 == g[j].0;
            crate::table::lemma_pairs_map_value(f, i);
            assert(x == line_of(f[i].0, f[i].1));
        }
    }
    assert(lf.no_duplicates()) by {
        assert forall|a: int, b: int| 0 <= a < lf.len() && 0 <= b < lf.len() && a != b implies lf[a] != lf[b] by {
            lemma_split_line(f[a].0, f[a].1);
            lemma_split_line(f[b].0, f[b].1);
        }
    }
    assert(lg.no_duplicates()) by {
        assert forall|a: int, b: int| 0 <= a < lg.len() && 0 <= b < lg.len() && a != b implies lg[a] != lg[b] by {
            lemma_split_line(g[a].0, g[a].1);
            lemma_split_line(g[b].0, g[b].1);
        }
    }
    lf.lemma_multiset_has_no_duplicates();
    lg.lemma_multiset_has_no_duplicates();
    assert(lf.to_multiset() =~= lg.to_multiset()) by {
        assert forall|x: Seq<char>| lf.to_multiset().count(x) == lg.to_multiset().count(x) by {
            if lf.contains(x) {
                assert(lf.to_multiset().contains(x));
                assert(lg.to_multiset().contains(x));
            } else {
                assert(!lf.to_multiset().contains(x));
                assert(!lg.to_multiset().contains(x));
            }
        }
    }
    lemma_lex_total();
    lf.lemma_sort_by_ensures(line_leq());
    lg.lemma_sort_by_ensures(line_leq());
    lemma_sorted_unique(lf.sort_by(line_leq()), lg.sort_by(line_leq()), line_leq());
}

/// A line that begins with `name=` has the key `name`, where neither holds `=`.
proof fn lemma_line_key(k: Seq<char>, v: Seq<char>, name: Seq<char>)
    requires
        !k.contains('='),
        !name.contains('='),
        crate::text::starts_with(line_of(k, v), name + seq!['=']),
    ensures
        k == name,
{
    let l = line_of(k, v);
    let p = name + seq!['='];
    assert(l.take(p.len() as int) == p);
    if k.len() < name.len() {
        assert(l[k.len() as int] == '=');
        assert(l.take(p.len() as int)[k.len() as int] == p[k.len() as int]);
        assert(name[k.len() as int] == '=');
        assert(name.contains('='));
    } else if k.len() > name.len() {
        assert(l.take(p.len() as int)[name.len() as int] == '=');
        assert(k[name.len() as int] == '=');
        assert(k.contains('='));
    } else {
        assert forall|i: int| 0 <= i < k.len() implies k[i] == name[i] by {
            assert(l.take(p.len() as int)[i] == p[i]);
        }
        assert(k =~= name);
    }
}

/// Where no field has the key `name`, no line of the record begins with
/// `name=`.
pub proof fn lemma_elided_line(f: Seq<(Seq<char>, Seq<char>)>, name: Seq<char>)
    requires
        fields_readable(f),
        !name.contains('='),
        forall|i: int| 0 <= i < f.len() ==> (#[trigger] f[i]).0 != name,
    ensures
        forall|i: int| 0 <= i < split_lines(record_text(f)).len() ==> !crate::text::starts_with(
            #[trigger] split_lines(record_text(f))[i],
            name + seq!['='],
        ),
{
    lemma_record_lines_facts(f);
    assert forall|i: int| 0 <= i < split_lines(record_text(f)).len() implies !crate::text::starts_with(
        #[trigger] split_lines(record_text(f))[i],
        name + seq!['='],
    ) by {
        let x = record_lines(f)[i];
        assert(field_lines(f).contains(x));
        let a = choose|a: int| 0 <= a < field_lines(f).len() && field_lines(f)[a] == x;
        if crate::text::starts_with(x, name + seq!['=']) {
            lemma_line_key(f[a].0, f[a].1, name);
        }
    }
}

/// The line of every field stands in the record.
pub proof fn lemma_present_line(f: Seq<(Seq<char>, Seq<char>)>, i: int)
    requires
        fields_readable(f),
        0 <= i < f.len(),
    ensures
        split_lines(record_text(f)).contains(line_of(f[i].0, f[i].1)),
{
    broadcast use vstd::seq_lib::group_to_multiset_ensures;
    lemma_record_lines_facts(f);
    assert(field_lines(f)[i] == line_of(f[i].0, f[i].1));
    assert(field_lines(f).contains(line_of(f[i].0, f[i].1)));
    assert(record_lines(f).to_multiset().count(line_of(f[i].0, f[i].1)) > 0);
}

} // verus!
