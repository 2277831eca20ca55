//! JSON text for chunk records and request bodies, and the line framing of
//! line-delimited JSON.

use vstd::prelude::*;
use crate::assemble::views;
use crate::paragraph::lines_of;
use crate::text::{chars_of, trim, trim_chars, deep, lemma_deep_push};

verus! {

pub open spec fn hex_digit(n: int) -> char {
    if n < 10 {
        ((48 + n) as u8) as char
    } else {
        ((87 + n) as u8) as char
    }
}

/// The JSON form of one character inside a string literal.
pub open spec fn escape_char(c: char) -> Seq<char> {
    let u = c as u32;
    if c == '"' {
        seq!['\\', '"']
    } else if c == '\\' {
        seq!['\\', '\\']
    } else if u == 0x08 {
        seq!['\\', 'b']
    } else if u == 0x09 {
        seq!['\\', 't']
    } else if u == 0x0A {
        seq!['\\', 'n']
    } else if u == 0x0C {
        seq!['\\', 'f']
    } else if u == 0x0D {
        seq!['\\', 'r']
    } else if u < 0x20 {
        seq!['\\', 'u', '0', '0', hex_digit((u / 16) as int), hex_digit((u % 16) as int)]
    } else {
        seq![c]
    }
}

pub open spec fn escaped(s: Seq<char>) -> Seq<char>
    decreases s.len(),
{
    if s.len() == 0 {
        Seq::empty()
    } else {
        escaped(s.drop_last()) + escape_char(s.last())
    }
}

/// A JSON string literal holding `s`.
pub open spec fn json_quoted(s: Seq<char>) -> Seq<char> {
    seq!['"'] + escaped(s) + seq!['"']
}

/// Relies on `serde_json::to_string` for a `str`: a quoted literal in which `"`,
/// `\` and the control characters below U+0020 are escaped (`\b`, `\t`, `\n`,
/// `\f`, `\r`, else `\u00` and two lower-case hex digits) and nothing else is.
/// Writing into memory, it does not fail.
#[verifier::external_body]
pub(crate) fn json_string(s: &str) -> (r: String)
    ensures
        r@ == json_quoted(s@),
{
    serde_json::to_string(s).unwrap_or_default()
}

pub open spec fn digit(n: int) -> char {
    ((48 + n) as u8) as char
}

/// Decimal digits of `n`, without leading zeros.
pub open spec fn decimal(n: nat) -> Seq<char>
    decreases n,
{
    if n < 10 {
        seq![digit(n as int)]
    } else {
        decimal(n / 10).push(digit((n % 10) as int))
    }
}

fn decimal_chars(n: u64) -> (r: Vec<char>)
    ensures
        r@ == decimal(n as nat),
    decreases n,
{
    let d = ((n % 10) as u8 + 48) as char;
    if n < 10 {
        let mut v: Vec<char> = Vec::new();
        v.push(d);
        assert(v@ =~= seq![digit(n as int)]);
        v
    } else {
        let mut v = decimal_chars(n / 10);
        v.push(d);
        v
    }
}

/// Appends characters at the end of a string.
pub(crate) fn append_chars(s: &mut String, v: &Vec<char>)
    ensures
        final(s)@ == old(s)@ + v@,
{
    let mut i: usize = 0;
    let ghost start = s@;
    while i < v.len()
        invariant
            i <= v.len(),
            s@ == start + v@.take(i as int),
        decreases v.len() - i,
    {
        crate::text::push_char(s, v[i]);
        assert(start + v@.take(i + 1) =~= (start + v@.take(i as int)).push(v@[i as int]));
        i = i + 1;
    }
    assert(v@.take(v.len() as int) =~= v@);
}

/// The decimal text of `n`.
pub fn decimal_string(n: u64) -> (r: String)
    ensures
        r@ == decimal(n as nat),
{
    let v = decimal_chars(n);
    let mut s = String::new();
    append_chars(&mut s, &v);
    assert(s@ =~= v@);
    s
}

/// One member of a JSON object: the quoted key, a colon, the value's text.
pub open spec fn member(e: (Seq<char>, Seq<char>)) -> Seq<char> {
    json_quoted(e.0) + seq![':'] + e.1
}

pub open spec fn members(es: Seq<(Seq<char>, Seq<char>)>) -> Seq<char>
    decreases es.len(),
{
    if es.len() == 0 {
        Seq::empty()
    } else if es.len() == 1 {
        member(es[0])
    } else {
        members(es.drop_last()) + seq![','] + member(es.last())
    }
}

/// The text of a JSON object with the given members, in order; each value is
/// already JSON text.
pub open spec fn object_text(es: Seq<(Seq<char>, Seq<char>)>) -> Seq<char> {
    seq!['{'] + members(es) + seq!['}']
}

pub open spec fn entry_views(es: Seq<(String, String)>) -> Seq<(Seq<char>, Seq<char>)> {
    es.map_values(|e: (String, String)| (e.0@, e.1@))
}

/// Renders members `(key, value text)` as a JSON object.
pub fn render_object(entries: &[(String, String)]) -> (r: String)
    ensures
        r@ == object_text(entry_views(entries@)),
{
    let ghost ev = entry_views(entries@);
    let mut s = String::new();
    s.append("{");
    proof {
        reveal_strlit("{");
        assert(ev.take(0) =~= Seq::<(Seq<char>, Seq<char>)>::empty());
    }
    let mut i: usize = 0;
    while i < entries.len()
        invariant
            i <= entries.len(),
            ev == entry_views(entries@),
            s@ == seq!['{'] + members(ev.take(i as int)),
        decreases entries.len() - i,
    {
        if i > 0 {
            s.append(",");
            proof {
                reveal_strlit(",");
            }
        }
        let k = json_string(entries[i].0.as_str());
        s.append(k.as_str());
        s.append(":");
        s.append(entries[i].1.as_str());
        proof {
            reveal_strlit(":");
            let t = ev.take(i + 1);
            assert(t.drop_last() =~= ev.take(i as int));
            assert(t.last() == (entries@[i as int].0@, entries@[i as int].1@));
            if i == 0 {
                assert(t.len() == 1);
                assert(s@ =~= seq!['{'] + members(t));
            } else {
                assert(s@ =~= seq!['{'] + members(t));
            }
        }
        i = i + 1;
    }
    s.append("}");
    proof {
        reveal_strlit("}");
        assert(ev.take(entries.len() as int) =~= ev);
        assert(s@ =~= object_text(ev));
    }
    s
}

/// A text in which every line is followed by a newline.
pub open spec fn jsonl_text(lines: Seq<Seq<char>>) -> Seq<char>
    decreases lines.len(),
{
    if lines.len() == 0 {
        Seq::empty()
    } else {
        jsonl_text(lines.drop_last()) + lines.last() + seq!['\n']
    }
}

/// The lines that hold more than whitespace, in order.
pub open spec fn nonblank(ls: Seq<Seq<char>>) -> Seq<Seq<char>>
    decreases ls.len(),
{
    if ls.len() == 0 {
        Seq::empty()
    } else if trim(ls.last()).len() > 0 {
        nonblank(ls.drop_last()).push(ls.last())
    } else {
        nonblank(ls.drop_last())
    }
}

/// The record lines of a line-delimited JSON text: its lines, blank ones skipped.
pub open spec fn record_lines(body: Seq<char>) -> Seq<Seq<char>> {
    nonblank(lines_of(body))
}

/// Joins lines, each followed by a newline.
pub fn jsonl_body(lines: &[String]) -> (r: String)
    ensures
        r@ == jsonl_text(views(lines@)),
{
    let ghost lv = views(lines@);
    let mut s = String::new();
    let mut i: usize = 0;
    assert(lv.take(0) =~= Seq::<Seq<char>>::empty());
    while i < lines.len()
        invariant
            i <= lines.len(),
            lv == views(lines@),
            s@ == jsonl_text(lv.take(i as int)),
        decreases lines.len() - i,
    {
        s.append(lines[i].as_str());
        crate::text::push_char(&mut s, '\n');
        proof {
            assert(lv.take(i + 1).drop_last() =~= lv.take(i as int));
            assert(lv.take(i + 1).last() == lines@[i as int]@);
        }
        i = i + 1;
    }
    assert(lv.take(lines.len() as int) =~= lv);
    s
}

/// The lines of a line-delimited JSON text that hold more than whitespace.
pub fn jsonl_lines(body: &str) -> (r: Vec<String>)
    ensures
        views(r@) == record_lines(body@),
{
    let chars = chars_of(body);
    let mut out: Vec<Vec<char>> = Vec::new();
    let mut cur: Vec<char> = Vec::new();
    let mut i: usize = 0;
    assert(deep(out@) =~= Seq::<Seq<char>>::empty());
    while i < chars.len()
        invariant
            i <= chars.len(),
            deep(out@) == nonblank(crate::paragraph::lines_run(chars@.take(i as int)).0),
            cur@ == crate::paragraph::lines_run(chars@.take(i as int)).1,
        decreases chars.len() - i,
    {
        let c = chars[i];
        assert(chars@.take(i + 1).drop_last() =~= chars@.take(i as int));
        if c == '\n' {
            let ghost prev = crate::paragraph::lines_run(chars@.take(i as int));
            assert(prev.0.push(prev.1).drop_last() =~= prev.0);
            assert(prev.0.push(prev.1).last() == prev.1);
            let done = cur;
            if trim_chars(&done).len() > 0 {
                proof {
                    lemma_deep_push(out@, done);
                }
                out.push(done);
            }
            cur = Vec::new();
        } else {
            cur.push(c);
        }
        i = i + 1;
    }
    assert(chars@.take(chars.len() as int) =~= chars@);
    let ghost st = crate::paragraph::lines_run(chars@);
    if trim_chars(&cur).len() > 0 {
        proof {
            lemma_deep_push(out@, cur);
            assert(st.0.push(st.1).drop_last() =~= st.0);
        }
        out.push(cur);
    } else if cur.len() > 0 {
        assert(st.0.push(st.1).drop_last() =~= st.0);
    }
    crate::assemble::strings_of(&out)
}

proof fn lemma_lines_run_line(a: Seq<char>, l: Seq<char>)
    requires
        forall|j: int| 0 <= j < l.len() ==> l[j] != '\n',
    ensures
        crate::paragraph::lines_run(a + l) == (crate::paragraph::lines_run(a).0, crate::paragraph::lines_run(a).1 + l),
    decreases l.len(),
{
    if l.len() == 0 {
        assert(a + l =~= a);
        assert(crate::paragraph::lines_run(a).1 + l =~= crate::paragraph::lines_run(a).1);
    } else {
        lemma_lines_run_line(a, l.drop_last());
        assert((a + l).drop_last() =~= a + l.drop_last());
        assert((a + l).last() == l.last());
        assert(crate::paragraph::lines_run(a).1 + l.drop_last() + seq![l.last()] =~= crate::paragraph::lines_run(a).1 + l);
        assert((crate::paragraph::lines_run(a).1 + l.drop_last()).push(l.last()) =~= crate::paragraph::lines_run(a).1 + l);
    }
}

proof fn lemma_lines_of_jsonl(ls: Seq<Seq<char>>)
    requires
        forall|i: int, j: int| 0 <= i < ls.len() && 0 <= j < ls[i].len() ==> ls[i][j] != '\n',
    ensures
        crate::paragraph::lines_run(jsonl_text(ls)) == (ls, Seq::<char>::empty()),
    decreases ls.len(),
{
    if ls.len() > 0 {
        let init = ls.drop_last();
        assert forall|i: int, j: int| 0 <= i < init.len() && 0 <= j < init[i].len() implies init[i][j] != '\n' by {
            assert(init[i] == ls[i]);
        }
        lemma_lines_of_jsonl(init);
        let a = jsonl_text(init);
        let l = ls.last();
        assert forall|j: int| 0 <= j < l.len() implies l[j] != '\n' by {
            assert(l == ls[ls.len() - 1]);
        }
        lemma_lines_run_line(a, l);
        let t = jsonl_text(ls);
        assert(t == (a + l) + seq!['\n']);
        assert(t.drop_last() =~= a + l);
        assert(Seq::<char>::empty() + l =~= l);
        assert(init.push(l) =~= ls);
    } else {
        assert(jsonl_text(ls) == Seq::<char>::empty());
    }
}

proof fn lemma_nonblank_all(ls: Seq<Seq<char>>)
    requires
        forall|i: int| 0 <= i < ls.len() ==> trim(#[trigger] ls[i]).len() > 0,
    ensures
        nonblank(ls) == ls,
    decreases ls.len(),
{
    if ls.len() > 0 {
        assert(trim(ls[ls.len() - 1]).len() > 0);
        assert forall|i: int| 0 <= i < ls.drop_last().len() implies trim(#[trigger] ls.drop_last()[i]).len() > 0 by {
            assert(ls.drop_last()[i] == ls[i]);
        }
        lemma_nonblank_all(ls.drop_last());
        assert(ls.drop_last().push(ls.last()) =~= ls);
    }
}

/// Writing lines as line-delimited JSON and reading the record lines back gives
/// the same lines, when each holds no newline and more than whitespace (as a
/// serialized record does).
pub proof fn lemma_jsonl_round_trip(ls: Seq<Seq<char>>)
    requires
        forall|i: int, j: int| 0 <= i < ls.len() && 0 <= j < ls[i].len() ==> ls[i][j] != '\n',
        forall|i: int| 0 <= i < ls.len() ==> trim(#[trigger] ls[i]).len() > 0,
    ensures
        record_lines(jsonl_text(ls)) == ls,
{
    lemma_lines_of_jsonl(ls);
    lemma_nonblank_all(ls);
}

} // verus!
