//! Chunk records: positions, metadata and the JSON line of each chunk.

use vstd::prelude::*;
use crate::assemble::views;
use crate::config::ChunkConfig;
use crate::json::{
    decimal, decimal_string, entry_views, escape_char, escaped, hex_digit, json_quoted, json_string,
    jsonl_text, lemma_jsonl_round_trip, object_text, record_lines, render_object,
};
use crate::text::{byte_len, byte_len_of, chars_of, is_ws, same_str, trim, trim_end, trim_start};

verus! {

/// A sidecar key is kept unless it is one of the gated bibliographic keys and its
/// flag is off.
pub open spec fn included_key(k: Seq<char>, cfg: ChunkConfig) -> bool {
    if k == "calibre_id"@ {
        cfg.metadata.include_calibre_id
    } else if k == "title"@ {
        cfg.metadata.include_title
    } else if k == "authors"@ {
        cfg.metadata.include_authors
    } else if k == "published"@ {
        cfg.metadata.include_published
    } else if k == "language"@ {
        cfg.metadata.include_language
    } else {
        true
    }
}

/// Whether a sidecar key goes into chunk metadata.
pub fn should_include_metadata(key: &str, cfg: &ChunkConfig) -> (r: bool)
    ensures
        r == included_key(key@, *cfg),
{
    if same_str(key, "calibre_id") {
        cfg.metadata.include_calibre_id
    } else if same_str(key, "title") {
        cfg.metadata.include_title
    } else if same_str(key, "authors") {
        cfg.metadata.include_authors
    } else if same_str(key, "published") {
        cfg.metadata.include_published
    } else if same_str(key, "language") {
        cfg.metadata.include_language
    } else {
        true
    }
}

pub type Entries = Seq<(Seq<char>, Seq<char>)>;

/// Position of the last member with key `k`, or -1.
pub open spec fn key_index(es: Entries, k: Seq<char>) -> int
    decreases es.len(),
{
    if es.len() == 0 {
        -1
    } else if es.last().0 == k {
        es.len() - 1
    } else {
        key_index(es.drop_last(), k)
    }
}

/// Sets member `k` to `v`: in place when the key is there, else at the end.
pub open spec fn put(es: Entries, k: Seq<char>, v: Seq<char>) -> Entries {
    let i = key_index(es, k);
    if i >= 0 {
        es.update(i, (k, v))
    } else {
        es.push((k, v))
    }
}

/// Merges the included sidecar members into `es`, in order.
pub open spec fn merged(es: Entries, sidecar: Entries, cfg: ChunkConfig) -> Entries
    decreases sidecar.len(),
{
    if sidecar.len() == 0 {
        es
    } else {
        let before = merged(es, sidecar.drop_last(), cfg);
        let e = sidecar.last();
        if included_key(e.0, cfg) {
            put(before, e.0, e.1)
        } else {
            before
        }
    }
}

/// The metadata members of chunk `index` spanning bytes `start..end`: the source
/// paths when configured, the position, then the included sidecar members.
pub open spec fn chunk_meta(
    path: Seq<char>,
    rel: Seq<char>,
    index: nat,
    start: nat,
    end: nat,
    sidecar: Entries,
    cfg: ChunkConfig,
) -> Entries {
    let e0 = if cfg.metadata.include_source_path {
        put(put(Seq::empty(), "source_path"@, json_quoted(path)), "source_rel"@, json_quoted(rel))
    } else {
        Seq::empty()
    };
    let e1 = put(
        put(put(e0, "chunk_index"@, decimal(index)), "char_start"@, decimal(start)),
        "char_end"@,
        decimal(end),
    );
    merged(e1, sidecar, cfg)
}

fn key_index_in(es: &Vec<(String, String)>, k: &str) -> (r: Option<usize>)
    ensures
        r matches Some(i) ==> i < es@.len() && key_index(entry_views(es@), k@) == i,
        r is None ==> key_index(entry_views(es@), k@) == -1,
{
    let ghost ev = entry_views(es@);
    let mut found: Option<usize> = None;
    let mut i: usize = 0;
    assert(ev.take(0) =~= Seq::<(Seq<char>, Seq<char>)>::empty());
    while i < es.len()
        invariant
            i <= es.len(),
            ev == entry_views(es@),
            found matches Some(j) ==> j < i && key_index(ev.take(i as int), k@) == j,
            found is None ==> key_index(ev.take(i as int), k@) == -1,
        decreases es.len() - i,
    {
        let same = same_str(es[i].0.as_str(), k);
        proof {
            assert(ev.take(i + 1).drop_last() =~= ev.take(i as int));
            assert(ev.take(i + 1).last() == (es@[i as int].0@, es@[i as int].1@));
        }
        if same {
            found = Some(i);
        }
        i = i + 1;
    }
    assert(ev.take(es.len() as int) =~= ev);
    found
}

fn put_in(es: &mut Vec<(String, String)>, k: String, v: String)
    ensures
        entry_views(final(es)@) == put(entry_views(old(es)@), k@, v@),
{
    let ghost before = entry_views(es@);
    match key_index_in(es, k.as_str()) {
        Some(i) => {
            let ghost kv = (k@, v@);
            es.set(i, (k, v));
            assert(entry_views(es@) =~= before.update(i as int, kv));
        },
        None => {
            let ghost kv = (k@, v@);
            es.push((k, v));
            assert(entry_views(es@) =~= before.push(kv));
        },
    }
}

/// Position of one chunk in its file: its index and the byte range it covers in
/// the running concatenation of the file's chunks.
#[derive(Debug, Clone, Copy, PartialEq, Eq, Structural)]
pub struct ChunkSpan {
    pub index: usize,
    pub start: usize,
    pub end: usize,
}

/// Total bytes of the first `i` chunks.
pub open spec fn bytes_before(cs: Seq<Seq<char>>, i: int) -> nat
    decreases i,
{
    if i <= 0 || cs.len() == 0 {
        0
    } else {
        bytes_before(cs, i - 1) + byte_len(cs[i - 1])
    }
}

/// The spans of a file's chunks: chunk `i` starts where the bytes of the chunks
/// before it end. None when the total does not fit in `usize`.
pub fn chunk_spans(chunks: &[String]) -> (r: Option<Vec<ChunkSpan>>)
    ensures
        r is None <==> bytes_before(views(chunks@), chunks@.len() as int) > usize::MAX,
        r matches Some(sp) ==> sp@.len() == chunks@.len() && forall|i: int|
            0 <= i < sp@.len() ==> (#[trigger] sp@[i]).index == i && sp@[i].start == bytes_before(
                views(chunks@),
                i,
            ) && sp@[i].end == bytes_before(views(chunks@), i + 1),
{
    let ghost cv = views(chunks@);
    let mut spans: Vec<ChunkSpan> = Vec::new();
    let mut cursor: usize = 0;
    let mut i: usize = 0;
    while i < chunks.len()
        invariant
            i <= chunks.len(),
            cv == views(chunks@),
            cursor == bytes_before(cv, i as int),
            spans@.len() == i,
            forall|q: int|
                0 <= q < i ==> (#[trigger] spans@[q]).index == q && spans@[q].start == bytes_before(cv, q)
                    && spans@[q].end == bytes_before(cv, q + 1),
        decreases chunks.len() - i,
    {
        let n128 = byte_len_of(&chars_of(chunks[i].as_str()));
        assert(n128 == byte_len(cv[i as int]));
        if n128 > (usize::MAX - cursor) as u128 {
            proof {
                lemma_bytes_before_grows(cv, i as int + 1, chunks.len() as int);
            }
            return None;
        }
        let n = n128 as usize;
        spans.push(ChunkSpan { index: i, start: cursor, end: cursor + n });
        cursor = cursor + n;
        i = i + 1;
    }
    Some(spans)
}

proof fn lemma_bytes_before_grows(cs: Seq<Seq<char>>, i: int, j: int)
    requires
        0 <= i <= j <= cs.len(),
    ensures
        bytes_before(cs, i) <= bytes_before(cs, j),
    decreases j - i,
{
    if i < j {
        lemma_bytes_before_grows(cs, i, j - 1);
    }
}

/// The metadata members of one chunk.
pub fn chunk_metadata(
    source_path: &str,
    source_rel: &str,
    span: &ChunkSpan,
    sidecar: &[(String, String)],
    cfg: &ChunkConfig,
) -> (r: Vec<(String, String)>)
    ensures
        entry_views(r@) == chunk_meta(
            source_path@,
            source_rel@,
            span.index as nat,
            span.start as nat,
            span.end as nat,
            entry_views(sidecar@),
            *cfg,
        ),
{
    let mut es: Vec<(String, String)> = Vec::new();
    assert(entry_views(es@) =~= Seq::<(Seq<char>, Seq<char>)>::empty());
    if cfg.metadata.include_source_path {
        put_in(&mut es, String::from_str("source_path"), json_string(source_path));
        put_in(&mut es, String::from_str("source_rel"), json_string(source_rel));
    }
    put_in(&mut es, String::from_str("chunk_index"), decimal_string(span.index as u64));
    put_in(&mut es, String::from_str("char_start"), decimal_string(span.start as u64));
    put_in(&mut es, String::from_str("char_end"), decimal_string(span.end as u64));
    let ghost base = entry_views(es@);
    let ghost sv = entry_views(sidecar@);
    let mut i: usize = 0;
    assert(sv.take(0) =~= Seq::<(Seq<char>, Seq<char>)>::empty());
    while i < sidecar.len()
        invariant
            i <= sidecar.len(),
            sv == entry_views(sidecar@),
            entry_views(es@) == merged(base, sv.take(i as int), *cfg),
        decreases sidecar.len() - i,
    {
        proof {
            assert(sv.take(i + 1).drop_last() =~= sv.take(i as int));
            assert(sv.take(i + 1).last() == (sidecar@[i as int].0@, sidecar@[i as int].1@));
        }
        if should_include_metadata(sidecar[i].0.as_str(), cfg) {
            put_in(&mut es, sidecar[i].0.clone(), sidecar[i].1.clone());
        }
        i = i + 1;
    }
    assert(sv.take(sidecar.len() as int) =~= sv);
    es
}

/// The JSON text of a chunk record: `id`, `text`, then `metadata`.
pub open spec fn record_text(id: Seq<char>, text: Seq<char>, metadata: Seq<char>) -> Seq<char> {
    object_text(
        seq![("id"@, json_quoted(id)), ("text"@, json_quoted(text)), ("metadata"@, metadata)],
    )
}

/// The JSON line of a record whose metadata is the text of a JSON object.
pub fn record_line(id: &str, text: &str, metadata: &str) -> (r: String)
    ensures
        r@ == record_text(id@, text@, metadata@),
{
    let mut es: Vec<(String, String)> = Vec::new();
    es.push((String::from_str("id"), json_string(id)));
    es.push((String::from_str("text"), json_string(text)));
    es.push((String::from_str("metadata"), String::from_str(metadata)));
    assert(entry_views(es@) =~= seq![("id"@, json_quoted(id@)), ("text"@, json_quoted(text@)), ("metadata"@, metadata@)]);
    render_object(es.as_slice())
}

pub open spec fn is_lower_hex(c: char) -> bool {
    ('0' <= c && c <= '9') || ('a' <= c && c <= 'f')
}

/// The text of a version-4 UUID: 32 lower-case hex digits in groups of 8, 4, 4,
/// 4 and 12 joined by hyphens, the version digit `4` and a variant digit of
/// `8`, `9`, `a` or `b`.
pub open spec fn is_uuid_v4(s: Seq<char>) -> bool {
    &&& s.len() == 36
    &&& forall|i: int|
        0 <= i < 36 ==> if i == 8 || i == 13 || i == 18 || i == 23 {
            #[trigger] s[i] == '-'
        } else {
            is_lower_hex(s[i])
        }
    &&& s[14] == '4'
    &&& (s[19] == '8' || s[19] == '9' || s[19] == 'a' || s[19] == 'b')
}

/// Relies on `uuid::Uuid::new_v4`, which sets the version and variant bits of a
/// random value, and on its `Display`, the lower-case hyphenated form.
#[verifier::external_body]
fn new_chunk_id() -> (r: String)
    ensures
        is_uuid_v4(r@),
{
    uuid::Uuid::new_v4().to_string()
}

/// `n` fresh random version-4 UUIDs for chunks.
pub fn chunk_ids(n: usize) -> (r: Vec<String>)
    ensures
        r@.len() == n,
        forall|i: int| 0 <= i < n ==> is_uuid_v4((#[trigger] r@[i])@),
{
    let mut r: Vec<String> = Vec::new();
    let mut i: usize = 0;
    while i < n
        invariant
            i <= n,
            r@.len() == i,
            forall|q: int| 0 <= q < i ==> is_uuid_v4((#[trigger] r@[q])@),
        decreases n - i,
    {
        r.push(new_chunk_id());
        i = i + 1;
    }
    r
}

/// The JSON lines of a file's chunks, chunk `i` under identifier `ids[i]`, with
/// metadata built from its span, the source paths and the sidecar members. None
/// when the chunks' total bytes do not fit in `usize`.
pub fn chunk_file_lines(
    chunks: &[String],
    ids: &[String],
    source_path: &str,
    source_rel: &str,
    sidecar: &[(String, String)],
    cfg: &ChunkConfig,
) -> (r: Option<Vec<String>>)
    requires
        ids.len() == chunks.len(),
    ensures
        r is None <==> bytes_before(views(chunks@), chunks@.len() as int) > usize::MAX,
        r matches Some(ls) ==> ls@.len() == chunks@.len() && forall|i: int|
            0 <= i < ls@.len() ==> (#[trigger] ls@[i])@ == record_text(
                ids@[i]@,
                chunks@[i]@,
                object_text(
                    chunk_meta(
                        source_path@,
                        source_rel@,
                        i as nat,
                        bytes_before(views(chunks@), i),
                        bytes_before(views(chunks@), i + 1),
                        entry_views(sidecar@),
                        *cfg,
                    ),
                ),
            ),
{
    let spans = match chunk_spans(chunks) {
        Some(s) => s,
        None => return None,
    };
    let mut lines: Vec<String> = Vec::new();
    let mut i: usize = 0;
    while i < chunks.len()
        invariant
            i <= chunks.len() == ids.len() == spans@.len(),
            forall|q: int|
                0 <= q < spans@.len() ==> (#[trigger] spans@[q]).index == q && spans@[q].start
                    == bytes_before(views(chunks@), q) && spans@[q].end == bytes_before(
                    views(chunks@),
                    q + 1,
                ),
            lines@.len() == i,
            forall|q: int|
                0 <= q < i ==> (#[trigger] lines@[q])@ == record_text(
                    ids@[q]@,
                    chunks@[q]@,
                    object_text(
                        chunk_meta(
                            source_path@,
                            source_rel@,
                            q as nat,
                            bytes_before(views(chunks@), q),
                            bytes_before(views(chunks@), q + 1),
                            entry_views(sidecar@),
                            *cfg,
                        ),
                    ),
                ),
        decreases chunks.len() - i,
    {
        let meta = chunk_metadata(source_path, source_rel, &spans[i], sidecar, cfg);
        let obj = render_object(meta.as_slice());
        let line = record_line(ids[i].as_str(), chunks[i].as_str(), obj.as_str());
        lines.push(line);
        i = i + 1;
    }
    Some(lines)
}

/// No character of `s` is a newline.
pub open spec fn no_newline(s: Seq<char>) -> bool {
    forall|i: int| 0 <= i < s.len() ==> s[i] != '\n'
}

proof fn lemma_no_newline_concat(a: Seq<char>, b: Seq<char>)
    requires
        no_newline(a),
        no_newline(b),
    ensures
        no_newline(a + b),
{
    assert forall|i: int| 0 <= i < (a + b).len() implies (a + b)[i] != '\n' by {
        if i >= a.len() {
            assert((a + b)[i] == b[i - a.len()]);
        }
    }
}

proof fn lemma_escaped_no_newline(s: Seq<char>)
    ensures
        no_newline(escaped(s)),
    decreases s.len(),
{
    if s.len() > 0 {
        lemma_escaped_no_newline(s.drop_last());
        let c = s.last();
        let u = c as u32;
        assert(no_newline(escape_char(c))) by {
            if u < 0x20 && c != '"' && c != '\\' && u != 0x08 && u != 0x09 && u != 0x0A && u != 0x0C
                && u != 0x0D {
                let e = escape_char(c);
                assert(e.len() == 6);
                assert(hex_digit((u / 16) as int) != '\n');
                assert(hex_digit((u % 16) as int) != '\n');
            }
        }
        lemma_no_newline_concat(escaped(s.drop_last()), escape_char(c));
    }
}

proof fn lemma_member_no_newline(k: Seq<char>, v: Seq<char>)
    requires
        no_newline(v),
    ensures
        no_newline(crate::json::member((k, v))),
{
    lemma_escaped_no_newline(k);
    lemma_no_newline_concat(seq!['"'], escaped(k));
    lemma_no_newline_concat(seq!['"'] + escaped(k), seq!['"']);
    lemma_no_newline_concat(json_quoted(k), seq![':']);
    lemma_no_newline_concat(json_quoted(k) + seq![':'], v);
}

/// A record line holds no newline when its metadata holds none, and it begins
/// with `{`.
pub proof fn lemma_record_text_shape(id: Seq<char>, text: Seq<char>, metadata: Seq<char>)
    requires
        no_newline(metadata),
    ensures
        no_newline(record_text(id, text, metadata)),
        record_text(id, text, metadata).len() > 0,
        record_text(id, text, metadata)[0] == '{',
{
    let es = seq![("id"@, json_quoted(id)), ("text"@, json_quoted(text)), ("metadata"@, metadata)];
    lemma_escaped_no_newline(id);
    lemma_escaped_no_newline(text);
    lemma_no_newline_concat(seq!['"'], escaped(id));
    lemma_no_newline_concat(seq!['"'] + escaped(id), seq!['"']);
    lemma_no_newline_concat(seq!['"'], escaped(text));
    lemma_no_newline_concat(seq!['"'] + escaped(text), seq!['"']);
    lemma_member_no_newline("id"@, json_quoted(id));
    lemma_member_no_newline("text"@, json_quoted(text));
    lemma_member_no_newline("metadata"@, metadata);
    assert(es.drop_last().drop_last() =~= seq![es[0]]);
    assert(es.drop_last().last() == es[1]);
    let m1 = crate::json::members(seq![es[0]]);
    assert(m1 == crate::json::member(es[0]));
    let m2 = crate::json::members(es.drop_last());
    assert(m2 == m1 + seq![','] + crate::json::member(es[1]));
    let m3 = crate::json::members(es);
    assert(m3 == m2 + seq![','] + crate::json::member(es[2]));
    lemma_no_newline_concat(m1, seq![',']);
    lemma_no_newline_concat(m1 + seq![','], crate::json::member(es[1]));
    lemma_no_newline_concat(m2, seq![',']);
    lemma_no_newline_concat(m2 + seq![','], crate::json::member(es[2]));
    lemma_no_newline_concat(seq!['{'], m3);
    lemma_no_newline_concat(seq!['{'] + m3, seq!['}']);
}

proof fn lemma_trim_keeps_first(s: Seq<char>)
    requires
        s.len() > 0,
        !is_ws(s[0]),
    ensures
        trim(s).len() > 0,
{
    assert(trim_start(s) == s);
    lemma_trim_end_keeps_first(s);
}

proof fn lemma_trim_end_keeps_first(s: Seq<char>)
    requires
        s.len() > 0,
        !is_ws(s[0]),
    ensures
        trim_end(s).len() > 0,
    decreases s.len(),
{
    if is_ws(s.last()) {
        assert(s.len() > 1);
        assert(s.drop_last()[0] == s[0]);
        lemma_trim_end_keeps_first(s.drop_last());
    }
}

/// Record lines written as line-delimited JSON and read back are the same lines,
/// in order, when no metadata text holds a newline (as compact JSON does not).
pub proof fn lemma_record_lines_round_trip(
    ids: Seq<Seq<char>>,
    texts: Seq<Seq<char>>,
    metas: Seq<Seq<char>>,
)
    requires
        ids.len() == texts.len() == metas.len(),
        forall|i: int| 0 <= i < metas.len() ==> no_newline(#[trigger] metas[i]),
    ensures
        ({
            let ls = Seq::new(ids.len(), |i: int| record_text(ids[i], texts[i], metas[i]));
            record_lines(jsonl_text(ls)) == ls
        }),
{
    let ls = Seq::new(ids.len(), |i: int| record_text(ids[i], texts[i], metas[i]));
    assert forall|i: int| 0 <= i < ls.len() implies trim(#[trigger] ls[i]).len() > 0 by {
        assert(no_newline(metas[i]));
        lemma_record_text_shape(ids[i], texts[i], metas[i]);
        lemma_trim_keeps_first(ls[i]);
    }
    assert forall|i: int, j: int| 0 <= i < ls.len() && 0 <= j < ls[i].len() implies ls[i][j] != '\n' by {
        assert(no_newline(metas[i]));
        lemma_record_text_shape(ids[i], texts[i], metas[i]);
    }
    lemma_jsonl_round_trip(ls);
}

} // verus!
