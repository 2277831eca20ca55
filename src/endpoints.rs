//! Addresses and request bodies of the embedding service, the vector store and
//! the full-text store.

use vstd::prelude::*;
use crate::assemble::views;
use crate::batch::ChunkRecord;
use crate::json::{
    decimal, decimal_string, entry_views, json_quoted, json_string, jsonl_body, jsonl_text,
    object_text, render_object,
};
use crate::records::{record_line, record_text};
use crate::text::{chars_of, string_of};

verus! {

/// `s` without its trailing slashes.
pub open spec fn without_trailing_slashes(s: Seq<char>) -> Seq<char>
    decreases s.len(),
{
    if s.len() > 0 && s.last() == '/' {
        without_trailing_slashes(s.drop_last())
    } else {
        s
    }
}

/// A base address without its trailing slashes.
pub fn trim_trailing_slashes(s: &str) -> (r: String)
    ensures
        r@ == without_trailing_slashes(s@),
{
    let v = chars_of(s);
    let mut n: usize = v.len();
    assert(v@.take(n as int) =~= v@);
    while n > 0 && v[n - 1] == '/'
        invariant
            n <= v.len(),
            without_trailing_slashes(s@) == without_trailing_slashes(v@.take(n as int)),
            v@ == s@,
        decreases n,
    {
        assert(v@.take(n as int).drop_last() =~= v@.take(n - 1));
        n = n - 1;
    }
    let mut w: Vec<char> = Vec::new();
    let mut i: usize = 0;
    while i < n
        invariant
            i <= n <= v.len(),
            w@ == v@.take(i as int),
        decreases n - i,
    {
        w.push(v[i]);
        assert(v@.take(i + 1) =~= v@.take(i as int).push(v@[i as int]));
        i = i + 1;
    }
    string_of(&w)
}

/// The embedding endpoint under a base address.
pub fn embeddings_url(base_url: &str) -> (r: String)
    ensures
        r@ == without_trailing_slashes(base_url@) + "/api/embeddings"@,
{
    let mut s = trim_trailing_slashes(base_url);
    s.append("/api/embeddings");
    s
}

/// The address of a vector-store collection.
pub fn collection_url(url: &str, collection: &str) -> (r: String)
    ensures
        r@ == without_trailing_slashes(url@) + "/collections/"@ + collection@,
{
    let mut s = trim_trailing_slashes(url);
    s.append("/collections/");
    s.append(collection);
    s
}

/// The upsert address of a collection, asking the store to wait for durability
/// when `wait` is set.
pub fn points_url(url: &str, collection: &str, wait: bool) -> (r: String)
    ensures
        r@ == without_trailing_slashes(url@) + "/collections/"@ + collection@ + "/points?wait="@
            + if wait { "true"@ } else { "false"@ },
{
    let mut s = collection_url(url, collection);
    s.append("/points?wait=");
    if wait {
        s.append("true");
    } else {
        s.append("false");
    }
    s
}

/// The ingest address of a full-text index; an empty commit mode means `auto`.
pub fn ingest_url(url: &str, index_id: &str, commit_mode: &str, commit_timeout_seconds: u64) -> (r: String)
    ensures
        r@ == without_trailing_slashes(url@) + "/api/v1/"@ + index_id@ + "/ingest?commit="@ + (if commit_mode@.len() == 0 {
            "auto"@
        } else {
            commit_mode@
        }) + "&commit_timeout_seconds="@ + decimal(commit_timeout_seconds as nat),
{
    let mut s = trim_trailing_slashes(url);
    s.append("/api/v1/");
    s.append(index_id);
    s.append("/ingest?commit=");
    if commit_mode.is_empty() {
        s.append("auto");
    } else {
        s.append(commit_mode);
    }
    s.append("&commit_timeout_seconds=");
    let d = decimal_string(commit_timeout_seconds);
    s.append(d.as_str());
    s
}

/// The commit address of a full-text index.
pub fn commit_url(url: &str, index_id: &str) -> (r: String)
    ensures
        r@ == without_trailing_slashes(url@) + "/api/v1/"@ + index_id@ + "/commit"@,
{
    let mut s = trim_trailing_slashes(url);
    s.append("/api/v1/");
    s.append(index_id);
    s.append("/commit");
    s
}

/// The body of an embedding request.
pub fn embedding_request_body(model: &str, prompt: &str) -> (r: String)
    ensures
        r@ == object_text(seq![("model"@, json_quoted(model@)), ("prompt"@, json_quoted(prompt@))]),
{
    let mut es: Vec<(String, String)> = Vec::new();
    es.push((String::from_str("model"), json_string(model)));
    es.push((String::from_str("prompt"), json_string(prompt)));
    assert(entry_views(es@) =~= seq![("model"@, json_quoted(model@)), ("prompt"@, json_quoted(prompt@))]);
    render_object(es.as_slice())
}

/// The body that creates a collection of vectors of `vector_size` dimensions.
pub fn collection_body(vector_size: usize, distance: &str) -> (r: String)
    ensures
        r@ == object_text(
            seq![("vectors"@, object_text(seq![("size"@, decimal(vector_size as nat)), ("distance"@, json_quoted(distance@))]))],
        ),
{
    let mut inner: Vec<(String, String)> = Vec::new();
    inner.push((String::from_str("size"), decimal_string(vector_size as u64)));
    inner.push((String::from_str("distance"), json_string(distance)));
    assert(entry_views(inner@) =~= seq![("size"@, decimal(vector_size as nat)), ("distance"@, json_quoted(distance@))]);
    let v = render_object(inner.as_slice());
    let mut outer: Vec<(String, String)> = Vec::new();
    outer.push((String::from_str("vectors"), v));
    assert(entry_views(outer@) =~= seq![("vectors"@, object_text(seq![("size"@, decimal(vector_size as nat)), ("distance"@, json_quoted(distance@))]))]);
    render_object(outer.as_slice())
}

/// The `api-key` header value: the configured key, unless absent or empty.
pub fn api_key_header(api_key: &Option<String>) -> (r: Option<String>)
    ensures
        r matches Some(k) ==> api_key matches Some(a) && a@.len() > 0 && k@ == a@,
        r is None ==> (api_key matches Some(a) ==> a@.len() == 0),
{
    match api_key {
        Some(k) => {
            if k.as_str().is_empty() {
                None
            } else {
                Some(k.clone())
            }
        },
        None => None,
    }
}

/// The newline-delimited body of a full-text ingest: one record line per record.
pub fn ingest_body(records: &[ChunkRecord]) -> (r: String)
    ensures
        r@ == jsonl_text(
            Seq::new(
                records@.len(),
                |i: int| record_text(records@[i].id@, records@[i].text@, records@[i].metadata@),
            ),
        ),
{
    let ghost want = Seq::new(
        records@.len(),
        |i: int| record_text(records@[i].id@, records@[i].text@, records@[i].metadata@),
    );
    let mut lines: Vec<String> = Vec::new();
    let mut i: usize = 0;
    while i < records.len()
        invariant
            i <= records.len(),
            want == Seq::new(
                records@.len(),
                |i: int| record_text(records@[i].id@, records@[i].text@, records@[i].metadata@),
            ),
            views(lines@) == want.take(i as int),
        decreases records.len() - i,
    {
        let r = &records[i];
        let line = record_line(r.id.as_str(), r.text.as_str(), r.metadata.as_str());
        let ghost before = lines@;
        lines.push(line);
        assert(views(lines@) =~= views(before).push(line@));
        assert(want.take(i + 1) =~= want.take(i as int).push(want[i as int]));
        i = i + 1;
    }
    assert(want.take(records.len() as int) =~= want);
    jsonl_body(lines.as_slice())
}

} // verus!
