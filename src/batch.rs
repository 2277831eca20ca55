//! Batch decisions of the ingestion pipeline: how records are grouped, which
//! texts are sent for embedding, how the vectors that come back are put in place,
//! and how the points for the vector store are composed.

use vstd::prelude::*;
use crate::assemble::views;
use crate::text::{chars_of, string_of};

verus! {

/// A chunk record: its identifier, its text, and its metadata as the text of a
/// JSON object.
#[derive(Debug, Clone)]
pub struct ChunkRecord {
    pub id: String,
    pub text: String,
    pub metadata: String,
}

/// One point for the vector store: identifier, vector (bit patterns of 32-bit
/// floats) and payload (the record's metadata).
#[derive(Debug, Clone)]
pub struct Point {
    pub id: String,
    pub vector: Vec<u32>,
    pub payload: String,
}

/// A broken internal invariant of a batch.
#[derive(Debug, Clone, PartialEq, Eq, Structural)]
pub enum BatchError {
    /// Records and vectors differ in number.
    LengthMismatch { records: usize, vectors: usize },
    /// An embedding result names a position outside the batch.
    UnknownSlot { index: usize },
    /// No vector came back for a position of the batch.
    MissingEmbedding { index: usize },
    /// A vector's length differs from that of the first vector.
    DimensionMismatch { index: usize, expected: usize, found: usize },
}

/// Groups of `size` items (a size of zero counts as one) that cover `0..n` in
/// order: each holds `size` items but the last, which holds the rest.
pub open spec fn is_grouping(r: Seq<(usize, usize)>, n: nat, size: nat) -> bool {
    let s = if size == 0 {
        1
    } else {
        size
    };
    &&& (r.len() == 0 <==> n == 0)
    &&& r.len() > 0 ==> r[0].0 == 0 && r.last().1 == n
    &&& forall|i: int| 0 <= i < r.len() - 1 ==> #[trigger] r[i].1 == r[i + 1].0
    &&& forall|i: int| 0 <= i < r.len() - 1 ==> #[trigger] r[i].1 - r[i].0 == s
    &&& r.len() > 0 ==> 0 < r.last().1 - r.last().0 <= s
}

/// Cuts `n` items into consecutive groups of `size` items (a size of zero counts
/// as one), the last group holding the rest; each group is `(start, end)`.
pub fn group_bounds(n: usize, size: usize) -> (r: Vec<(usize, usize)>)
    ensures
        is_grouping(r@, n as nat, size as nat),
{
    let s: usize = if size == 0 { 1 } else { size };
    let mut r: Vec<(usize, usize)> = Vec::new();
    let mut start: usize = 0;
    while start < n
        invariant
            s == if size == 0 { 1 } else { size },
            start <= n,
            r@.len() == 0 ==> start == 0,
            r@.len() > 0 ==> r@[0].0 == 0 && r@.last().1 == start && 0 < r@.last().1 - r@.last().0 <= s,
            forall|i: int| 0 <= i < r@.len() - 1 ==> #[trigger] r@[i].1 == r@[i + 1].0,
            forall|i: int| 0 <= i < r@.len() - 1 ==> #[trigger] r@[i].1 - r@[i].0 == s,
            r@.len() > 0 && start < n ==> r@.last().1 - r@.last().0 == s,
        decreases n - start,
    {
        let end = if n - start >= s { start + s } else { n };
        let ghost before = r@;
        r.push((start, end));
        assert forall|i: int| 0 <= i < r@.len() - 1 implies #[trigger] r@[i].1 == r@[i + 1].0 by {
            if i < before.len() - 1 {
                assert(r@[i] == before[i] && r@[i + 1] == before[i + 1]);
            }
        }
        assert forall|i: int| 0 <= i < r@.len() - 1 implies #[trigger] r@[i].1 - r@[i].0 == s by {
            if i < before.len() - 1 {
                assert(r@[i] == before[i]);
            }
        }
        start = end;
    }
    r
}

/// Cached vectors, seen through their views.
pub open spec fn cached_views(c: Seq<Option<Vec<u32>>>) -> Seq<Option<Seq<u32>>> {
    c.map_values(|o: Option<Vec<u32>>|
        match o {
            Some(v) => Some(v@),
            None => None,
        })
}

/// Embedding results, seen through their views.
pub open spec fn result_views(r: Seq<(usize, Vec<u32>)>) -> Seq<(usize, Seq<u32>)> {
    r.map_values(|p: (usize, Vec<u32>)| (p.0, p.1@))
}

/// Position `i` is sent for embedding: the cache did not answer it, and no earlier
/// unanswered position holds the same text.
pub open spec fn is_request(texts: Seq<Seq<char>>, cached: Seq<Option<Seq<u32>>>, i: int) -> bool {
    &&& cached[i] is None
    &&& forall|j: int| 0 <= j < i ==> !(cached[j] is None && #[trigger] texts[j] == texts[i])
}

/// The positions among the first `n` that are sent for embedding, in order.
pub open spec fn requests(texts: Seq<Seq<char>>, cached: Seq<Option<Seq<u32>>>, n: nat) -> Seq<usize>
    decreases n,
{
    if n == 0 {
        Seq::empty()
    } else if is_request(texts, cached, n - 1) {
        requests(texts, cached, (n - 1) as nat).push((n - 1) as usize)
    } else {
        requests(texts, cached, (n - 1) as nat)
    }
}

/// The request that stands for unanswered position `i`: the first unanswered
/// position with the same text.
pub open spec fn representative(texts: Seq<Seq<char>>, cached: Seq<Option<Seq<u32>>>, i: int) -> int {
    choose|j: int| 0 <= j <= i && is_request(texts, cached, j) && texts[j] == texts[i]
}

/// The vector that results hold for position `j`: the last one given for it.
pub open spec fn slot(results: Seq<(usize, Seq<u32>)>, j: int) -> Option<Seq<u32>>
    decreases results.len(),
{
    if results.len() == 0 {
        None
    } else if results.last().0 == j {
        Some(results.last().1)
    } else {
        slot(results.drop_last(), j)
    }
}

/// The vector of position `i`: from the cache, or from the results for its request.
pub open spec fn answer(
    texts: Seq<Seq<char>>,
    cached: Seq<Option<Seq<u32>>>,
    results: Seq<(usize, Seq<u32>)>,
    i: int,
) -> Option<Seq<u32>> {
    if cached[i] is Some {
        cached[i]
    } else {
        slot(results, representative(texts, cached, i))
    }
}

proof fn lemma_representative(texts: Seq<Seq<char>>, cached: Seq<Option<Seq<u32>>>, i: int, j: int)
    requires
        0 <= j <= i < texts.len() == cached.len(),
        is_request(texts, cached, j),
        texts[j] == texts[i],
    ensures
        representative(texts, cached, i) == j,
{
    let r = representative(texts, cached, i);
    assert(0 <= r <= i && is_request(texts, cached, r) && texts[r] == texts[i]);
    if r < j {
        assert(texts[r] == texts[j]);
    } else if r > j {
        assert(texts[j] == texts[r]);
    }
}

fn same_text(a: &String, b: &String) -> (r: bool)
    ensures
        r == (a@ == b@),
{
    a.eq(b)
}

/// The positions of a batch that are sent for embedding: those the cache did not
/// answer, each text once, at its first such position.
pub fn plan_requests(texts: &[String], cached: &[Option<Vec<u32>>]) -> (r: Vec<usize>)
    requires
        texts.len() == cached.len(),
    ensures
        r@ == requests(views(texts@), cached_views(cached@), texts.len() as nat),
{
    let ghost tv = views(texts@);
    let ghost cv = cached_views(cached@);
    let mut r: Vec<usize> = Vec::new();
    let mut i: usize = 0;
    while i < texts.len()
        invariant
            i <= texts.len() == cached.len(),
            tv == views(texts@),
            cv == cached_views(cached@),
            r@ == requests(tv, cv, i as nat),
        decreases texts.len() - i,
    {
        if cached[i].is_none() {
            let mut j: usize = 0;
            let mut first = true;
            while j < i
                invariant
                    j <= i < texts.len() == cached.len(),
                    tv == views(texts@),
                    cv == cached_views(cached@),
                    cv[i as int] is None,
                    first == forall|k: int| 0 <= k < j ==> !(cv[k] is None && #[trigger] tv[k] == tv[i as int]),
                decreases i - j,
            {
                proof {
                    assert(cv[j as int] is None <==> cached@[j as int] is None);
                    assert(tv[j as int] == texts@[j as int]@ && tv[i as int] == texts@[i as int]@);
                }
                if cached[j].is_none() && same_text(&texts[j], &texts[i]) {
                    first = false;
                }
                j = j + 1;
            }
            if first {
                r.push(i);
            }
        }
        i = i + 1;
    }
    r
}

/// Puts the vectors of a batch in place. Each result is `(position, vector)` for a
/// request; a position the cache answered keeps the cached vector, and one that
/// repeats an earlier text takes the vector of that text's request.
/// Fails on a result outside the batch, then on a position left without a vector,
/// then on a vector whose length differs from the first one's.
pub fn merge_embeddings(
    texts: &[String],
    cached: &[Option<Vec<u32>>],
    results: &[(usize, Vec<u32>)],
) -> (r: Result<Vec<Vec<u32>>, BatchError>)
    requires
        texts.len() == cached.len(),
    ensures
        ({
            let tv = views(texts@);
            let cv = cached_views(cached@);
            let rv = result_views(results@);
            let n = texts.len() as int;
            match r {
                Err(BatchError::UnknownSlot { index }) => exists|k: int|
                    0 <= k < rv.len() && rv[k].0 >= n && rv[k].0 == index && forall|q: int|
                        0 <= q < k ==> #[trigger] rv[q].0 < n,
                Err(BatchError::MissingEmbedding { index }) => {
                    &&& forall|k: int| 0 <= k < rv.len() ==> #[trigger] rv[k].0 < n
                    &&& index < n && answer(tv, cv, rv, index as int) is None
                    &&& forall|q: int| 0 <= q < index ==> #[trigger] answer(tv, cv, rv, q) is Some
                },
                Err(BatchError::DimensionMismatch { index, expected, found }) => {
                    &&& forall|k: int| 0 <= k < rv.len() ==> #[trigger] rv[k].0 < n
                    &&& forall|q: int| 0 <= q < n ==> #[trigger] answer(tv, cv, rv, q) is Some
                    &&& 0 < index < n
                    &&& expected == answer(tv, cv, rv, 0)->0.len()
                    &&& found == answer(tv, cv, rv, index as int)->0.len() && found != expected
                    &&& forall|q: int| 0 <= q < index ==> #[trigger] answer(tv, cv, rv, q)->0.len() == expected
                },
                Err(BatchError::LengthMismatch { .. }) => false,
                Ok(vs) => {
                    &&& forall|k: int| 0 <= k < rv.len() ==> #[trigger] rv[k].0 < n
                    &&& vs@.len() == n
                    &&& forall|q: int| 0 <= q < n ==> answer(tv, cv, rv, q) == Some(#[trigger] vs@[q]@)
                    &&& forall|q: int| 0 <= q < n ==> #[trigger] vs@[q]@.len() == vs@[0]@.len()
                },
            }
        }),
{
    let ghost tv = views(texts@);
    let ghost cv = cached_views(cached@);
    let ghost rv = result_views(results@);
    let n = texts.len();
    let mut slots: Vec<Option<Vec<u32>>> = Vec::new();
    let mut i: usize = 0;
    while i < n
        invariant
            i <= n,
            slots@.len() == i,
            forall|q: int| 0 <= q < i ==> #[trigger] slots@[q] is None,
        decreases n - i,
    {
        slots.push(None);
        i = i + 1;
    }
    let mut k: usize = 0;
    while k < results.len()
        invariant
            k <= results.len(),
            n == texts.len(),
            rv == result_views(results@),
            slots@.len() == n,
            forall|q: int| 0 <= q < k ==> #[trigger] rv[q].0 < n,
            forall|j: int|
                0 <= j < n ==> (match #[trigger] slots@[j] {
                    Some(v) => slot(rv.take(k as int), j) == Some(v@),
                    None => slot(rv.take(k as int), j) is None,
                }),
        decreases results.len() - k,
    {
        let idx = results[k].0;
        if idx >= n {
            assert(rv[k as int].0 == idx);
            return Err(BatchError::UnknownSlot { index: idx });
        }
        let v = results[k].1.clone();
        slots.set(idx, Some(v));
        proof {
            assert(rv.take(k + 1).drop_last() =~= rv.take(k as int));
            assert(rv.take(k + 1).last() == (idx, results@[k as int].1@));
        }
        k = k + 1;
    }
    assert(rv.take(results.len() as int) =~= rv);
    let mut vs: Vec<Vec<u32>> = Vec::new();
    let mut i: usize = 0;
    while i < n
        invariant
            i <= n == texts.len() == cached.len(),
            tv == views(texts@),
            cv == cached_views(cached@),
            rv == result_views(results@),
            forall|q: int| 0 <= q < rv.len() ==> #[trigger] rv[q].0 < n,
            slots@.len() == n,
            forall|j: int|
                0 <= j < n ==> (match #[trigger] slots@[j] {
                    Some(v) => slot(rv, j) == Some(v@),
                    None => slot(rv, j) is None,
                }),
            vs@.len() == i,
            forall|q: int| 0 <= q < i ==> answer(tv, cv, rv, q) == Some(#[trigger] vs@[q]@),
        decreases n - i,
    {
        assert(cv[i as int] == match cached@[i as int] { Some(v) => Some(v@), None => None::<Seq<u32>> });
        match &cached[i] {
            Some(v) => {
                vs.push(v.clone());
            },
            None => {
                let mut j: usize = 0;
                while j < i && !(cached[j].is_none() && same_text(&texts[j], &texts[i]))
                    invariant
                        j <= i < n == texts.len() == cached.len(),
                        tv == views(texts@),
                        cv == cached_views(cached@),
                        forall|q: int| 0 <= q < j ==> !(cv[q] is None && #[trigger] tv[q] == tv[i as int]),
                    decreases i - j,
                {
                    j = j + 1;
                }
                proof {
                    assert(cv[i as int] is None);
                    assert(is_request(tv, cv, j as int)) by {
                        assert forall|q: int| 0 <= q < j implies !(cv[q] is None && #[trigger] tv[q] == tv[j as int]) by {
                            assert(tv[j as int] == tv[i as int]);
                        }
                    }
                    lemma_representative(tv, cv, i as int, j as int);
                }
                match &slots[j] {
                    Some(v) => {
                        vs.push(v.clone());
                    },
                    None => {
                        assert forall|q: int| 0 <= q < i implies #[trigger] answer(tv, cv, rv, q) is Some by {
                            assert(answer(tv, cv, rv, q) == Some(vs@[q]@));
                        }
                        assert(answer(tv, cv, rv, i as int) == slot(rv, j as int));
                        return Err(BatchError::MissingEmbedding { index: i });
                    },
                }
            },
        }
        i = i + 1;
    }
    if n > 0 {
        let expected = vs[0].len();
        let mut i: usize = 1;
        while i < n
            invariant
                1 <= i <= n == vs@.len(),
                n == texts.len(),
                tv == views(texts@),
                cv == cached_views(cached@),
                rv == result_views(results@),
                forall|q: int| 0 <= q < n ==> answer(tv, cv, rv, q) == Some(#[trigger] vs@[q]@),
                forall|q: int| 0 <= q < rv.len() ==> #[trigger] rv[q].0 < n,
                expected == vs@[0]@.len(),
                forall|q: int| 0 <= q < i ==> #[trigger] vs@[q]@.len() == expected,
            decreases n - i,
        {
            let found = vs[i].len();
            if found != expected {
                assert forall|q: int| 0 <= q < n implies #[trigger] answer(tv, cv, rv, q) is Some by {
                    assert(answer(tv, cv, rv, q) == Some(vs@[q]@));
                }
                assert forall|q: int| 0 <= q < i implies #[trigger] answer(tv, cv, rv, q)->0.len() == expected by {
                    assert(answer(tv, cv, rv, q) == Some(vs@[q]@));
                    assert(vs@[q]@.len() == expected);
                }
                assert(answer(tv, cv, rv, 0) == Some(vs@[0]@));
                assert(answer(tv, cv, rv, i as int) == Some(vs@[i as int]@));
                return Err(BatchError::DimensionMismatch { index: i, expected, found });
            }
            i = i + 1;
        }
    }
    Ok(vs)
}

/// Pairs each record with the vector at the same position: its identifier, the
/// vector, and its metadata as payload. Fails when the two differ in number.
pub fn compose_points(records: &[ChunkRecord], vectors: &[Vec<u32>]) -> (r: Result<Vec<Point>, BatchError>)
    ensures
        records.len() != vectors.len() <==> r == Err::<Vec<Point>, BatchError>(
            BatchError::LengthMismatch { records: records.len(), vectors: vectors.len() },
        ),
        records.len() == vectors.len() ==> r is Ok,
        r matches Ok(ps) ==> ps@.len() == records.len() && forall|i: int|
            0 <= i < ps@.len() ==> (#[trigger] ps@[i]).id@ == records@[i].id@ && ps@[i].vector@
                == vectors@[i]@ && ps@[i].payload@ == records@[i].metadata@,
{
    if records.len() != vectors.len() {
        return Err(BatchError::LengthMismatch { records: records.len(), vectors: vectors.len() });
    }
    let mut ps: Vec<Point> = Vec::new();
    let mut i: usize = 0;
    while i < records.len()
        invariant
            i <= records.len() == vectors.len(),
            ps@.len() == i,
            forall|q: int|
                0 <= q < i ==> (#[trigger] ps@[q]).id@ == records@[q].id@ && ps@[q].vector@
                    == vectors@[q]@ && ps@[q].payload@ == records@[q].metadata@,
        decreases records.len() - i,
    {
        let p = Point {
            id: records[i].id.clone(),
            vector: vectors[i].clone(),
            payload: records[i].metadata.clone(),
        };
        ps.push(p);
        i = i + 1;
    }
    Ok(ps)
}

/// The text sent to the embedder: cut to its first `max_input_chars` characters
/// when that limit is set and the text is longer.
pub fn truncate_for_embedding(text: &str, max_input_chars: usize) -> (r: String)
    ensures
        r@ == if max_input_chars > 0 && text@.len() > max_input_chars {
            text@.take(max_input_chars as int)
        } else {
            text@
        },
{
    let v = chars_of(text);
    if max_input_chars > 0 && v.len() > max_input_chars {
        let mut w: Vec<char> = Vec::new();
        let mut i: usize = 0;
        while i < max_input_chars
            invariant
                i <= max_input_chars < v.len(),
                w@ == v@.take(i as int),
            decreases max_input_chars - i,
        {
            w.push(v[i]);
            assert(v@.take(i + 1) =~= v@.take(i as int).push(v@[i as int]));
            i = i + 1;
        }
        string_of(&w)
    } else {
        string_of(&v)
    }
}

/// Files ingested at once: `max_parallel_files`, at least one.
pub fn file_permits(max_parallel_files: usize) -> (r: usize)
    ensures
        r == if max_parallel_files == 0 { 1 } else { max_parallel_files },
{
    if max_parallel_files == 0 { 1 } else { max_parallel_files }
}

/// Embedding requests in flight at once: `global_max_concurrency` when set,
/// otherwise `max_concurrency`, and at least one.
pub fn embedding_permits(global_max_concurrency: usize, max_concurrency: usize) -> (r: usize)
    ensures
        r == ({
            let l = if global_max_concurrency > 0 { global_max_concurrency } else { max_concurrency };
            if l == 0 { 1 } else { l }
        }),
{
    let l = if global_max_concurrency > 0 { global_max_concurrency } else { max_concurrency };
    if l == 0 { 1 } else { l }
}

} // verus!
