//! Completeness score of a book's bibliographic metadata.

use vstd::prelude::*;
use crate::assemble::{strings_of, views};
use crate::config::ScoringConfig;
use crate::json::entry_views;
use crate::records::{put, Entries};
use crate::splitter::{split_chars, split_on};
use crate::text::{chars_of, deep, lemma_deep_push, same_str, string_of, trim, trim_chars};

verus! {

/// The bibliographic fields of a book, trimmed.
#[derive(Debug)]
pub struct Snapshot {
    pub title: String,
    pub authors: Vec<String>,
    pub publisher: String,
    pub pubdate: String,
    pub languages: Vec<String>,
    pub isbn: String,
    /// Identifier scheme and value, each scheme once.
    pub identifiers: Vec<(String, String)>,
    pub tags: Vec<String>,
    pub comments_present: bool,
    pub cover_present: bool,
}

/// The weight that criterion `k` (in field order: title, authors, publisher,
/// pubdate, identifiers, tags, comments, cover) adds to the score.
pub open spec fn contribution(s: Snapshot, w: ScoringConfig, k: int) -> int {
    if k == 0 {
        if s.title@.len() > 0 { w.title_weight as int } else { 0 }
    } else if k == 1 {
        if s.authors@.len() > 0 { w.authors_weight as int } else { 0 }
    } else if k == 2 {
        if s.publisher@.len() > 0 { w.publisher_weight as int } else { 0 }
    } else if k == 3 {
        if s.pubdate@.len() > 0 { w.pubdate_weight as int } else { 0 }
    } else if k == 4 {
        if s.isbn@.len() > 0 { w.isbn_weight as int } else if s.identifiers@.len() > 0 { w.identifiers_weight as int } else { 0 }
    } else if k == 5 {
        if s.tags@.len() > 0 { w.tags_weight as int } else { 0 }
    } else if k == 6 {
        if s.comments_present { w.comments_weight as int } else { 0 }
    } else if k == 7 {
        if s.cover_present { w.cover_weight as int } else { 0 }
    } else {
        0
    }
}

/// The score after the first `k` criteria.
pub open spec fn running_score(s: Snapshot, w: ScoringConfig, k: nat) -> int
    decreases k,
{
    if k == 0 {
        0
    } else {
        running_score(s, w, (k - 1) as nat) + contribution(s, w, k - 1)
    }
}

/// Every running score, as the criteria are added in order, fits in an `i32`.
pub open spec fn running_scores_fit(s: Snapshot, w: ScoringConfig) -> bool {
    forall|k: nat| k <= 8 ==> i32::MIN <= #[trigger] running_score(s, w, k) <= i32::MAX
}

pub open spec fn has_identifier(s: Snapshot) -> bool {
    s.isbn@.len() > 0 || s.identifiers@.len() > 0
}

/// The score: the weight of each field that is present; an ISBN counts with its
/// own weight, else any other identifier with the identifiers' weight.
pub open spec fn score_of(s: Snapshot, w: ScoringConfig) -> int {
    (if s.title@.len() > 0 { w.title_weight as int } else { 0 })
    + (if s.authors@.len() > 0 { w.authors_weight as int } else { 0 })
    + (if s.publisher@.len() > 0 { w.publisher_weight as int } else { 0 })
    + (if s.pubdate@.len() > 0 { w.pubdate_weight as int } else { 0 })
    + (if s.isbn@.len() > 0 { w.isbn_weight as int } else if s.identifiers@.len() > 0 { w.identifiers_weight as int } else { 0 })
    + (if s.tags@.len() > 0 { w.tags_weight as int } else { 0 })
    + (if s.comments_present { w.comments_weight as int } else { 0 })
    + (if s.cover_present { w.cover_weight as int } else { 0 })
}

pub open spec fn note(missing: bool, text: Seq<char>) -> Seq<Seq<char>> {
    if missing {
        seq![text]
    } else {
        Seq::empty()
    }
}

/// One reason for each missing field, in field order.
pub open spec fn reasons_of(s: Snapshot) -> Seq<Seq<char>> {
    note(s.title@.len() == 0, "missing title"@) + note(s.authors@.len() == 0, "missing authors"@)
        + note(s.publisher@.len() == 0, "missing publisher"@) + note(
        s.pubdate@.len() == 0,
        "missing pubdate"@,
    ) + note(!has_identifier(s), "missing identifiers/isbn"@) + note(
        s.tags@.len() == 0,
        "missing tags"@,
    ) + note(!s.comments_present, "missing description/comments"@) + note(
        !s.cover_present,
        "missing cover"@,
    )
}

fn add_if(score: i32, present: bool, weight: i32, reasons: &mut Vec<String>, reason: &str) -> (r: i32)
    requires
        i32::MIN <= score + (if present { weight as int } else { 0 }) <= i32::MAX,
    ensures
        r == score + if present { weight as int } else { 0 },
        views(final(reasons)@) == views(old(reasons)@) + note(!present, reason@),
{
    if present {
        assert(views(reasons@) =~= views(reasons@) + note(!present, reason@));
        score + weight
    } else {
        let ghost before = reasons@;
        let s = String::from_str(reason);
        reasons.push(s);
        assert(views(reasons@) =~= views(before) + note(!present, reason@));
        score
    }
}

#[verifier::rlimit(40)]
/// Scores how complete a book's metadata is and lists what is missing.
pub fn score_good_enough(snapshot: &Snapshot, scoring: &ScoringConfig) -> (r: (i32, Vec<String>))
    requires
        running_scores_fit(*snapshot, *scoring),
    ensures
        r.0 == score_of(*snapshot, *scoring),
        views(r.1@) == reasons_of(*snapshot),
{
    let mut reasons: Vec<String> = Vec::new();
    let w = scoring;
    let ghost sn = *snapshot;
    let ghost wn = *scoring;
    assert(views(reasons@) =~= Seq::<Seq<char>>::empty());
    let mut score: i32 = 0;
    assert(running_score(sn, wn, 0) == 0);
    assert(running_score(sn, wn, 1) == contribution(sn, wn, 0));
    score = add_if(score, !snapshot.title.as_str().is_empty(), w.title_weight, &mut reasons, "missing title");
    assert(running_score(sn, wn, 2) == score + contribution(sn, wn, 1));
    score = add_if(score, !snapshot.authors.is_empty(), w.authors_weight, &mut reasons, "missing authors");
    assert(running_score(sn, wn, 3) == score + contribution(sn, wn, 2));
    score = add_if(score, !snapshot.publisher.as_str().is_empty(), w.publisher_weight, &mut reasons, "missing publisher");
    assert(running_score(sn, wn, 4) == score + contribution(sn, wn, 3));
    score = add_if(score, !snapshot.pubdate.as_str().is_empty(), w.pubdate_weight, &mut reasons, "missing pubdate");
    let has_isbn = !snapshot.isbn.as_str().is_empty();
    let has_ids = snapshot.identifiers.len() > 0;
    let id_weight = if has_isbn { w.isbn_weight } else { w.identifiers_weight };
    assert(running_score(sn, wn, 5) == score + contribution(sn, wn, 4));
    score = add_if(score, has_isbn || has_ids, id_weight, &mut reasons, "missing identifiers/isbn");
    assert(running_score(sn, wn, 6) == score + contribution(sn, wn, 5));
    score = add_if(score, !snapshot.tags.is_empty(), w.tags_weight, &mut reasons, "missing tags");
    assert(running_score(sn, wn, 7) == score + contribution(sn, wn, 6));
    score = add_if(score, snapshot.comments_present, w.comments_weight, &mut reasons, "missing description/comments");
    assert(running_score(sn, wn, 8) == score + contribution(sn, wn, 7));
    score = add_if(score, snapshot.cover_present, w.cover_weight, &mut reasons, "missing cover");
    assert(views(reasons@) =~= reasons_of(sn));
    (score, reasons)
}

/// A JSON value of a book record, as the snapshot reads it: strings, arrays and
/// objects are opened; every value but `null` also keeps its JSON text.
#[derive(Debug)]
pub enum BookValue {
    Null,
    Str(String),
    Array(Vec<BookValue>, String),
    Object(Vec<(String, BookValue)>, String),
    Other(String),
}

/// The text a value stands for: a string's content, else its JSON text.
pub open spec fn text_of(v: BookValue) -> Seq<char> {
    match v {
        BookValue::Null => "null"@,
        BookValue::Str(s) => s@,
        BookValue::Array(_, t) => t@,
        BookValue::Object(_, t) => t@,
        BookValue::Other(t) => t@,
    }
}

/// The Unicode lower case of `s`, as `str::to_lowercase` gives it.
pub uninterp spec fn lower_of(s: Seq<char>) -> Seq<char>;

/// Relies on `str::to_lowercase`: the lower-case mapping of the Unicode character
/// tables, which depends on the characters alone.
#[verifier::external_body]
fn lowercase(s: &str) -> (r: String)
    ensures
        r@ == lower_of(s@),
{
    s.to_lowercase()
}

fn value_text(v: &BookValue) -> (r: String)
    ensures
        r@ == text_of(*v),
{
    match v {
        BookValue::Null => String::from_str("null"),
        BookValue::Str(s) => s.clone(),
        BookValue::Array(_, t) => t.clone(),
        BookValue::Object(_, t) => t.clone(),
        BookValue::Other(t) => t.clone(),
    }
}

fn trimmed(s: &str) -> (r: String)
    ensures
        r@ == trim(s@),
{
    string_of(&trim_chars(&chars_of(s)))
}

/// One member of an identifiers object: the key trimmed and in lower case, the
/// value trimmed; kept when neither is empty, a later scheme replacing an earlier.
pub open spec fn identifier_step(acc: Entries, k: Seq<char>, v: BookValue) -> Entries {
    let key = lower_of(trim(k));
    let val = trim(text_of(v));
    if key.len() > 0 && val.len() > 0 {
        put(acc, key, val)
    } else {
        acc
    }
}

pub open spec fn identifiers_run(es: Seq<(String, BookValue)>) -> Entries
    decreases es.len(),
{
    if es.len() == 0 {
        Seq::empty()
    } else {
        identifier_step(identifiers_run(es.drop_last()), es.last().0@, es.last().1)
    }
}

/// The identifiers of a value: those of its members when it is an object.
pub open spec fn identifiers_of(v: BookValue) -> Entries {
    match v {
        BookValue::Object(es, _) => identifiers_run(es@),
        _ => Seq::empty(),
    }
}

/// Sets member `k` to `v` in place, or adds it at the end.
fn put_entry(es: &mut Vec<(String, String)>, k: String, v: String)
    ensures
        entry_views(final(es)@) == put(entry_views(old(es)@), k@, v@),
{
    let ghost ev = entry_views(es@);
    let mut found: Option<usize> = None;
    let mut i: usize = 0;
    assert(ev.take(0) =~= Seq::<(Seq<char>, Seq<char>)>::empty());
    while i < es.len()
        invariant
            i <= es.len(),
            ev == entry_views(es@),
            found matches Some(j) ==> j < i && crate::records::key_index(ev.take(i as int), k@) == j,
            found is None ==> crate::records::key_index(ev.take(i as int), k@) == -1,
        decreases es.len() - i,
    {
        let same = same_str(es[i].0.as_str(), k.as_str());
        proof {
            assert(ev.take(i + 1).drop_last() =~= ev.take(i as int));
            assert(ev.take(i + 1).last() == (es@[i as int].0@, es@[i as int].1@));
        }
        if same {
            found = Some(i);
        }
        i = i + 1;
    }
    assert(ev.take(es.len() as int) =~= ev);
    let ghost kv = (k@, v@);
    match found {
        Some(j) => {
            es.set(j, (k, v));
            assert(entry_views(es@) =~= ev.update(j as int, kv));
        },
        None => {
            es.push((k, v));
            assert(entry_views(es@) =~= ev.push(kv));
        },
    }
}

/// Identifier schemes and values of an identifiers object.
pub fn normalize_identifiers(val: &BookValue) -> (r: Vec<(String, String)>)
    ensures
        entry_views(r@) == identifiers_of(*val),
{
    let mut out: Vec<(String, String)> = Vec::new();
    assert(entry_views(out@) =~= Seq::<(Seq<char>, Seq<char>)>::empty());
    match val {
        BookValue::Object(es, _) => {
            let mut i: usize = 0;
            assert(es@.take(0) =~= Seq::<(String, BookValue)>::empty());
            while i < es.len()
                invariant
                    i <= es.len(),
                    entry_views(out@) == identifiers_run(es@.take(i as int)),
                decreases es.len() - i,
            {
                assert(es@.take(i + 1).drop_last() =~= es@.take(i as int));
                let key = lowercase(trimmed(es[i].0.as_str()).as_str());
                let v = trimmed(value_text(&es[i].1).as_str());
                if !key.as_str().is_empty() && !v.as_str().is_empty() {
                    put_entry(&mut out, key, v);
                }
                i = i + 1;
            }
            assert(es@.take(es.len() as int) =~= es@);
        },
        _ => {},
    }
    out
}

/// The trimmed strings of an array, in lower case when `lower` is set; other
/// items and empty strings are skipped.
pub open spec fn string_items(items: Seq<BookValue>, lower: bool) -> Seq<Seq<char>>
    decreases items.len(),
{
    if items.len() == 0 {
        Seq::empty()
    } else {
        let acc = string_items(items.drop_last(), lower);
        match items.last() {
            BookValue::Str(s) => {
                let t = if lower {
                    lower_of(trim(s@))
                } else {
                    trim(s@)
                };
                if t.len() > 0 {
                    acc.push(t)
                } else {
                    acc
                }
            },
            _ => acc,
        }
    }
}

/// The languages of a value: the strings of an array, or the value's own text,
/// trimmed and in lower case.
pub open spec fn languages_of(v: BookValue) -> Seq<Seq<char>> {
    match v {
        BookValue::Null => Seq::empty(),
        BookValue::Array(items, _) => string_items(items@, true),
        _ => {
            let t = lower_of(trim(text_of(v)));
            if t.len() > 0 {
                seq![t]
            } else {
                Seq::empty()
            }
        },
    }
}

/// Each piece trimmed, empty ones dropped.
pub open spec fn trimmed_pieces(ps: Seq<Seq<char>>) -> Seq<Seq<char>>
    decreases ps.len(),
{
    if ps.len() == 0 {
        Seq::empty()
    } else if trim(ps.last()).len() > 0 {
        trimmed_pieces(ps.drop_last()).push(trim(ps.last()))
    } else {
        trimmed_pieces(ps.drop_last())
    }
}

/// The tags of a value: the strings of an array, or the value's own text cut at
/// commas, each trimmed.
pub open spec fn tags_of(v: BookValue) -> Seq<Seq<char>> {
    match v {
        BookValue::Null => Seq::empty(),
        BookValue::Array(items, _) => string_items(items@, false),
        _ => {
            let t = trim(text_of(v));
            if t.len() == 0 {
                Seq::empty()
            } else {
                trimmed_pieces(split_on(t, ','))
            }
        },
    }
}

/// The authors of a value: the strings of an array, or a single string.
pub open spec fn authors_of(v: BookValue) -> Seq<Seq<char>> {
    match v {
        BookValue::Array(items, _) => string_items(items@, false),
        BookValue::Str(s) => if trim(s@).len() > 0 {
            seq![trim(s@)]
        } else {
            Seq::empty()
        },
        _ => Seq::empty(),
    }
}

fn string_items_in(items: &Vec<BookValue>, lower: bool) -> (r: Vec<String>)
    ensures
        views(r@) == string_items(items@, lower),
{
    let mut out: Vec<String> = Vec::new();
    let mut i: usize = 0;
    assert(items@.take(0) =~= Seq::<BookValue>::empty());
    assert(views(out@) =~= Seq::<Seq<char>>::empty());
    while i < items.len()
        invariant
            i <= items.len(),
            views(out@) == string_items(items@.take(i as int), lower),
        decreases items.len() - i,
    {
        assert(items@.take(i + 1).drop_last() =~= items@.take(i as int));
        assert(items@.take(i + 1).last() == items@[i as int]);
        match &items[i] {
            BookValue::Str(s) => {
                let t = if lower {
                    lowercase(trimmed(s.as_str()).as_str())
                } else {
                    trimmed(s.as_str())
                };
                if !t.as_str().is_empty() {
                    let ghost before = out@;
                    out.push(t);
                    assert(views(out@) =~= views(before).push(t@));
                }
            },
            _ => {},
        }
        i = i + 1;
    }
    assert(items@.take(items.len() as int) =~= items@);
    out
}

/// Languages of a value, trimmed and in lower case.
pub fn normalize_languages(val: &BookValue) -> (r: Vec<String>)
    ensures
        views(r@) == languages_of(*val),
{
    match val {
        BookValue::Null => {
            let r: Vec<String> = Vec::new();
            assert(views(r@) =~= Seq::<Seq<char>>::empty());
            r
        },
        BookValue::Array(items, _) => string_items_in(items, true),
        _ => {
            let t = lowercase(trimmed(value_text(val).as_str()).as_str());
            let mut r: Vec<String> = Vec::new();
            if !t.as_str().is_empty() {
                r.push(t);
                assert(views(r@) =~= seq![t@]);
            } else {
                assert(views(r@) =~= Seq::<Seq<char>>::empty());
            }
            r
        },
    }
}

/// Tags of a value, trimmed; a single text is cut at commas.
pub fn normalize_tags(val: &BookValue) -> (r: Vec<String>)
    ensures
        views(r@) == tags_of(*val),
{
    match val {
        BookValue::Null => {
            let r: Vec<String> = Vec::new();
            assert(views(r@) =~= Seq::<Seq<char>>::empty());
            r
        },
        BookValue::Array(items, _) => string_items_in(items, false),
        _ => {
            let t = trim_chars(&chars_of(value_text(val).as_str()));
            let mut out: Vec<Vec<char>> = Vec::new();
            assert(deep(out@) =~= Seq::<Seq<char>>::empty());
            if t.len() > 0 {
                let pieces = split_chars(&t, ',');
                let ghost ps = deep(pieces@);
                let mut i: usize = 0;
                assert(ps.take(0) =~= Seq::<Seq<char>>::empty());
                while i < pieces.len()
                    invariant
                        i <= pieces.len(),
                        ps == deep(pieces@),
                        deep(out@) == trimmed_pieces(ps.take(i as int)),
                    decreases pieces.len() - i,
                {
                    let p = trim_chars(&pieces[i]);
                    proof {
                        assert(ps.take(i + 1).drop_last() =~= ps.take(i as int));
                        assert(ps.take(i + 1).last() == pieces@[i as int]@);
                    }
                    if p.len() > 0 {
                        proof {
                            lemma_deep_push(out@, p);
                        }
                        out.push(p);
                    }
                    i = i + 1;
                }
                assert(ps.take(pieces.len() as int) =~= ps);
            }
            strings_of(&out)
        },
    }
}

/// The member `k` of an object: its last member with that key.
pub open spec fn member_of(es: Seq<(String, BookValue)>, k: Seq<char>) -> Option<BookValue>
    decreases es.len(),
{
    if es.len() == 0 {
        None
    } else if es.last().0@ == k {
        Some(es.last().1)
    } else {
        member_of(es.drop_last(), k)
    }
}

/// The member `k` of a value when it is an object.
pub open spec fn field_of(book: BookValue, k: Seq<char>) -> Option<BookValue> {
    match book {
        BookValue::Object(es, _) => member_of(es@, k),
        _ => None,
    }
}

/// A string member, trimmed; empty when absent or not a string.
pub open spec fn text_field(book: BookValue, k: Seq<char>) -> Seq<char> {
    match field_of(book, k) {
        Some(BookValue::Str(s)) => trim(s@),
        _ => Seq::empty(),
    }
}

#[verifier::loop_isolation(false)]
fn field<'a>(book: &'a BookValue, k: &str) -> (r: Option<&'a BookValue>)
    ensures
        r matches Some(v) ==> field_of(*book, k@) == Some(*v),
        r is None ==> field_of(*book, k@) is None,
{
    match book {
        BookValue::Object(es, _) => {
            let mut j: usize = es.len();
            assert(es@.take(j as int) =~= es@);
            while j > 0
                invariant
                    j <= es@.len(),
                    member_of(es@, k@) == member_of(es@.take(j as int), k@),
                decreases j,
            {
                assert(es@.take(j as int).drop_last() =~= es@.take(j - 1));
                assert(es@.take(j as int).last() == es@[j - 1]);
                if same_str(es[j - 1].0.as_str(), k) {
                    return Some(&es[j - 1].1);
                }
                j = j - 1;
            }
            None
        },
        _ => None,
    }
}

fn text_field_in(book: &BookValue, k: &str) -> (r: String)
    ensures
        r@ == text_field(*book, k@),
{
    match field(book, k) {
        Some(BookValue::Str(s)) => trimmed(s.as_str()),
        _ => String::new(),
    }
}

/// The bibliographic fields of a book record, trimmed and cleaned.
pub fn metadata_snapshot(book: &BookValue) -> (r: Snapshot)
    ensures
        r.title@ == text_field(*book, "title"@),
        r.publisher@ == text_field(*book, "publisher"@),
        r.pubdate@ == text_field(*book, "pubdate"@),
        r.isbn@ == text_field(*book, "isbn"@),
        views(r.authors@) == match field_of(*book, "authors"@) {
            Some(v) => authors_of(v),
            None => Seq::empty(),
        },
        views(r.languages@) == match field_of(*book, "languages"@) {
            Some(v) => languages_of(v),
            None => Seq::empty(),
        },
        views(r.tags@) == match field_of(*book, "tags"@) {
            Some(v) => tags_of(v),
            None => Seq::empty(),
        },
        entry_views(r.identifiers@) == match field_of(*book, "identifiers"@) {
            Some(v) => identifiers_of(v),
            None => Seq::empty(),
        },
        r.comments_present == match field_of(*book, "comments"@) {
            Some(BookValue::Str(s)) => trim(s@).len() > 0,
            _ => false,
        },
        r.cover_present == match field_of(*book, "cover"@) {
            Some(v) => !(v is Null),
            None => false,
        },
{
    let identifiers = match field(book, "identifiers") {
        Some(v) => normalize_identifiers(v),
        None => {
            let r: Vec<(String, String)> = Vec::new();
            assert(entry_views(r@) =~= Seq::<(Seq<char>, Seq<char>)>::empty());
            r
        },
    };
    let languages = match field(book, "languages") {
        Some(v) => normalize_languages(v),
        None => {
            let r: Vec<String> = Vec::new();
            assert(views(r@) =~= Seq::<Seq<char>>::empty());
            r
        },
    };
    let tags = match field(book, "tags") {
        Some(v) => normalize_tags(v),
        None => {
            let r: Vec<String> = Vec::new();
            assert(views(r@) =~= Seq::<Seq<char>>::empty());
            r
        },
    };
    let authors = match field(book, "authors") {
        Some(BookValue::Array(items, _)) => string_items_in(items, false),
        Some(BookValue::Str(s)) => {
            let t = trimmed(s.as_str());
            let mut r: Vec<String> = Vec::new();
            if !t.as_str().is_empty() {
                r.push(t);
                assert(views(r@) =~= seq![t@]);
            } else {
                assert(views(r@) =~= Seq::<Seq<char>>::empty());
            }
            r
        },
        _ => {
            let r: Vec<String> = Vec::new();
            assert(views(r@) =~= Seq::<Seq<char>>::empty());
            r
        },
    };
    let comments_present = match field(book, "comments") {
        Some(BookValue::Str(s)) => trim_chars(&chars_of(s.as_str())).len() > 0,
        _ => false,
    };
    let cover_present = match field(book, "cover") {
        Some(BookValue::Null) => false,
        Some(_) => true,
        None => false,
    };
    Snapshot {
        title: text_field_in(book, "title"),
        authors,
        publisher: text_field_in(book, "publisher"),
        pubdate: text_field_in(book, "pubdate"),
        languages,
        isbn: text_field_in(book, "isbn"),
        identifiers,
        tags,
        comments_present,
        cover_present,
    }
}

} // verus!
