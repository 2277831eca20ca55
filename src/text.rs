//! Character-level model of text: whitespace, UTF-8 byte lengths and trimming.

use vstd::prelude::*;
use vstd::utf8::*;

verus! {

/// The Unicode `White_Space` property, as `char::is_whitespace` defines it.
pub open spec fn is_ws(c: char) -> bool {
    let u = c as u32;
    ||| 0x09 <= u <= 0x0D
    ||| u == 0x20
    ||| u == 0x85
    ||| u == 0xA0
    ||| u == 0x1680
    ||| 0x2000 <= u <= 0x200A
    ||| u == 0x2028
    ||| u == 0x2029
    ||| u == 0x202F
    ||| u == 0x205F
    ||| u == 0x3000
}

/// Number of bytes of the UTF-8 encoding of one character.
pub open spec fn char_width(c: char) -> nat {
    let u = c as u32;
    if u <= 0x7F {
        1
    } else if u <= 0x7FF {
        2
    } else if u <= 0xFFFF {
        3
    } else {
        4
    }
}

/// Length in bytes of the UTF-8 encoding of a character sequence.
pub open spec fn byte_len(s: Seq<char>) -> nat {
    encode_utf8(s).len()
}

/// Leading whitespace removed.
pub open spec fn trim_start(s: Seq<char>) -> Seq<char>
    decreases s.len(),
{
    if s.len() > 0 && is_ws(s[0]) {
        trim_start(s.drop_first())
    } else {
        s
    }
}

/// Trailing whitespace removed.
pub open spec fn trim_end(s: Seq<char>) -> Seq<char>
    decreases s.len(),
{
    if s.len() > 0 && is_ws(s.last()) {
        trim_end(s.drop_last())
    } else {
        s
    }
}

/// Whitespace removed at both ends, as `str::trim` does.
pub open spec fn trim(s: Seq<char>) -> Seq<char> {
    trim_end(trim_start(s))
}

pub proof fn lemma_char_width(c: char)
    ensures
        encode_scalar(c as u32).len() == char_width(c),
        1 <= char_width(c) <= 4,
{
    char_is_scalar(c);
}

pub proof fn lemma_byte_len_concat(a: Seq<char>, b: Seq<char>)
    ensures
        byte_len(a + b) == byte_len(a) + byte_len(b),
    decreases a.len(),
{
    if a.len() == 0 {
        assert(a + b =~= b);
    } else {
        assert((a + b).drop_first() =~= a.drop_first() + b);
        assert((a + b)[0] == a[0]);
        lemma_byte_len_concat(a.drop_first(), b);
    }
}

pub proof fn lemma_byte_len_one(c: char)
    ensures
        byte_len(seq![c]) == char_width(c),
{
    lemma_char_width(c);
    assert(seq![c].drop_first() =~= Seq::<char>::empty());
    assert(encode_utf8(Seq::<char>::empty()).len() == 0);
    assert(encode_utf8(seq![c]) == encode_scalar(c as u32) + encode_utf8(seq![c].drop_first()));
}

pub proof fn lemma_byte_len_push(s: Seq<char>, c: char)
    ensures
        byte_len(s.push(c)) == byte_len(s) + char_width(c),
{
    assert(s.push(c) =~= s + seq![c]);
    lemma_byte_len_concat(s, seq![c]);
    lemma_byte_len_one(c);
}

pub proof fn lemma_byte_len_empty()
    ensures
        byte_len(Seq::<char>::empty()) == 0,
{
}

pub proof fn lemma_byte_len_join(a: Seq<char>, b: Seq<char>)
    ensures
        byte_len(a + seq![' '] + b) == byte_len(a) + 1 + byte_len(b),
{
    lemma_byte_len_concat(a + seq![' '], b);
    lemma_byte_len_concat(a, seq![' ']);
    lemma_byte_len_one(' ');
}

pub proof fn lemma_byte_len_bounds(s: Seq<char>)
    ensures
        s.len() <= byte_len(s) <= 4 * s.len(),
    decreases s.len(),
{
    if s.len() > 0 {
        lemma_byte_len_bounds(s.drop_last());
        lemma_byte_len_push(s.drop_last(), s.last());
        lemma_char_width(s.last());
        assert(s.drop_last().push(s.last()) =~= s);
    }
}

pub fn is_whitespace_char(c: char) -> (r: bool)
    ensures
        r == is_ws(c),
{
    let u = c as u32;
    (0x09 <= u && u <= 0x0D) || u == 0x20 || u == 0x85 || u == 0xA0 || u == 0x1680 || (0x2000
        <= u && u <= 0x200A) || u == 0x2028 || u == 0x2029 || u == 0x202F || u == 0x205F || u
        == 0x3000
}

pub fn char_width_of(c: char) -> (r: usize)
    ensures
        r == char_width(c),
{
    let u = c as u32;
    if u <= 0x7F {
        1
    } else if u <= 0x7FF {
        2
    } else if u <= 0xFFFF {
        3
    } else {
        4
    }
}

/// Relies on `String::push`: appends one character at the end.
#[verifier::external_body]
pub(crate) fn push_char(s: &mut String, c: char)
    ensures
        final(s)@ == old(s)@.push(c),
{
    s.push(c);
}

/// Sequences of characters, seen through their views.
pub open spec fn deep(v: Seq<Vec<char>>) -> Seq<Seq<char>> {
    v.map_values(|x: Vec<char>| x@)
}

pub proof fn lemma_deep_push(v: Seq<Vec<char>>, x: Vec<char>)
    ensures
        deep(v.push(x)) == deep(v).push(x@),
{
    assert(deep(v.push(x)) =~= deep(v).push(x@));
}

pub proof fn lemma_deep_take(v: Seq<Vec<char>>, i: int)
    requires
        0 <= i <= v.len(),
    ensures
        deep(v.take(i)) == deep(v).take(i),
{
    assert(deep(v.take(i)) =~= deep(v).take(i));
}

/// Whitespace removed at both ends.
pub fn trim_chars(v: &Vec<char>) -> (r: Vec<char>)
    ensures
        r@ == trim(v@),
{
    let n = v.len();
    let mut i: usize = 0;
    assert(v@.subrange(0, n as int) =~= v@);
    while i < n && is_whitespace_char(v[i])
        invariant
            i <= n == v.len(),
            trim_start(v@) == trim_start(v@.subrange(i as int, n as int)),
        decreases n - i,
    {
        assert(v@.subrange(i as int, n as int).drop_first() =~= v@.subrange(i + 1, n as int));
        i = i + 1;
    }
    let mut j: usize = n;
    assert(v@.subrange(i as int, n as int) =~= v@.subrange(i as int, j as int));
    while j > i && is_whitespace_char(v[j - 1])
        invariant
            i <= j <= n == v.len(),
            trim_start(v@) == v@.subrange(i as int, n as int),
            trim(v@) == trim_end(v@.subrange(i as int, j as int)),
        decreases j - i,
    {
        assert(v@.subrange(i as int, j as int).drop_last() =~= v@.subrange(i as int, j - 1));
        j = j - 1;
    }
    let mut r: Vec<char> = Vec::new();
    let mut k: usize = i;
    while k < j
        invariant
            i <= k <= j <= n == v.len(),
            r@ == v@.subrange(i as int, k as int),
        decreases j - k,
    {
        r.push(v[k]);
        assert(v@.subrange(i as int, k as int).push(v@[k as int]) =~= v@.subrange(i as int, k + 1));
        k = k + 1;
    }
    r
}

/// The characters of a string, in order.
pub fn chars_of(s: &str) -> (r: Vec<char>)
    ensures
        r@ == s@,
{
    let mut v: Vec<char> = Vec::new();
    for c in it: s.chars()
        invariant
            v@ == it.seq().take(it.index() as int),
            it.seq() == s@,
    {
        v.push(c);
    }
    v
}

/// Whether two strings hold the same characters.
pub fn same_str(a: &str, b: &str) -> (r: bool)
    ensures
        r == (a@ == b@),
{
    let x = chars_of(a);
    let y = chars_of(b);
    if x.len() != y.len() {
        return false;
    }
    let mut i: usize = 0;
    while i < x.len()
        invariant
            i <= x.len() == y.len(),
            x@ == a@,
            y@ == b@,
            forall|j: int| 0 <= j < i ==> x@[j] == y@[j],
        decreases x.len() - i,
    {
        if x[i] != y[i] {
            assert(x@[i as int] != y@[i as int]);
            return false;
        }
        i = i + 1;
    }
    assert(x@ =~= y@);
    true
}

/// The string whose characters are `v`.
pub fn string_of(v: &Vec<char>) -> (r: String)
    ensures
        r@ == v@,
{
    let mut s = String::new();
    let mut i: usize = 0;
    while i < v.len()
        invariant
            i <= v.len(),
            s@ == v@.take(i as int),
        decreases v.len() - i,
    {
        push_char(&mut s, v[i]);
        assert(v@.take(i as int).push(v@[i as int]) =~= v@.take(i + 1));
        i = i + 1;
    }
    assert(v@.take(v.len() as int) =~= v@);
    s
}

/// Byte length of the UTF-8 encoding of `v`, in a type wide enough for any vector.
pub fn byte_len_of(v: &Vec<char>) -> (r: u128)
    ensures
        r == byte_len(v@),
        r <= 4 * v@.len(),
{
    let mut n: u128 = 0;
    let mut i: usize = 0;
    while i < v.len()
        invariant
            i <= v.len(),
            n == byte_len(v@.take(i as int)),
            n <= 4 * i,
        decreases v.len() - i,
    {
        proof {
            lemma_byte_len_push(v@.take(i as int), v@[i as int]);
            lemma_char_width(v@[i as int]);
            assert(v@.take(i as int).push(v@[i as int]) =~= v@.take(i + 1));
        }
        n = n + char_width_of(v[i]) as u128;
        i = i + 1;
    }
    assert(v@.take(v.len() as int) =~= v@);
    n
}

} // verus!
