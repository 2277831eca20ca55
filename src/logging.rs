//! Colour prefixes that tell files, chunks and services apart in log lines.

use vstd::prelude::*;
use vstd::utf8::encode_utf8;
use crate::json::{decimal, decimal_string};

verus! {

/// The external service a log line is about.
#[derive(Debug, Clone, Copy, PartialEq, Eq, Structural)]
pub enum LogOp {
    Ollama,
    Qdrant,
    Quickwit,
}

pub open spec fn op_color_of(op: LogOp) -> u8 {
    match op {
        LogOp::Ollama => 39,
        LogOp::Qdrant => 82,
        LogOp::Quickwit => 220,
    }
}

/// The 256-colour palette index of a service.
pub fn op_color(op: LogOp) -> (r: u8)
    ensures
        r == op_color_of(op),
{
    match op {
        LogOp::Ollama => 39,
        LogOp::Qdrant => 82,
        LogOp::Quickwit => 220,
    }
}

/// 64-bit FNV-1a over bytes.
pub open spec fn fnv1a(bytes: Seq<u8>) -> u64
    decreases bytes.len(),
{
    if bytes.len() == 0 {
        0xcbf29ce484222325u64
    } else {
        (fnv1a(bytes.drop_last()) ^ (bytes.last() as u64)).wrapping_mul(0x100000001b3u64)
    }
}

/// A palette colour of the 6x6x6 cube (16 to 231) for a key.
pub open spec fn key_color(bytes: Seq<u8>) -> u8 {
    (16 + (fnv1a(bytes) % 216)) as u8
}

/// The colour of a key: FNV-1a of its UTF-8 bytes, folded into the colour cube.
pub fn color_for_key(key: &str) -> (r: u8)
    ensures
        r == key_color(encode_utf8(key@)),
{
    let bytes = key.as_bytes();
    let mut hash: u64 = 0xcbf29ce484222325;
    let mut i: usize = 0;
    while i < bytes.len()
        invariant
            i <= bytes@.len(),
            bytes@ == encode_utf8(key@),
            hash == fnv1a(bytes@.take(i as int)),
        decreases bytes.len() - i,
    {
        assert(bytes@.take(i + 1).drop_last() =~= bytes@.take(i as int));
        hash = (hash ^ bytes[i] as u64).wrapping_mul(0x100000001b3);
        i = i + 1;
    }
    assert(bytes@.take(bytes@.len() as int) =~= bytes@);
    let idx = (hash % 216) as u8;
    16 + idx
}

/// An ANSI escape that prints a full block in palette colour `c`, then resets.
pub open spec fn block_text(c: u8) -> Seq<char> {
    "\x1b[38;5;"@ + decimal(c as nat) + "m\u{2588}\x1b[0m"@
}

/// A coloured block for a palette colour.
pub fn color_block(color: u8) -> (r: String)
    ensures
        r@ == block_text(color),
{
    let mut s = String::from_str("\x1b[38;5;");
    let d = decimal_string(color as u64);
    s.append(d.as_str());
    s.append("m\u{2588}\x1b[0m");
    s
}

/// The prefix of a log line: a block for the file, then one for the chunk and
/// one for the service when given, each followed by a space.
pub open spec fn prefix_text(file_key: Seq<u8>, chunk_key: Option<Seq<u8>>, op: Option<LogOp>) -> Seq<char> {
    let a = block_text(key_color(file_key)) + seq![' '];
    let b = match chunk_key {
        Some(k) => block_text(key_color(k)) + seq![' '],
        None => Seq::empty(),
    };
    let c = match op {
        Some(o) => block_text(op_color_of(o)) + seq![' '],
        None => Seq::empty(),
    };
    a + b + c
}

/// Coloured blocks that identify a file, optionally a chunk, and optionally a
/// service, for log lines.
pub fn color_prefix(file_key: &str, chunk_key: Option<&str>, op: Option<LogOp>) -> (r: String)
    ensures
        r@ == prefix_text(
            encode_utf8(file_key@),
            match chunk_key {
                Some(k) => Some(encode_utf8(k@)),
                None => None,
            },
            op,
        ),
{
    let mut out = String::new();
    let b = color_block(color_for_key(file_key));
    out.append(b.as_str());
    out.append(" ");
    proof {
        reveal_strlit(" ");
    }
    let ghost a = out@;
    match chunk_key {
        Some(k) => {
            let b = color_block(color_for_key(k));
            out.append(b.as_str());
            out.append(" ");
        },
        None => {},
    }
    let ghost ab = out@;
    match op {
        Some(o) => {
            let b = color_block(op_color(o));
            out.append(b.as_str());
            out.append(" ");
        },
        None => {},
    }
    assert(out@ =~= prefix_text(
        encode_utf8(file_key@),
        match chunk_key {
            Some(k) => Some(encode_utf8(k@)),
            None => None,
        },
        op,
    ));
    out
}

} // verus!
