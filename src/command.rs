use vstd::prelude::*;
use vstd::slice::slice_subrange;
use vstd::utf8::{
    encode_utf8, decode_utf8, valid_utf8, encode_utf8_decode_utf8, encode_utf8_valid_utf8,
};
use crate::encoding::{
    u32_le, u64_le, le_u32, le_u64, encode_u32_le, encode_u64_le, decode_u32_le, decode_u64_le,
    lemma_u32_le_round_trip, lemma_u64_le_round_trip,
};

verus! {

/// A logged mutation: the unit of durability.
#[derive(Debug)]
pub enum Command {
    Put { key: String, value: String },
    Remove { key: String },
}

/// A logged mutation, as character sequences.
pub enum CommandView {
    Put { key: Seq<char>, value: Seq<char> },
    Remove { key: Seq<char> },
}

impl View for Command {
    type V = CommandView;

    open spec fn view(&self) -> CommandView {
        match self {
            Command::Put { key, value } => CommandView::Put { key: key@, value: value@ },
            Command::Remove { key } => CommandView::Remove { key: key@ },
        }
    }
}

/// Tag of a `Put` command on disk.
pub const PUT_TAG: u32 = 0;

/// Tag of a `Remove` command on disk.
pub const REMOVE_TAG: u32 = 1;

/// A string on disk: its UTF-8 length as a little-endian `u64`, then its bytes.
pub open spec fn string_bytes(s: Seq<char>) -> Seq<u8> {
    u64_le(encode_utf8(s).len() as u64) + encode_utf8(s)
}

/// The serialized form of a command: a little-endian `u32` tag, then its strings.
pub open spec fn command_bytes(c: CommandView) -> Seq<u8> {
    match c {
        CommandView::Put { key, value } => u32_le(PUT_TAG) + string_bytes(key) + string_bytes(
            value,
        ),
        CommandView::Remove { key } => u32_le(REMOVE_TAG) + string_bytes(key),
    }
}

/// A string that can be serialized: its UTF-8 length fits in a `u64`.
pub open spec fn encodable_string(s: Seq<char>) -> bool {
    encode_utf8(s).len() <= u64::MAX
}

pub open spec fn encodable_command(c: CommandView) -> bool {
    match c {
        CommandView::Put { key, value } => encodable_string(key) && encodable_string(value),
        CommandView::Remove { key } => encodable_string(key),
    }
}

/// Reads a string at `pos` of `b`: the string and the offset after it.
pub open spec fn parse_string(b: Seq<u8>, pos: int) -> Option<(Seq<char>, int)> {
    if pos < 0 || pos + 8 > b.len() {
        None
    } else {
        let n = le_u64(b.subrange(pos, pos + 8)) as int;
        if n > b.len() - (pos + 8) {
            None
        } else {
            let bytes = b.subrange(pos + 8, pos + 8 + n);
            if valid_utf8(bytes) {
                Some((decode_utf8(bytes), pos + 8 + n))
            } else {
                None
            }
        }
    }
}

/// The command that `b` holds, if `b` is exactly one serialized command.
pub open spec fn parse_command(b: Seq<u8>) -> Option<CommandView> {
    if b.len() < 4 {
        None
    } else {
        let tag = le_u32(b.subrange(0, 4));
        if tag == PUT_TAG {
            match parse_string(b, 4) {
                Some((key, p)) => match parse_string(b, p) {
                    Some((value, q)) => if q == b.len() {
                        Some(CommandView::Put { key, value })
                    } else {
                        None
                    },
                    None => None,
                },
                None => None,
            }
        } else if tag == REMOVE_TAG {
            match parse_string(b, 4) {
                Some((key, p)) => if p == b.len() {
                    Some(CommandView::Remove { key })
                } else {
                    None
                },
                None => None,
            }
        } else {
            None
        }
    }
}

proof fn lemma_parse_string_at(pre: Seq<u8>, s: Seq<char>, post: Seq<u8>)
    requires
        encodable_string(s),
    ensures
        parse_string(pre + string_bytes(s) + post, pre.len() as int) == Some(
            (s, (pre.len() + string_bytes(s).len()) as int),
        ),
        string_bytes(s).len() == 8 + encode_utf8(s).len(),
{
    let e = encode_utf8(s);
    let n = e.len() as u64;
    let b = pre + string_bytes(s) + post;
    let pos = pre.len() as int;
    lemma_u64_le_round_trip(n);
    assert(b.subrange(pos, pos + 8) =~= u64_le(n));
    assert(b.subrange(pos + 8, pos + 8 + n) =~= e);
    encode_utf8_valid_utf8(s);
    encode_utf8_decode_utf8(s);
}

/// Reading back a serialized command gives the command.
pub proof fn lemma_command_round_trip(c: CommandView)
    requires
        encodable_command(c),
    ensures
        parse_command(command_bytes(c)) == Some(c),
{
    let b = command_bytes(c);
    match c {
        CommandView::Put { key, value } => {
            lemma_u32_le_round_trip(PUT_TAG);
            assert(b.subrange(0, 4) =~= u32_le(PUT_TAG));
            let empty = Seq::<u8>::empty();
            lemma_parse_string_at(u32_le(PUT_TAG), key, string_bytes(value));
            assert(b =~= u32_le(PUT_TAG) + string_bytes(key) + string_bytes(value));
            lemma_parse_string_at(u32_le(PUT_TAG) + string_bytes(key), value, empty);
            assert(b =~= u32_le(PUT_TAG) + string_bytes(key) + string_bytes(value) + empty);
        },
        CommandView::Remove { key } => {
            lemma_u32_le_round_trip(REMOVE_TAG);
            assert(b.subrange(0, 4) =~= u32_le(REMOVE_TAG));
            let empty = Seq::<u8>::empty();
            lemma_parse_string_at(u32_le(REMOVE_TAG), key, empty);
            assert(b =~= u32_le(REMOVE_TAG) + string_bytes(key) + empty);
        },
    }
}

/// Relies on `String::from_utf8`: it succeeds exactly on valid UTF-8, and the
/// string it returns holds those bytes.
#[verifier::external_body]
fn string_from_utf8(b: Vec<u8>) -> (r: Option<String>)
    ensures
        r is Some <==> valid_utf8(b@),
        r matches Some(s) ==> encode_utf8(s@) == b@,
{
    String::from_utf8(b).ok()
}

/// Appends the bytes of `b` to `out`.
pub fn append_bytes(out: &mut Vec<u8>, b: &[u8])
    ensures
        final(out)@ == old(out)@ + b@,
{
    let mut i: usize = 0;
    while i < b.len()
        invariant
            i <= b@.len(),
            out@ == old(out)@ + b@.subrange(0, i as int),
        decreases b@.len() - i,
    {
        out.push(b[i]);
        assert(b@.subrange(0, i + 1) =~= b@.subrange(0, i as int).push(b@[i as int]));
        i = i + 1;
    }
    assert(b@.subrange(0, i as int) =~= b@);
}

fn encode_string(s: &String, out: &mut Vec<u8>)
    ensures
        final(out)@ == old(out)@ + string_bytes(s@),
        encodable_string(s@),
{
    let b = s.as_str().as_bytes();
    let n: usize = b.len();
    encode_u64_le(n as u64, out);
    append_bytes(out, b);
    assert(final(out)@ =~= old(out)@ + string_bytes(s@));
}

/// Serializes a command.
pub fn encode_command(c: &Command) -> (r: Vec<u8>)
    ensures
        r@ == command_bytes(c@),
        encodable_command(c@),
{
    let mut out: Vec<u8> = Vec::new();
    match c {
        Command::Put { key, value } => {
            encode_u32_le(PUT_TAG, &mut out);
            encode_string(key, &mut out);
            encode_string(value, &mut out);
            assert(out@ =~= command_bytes(c@));
        },
        Command::Remove { key } => {
            encode_u32_le(REMOVE_TAG, &mut out);
            encode_string(key, &mut out);
            assert(out@ =~= command_bytes(c@));
        },
    }
    out
}

fn decode_string(b: &[u8], pos: usize) -> (r: Option<(String, usize)>)
    ensures
        match r {
            Some((s, p)) => parse_string(b@, pos as int) == Some((s@, p as int)),
            None => parse_string(b@, pos as int) is None,
        },
{
    if pos > b.len() || b.len() - pos < 8 {
        return None;
    }
    let n = decode_u64_le(b, pos);
    if n > (b.len() - pos - 8) as u64 {
        return None;
    }
    let start = pos + 8;
    let end = start + n as usize;
    let bytes = vstd::slice::slice_to_vec(slice_subrange(b, start, end));
    match string_from_utf8(bytes) {
        Some(s) => {
            proof {
                encode_utf8_decode_utf8(s@);
            }
            Some((s, end))
        },
        None => None,
    }
}

/// Deserializes a command: exactly what `parse_command` reads from `b`.
pub fn decode_command(b: &[u8]) -> (r: Option<Command>)
    ensures
        match r {
            Some(c) => parse_command(b@) == Some(c@),
            None => parse_command(b@) is None,
        },
{
    if b.len() < 4 {
        return None;
    }
    let tag = decode_u32_le(b, 0);
    if tag == PUT_TAG {
        match decode_string(b, 4) {
            Some((key, p)) => match decode_string(b, p) {
                Some((value, q)) => if q == b.len() {
                    Some(Command::Put { key, value })
                } else {
                    None
                },
                None => None,
            },
            None => None,
        }
    } else if tag == REMOVE_TAG {
        match decode_string(b, 4) {
            Some((key, p)) => if p == b.len() {
                Some(Command::Remove { key })
            } else {
                None
            },
            None => None,
        }
    } else {
        None
    }
}

} // verus!
