use vstd::prelude::*;
use vstd::slice::slice_subrange;
use crate::encoding::{
    u32_le, u64_le, le_u32, le_u64, encode_u32_le, encode_u64_le, decode_u32_le, decode_u64_le,
};
use crate::command::{
    Command, CommandView, command_bytes, encodable_command, parse_command, encode_command,
    decode_command, append_bytes,
};
use crate::store::StoreError;

verus! {

/// The CRC-32 checksum of a byte string.
pub uninterp spec fn crc32_of(b: Seq<u8>) -> u32;

/// The raw Snappy compression of a byte string.
pub uninterp spec fn snappy_compressed(b: Seq<u8>) -> Seq<u8>;

/// What raw Snappy decompression makes of a byte string, if it is valid.
pub uninterp spec fn snappy_decompressed(b: Seq<u8>) -> Option<Seq<u8>>;

/// The error type of `snap`, carried opaquely.
#[verifier::external_type_specification]
#[verifier::external_body]
pub struct ExSnapError(snap::Error);

/// Relies on `crc32fast::hash`: the CRC-32 of the bytes, which depends on
/// them alone.
#[verifier::external_body]
fn checksum(b: &[u8]) -> (r: u32)
    ensures
        r == crc32_of(b@),
{
    crc32fast::hash(b)
}

/// Relies on `snap::raw::Encoder::compress_vec`: it fails only where
/// `max_compress_len` is 0, that is where `32 + n + n / 6` exceeds `2^32 - 1`
/// for an input of `n` bytes; its output depends on the input alone, and
/// `Decoder` turns that output back into the input.
#[verifier::external_body]
fn compress(b: &[u8]) -> (r: Result<Vec<u8>, snap::Error>)
    ensures
        r is Ok <==> compressible(b@),
        r matches Ok(c) ==> c@ == snappy_compressed(b@),
        r matches Ok(c) ==> snappy_decompressed(c@) == Some(b@),
{
    snap::raw::Encoder::new().compress_vec(b)
}

/// Relies on `snap::raw::Decoder::decompress_vec`: its outcome depends on the
/// input alone.
#[verifier::external_body]
fn decompress(b: &[u8]) -> (r: Result<Vec<u8>, snap::Error>)
    ensures
        r matches Ok(d) ==> snappy_decompressed(b@) == Some(d@),
        r is Err ==> snappy_decompressed(b@) is None,
{
    snap::raw::Decoder::new().decompress_vec(b)
}

/// Length of a record header: a `u32` checksum and a `u64` payload length.
pub const HEADER_LEN: usize = 12;

/// Whether the compressor accepts an input of this size.
pub open spec fn compressible(raw: Seq<u8>) -> bool {
    raw.len() + raw.len() / 6 + 32 <= u32::MAX
}

/// A record on disk: checksum, payload length, payload, little-endian.
pub open spec fn frame(crc: u32, payload: Seq<u8>) -> Seq<u8> {
    u32_le(crc) + u64_le(payload.len() as u64) + payload
}

/// The compressed payload of a command's record.
pub open spec fn record_payload(c: CommandView) -> Seq<u8> {
    snappy_compressed(command_bytes(c))
}

/// The record that logs a command.
pub open spec fn record_bytes(c: CommandView) -> Seq<u8> {
    frame(crc32_of(record_payload(c)), record_payload(c))
}

/// A command small enough to be logged.
pub open spec fn record_fits(c: CommandView) -> bool {
    compressible(command_bytes(c))
}

/// The record's payload decompresses back to the serialized command and its
/// length fits the header.
pub open spec fn record_intact(c: CommandView) -> bool {
    &&& encodable_command(c)
    &&& snappy_decompressed(record_payload(c)) == Some(command_bytes(c))
    &&& record_payload(c).len() <= u64::MAX
}

/// Frames a payload with its checksum and length.
pub fn frame_record(crc: u32, payload: &[u8]) -> (r: Vec<u8>)
    ensures
        r@ == frame(crc, payload@),
{
    let mut out: Vec<u8> = Vec::new();
    encode_u32_le(crc, &mut out);
    let n: usize = payload.len();
    encode_u64_le(n as u64, &mut out);
    append_bytes(&mut out, payload);
    out
}

/// Builds the record that logs `c`.
pub fn encode_record(c: &Command) -> (r: Result<Vec<u8>, StoreError>)
    ensures
        r is Ok <==> record_fits(c@),
        r matches Ok(b) ==> b@ == record_bytes(c@) && record_intact(c@),
        r is Err ==> r == Err::<Vec<u8>, StoreError>(StoreError::TooLarge),
{
    let raw = encode_command(c);
    match compress(raw.as_slice()) {
        Ok(payload) => {
            let n: usize = payload.len();
            assert(n as int == record_payload(c@).len());
            let crc = checksum(payload.as_slice());
            Ok(frame_record(crc, payload.as_slice()))
        },
        Err(_) => Err(StoreError::TooLarge),
    }
}

/// What recovery reads at one offset of the log.
pub enum Step {
    /// Recovery stops here: the log ends, or its last record is torn.
    End,
    /// A verified record holding this command; the next one starts at the offset.
    Entry(CommandView, nat),
    /// Recovery fails.
    Failed(StoreError),
}

/// The record at offset `pos` of `log`.
pub open spec fn step_at(log: Seq<u8>, pos: nat) -> Step {
    let p = pos as int;
    if log.len() < p + HEADER_LEN {
        Step::End
    } else {
        let crc = le_u32(log.subrange(p, p + 4));
        let n = le_u64(log.subrange(p + 4, p + 12)) as int;
        if log.len() - (p + HEADER_LEN) < n {
            Step::End
        } else {
            let payload = log.subrange(p + 12, p + 12 + n);
            if crc32_of(payload) != crc {
                Step::Failed(StoreError::Corruption)
            } else {
                match snappy_decompressed(payload) {
                    None => Step::Failed(StoreError::Malformed),
                    Some(raw) => match parse_command(raw) {
                        None => Step::Failed(StoreError::Malformed),
                        Some(c) => Step::Entry(c, (p + 12 + n) as nat),
                    },
                }
            }
        }
    }
}

/// The index after applying one command.
pub open spec fn apply(m: Map<Seq<char>, Seq<char>>, c: CommandView) -> Map<Seq<char>, Seq<char>> {
    match c {
        CommandView::Put { key, value } => m.insert(key, value),
        CommandView::Remove { key } => m.remove(key),
    }
}

/// Recovery from offset `pos` with index `m`: the final index and the offset
/// where recovery stopped, or the error that aborts it.
pub open spec fn replay_from(log: Seq<u8>, pos: nat, m: Map<Seq<char>, Seq<char>>) -> Result<
    (Map<Seq<char>, Seq<char>>, nat),
    StoreError,
>
    decreases log.len() - pos,
{
    match step_at(log, pos) {
        Step::End => Ok((m, pos)),
        Step::Failed(e) => Err(e),
        Step::Entry(c, next) => if next > pos && next <= log.len() {
            replay_from(log, next, apply(m, c))
        } else {
            Ok((m, pos))
        },
    }
}

/// Recovery of a whole log from an empty index.
pub open spec fn replay(log: Seq<u8>) -> Result<(Map<Seq<char>, Seq<char>>, nat), StoreError> {
    replay_from(log, 0, Map::empty())
}

/// Reads the record at offset `pos` of `log`: exactly `step_at(log, pos)`.
pub fn read_record(log: &[u8], pos: usize) -> (r: Result<Option<(Command, usize)>, StoreError>)
    requires
        pos <= log@.len(),
    ensures
        match step_at(log@, pos as nat) {
            Step::End => r == Ok::<Option<(Command, usize)>, StoreError>(None),
            Step::Failed(e) => r == Err::<Option<(Command, usize)>, StoreError>(e),
            Step::Entry(c, next) => r matches Ok(Some((d, q))) && d@ == c && q == next,
        },
{
    if log.len() - pos < HEADER_LEN {
        return Ok(None);
    }
    let crc = decode_u32_le(log, pos);
    let n = decode_u64_le(log, pos + 4);
    if ((log.len() - pos - HEADER_LEN) as u64) < n {
        return Ok(None);
    }
    let start = pos + HEADER_LEN;
    let end = start + n as usize;
    let payload = slice_subrange(log, start, end);
    if checksum(payload) != crc {
        return Err(StoreError::Corruption);
    }
    match decompress(payload) {
        Err(_) => Err(StoreError::Malformed),
        Ok(raw) => match decode_command(raw.as_slice()) {
            None => Err(StoreError::Malformed),
            Some(c) => Ok(Some((c, end))),
        },
    }
}

/// The logged form of an index entry.
pub open spec fn put_of(e: (Seq<char>, Seq<char>)) -> CommandView {
    CommandView::Put { key: e.0, value: e.1 }
}

/// The log that holds one `Put` record per entry, in order.
pub open spec fn log_of(p: Seq<(Seq<char>, Seq<char>)>) -> Seq<u8>
    decreases p.len(),
{
    if p.len() == 0 {
        Seq::empty()
    } else {
        log_of(p.drop_last()) + record_bytes(put_of(p.last()))
    }
}

} // verus!
