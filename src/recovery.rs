use vstd::prelude::*;
use crate::encoding::{u32_le, u64_le, lemma_u32_le_round_trip, lemma_u64_le_round_trip};
use crate::command::{CommandView, lemma_command_round_trip};
use crate::record::{
    Step, step_at, apply, replay, replay_from, frame, record_bytes, record_payload, record_intact,
    put_of, log_of, crc32_of, HEADER_LEN,
};
use crate::model::{Pairs, sorted, pairs_map, lemma_insert_sorted};
use crate::store::StoreError;

verus! {

/// `log` recovers completely, up to its last byte, to the index `m`.
pub open spec fn recovers(log: Seq<u8>, m: Map<Seq<char>, Seq<char>>) -> bool {
    replay(log) == Ok::<(Map<Seq<char>, Seq<char>>, nat), StoreError>((m, log.len()))
}

/// A step that reads only bytes of `log` reads the same after more bytes are
/// appended.
proof fn lemma_step_prefix(log: Seq<u8>, t: Seq<u8>, pos: nat)
    requires
        !(step_at(log, pos) is End),
    ensures
        step_at(log + t, pos) == step_at(log, pos),
{
    let l = log + t;
    let p = pos as int;
    assert(l.subrange(p, p + 4) =~= log.subrange(p, p + 4));
    assert(l.subrange(p + 4, p + 12) =~= log.subrange(p + 4, p + 12));
    let n = crate::encoding::le_u64(log.subrange(p + 4, p + 12)) as int;
    if log.len() - (p + HEADER_LEN) >= n {
        assert(l.subrange(p + 12, p + 12 + n) =~= log.subrange(p + 12, p + 12 + n));
    }
}

/// Recovery of `log + t` goes through the records of a completely
/// recovered `log` and then reads `t` from the index that `log` gave.
proof fn lemma_replay_extend(
    log: Seq<u8>,
    t: Seq<u8>,
    pos: nat,
    m: Map<Seq<char>, Seq<char>>,
    mm: Map<Seq<char>, Seq<char>>,
)
    requires
        pos <= log.len(),
        replay_from(log, pos, m) == Ok::<(Map<Seq<char>, Seq<char>>, nat), StoreError>((mm, log.len())),
    ensures
        replay_from(log + t, pos, m) == replay_from(log + t, log.len(), mm),
    decreases log.len() - pos,
{
    match step_at(log, pos) {
        Step::End => {},
        Step::Failed(e) => {},
        Step::Entry(c, next) => {
            lemma_step_prefix(log, t, pos);
            if next > pos && next <= log.len() {
                lemma_replay_extend(log, t, next, apply(m, c), mm);
            }
        },
    }
}

/// Reading an intact record at the end of a log gives its command.
proof fn lemma_step_record(log: Seq<u8>, c: CommandView, rest: Seq<u8>)
    requires
        record_intact(c),
    ensures
        step_at(log + record_bytes(c) + rest, log.len()) == Step::Entry(
            c,
            log.len() + record_bytes(c).len(),
        ),
        record_bytes(c).len() == HEADER_LEN + record_payload(c).len(),
{
    let payload = record_payload(c);
    let crc = crc32_of(payload);
    let l = log + record_bytes(c) + rest;
    let p = log.len() as int;
    lemma_u32_le_round_trip(crc);
    lemma_u64_le_round_trip(payload.len() as u64);
    assert(l.subrange(p, p + 4) =~= u32_le(crc));
    assert(l.subrange(p + 4, p + 12) =~= u64_le(payload.len() as u64));
    assert(l.subrange(p + 12, p + 12 + payload.len()) =~= payload);
    lemma_command_round_trip(c);
}

/// Appending the record of a command to a log that recovers completely
/// yields a log that recovers completely, to the index with the command
/// applied: the index and the log stay in lock-step.
pub proof fn lemma_replay_append(log: Seq<u8>, m: Map<Seq<char>, Seq<char>>, c: CommandView)
    ensures
        recovers(log, m) && record_intact(c) ==> recovers(log + record_bytes(c), apply(m, c)),
{
    if recovers(log, m) && record_intact(c) {
        let r = record_bytes(c);
        let l = log + r;
        lemma_replay_extend(log, r, 0, Map::empty(), m);
        lemma_step_record(log, c, Seq::empty());
        assert(l + Seq::<u8>::empty() =~= l);
        assert(step_at(l, l.len()) == Step::End);
        assert(replay_from(l, l.len(), apply(m, c)) == Ok::<(Map<Seq<char>, Seq<char>>, nat), StoreError>((apply(m, c), l.len())));
        assert(replay_from(l, log.len(), m) == replay_from(l, l.len(), apply(m, c)));
    }
}

/// The compacted log of a sorted listing recovers exactly the listing's map.
pub proof fn lemma_compacted_log_replays(p: Pairs)
    ensures
        (sorted(p) && forall|i: int| 0 <= i < p.len() ==> record_intact(#[trigger] put_of(p[i])))
            ==> replay(log_of(p)) == Ok::<(Map<Seq<char>, Seq<char>>, nat), StoreError>(
            (pairs_map(p), log_of(p).len()),
        ),
        (sorted(p) && forall|i: int| 0 <= i < p.len() ==> record_intact(#[trigger] put_of(p[i])))
            ==> recovers(log_of(p), pairs_map(p)),
    decreases p.len(),
{
    if sorted(p) && forall|i: int| 0 <= i < p.len() ==> record_intact(#[trigger] put_of(p[i])) {
        if p.len() == 0 {
            assert(step_at(log_of(p), 0) == Step::End);
            assert(pairs_map(p) =~= Map::<Seq<char>, Seq<char>>::empty());
        } else {
            let q = p.drop_last();
            let e = p.last();
            assert(sorted(q));
            assert forall|i: int| 0 <= i < q.len() implies record_intact(#[trigger] put_of(q[i])) by {
                assert(q[i] == p[i]);
            }
            lemma_compacted_log_replays(q);
            assert(record_intact(put_of(p[p.len() - 1])));
            lemma_replay_append(log_of(q), pairs_map(q), put_of(e));
            assert forall|i: int| 0 <= i < q.len() implies crate::order::key_lt(#[trigger] q[i].0, e.0) by {
                assert(q[i] == p[i]);
            }
            lemma_insert_sorted(q, q.len() as int, e.0, e.1);
            assert(q.insert(q.len() as int, (e.0, e.1)) =~= p);
        }
    }
}

/// A log whose last record was cut short, header present or not, recovers
/// exactly what the log before that record recovers, without error.
pub proof fn lemma_torn_tail(log: Seq<u8>, m: Map<Seq<char>, Seq<char>>, c: CommandView, j: int)
    ensures
        recovers(log, m) && record_intact(c) && 0 <= j < record_bytes(c).len() ==> replay(
            log + record_bytes(c).take(j),
        ) == Ok::<(Map<Seq<char>, Seq<char>>, nat), StoreError>((m, log.len())),
{
    if recovers(log, m) && record_intact(c) && 0 <= j < record_bytes(c).len() {
        let r = record_bytes(c);
        let t = r.take(j);
        let l = log + t;
        let p = log.len() as int;
        lemma_replay_extend(log, t, 0, Map::empty(), m);
        lemma_u64_le_round_trip(record_payload(c).len() as u64);
        if j >= HEADER_LEN {
            assert(l.subrange(p + 4, p + 12) =~= u64_le(record_payload(c).len() as u64));
        }
        assert(step_at(l, log.len()) == Step::End);
    }
}

/// A complete record whose checksum does not match its payload makes
/// recovery fail with `Corruption`, whatever follows it.
pub proof fn lemma_corrupt_record(
    log: Seq<u8>,
    m: Map<Seq<char>, Seq<char>>,
    crc: u32,
    payload: Seq<u8>,
    rest: Seq<u8>,
)
    ensures
        recovers(log, m) && crc != crc32_of(payload) && payload.len() <= u64::MAX ==> replay(
            log + frame(crc, payload) + rest,
        ) == Err::<(Map<Seq<char>, Seq<char>>, nat), StoreError>(StoreError::Corruption),
{
    if recovers(log, m) && crc != crc32_of(payload) && payload.len() <= u64::MAX {
        let t = frame(crc, payload) + rest;
        let l = log + t;
        let p = log.len() as int;
        assert(l =~= log + frame(crc, payload) + rest);
        lemma_replay_extend(log, t, 0, Map::empty(), m);
        lemma_u32_le_round_trip(crc);
        lemma_u64_le_round_trip(payload.len() as u64);
        assert(l.subrange(p, p + 4) =~= u32_le(crc));
        assert(l.subrange(p + 4, p + 12) =~= u64_le(payload.len() as u64));
        assert(l.subrange(p + 12, p + 12 + payload.len()) =~= payload);
        assert(step_at(l, log.len()) == Step::Failed(StoreError::Corruption));
    }
}

proof fn lemma_replay_from_truncate(
    log: Seq<u8>,
    pos: nat,
    m: Map<Seq<char>, Seq<char>>,
    mm: Map<Seq<char>, Seq<char>>,
    end: nat,
)
    requires
        pos <= log.len(),
        replay_from(log, pos, m) == Ok::<(Map<Seq<char>, Seq<char>>, nat), StoreError>((mm, end)),
    ensures
        pos <= end <= log.len(),
        replay_from(log.take(end as int), pos, m) == Ok::<(Map<Seq<char>, Seq<char>>, nat), StoreError>(
            (mm, end),
        ),
    decreases log.len() - pos,
{
    let t = log.take(end as int);
    match step_at(log, pos) {
        Step::End => {
            assert(step_at(t, pos) == Step::End);
        },
        Step::Failed(e) => {},
        Step::Entry(c, next) => {
            if next > pos && next <= log.len() {
                lemma_replay_from_truncate(log, next, apply(m, c), mm, end);
                let p = pos as int;
                assert(t.subrange(p, p + 4) =~= log.subrange(p, p + 4));
                assert(t.subrange(p + 4, p + 12) =~= log.subrange(p + 4, p + 12));
                let n = crate::encoding::le_u64(log.subrange(p + 4, p + 12)) as int;
                assert(t.subrange(p + 12, p + 12 + n) =~= log.subrange(p + 12, p + 12 + n));
                assert(step_at(t, pos) == step_at(log, pos));
            } else {
                assert(false);
            }
        },
    }
}

/// A log cut at the offset where its recovery stopped recovers completely,
/// to the same index: appending after the cut keeps the log and the index
/// in lock-step.
pub proof fn lemma_replay_truncate(log: Seq<u8>)
    ensures
        replay(log) matches Ok((m, end)) ==> end <= log.len() && recovers(log.take(end as int), m),
{
    match replay(log) {
        Ok((m, end)) => lemma_replay_from_truncate(log, 0, Map::empty(), m, end),
        Err(_) => {},
    }
}

} // verus!
