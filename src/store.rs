use vstd::prelude::*;
use core::cmp::Ordering;
use crate::order::{
    compare_keys, key_lt, key_le, lemma_key_lt_irreflexive, lemma_key_lt_transitive,
    lemma_key_lt_asymmetric,
};
use crate::command::{Command, CommandView};
use crate::record::{
    apply, replay, replay_from, read_record, encode_record, record_fits, record_bytes,
    record_intact, put_of, log_of,
};
use crate::recovery::{
    recovers, lemma_replay_append, lemma_compacted_log_replays, lemma_replay_truncate,
};
use crate::model::{
    Pairs, sorted, pairs_map, range_filter, lemma_range_window, lemma_pairs_map_entries, lemma_insert_sorted,
    lemma_update_sorted, lemma_remove_sorted,
};

verus! {

/// Errors of the storage engine.
#[derive(Debug, Clone, Copy, PartialEq, Eq, Structural)]
pub enum StoreError {
    /// `remove` of a key that the index does not hold.
    NotFound,
    /// A complete log record whose checksum does not match its payload.
    Corruption,
    /// A record whose checksum matches but whose payload does not decode.
    Malformed,
    /// A command too large for the compressor.
    TooLarge,
}

/// The message that a client sees for an error.
pub open spec fn error_message(e: StoreError) -> Seq<char> {
    match e {
        StoreError::NotFound => "key not found"@,
        StoreError::Corruption => "data corruption detected: CRC mismatch"@,
        StoreError::Malformed => "malformed log record"@,
        StoreError::TooLarge => "command too large to log"@,
    }
}

impl StoreError {
    /// The message that a client sees for this error.
    pub fn message(&self) -> (r: String)
        ensures
            r@ == error_message(*self),
    {
        match self {
            StoreError::NotFound => "key not found".to_owned(),
            StoreError::Corruption => "data corruption detected: CRC mismatch".to_owned(),
            StoreError::Malformed => "malformed log record".to_owned(),
            StoreError::TooLarge => "command too large to log".to_owned(),
        }
    }
}

/// Views a listing of string entries as a listing of character sequences.
pub open spec fn pairs_of(s: Seq<(String, String)>) -> Pairs {
    s.map_values(|e: (String, String)| (e.0@, e.1@))
}

/// The in-memory index of the store: its live keys in ascending key order,
/// each with its current value.
pub struct KvStore {
    entries: Vec<(String, String)>,
}

impl View for KvStore {
    type V = Map<Seq<char>, Seq<char>>;

    open spec fn view(&self) -> Map<Seq<char>, Seq<char>> {
        pairs_map(self.pairs())
    }
}

impl KvStore {
    /// The live entries in ascending key order.
    pub closed spec fn pairs(&self) -> Pairs {
        pairs_of(self.entries@)
    }

    /// Well-formedness: the entries are strictly ascending by key.
    pub closed spec fn wf(&self) -> bool {
        sorted(self.pairs())
    }

    /// An empty index.
    pub fn new() -> (r: KvStore)
        ensures
            r@ == Map::<Seq<char>, Seq<char>>::empty(),
            r.pairs() == Seq::<(Seq<char>, Seq<char>)>::empty(),
            r.wf(),
    {
        let r = KvStore { entries: Vec::new() };
        assert(r.pairs() =~= Seq::<(Seq<char>, Seq<char>)>::empty());
        assert(r@ =~= Map::<Seq<char>, Seq<char>>::empty());
        r
    }

    /// Where `key` stands: `Ok(i)` if entry `i` holds it, else `Err(i)`, the
    /// position where it would be inserted.
    fn find(&self, key: &String) -> (r: Result<usize, usize>)
        requires
            self.wf(),
        ensures
            match r {
                Ok(i) => i < self.pairs().len() && self.pairs()[i as int].0 == key@,
                Err(i) => i <= self.pairs().len() && (forall|j: int|
                    0 <= j < i ==> key_lt(#[trigger] self.pairs()[j].0, key@)) && (forall|j: int|
                    i <= j < self.pairs().len() ==> key_lt(key@, #[trigger] self.pairs()[j].0)),
            },
    {
        let ghost p = self.pairs();
        let mut lo: usize = 0;
        let mut hi: usize = self.entries.len();
        while lo < hi
            invariant
                p == self.pairs(),
                sorted(p),
                p.len() == self.entries@.len(),
                lo <= hi <= p.len(),
                forall|j: int| 0 <= j < lo ==> key_lt(#[trigger] p[j].0, key@),
                forall|j: int| hi <= j < p.len() ==> key_lt(key@, #[trigger] p[j].0),
            decreases hi - lo,
        {
            let mid = lo + (hi - lo) / 2;
            let c = compare_keys(&self.entries[mid].0, key);
            assert(p[mid as int].0 == self.entries@[mid as int].0@);
            match c {
                Ordering::Less => {
                    assert forall|j: int| 0 <= j < mid + 1 implies key_lt(#[trigger] p[j].0, key@) by {
                        if j < mid {
                            lemma_key_lt_transitive(p[j].0, p[mid as int].0, key@);
                        }
                    }
                    lo = mid + 1;
                },
                Ordering::Greater => {
                    assert forall|j: int| mid <= j < p.len() implies key_lt(key@, #[trigger] p[j].0) by {
                        if j > mid {
                            lemma_key_lt_transitive(key@, p[mid as int].0, p[j].0);
                        }
                    }
                    hi = mid;
                },
                Ordering::Equal => {
                    return Ok(mid);
                },
            }
        }
        Err(lo)
    }

    /// The current value of `key`, if any.
    pub fn get(&self, key: String) -> (r: Option<String>)
        requires
            self.wf(),
        ensures
            match r {
                Some(v) => self@.contains_key(key@) && self@[key@] == v@,
                None => !self@.contains_key(key@),
            },
    {
        proof {
            lemma_pairs_map_entries(self.pairs());
        }
        match self.find(&key) {
            Ok(i) => {
                assert(self.pairs()[i as int].1 == self.entries@[i as int].1@);
                Some(self.entries[i].1.clone())
            },
            Err(i) => {
                proof {
                    if self@.contains_key(key@) {
                        let j = choose|j: int| 0 <= j < self.pairs().len() && #[trigger] self.pairs()[j].0 == key@;
                        lemma_key_lt_asymmetric(key@, key@);
                    }
                }
                None
            },
        }
    }

    /// Whether the index holds `key`.
    pub fn contains(&self, key: &String) -> (r: bool)
        requires
            self.wf(),
        ensures
            r == self@.contains_key(key@),
    {
        proof {
            lemma_pairs_map_entries(self.pairs());
        }
        match self.find(key) {
            Ok(_) => true,
            Err(_) => {
                proof {
                    if self@.contains_key(key@) {
                        let j = choose|j: int| 0 <= j < self.pairs().len() && #[trigger] self.pairs()[j].0 == key@;
                        lemma_key_lt_asymmetric(key@, key@);
                    }
                }
                false
            },
        }
    }

    /// Applies a committed `Set`: `key` now maps to `value`.
    pub fn set(&mut self, key: String, value: String)
        requires
            old(self).wf(),
        ensures
            final(self).wf(),
            final(self)@ == old(self)@.insert(key@, value@),
    {
        let ghost p = self.pairs();
        match self.find(&key) {
            Ok(i) => {
                proof {
                    lemma_update_sorted(p, i as int, value@);
                }
                self.entries.set(i, (key, value));
                assert(self.pairs() =~= p.update(i as int, (p[i as int].0, value@)));
            },
            Err(i) => {
                proof {
                    lemma_insert_sorted(p, i as int, key@, value@);
                }
                self.entries.insert(i, (key, value));
                assert(self.pairs() =~= p.insert(i as int, (key@, value@)));
            },
        }
    }

    /// Applies a committed `Remove`: fails with `NotFound`, and changes
    /// nothing, where `key` is absent.
    pub fn remove(&mut self, key: String) -> (r: Result<(), StoreError>)
        requires
            old(self).wf(),
        ensures
            final(self).wf(),
            old(self)@.contains_key(key@) ==> r is Ok && final(self)@ == old(self)@.remove(key@),
            !old(self)@.contains_key(key@) ==> r == Err::<(), StoreError>(StoreError::NotFound)
                && final(self)@ == old(self)@,
    {
        proof {
            lemma_pairs_map_entries(self.pairs());
        }
        let ghost p = self.pairs();
        match self.find(&key) {
            Ok(i) => {
                proof {
                    lemma_remove_sorted(p, i as int);
                }
                self.entries.remove(i);
                assert(self.pairs() =~= p.remove(i as int));
                Ok(())
            },
            Err(_) => {
                proof {
                    if old(self)@.contains_key(key@) {
                        let j = choose|j: int| 0 <= j < p.len() && #[trigger] p[j].0 == key@;
                        lemma_key_lt_asymmetric(key@, key@);
                    }
                }
                Err(StoreError::NotFound)
            },
        }
    }

    /// The entries whose keys lie in `[start, end)`, in ascending key order.
    /// Its cost is a binary search and then one step per entry in the range.
    pub fn scan(&self, start: String, end: String) -> (r: Vec<(String, String)>)
        requires
            self.wf(),
        ensures
            pairs_of(r@) == range_filter(self.pairs(), start@, end@),
            sorted(self.pairs()),
    {
        let ghost p = self.pairs();
        let lo = match self.find(&start) {
            Ok(i) => i,
            Err(i) => i,
        };
        proof {
            assert forall|j: int| 0 <= j < p.len() implies (key_le(start@, #[trigger] p[j].0) <==> lo <= j) by {
                if j < lo {
                    if lo < p.len() && p[lo as int].0 == start@ {
                        assert(key_lt(p[j].0, p[lo as int].0));
                    }
                    lemma_key_lt_asymmetric(p[j].0, start@);
                } else if j > lo || p[lo as int].0 != start@ {
                    if lo < p.len() && p[lo as int].0 == start@ {
                        assert(key_lt(p[lo as int].0, p[j].0));
                    }
                    lemma_key_lt_asymmetric(start@, p[j].0);
                } else {
                    lemma_key_lt_irreflexive(start@);
                }
            }
        }
        let mut r: Vec<(String, String)> = Vec::new();
        let mut i: usize = lo;
        let mut more = true;
        while more && i < self.entries.len()
            invariant
                p == self.pairs(),
                sorted(p),
                p.len() == self.entries@.len(),
                lo <= i <= p.len(),
                pairs_of(r@) == p.subrange(lo as int, i as int),
                forall|j: int| lo <= j < i ==> key_lt(#[trigger] p[j].0, end@),
                !more ==> i < p.len() && !key_lt(p[i as int].0, end@),
            decreases p.len() - i + if more { 1int } else { 0int },
        {
            assert(p[i as int] == (self.entries@[i as int].0@, self.entries@[i as int].1@));
            match compare_keys(&self.entries[i].0, &end) {
                Ordering::Less => {
                    let ghost old_r = r@;
                    r.push((self.entries[i].0.clone(), self.entries[i].1.clone()));
                    assert(pairs_of(r@) =~= pairs_of(old_r).push(p[i as int]));
                    assert(p.subrange(lo as int, i + 1) =~= p.subrange(lo as int, i as int).push(
                        p[i as int],
                    ));
                    i = i + 1;
                },
                _ => {
                    more = false;
                },
            }
        }
        proof {
            assert forall|j: int| lo <= j < p.len() implies (key_lt(#[trigger] p[j].0, end@) <==> j < i) by {
                if j > i && key_lt(p[j].0, end@) {
                    assert(key_lt(p[i as int].0, p[j].0));
                    lemma_key_lt_transitive(p[i as int].0, p[j].0, end@);
                }
            }
            lemma_range_window(p, start@, end@, lo as int, i as int);
        }
        r
    }

    /// Applies one logged command to the index; removing an absent key
    /// changes nothing.
    pub fn apply(&mut self, c: Command)
        requires
            old(self).wf(),
        ensures
            final(self).wf(),
            final(self)@ == apply(old(self)@, c@),
    {
        match c {
            Command::Put { key, value } => self.set(key, value),
            Command::Remove { key } => {
                let ghost k = key@;
                let _ = self.remove(key);
                assert(final(self)@ =~= apply(old(self)@, c@));
            },
        }
    }

    /// Rebuilds the index by replaying a log from its start, and returns it
    /// with the offset where recovery stopped. Recovery stops cleanly at the
    /// end of the log or at a torn last record; a complete record whose
    /// checksum fails aborts it with `Corruption`. The log cut at that offset
    /// recovers completely, so records appended after the cut are read back.
    pub fn recover(log: &[u8]) -> (r: Result<(KvStore, usize), StoreError>)
        ensures
            match replay(log@) {
                Ok((m, end)) => r matches Ok((s, e)) && s.wf() && s@ == m && e == end && e
                    <= log@.len() && recovers(log@.take(e as int), s@),
                Err(e) => r == Err::<(KvStore, usize), StoreError>(e),
            },
    {
        let mut store = KvStore::new();
        let mut pos: usize = 0;
        loop
            invariant
                pos <= log@.len(),
                store.wf(),
                replay(log@) == replay_from(log@, pos as nat, store@),
            decreases log@.len() - pos,
        {
            match read_record(log, pos) {
                Err(e) => return Err(e),
                Ok(None) => {
                    proof {
                        lemma_replay_truncate(log@);
                    }
                    return Ok((store, pos));
                },
                Ok(Some((c, next))) => {
                    store.apply(c);
                    pos = next;
                },
            }
        }
    }

    /// Rebuilds the index by replaying a log from its start; see `recover`.
    pub fn open(log: &[u8]) -> (r: Result<KvStore, StoreError>)
        ensures
            match replay(log@) {
                Ok((m, _)) => r matches Ok(s) && s.wf() && s@ == m,
                Err(e) => r == Err::<KvStore, StoreError>(e),
            },
    {
        match KvStore::recover(log) {
            Ok((store, _)) => Ok(store),
            Err(e) => Err(e),
        }
    }

    /// The compacted log: one `Put` record per live entry, in ascending key
    /// order. The index itself is unchanged.
    pub fn compact(&self) -> (r: Result<Vec<u8>, StoreError>)
        requires
            self.wf(),
        ensures
            sorted(self.pairs()),
            r is Ok <==> forall|i: int|
                0 <= i < self.pairs().len() ==> record_fits(#[trigger] put_of(self.pairs()[i])),
            r matches Ok(b) ==> b@ == log_of(self.pairs()) && forall|i: int|
                0 <= i < self.pairs().len() ==> record_intact(#[trigger] put_of(self.pairs()[i])),
            r matches Ok(b) ==> recovers(b@, self@),
            r is Err ==> r == Err::<Vec<u8>, StoreError>(StoreError::TooLarge),
    {
        let ghost p = self.pairs();
        let mut out: Vec<u8> = Vec::new();
        let mut i: usize = 0;
        while i < self.entries.len()
            invariant
                p == self.pairs(),
                p.len() == self.entries@.len(),
                sorted(p),
                i <= p.len(),
                out@ == log_of(p.take(i as int)),
                forall|j: int| 0 <= j < i ==> record_fits(#[trigger] put_of(p[j])),
                forall|j: int| 0 <= j < i ==> record_intact(#[trigger] put_of(p[j])),
            decreases p.len() - i,
        {
            let c = Command::Put {
                key: self.entries[i].0.clone(),
                value: self.entries[i].1.clone(),
            };
            assert(c@ == put_of(p[i as int]));
            match encode_record(&c) {
                Ok(rec) => {
                    crate::command::append_bytes(&mut out, rec.as_slice());
                    assert(p.take(i + 1).drop_last() =~= p.take(i as int));
                },
                Err(e) => {
                    return Err(e);
                },
            }
            i = i + 1;
        }
        assert(p.take(p.len() as int) =~= p);
        proof {
            lemma_compacted_log_replays(p);
        }
        Ok(out)
    }

    /// The record that logs `Set(key, value)`.
    pub fn set_record(&self, key: &String, value: &String) -> (r: Result<Vec<u8>, StoreError>)
        ensures
            r is Ok <==> record_fits(CommandView::Put { key: key@, value: value@ }),
            r matches Ok(b) ==> b@ == record_bytes(CommandView::Put { key: key@, value: value@ })
                && record_intact(CommandView::Put { key: key@, value: value@ }),
            r matches Ok(b) ==> forall|log: Seq<u8>, m: Map<Seq<char>, Seq<char>>|
                #[trigger] recovers(log, m) ==> recovers(log + b@, m.insert(key@, value@)),
            r is Err ==> r == Err::<Vec<u8>, StoreError>(StoreError::TooLarge),
    {
        let r = encode_record(&Command::Put { key: key.clone(), value: value.clone() });
        proof {
            let c = CommandView::Put { key: key@, value: value@ };
            assert forall|log: Seq<u8>, m: Map<Seq<char>, Seq<char>>| #[trigger] recovers(log, m)
                && r is Ok implies recovers(log + record_bytes(c), m.insert(key@, value@)) by {
                lemma_replay_append(log, m, c);
            }
        }
        r
    }

    /// The record that logs `Remove(key)`; `NotFound` where the index does not
    /// hold `key`, for then nothing is to be logged.
    pub fn remove_record(&self, key: &String) -> (r: Result<Vec<u8>, StoreError>)
        requires
            self.wf(),
        ensures
            !self@.contains_key(key@) ==> r == Err::<Vec<u8>, StoreError>(StoreError::NotFound),
            self@.contains_key(key@) ==> (r is Ok <==> record_fits(CommandView::Remove { key: key@ })),
            self@.contains_key(key@) && r is Err ==> r == Err::<Vec<u8>, StoreError>(StoreError::TooLarge),
            r matches Ok(b) ==> b@ == record_bytes(CommandView::Remove { key: key@ })
                && record_intact(CommandView::Remove { key: key@ }),
            r matches Ok(b) ==> forall|log: Seq<u8>, m: Map<Seq<char>, Seq<char>>|
                #[trigger] recovers(log, m) ==> recovers(log + b@, m.remove(key@)),
    {
        if !self.contains(key) {
            return Err(StoreError::NotFound);
        }
        let r = encode_record(&Command::Remove { key: key.clone() });
        proof {
            let c = CommandView::Remove { key: key@ };
            assert forall|log: Seq<u8>, m: Map<Seq<char>, Seq<char>>| #[trigger] recovers(log, m)
                && r is Ok implies recovers(log + record_bytes(c), m.remove(key@)) by {
                lemma_replay_append(log, m, c);
            }
        }
        r
    }
}

/// A value set under a key is what a lookup of that key then finds.
pub proof fn lemma_set_then_get(m: Map<Seq<char>, Seq<char>>, k: Seq<char>, v: Seq<char>)
    ensures
        m.insert(k, v).contains_key(k),
        m.insert(k, v)[k] == v,
{
}

/// After a key is removed, a lookup of it finds nothing.
pub proof fn lemma_remove_then_get(m: Map<Seq<char>, Seq<char>>, k: Seq<char>)
    ensures
        !m.remove(k).contains_key(k),
{
}

} // verus!
