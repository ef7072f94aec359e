//! The store: it owns the log buffer and the index, replays the log on open,
//! appends a record for every mutation, and compacts the log when enough
//! mutations have accumulated.
//!
//! The log buffer mirrors the data file byte for byte; the surrounding binary
//! reads the file into the buffer before `open` and writes the buffer back
//! after each mutation. The buffer is the durable state: the index, the write
//! cursor and the mutation counter are volatile and are rebuilt from it.

use vstd::prelude::*;
use crate::codec::{
    apply_record, decode_one, encode, records_from, replay_map, spec_encode,
    wf_record, lemma_decode_encode, lemma_decode_section, lemma_records_append,
    lemma_records_from_step, lemma_records_min_len, lemma_replay_push, Record, RecordView,
};
use crate::index::{CommandEntry, Index};
use crate::KvError;

verus! {

/// How many records the log may hold before a mutation triggers compaction.
pub const COMPACT_LIMIT: u64 = 8192;

/// The index invariant at one key: the entry points at a byte range of the
/// log that holds exactly the encoding of a `Put` of that key and its
/// current value.
pub open spec fn entry_matches(log: Seq<u8>, e: CommandEntry, k: Seq<char>, v: Seq<char>) -> bool {
    let rec = RecordView::Put { key: k, value: v };
    &&& e.pos + e.len <= log.len()
    &&& wf_record(rec)
    &&& e.len == spec_encode(rec).len()
    &&& log.subrange(e.pos as int, e.pos + e.len) == spec_encode(rec)
}

/// How many records the log holds after a mutation that brought the count of
/// records from `prior` to `prior + 1`: compaction fires at the threshold and
/// shrinks the log to one record per live key of the resulting state.
pub open spec fn count_after_mutation(prior: int, state: Map<Seq<char>, Seq<char>>) -> int {
    if prior + 1 >= COMPACT_LIMIT {
        state.dom().len() as int
    } else {
        prior + 1
    }
}

/// The log-structured key-value store.
pub struct KvStore {
    log: Vec<u8>,
    index: Index,
    cmd_num: u64,
    pos: u64,
}

impl View for KvStore {
    type V = Map<Seq<char>, Seq<char>>;

    /// The visible key-value state: what replaying the log yields.
    closed spec fn view(&self) -> Map<Seq<char>, Seq<char>> {
        match records_from(self.log@, 0) {
            Some(rs) => replay_map(rs),
            None => Map::empty(),
        }
    }
}

impl Default for KvStore {
    /// The same fresh store `new` yields.
    fn default() -> (r: KvStore)
        ensures
            r.wf(),
            r@ == Map::<Seq<char>, Seq<char>>::empty(),
            r.log_view() == Seq::<u8>::empty(),
    {
        KvStore::new()
    }
}

impl KvStore {
    /// The bytes of the log, the store's durable state.
    pub closed spec fn log_view(self) -> Seq<u8> {
        self.log@
    }

    /// The records of the log, in append order.
    pub closed spec fn record_seq(self) -> Seq<RecordView> {
        records_from(self.log@, 0)->Some_0
    }

    /// Well-formedness: the log parses, the write cursor sits at its end, the
    /// mutation counter counts its records, and the index holds exactly the
    /// live keys, each entry pointing at the record of its current value.
    pub closed spec fn wf(self) -> bool {
        &&& records_from(self.log@, 0) is Some
        &&& self.pos == self.log@.len()
        &&& self.cmd_num == self.record_seq().len()
        &&& self.index.wf()
        &&& forall|k: Seq<char>|
            #![trigger self.index@.contains_key(k)]
            #![trigger self@.contains_key(k)]
            self.index@.contains_key(k) <==> self@.contains_key(k)
        &&& forall|k: Seq<char>| #[trigger]
            self.index@.contains_key(k) ==> entry_matches(self.log@, self.index@[k], k, self@[k])
    }

    /// A fresh store over an empty log.
    pub fn new() -> (r: KvStore)
        ensures
            r.wf(),
            r@ == Map::<Seq<char>, Seq<char>>::empty(),
            r.log_view() == Seq::<u8>::empty(),
    {
        KvStore { log: Vec::new(), index: Index::new(), cmd_num: 0, pos: 0 }
    }

    /// Opens a store over the bytes of a log file: replays every record in
    /// order to rebuild the index, the write cursor and the record count.
    /// Succeeds exactly when the bytes parse as whole records; the log is
    /// taken as it is, never modified.
    pub fn open(log: Vec<u8>) -> (r: Result<KvStore, KvError>)
        ensures
            r is Ok <==> records_from(log@, 0) is Some,
            r matches Ok(s) ==> s.wf() && s.log_view() == log@ && s@ == replay_map(
                records_from(log@, 0)->Some_0,
            ),
            r matches Err(e) ==> e == KvError::CorruptRecord,
    {
        let n = log.len();
        let mut index = Index::new();
        let mut cmd_num: u64 = 0;
        let mut pos: usize = 0;
        let ghost mut done: Seq<RecordView> = Seq::empty();
        while pos < n
            invariant
                n == log@.len(),
                0 <= pos <= n,
                index.wf(),
                cmd_num == done.len(),
                9 * done.len() <= pos,
                records_from(log@, 0) == match records_from(log@, pos as int) {
                    Some(rest) => Some(done + rest),
                    None => None::<Seq<RecordView>>,
                },
                forall|k: Seq<char>|
                    #![trigger index@.contains_key(k)]
                    #![trigger replay_map(done).contains_key(k)]
                    index@.contains_key(k) <==> replay_map(done).contains_key(k),
                forall|k: Seq<char>| #[trigger]
                    index@.contains_key(k) ==> entry_matches(
                        log@,
                        index@[k],
                        k,
                        replay_map(done)[k],
                    ),
            decreases n - pos,
        {
            match decode_one(&log, pos) {
                Err(_) => {
                    assert(records_from(log@, pos as int) is None);
                    return Err(KvError::CorruptRecord);
                },
                Ok((rec, len)) => {
                    let ghost grec = rec@;
                    let ghost prev_done = done;
                    proof {
                        lemma_records_from_step(log@, pos as int);
                        lemma_decode_section(log@, pos as int);
                        lemma_replay_push(done, grec);
                        done = done.push(grec);
                        match records_from(log@, pos + len as int) {
                            Some(rs) => {
                                assert(prev_done + (seq![grec] + rs) =~= done + rs);
                            },
                            None => {},
                        }
                    }
                    let entry = CommandEntry { pos: pos as u64, len: len as u64 };
                    match rec {
                        Record::Put { key, value: _ } => {
                            index.insert(key, entry);
                        },
                        Record::Delete { key } => {
                            index.remove(&key);
                        },
                    }
                    proof {
                        assert forall|k: Seq<char>| #[trigger]
                            index@.contains_key(k) implies entry_matches(
                            log@,
                            index@[k],
                            k,
                            replay_map(done)[k],
                        ) by {
                            match grec {
                                RecordView::Put { key, value } => {
                                    if k == key {
                                        assert(log@.subrange(
                                            pos as int,
                                            pos as int + len as int,
                                        ) == spec_encode(grec));
                                    }
                                },
                                RecordView::Delete { key } => {},
                            }
                        }
                    }
                    pos = pos + len;
                    cmd_num = cmd_num + 1;
                },
            }
        }
        proof {
            assert(records_from(log@, pos as int) == Some(Seq::<RecordView>::empty()));
            assert(done + Seq::<RecordView>::empty() =~= done);
        }
        Ok(KvStore { log, index, cmd_num, pos: n as u64 })
    }

    /// The bytes of the log, for the owner to persist or replay.
    pub fn log_bytes(&self) -> (r: &Vec<u8>)
        ensures
            r@ == self.log_view(),
    {
        &self.log
    }

    /// How many records the log currently holds.
    pub fn record_count(&self) -> (n: u64)
        requires
            self.wf(),
        ensures
            n == self.record_seq().len(),
    {
        self.cmd_num
    }

    /// Looks a key up. Never an error on a well-formed store: a missing key
    /// is `Ok(None)`, a live key yields the value of its latest record.
    pub fn get(&self, key: String) -> (r: Result<Option<String>, KvError>)
        requires
            self.wf(),
        ensures
            r is Ok,
            r matches Ok(opt) ==> (opt is Some <==> self@.contains_key(key@)),
            r matches Ok(opt) ==> (opt matches Some(v) ==> v@ == self@[key@]),
    {
        match self.index.lookup(&key) {
            None => Ok(None),
            Some(entry) => {
                let loglen = self.log.len();
                proof {
                    assert(self.index@.contains_key(key@));
                    assert(entry_matches(self.log@, entry, key@, self@[key@]));
                    assert(entry.pos <= loglen);
                    let rec = RecordView::Put { key: key@, value: self@[key@] };
                    lemma_decode_encode(rec, self.log@, entry.pos as int);
                }
                match decode_one(&self.log, entry.pos as usize) {
                    Ok((Record::Put { key: _, value }, _)) => Ok(Some(value)),
                    Ok((Record::Delete { .. }, _)) => Err(KvError::CorruptState),
                    Err(_) => Err(KvError::CorruptRecord),
                }
            },
        }
    }

    /// Binds a key to a value: appends a `Put` record, points the index at
    /// it, and compacts if the mutation crossed the threshold.
    pub fn set(&mut self, key: String, value: String) -> (r: Result<(), KvError>)
        requires
            old(self).wf(),
        ensures
            r is Ok,
            final(self).wf(),
            final(self)@ == old(self)@.insert(key@, value@),
            final(self).record_seq().len() == count_after_mutation(
                old(self).record_seq().len() as int,
                final(self)@,
            ),
            old(self).record_seq().len() + 1 < COMPACT_LIMIT ==> final(self).log_view()
                == old(self).log_view() + spec_encode(RecordView::Put { key: key@, value: value@ }),
    {
        let rec = Record::Put { key, value };
        self.apply_mutation(rec);
        Ok(())
    }

    /// Removes a key: fails with `KeyNotFound`, touching nothing, exactly
    /// when the key is not live; otherwise appends a tombstone, drops the
    /// index entry, compacts if the mutation crossed the threshold, and
    /// returns the value the key had.
    pub fn remove(&mut self, key: String) -> (r: Result<String, KvError>)
        requires
            old(self).wf(),
        ensures
            final(self).wf(),
            r is Ok <==> old(self)@.contains_key(key@),
            r matches Ok(v) ==> v@ == old(self)@[key@] && final(self)@ == old(self)@.remove(key@)
                && final(self).record_seq().len() == count_after_mutation(
                old(self).record_seq().len() as int,
                final(self)@,
            ),
            r is Ok && old(self).record_seq().len() + 1 < COMPACT_LIMIT
                ==> final(self).log_view() == old(self).log_view() + spec_encode(
                RecordView::Delete { key: key@ },
            ),
            r matches Err(e) ==> e == KvError::KeyNotFound && *final(self) == *old(self),
    {
        let prev = match self.get(key.clone()) {
            Ok(Some(v)) => v,
            Ok(None) => {
                return Err(KvError::KeyNotFound);
            },
            Err(_) => {
                return Err(KvError::KeyNotFound);
            },
        };
        let rec = Record::Delete { key };
        self.apply_mutation(rec);
        Ok(prev)
    }

    /// Appends one record, applies it to the index, bumps the counter, and
    /// compacts at the threshold. The shared tail of `set` and `remove`.
    fn apply_mutation(&mut self, rec: Record)
        requires
            old(self).wf(),
        ensures
            final(self).wf(),
            final(self)@ == apply_record(old(self)@, rec@),
            final(self).record_seq().len() == count_after_mutation(
                old(self).record_seq().len() as int,
                final(self)@,
            ),
            old(self).record_seq().len() + 1 < COMPACT_LIMIT ==> final(self).log_view()
                == old(self).log_view() + spec_encode(rec@),
    {
        let bytes = encode(&rec);
        let blen = bytes.len();
        let entry = CommandEntry { pos: self.pos, len: blen as u64 };
        let ghost old_log = self.log@;
        let ghost old_rs = self.record_seq();
        let ghost grec = rec@;
        let mut b = bytes;
        self.log.append(&mut b);
        proof {
            lemma_records_append(old_log, grec);
            lemma_replay_push(old_rs, grec);
            lemma_records_min_len(self.log@, 0);
        }
        let n2 = self.log.len();
        self.pos = n2 as u64;
        match rec {
            Record::Put { key, value: _ } => {
                self.index.insert(key, entry);
            },
            Record::Delete { key } => {
                self.index.remove(&key);
            },
        }
        proof {
            assert forall|k: Seq<char>| #[trigger]
                self.index@.contains_key(k) implies entry_matches(
                self.log@,
                self.index@[k],
                k,
                self@[k],
            ) by {
                let fresh = (grec matches RecordView::Put { key, value: _ } && k == key);
                if fresh {
                    assert(self.log@.subrange(
                        entry.pos as int,
                        entry.pos + entry.len,
                    ) =~= spec_encode(grec));
                } else {
                    assert(old(self).index@.contains_key(k));
                    let e2 = old(self).index@[k];
                    assert(entry_matches(old_log, e2, k, old(self)@[k]));
                    assert(self.log@.subrange(e2.pos as int, e2.pos + e2.len) =~= old_log.subrange(
                        e2.pos as int,
                        e2.pos + e2.len,
                    ));
                }
            }
        }
        self.cmd_num = self.cmd_num + 1;
        if self.cmd_num >= COMPACT_LIMIT {
            self.compact();
        }
    }

    /// Rewrites the log to hold exactly one `Put` record per live key, in
    /// index order, rebuilds the index against the new offsets, and resets
    /// the write cursor and the record count. The visible state is unchanged.
    fn compact(&mut self)
        requires
            old(self).wf(),
        ensures
            final(self).wf(),
            final(self)@ == old(self)@,
            final(self).record_seq().len() == final(self)@.dom().len(),
    {
        proof {
            self.index.lemma_key_props();
            assert(self.index@.dom() =~= self@.dom());
        }
        let total = self.index.len();
        let ghost keys = self.index.key_seq();
        let mut new_log: Vec<u8> = Vec::new();
        let mut new_index = Index::new();
        let mut i: usize = 0;
        while i < total
            invariant
                self.wf(),
                keys == self.index.key_seq(),
                total == keys.len(),
                total == self@.dom().len(),
                forall|p: int, q: int| 0 <= p < q < keys.len() ==> keys[p] != keys[q],
                forall|k: Seq<char>| #[trigger]
                    self@.contains_key(k) <==> exists|j: int| 0 <= j < keys.len() && keys[j] == k,
                0 <= i <= total,
                new_index.wf(),
                records_from(new_log@, 0) is Some,
                records_from(new_log@, 0)->Some_0.len() == i,
                forall|k: Seq<char>| #[trigger]
                    new_index@.contains_key(k) <==> exists|j: int| 0 <= j < i && keys[j] == k,
                forall|k: Seq<char>|
                    #![trigger replay_map(records_from(new_log@, 0)->Some_0).contains_key(k)]
                    replay_map(records_from(new_log@, 0)->Some_0).contains_key(k)
                        <==> new_index@.contains_key(k),
                forall|k: Seq<char>| #[trigger]
                    new_index@.contains_key(k) ==> self@.contains_key(k) && replay_map(
                        records_from(new_log@, 0)->Some_0,
                    )[k] == self@[k] && entry_matches(new_log@, new_index@[k], k, self@[k]),
            decreases total - i,
        {
            let (_kref, entry) = self.index.pair_at(i);
            let loglen = self.log.len();
            let ghost gkey = keys[i as int];
            proof {
                assert(self.index@.contains_key(gkey));
                assert(entry_matches(self.log@, entry, gkey, self@[gkey]));
                assert(entry.pos <= loglen);
                lemma_decode_encode(
                    RecordView::Put { key: gkey, value: self@[gkey] },
                    self.log@,
                    entry.pos as int,
                );
            }
            let rec = match decode_one(&self.log, entry.pos as usize) {
                Ok((rec0, _)) => rec0,
                Err(_) => unreached(),
            };
            let bytes = encode(&rec);
            let blen = bytes.len();
            let off = new_log.len();
            let ghost old_new_log = new_log@;
            let ghost old_nrs = records_from(new_log@, 0)->Some_0;
            let ghost old_ni = new_index@;
            let ghost grec = rec@;
            let mut b = bytes;
            new_log.append(&mut b);
            proof {
                lemma_records_append(old_new_log, grec);
                lemma_replay_push(old_nrs, grec);
            }
            let key_owned = match rec {
                Record::Put { key, value: _ } => key,
                Record::Delete { .. } => unreached(),
            };
            new_index.insert(key_owned, CommandEntry { pos: off as u64, len: blen as u64 });
            proof {
                assert forall|k: Seq<char>| #[trigger]
                    new_index@.contains_key(k) implies self@.contains_key(k) && replay_map(
                    records_from(new_log@, 0)->Some_0,
                )[k] == self@[k] && entry_matches(new_log@, new_index@[k], k, self@[k]) by {
                    if k == gkey {
                        assert(new_log@.subrange(off as int, off as int + blen as int)
                            =~= spec_encode(grec));
                    } else {
                        assert(old_ni.contains_key(k));
                        let e2 = old_ni[k];
                        assert(entry_matches(old_new_log, e2, k, self@[k]));
                        assert(new_log@.subrange(e2.pos as int, e2.pos + e2.len)
                            =~= old_new_log.subrange(e2.pos as int, e2.pos + e2.len));
                    }
                }
            }
            i = i + 1;
        }
        proof {
            let nrs = records_from(new_log@, 0)->Some_0;
            assert forall|k: Seq<char>| #[trigger]
                replay_map(nrs).contains_key(k) implies self@.contains_key(k) && replay_map(
                nrs,
            )[k] == self@[k] by {}
            assert(replay_map(nrs) =~= self@);
        }
        self.log = new_log;
        self.index = new_index;
        let n2 = self.log.len();
        self.pos = n2 as u64;
        self.cmd_num = total as u64;
    }
}

/// Replay correctness: the visible key-value state is a function of the log
/// bytes alone, so a store reopened over the same log answers every lookup
/// as the store that wrote it did.
pub proof fn lemma_replay_rebuilds_state(a: KvStore, b: KvStore)
    requires
        a.log_view() == b.log_view(),
    ensures
        a@ == b@,
{
}

/// Last write wins: binding a key twice leaves the second value, exactly as
/// if the first binding had never happened.
pub proof fn lemma_last_write_wins(
    m: Map<Seq<char>, Seq<char>>,
    k: Seq<char>,
    v1: Seq<char>,
    v2: Seq<char>,
)
    ensures
        m.insert(k, v1).insert(k, v2) == m.insert(k, v2),
        m.insert(k, v1).insert(k, v2)[k] == v2,
{
    assert(m.insert(k, v1).insert(k, v2) =~= m.insert(k, v2));
}

/// Tombstone semantics: removing a key erases it, whatever was bound before,
/// and leaves the rest of the map untouched.
pub proof fn lemma_tombstone(m: Map<Seq<char>, Seq<char>>, k: Seq<char>, v: Seq<char>)
    ensures
        !m.insert(k, v).remove(k).contains_key(k),
        m.insert(k, v).remove(k) == m.remove(k),
{
    assert(m.insert(k, v).remove(k) =~= m.remove(k));
}

} // verus!
