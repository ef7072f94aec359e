//! The record codec: a deterministic, self-delimiting binary encoding of log
//! records, together with the spec-level decoder that defines what any byte
//! range of the log means, and the replay function that folds a record
//! sequence into a key-value map.
//!
//! Wire format: a one-byte tag, then the key as a little-endian `u64` byte
//! length followed by its UTF-8 bytes, and, for a `Put` record, the value in
//! the same length-prefixed form.

use vstd::prelude::*;
use vstd::bytes::*;
use vstd::utf8::*;
use vstd::slice::{slice_subrange, slice_to_vec};
use crate::KvError;

verus! {

/// Tag byte that opens an encoded `Put` record.
pub const PUT_TAG: u8 = 0;

/// Tag byte that opens an encoded `Delete` record.
pub const DELETE_TAG: u8 = 1;

/// A single log record: either a live value for a key, or a tombstone.
#[derive(Debug, PartialEq, Eq)]
pub enum Record {
    Put { key: String, value: String },
    Delete { key: String },
}

/// The mathematical shape of a record: its strings as character sequences.
pub enum RecordView {
    Put { key: Seq<char>, value: Seq<char> },
    Delete { key: Seq<char> },
}

impl View for Record {
    type V = RecordView;

    open spec fn view(&self) -> RecordView {
        match self {
            Record::Put { key, value } => RecordView::Put { key: key@, value: value@ },
            Record::Delete { key } => RecordView::Delete { key: key@ },
        }
    }
}

/// The eight little-endian bytes holding the length of a byte sequence.
pub open spec fn spec_len_prefix(bytes: Seq<u8>) -> Seq<u8> {
    spec_u64_to_le_bytes(bytes.len() as u64)
}

/// A record whose strings encode to lengths that the wire format can carry.
/// Every record built from in-memory strings satisfies this.
pub open spec fn wf_record(r: RecordView) -> bool {
    match r {
        RecordView::Put { key, value } => encode_utf8(key).len() <= u64::MAX
            && encode_utf8(value).len() <= u64::MAX,
        RecordView::Delete { key } => encode_utf8(key).len() <= u64::MAX,
    }
}

/// The byte encoding of a record.
pub open spec fn spec_encode(r: RecordView) -> Seq<u8> {
    match r {
        RecordView::Put { key, value } => seq![PUT_TAG] + spec_len_prefix(encode_utf8(key))
            + encode_utf8(key) + spec_len_prefix(encode_utf8(value)) + encode_utf8(value),
        RecordView::Delete { key } => seq![DELETE_TAG] + spec_len_prefix(encode_utf8(key))
            + encode_utf8(key),
    }
}

/// What decoding one record at byte position `pos` of `b` yields: the record
/// and the count of bytes it occupies, or nothing if the bytes do not parse.
pub open spec fn spec_decode_at(b: Seq<u8>, pos: int) -> Option<(RecordView, int)> {
    if pos < 0 || pos + 9 > b.len() {
        None
    } else {
        let tag = b[pos];
        let klen = spec_u64_from_le_bytes(b.subrange(pos + 1, pos + 9)) as int;
        if pos + 9 + klen > b.len() {
            None
        } else {
            let kbytes = b.subrange(pos + 9, pos + 9 + klen);
            if !valid_utf8(kbytes) {
                None
            } else {
                let key = decode_utf8(kbytes);
                if tag == DELETE_TAG {
                    Some((RecordView::Delete { key }, 9 + klen))
                } else if tag == PUT_TAG {
                    if pos + 17 + klen > b.len() {
                        None
                    } else {
                        let vlen = spec_u64_from_le_bytes(
                            b.subrange(pos + 9 + klen, pos + 17 + klen),
                        ) as int;
                        if pos + 17 + klen + vlen > b.len() {
                            None
                        } else {
                            let vbytes = b.subrange(pos + 17 + klen, pos + 17 + klen + vlen);
                            if !valid_utf8(vbytes) {
                                None
                            } else {
                                Some(
                                    (
                                        RecordView::Put { key, value: decode_utf8(vbytes) },
                                        17 + klen + vlen,
                                    ),
                                )
                            }
                        }
                    }
                } else {
                    None
                }
            }
        }
    }
}

/// A window into a byte sequence that carries a known block equals the
/// corresponding window of the block itself.
proof fn lemma_seq_window(b: Seq<u8>, pos: int, e: Seq<u8>, i: int, j: int)
    requires
        0 <= pos,
        pos + e.len() <= b.len(),
        b.subrange(pos, pos + e.len() as int) == e,
        0 <= i <= j <= e.len(),
    ensures
        b.subrange(pos + i, pos + j) == e.subrange(i, j),
{
    assert forall|t: int| 0 <= t < j - i implies b.subrange(pos + i, pos + j)[t] == e.subrange(
        i,
        j,
    )[t] by {
        assert(b.subrange(pos, pos + e.len() as int)[i + t] == b[pos + i + t]);
    }
    assert(b.subrange(pos + i, pos + j) =~= e.subrange(i, j));
}

/// An encoded record placed anywhere in a byte sequence decodes back to
/// itself, whatever bytes follow it: the encoding is self-delimiting.
pub proof fn lemma_decode_encode(r: RecordView, b: Seq<u8>, pos: int)
    requires
        wf_record(r),
        0 <= pos,
        pos + spec_encode(r).len() <= b.len(),
        b.subrange(pos, pos + spec_encode(r).len()) == spec_encode(r),
    ensures
        spec_decode_at(b, pos) == Some((r, spec_encode(r).len() as int)),
{
    lemma_auto_spec_u64_to_from_le_bytes();
    broadcast use encode_utf8_valid_utf8, encode_utf8_decode_utf8;

    let e = spec_encode(r);
    let el = e.len() as int;
    match r {
        RecordView::Delete { key } => {
            let kb = encode_utf8(key);
            let lb = spec_len_prefix(kb);
            assert(lb.len() == 8);
            assert(el == 9 + kb.len());
            assert(b[pos] == DELETE_TAG) by {
                assert(b.subrange(pos, pos + el)[0] == b[pos]);
                assert(e[0] == DELETE_TAG);
            }
            let klen = kb.len() as int;
            assert(b.subrange(pos + 1, pos + 9) == lb) by {
                lemma_seq_window(b, pos, e, 1, 9);
                assert(e.subrange(1, 9) =~= lb);
            }
            assert(spec_u64_from_le_bytes(lb) == kb.len() as u64);
            assert(b.subrange(pos + 9, pos + 9 + klen) == kb) by {
                lemma_seq_window(b, pos, e, 9, 9 + klen);
                assert(e.subrange(9, 9 + klen) =~= kb);
            }
            assert(decode_utf8(kb) == key);
        },
        RecordView::Put { key, value } => {
            let kb = encode_utf8(key);
            let vb = encode_utf8(value);
            let lkb = spec_len_prefix(kb);
            let lvb = spec_len_prefix(vb);
            assert(lkb.len() == 8 && lvb.len() == 8);
            let klen = kb.len() as int;
            let vlen = vb.len() as int;
            assert(el == 17 + klen + vlen);
            assert(b[pos] == PUT_TAG) by {
                assert(b.subrange(pos, pos + el)[0] == b[pos]);
                assert(e[0] == PUT_TAG);
            }
            assert(b.subrange(pos + 1, pos + 9) == lkb) by {
                lemma_seq_window(b, pos, e, 1, 9);
                assert(e.subrange(1, 9) =~= lkb);
            }
            assert(spec_u64_from_le_bytes(lkb) == kb.len() as u64);
            assert(b.subrange(pos + 9, pos + 9 + klen) == kb) by {
                lemma_seq_window(b, pos, e, 9, 9 + klen);
                assert(e.subrange(9, 9 + klen) =~= kb);
            }
            assert(decode_utf8(kb) == key);
            assert(b.subrange(pos + 9 + klen, pos + 17 + klen) == lvb) by {
                lemma_seq_window(b, pos, e, 9 + klen, 17 + klen);
                assert(e.subrange(9 + klen, 17 + klen) =~= lvb);
            }
            assert(spec_u64_from_le_bytes(lvb) == vb.len() as u64);
            assert(b.subrange(pos + 17 + klen, pos + 17 + klen + vlen) == vb) by {
                lemma_seq_window(b, pos, e, 17 + klen, 17 + klen + vlen);
                assert(e.subrange(17 + klen, 17 + klen + vlen) =~= vb);
            }
            assert(decode_utf8(vb) == value);
        },
    }
}

/// Whatever decodes from a byte range is well formed, fits in that range, and
/// re-encodes to exactly the bytes it was read from.
pub proof fn lemma_decode_section(b: Seq<u8>, pos: int)
    requires
        spec_decode_at(b, pos) is Some,
    ensures
        ({
            let (r, n) = spec_decode_at(b, pos)->Some_0;
            &&& 9 <= n
            &&& pos + n <= b.len()
            &&& wf_record(r)
            &&& n == spec_encode(r).len()
            &&& b.subrange(pos, pos + n) == spec_encode(r)
        }),
{
    lemma_auto_spec_u64_to_from_le_bytes();
    broadcast use decode_utf8_encode_utf8;

    let (r, n) = spec_decode_at(b, pos)->Some_0;
    let tag = b[pos];
    let klen = spec_u64_from_le_bytes(b.subrange(pos + 1, pos + 9)) as int;
    let kbytes = b.subrange(pos + 9, pos + 9 + klen);
    let key = decode_utf8(kbytes);
    assert(encode_utf8(key) == kbytes);
    assert(spec_len_prefix(kbytes) =~= b.subrange(pos + 1, pos + 9)) by {
        assert(spec_u64_to_le_bytes(spec_u64_from_le_bytes(b.subrange(pos + 1, pos + 9)))
            == b.subrange(pos + 1, pos + 9));
    }
    if tag == DELETE_TAG {
        assert(b.subrange(pos, pos + n) =~= spec_encode(r));
    } else {
        let vlen = spec_u64_from_le_bytes(b.subrange(pos + 9 + klen, pos + 17 + klen)) as int;
        let vbytes = b.subrange(pos + 17 + klen, pos + 17 + klen + vlen);
        assert(encode_utf8(decode_utf8(vbytes)) == vbytes);
        assert(spec_len_prefix(vbytes) =~= b.subrange(pos + 9 + klen, pos + 17 + klen)) by {
            assert(spec_u64_to_le_bytes(spec_u64_from_le_bytes(b.subrange(pos + 9 + klen, pos + 17
                + klen))) == b.subrange(pos + 9 + klen, pos + 17 + klen));
        }
        assert(b.subrange(pos, pos + n) =~= spec_encode(r));
    }
}

/// Round trip: decoding an encoded record gives the record back, and reports
/// exactly its encoded length.
pub proof fn lemma_round_trip(r: RecordView)
    requires
        wf_record(r),
    ensures
        spec_decode_at(spec_encode(r), 0) == Some((r, spec_encode(r).len() as int)),
{
    let e = spec_encode(r);
    assert(e.subrange(0, e.len() as int) =~= e);
    lemma_decode_encode(r, e, 0);
}

/// The sequence of records stored in `b` from byte position `pos` to the end,
/// or nothing if the bytes from `pos` on do not parse as whole records.
pub open spec fn records_from(b: Seq<u8>, pos: int) -> Option<Seq<RecordView>>
    decreases b.len() - pos,
{
    if pos == b.len() {
        Some(Seq::empty())
    } else {
        match spec_decode_at(b, pos) {
            None => None,
            Some((r, n)) => {
                if n < 1 || pos < 0 || pos + n > b.len() {
                    None
                } else {
                    match records_from(b, pos + n) {
                        None => None,
                        Some(rest) => Some(seq![r] + rest),
                    }
                }
            },
        }
    }
}

/// One replay step: a `Put` binds the key, a `Delete` erases it.
pub open spec fn apply_record(m: Map<Seq<char>, Seq<char>>, r: RecordView) -> Map<
    Seq<char>,
    Seq<char>,
> {
    match r {
        RecordView::Put { key, value } => m.insert(key, value),
        RecordView::Delete { key } => m.remove(key),
    }
}

/// The key-value map that a record sequence replays to, applied in log order,
/// so that the latest record for a key wins.
pub open spec fn replay_map(rs: Seq<RecordView>) -> Map<Seq<char>, Seq<char>>
    decreases rs.len(),
{
    if rs.len() == 0 {
        Map::empty()
    } else {
        apply_record(replay_map(rs.drop_last()), rs.last())
    }
}

/// Replaying one more record applies that record to the replayed state.
pub proof fn lemma_replay_push(rs: Seq<RecordView>, r: RecordView)
    ensures
        replay_map(rs.push(r)) == apply_record(replay_map(rs), r),
{
    assert(rs.push(r).drop_last() =~= rs);
    assert(rs.push(r).last() == r);
}

/// Decoding a record at `pos` splits the parse of the tail at `pos` into that
/// record followed by the parse of the tail after it.
pub proof fn lemma_records_from_step(b: Seq<u8>, pos: int)
    requires
        0 <= pos < b.len(),
        spec_decode_at(b, pos) is Some,
    ensures
        ({
            let (r, n) = spec_decode_at(b, pos)->Some_0;
            records_from(b, pos) == match records_from(b, pos + n) {
                Some(rest) => Some(seq![r] + rest),
                None => None::<Seq<RecordView>>,
            }
        }),
{
    lemma_decode_section(b, pos);
}

/// A parse consumes at least nine bytes for each record it yields.
pub proof fn lemma_records_min_len(b: Seq<u8>, pos: int)
    requires
        0 <= pos <= b.len(),
        records_from(b, pos) is Some,
    ensures
        9 * records_from(b, pos)->Some_0.len() <= b.len() - pos,
    decreases b.len() - pos,
{
    if pos == b.len() {
    } else {
        lemma_decode_section(b, pos);
        let (r, n) = spec_decode_at(b, pos)->Some_0;
        lemma_records_min_len(b, pos + n);
    }
}

/// Appending one encoded record to a log that parses extends its parse by
/// exactly that record: the parse of every suffix gains the record at its end.
proof fn lemma_records_append_at(b: Seq<u8>, r: RecordView, pos: int)
    requires
        wf_record(r),
        0 <= pos <= b.len(),
        records_from(b, pos) is Some,
    ensures
        records_from(b + spec_encode(r), pos) == Some(
            records_from(b, pos)->Some_0.push(r),
        ),
    decreases b.len() - pos,
{
    let e = spec_encode(r);
    let bb = b + e;
    if pos == b.len() {
        assert(bb.subrange(pos, pos + e.len() as int) =~= e);
        lemma_decode_encode(r, bb, pos);
        lemma_decode_section(bb, pos);
        assert(records_from(bb, pos + e.len() as int) == Some(Seq::<RecordView>::empty()));
        assert(seq![r] + Seq::<RecordView>::empty() =~= Seq::<RecordView>::empty().push(r));
    } else {
        lemma_decode_section(b, pos);
        let (r0, n) = spec_decode_at(b, pos)->Some_0;
        assert(bb.subrange(pos, pos + n) =~= b.subrange(pos, pos + n));
        lemma_decode_encode(r0, bb, pos);
        lemma_records_append_at(b, r, pos + n);
        let rest = records_from(b, pos + n)->Some_0;
        assert(seq![r0] + rest.push(r) =~= (seq![r0] + rest).push(r));
    }
}

/// Appending one encoded record to a log that parses extends the parse by
/// exactly that record.
pub proof fn lemma_records_append(b: Seq<u8>, r: RecordView)
    requires
        wf_record(r),
        records_from(b, 0) is Some,
    ensures
        records_from(b + spec_encode(r), 0) == Some(records_from(b, 0)->Some_0.push(r)),
{
    lemma_records_append_at(b, r, 0);
}

/// Encodes one record. The result is exactly `spec_encode` of the record.
pub fn encode(rec: &Record) -> (out: Vec<u8>)
    ensures
        wf_record(rec@),
        out@ == spec_encode(rec@),
{
    let mut out: Vec<u8> = Vec::new();
    match rec {
        Record::Put { key, value } => {
            out.push(PUT_TAG);
            let kb = key.as_str().as_bytes();
            let mut lkb = u64_to_le_bytes(kb.len() as u64);
            out.append(&mut lkb);
            let mut kv = slice_to_vec(kb);
            out.append(&mut kv);
            let vb = value.as_str().as_bytes();
            let mut lvb = u64_to_le_bytes(vb.len() as u64);
            out.append(&mut lvb);
            let mut vv = slice_to_vec(vb);
            out.append(&mut vv);
            assert(out@ =~= spec_encode(rec@));
        },
        Record::Delete { key } => {
            out.push(DELETE_TAG);
            let kb = key.as_str().as_bytes();
            let mut lkb = u64_to_le_bytes(kb.len() as u64);
            out.append(&mut lkb);
            let mut kv = slice_to_vec(kb);
            out.append(&mut kv);
            assert(out@ =~= spec_encode(rec@));
        },
    }
    out
}

/// Relies on `String::from_utf8` from std: it returns `Ok` exactly when the
/// bytes are a valid UTF-8 encoding, and the returned string is their
/// decoding, as stated here in vstd's own UTF-8 model.
#[verifier::external_body]
fn bytes_to_string(bytes: Vec<u8>) -> (r: Option<String>)
    ensures
        r is Some <==> valid_utf8(bytes@),
        r matches Some(s) ==> s@ == decode_utf8(bytes@),
{
    String::from_utf8(bytes).ok()
}

/// Decodes exactly one record starting at byte `pos` of the log, returning it
/// with the count of bytes it occupies; fails with `CorruptRecord` exactly
/// when no record decodes there.
pub fn decode_one(log: &Vec<u8>, pos: usize) -> (r: Result<(Record, usize), KvError>)
    ensures
        match r {
            Ok((rec, n)) => spec_decode_at(log@, pos as int) == Some((rec@, n as int)),
            Err(e) => e == KvError::CorruptRecord && spec_decode_at(log@, pos as int) is None,
        },
{
    let n = log.len();
    if pos > n || n - pos < 9 {
        return Err(KvError::CorruptRecord);
    }
    let rem = n - pos - 9;
    let tag = log[pos];
    let klen64 = u64_from_le_bytes(slice_subrange(log.as_slice(), pos + 1, pos + 9));
    if klen64 > rem as u64 {
        return Err(KvError::CorruptRecord);
    }
    let klen = klen64 as usize;
    let kend = pos + 9 + klen;
    let kb = slice_to_vec(slice_subrange(log.as_slice(), pos + 9, kend));
    let key = match bytes_to_string(kb) {
        Some(s) => s,
        None => {
            return Err(KvError::CorruptRecord);
        },
    };
    if tag == DELETE_TAG {
        Ok((Record::Delete { key }, kend - pos))
    } else if tag == PUT_TAG {
        if n - kend < 8 {
            return Err(KvError::CorruptRecord);
        }
        let vrem = n - kend - 8;
        let vlen64 = u64_from_le_bytes(slice_subrange(log.as_slice(), kend, kend + 8));
        if vlen64 > vrem as u64 {
            return Err(KvError::CorruptRecord);
        }
        let vlen = vlen64 as usize;
        let vend = kend + 8 + vlen;
        let vb = slice_to_vec(slice_subrange(log.as_slice(), kend + 8, vend));
        let value = match bytes_to_string(vb) {
            Some(s) => s,
            None => {
                return Err(KvError::CorruptRecord);
            },
        };
        Ok((Record::Put { key, value }, vend - pos))
    } else {
        Err(KvError::CorruptRecord)
    }
}

} // verus!
