//! The log reader: sequential replay of the records of a log, with
//! detection of records that are torn or corrupt.

use vstd::prelude::*;
use vstd::slice::*;
use vstd::string::*;

use crate::codec::{le_u32_at, read_u32_le};
use crate::error::{Error, Result};
use crate::wal::log_entry::{
    decode_record, encodable, encode_record, lemma_decode_encode, lemma_encoded_size, WALEntry,
    WalRecord,
};

verus! {

/// What reading at one position of a log yields.
pub enum ReadStep {
    /// Fewer than four bytes are left: the log ends here.
    End,
    /// The length prefix asks for more bytes than are left.
    Truncated,
    /// A record, and the position after it.
    Record(WalRecord, int),
    /// A record that is rejected as corrupt, with the reason and the
    /// position after it.
    Corrupt(Seq<char>, int),
}

/// What reading the log `data` at `pos` yields.
pub open spec fn read_step(data: Seq<u8>, pos: int) -> ReadStep {
    if data.len() - pos < 4 {
        ReadStep::End
    } else {
        let length = le_u32_at(data, pos) as int;
        if data.len() - pos - 4 < length {
            ReadStep::Truncated
        } else {
            match decode_record(data.subrange(pos, pos + 4 + length)) {
                Ok(record) => ReadStep::Record(record, pos + 4 + length),
                Err(reason) => ReadStep::Corrupt(reason, pos + 4 + length),
            }
        }
    }
}

/// Why a replay stopped before the end of the log.
pub enum ReplayFailure {
    /// A record was cut short by the end of the log.
    Truncated,
    /// A record was rejected as corrupt, for the reason given.
    Corrupt(Seq<char>),
}

/// The outcome of a replay: the records read, and the failure that ended
/// it, if any.
pub struct Replay {
    pub records: Seq<WalRecord>,
    pub failure: Option<ReplayFailure>,
}

/// What replaying the log `data` from `pos` yields: the records up to the
/// end of the log or to the first record that fails.
pub open spec fn replay(data: Seq<u8>, pos: int) -> Replay
    decreases data.len() - pos,
{
    match read_step(data, pos) {
        ReadStep::End => Replay { records: Seq::<WalRecord>::empty(), failure: None },
        ReadStep::Truncated => Replay {
            records: Seq::<WalRecord>::empty(),
            failure: Some(ReplayFailure::Truncated),
        },
        ReadStep::Corrupt(reason, _) => Replay {
            records: Seq::<WalRecord>::empty(),
            failure: Some(ReplayFailure::Corrupt(reason)),
        },
        ReadStep::Record(record, next) => {
            if pos < 0 {
                Replay { records: Seq::<WalRecord>::empty(), failure: None }
            } else {
                let rest = replay(data, next);
                Replay { records: seq![record] + rest.records, failure: rest.failure }
            }
        },
    }
}

/// The bytes of a log that holds the encodings of `records`, in order.
pub open spec fn log_bytes(records: Seq<WalRecord>) -> Seq<u8>
    decreases records.len(),
{
    if records.len() == 0 {
        Seq::<u8>::empty()
    } else {
        encode_record(records[0]) + log_bytes(records.drop_first())
    }
}

/// Appending the encoding of a record to a log appends the record to what
/// the log holds.
pub proof fn lemma_log_append(records: Seq<WalRecord>, r: WalRecord)
    ensures
        log_bytes(records.push(r)) == log_bytes(records) + encode_record(r),
    decreases records.len(),
{
    let more = records.push(r);
    if records.len() == 0 {
        assert(more.drop_first() =~= Seq::<WalRecord>::empty());
        assert(log_bytes(more.drop_first()) =~= Seq::<u8>::empty());
        assert(log_bytes(records) =~= Seq::<u8>::empty());
        assert(more[0] == r);
        assert(log_bytes(more) =~= log_bytes(records) + encode_record(r));
    } else {
        lemma_log_append(records.drop_first(), r);
        assert(more.drop_first() =~= records.drop_first().push(r));
        assert(log_bytes(more) =~= log_bytes(records) + encode_record(r));
    }
}

/// Replaying, from the end of `pre`, a log that goes on with the encodings
/// of `records` yields those records and no failure.
proof fn lemma_replay_from(pre: Seq<u8>, records: Seq<WalRecord>)
    requires
        forall|i: int| 0 <= i < records.len() ==> encodable(#[trigger] records[i]),
    ensures
        replay(pre + log_bytes(records), pre.len() as int) == (Replay { records, failure: None }),
    decreases records.len(),
{
    let data = pre + log_bytes(records);
    let pos = pre.len() as int;
    if records.len() == 0 {
        assert(replay(data, pos).records =~= records);
    } else {
        let first = records[0];
        let rest = records.drop_first();
        let enc = encode_record(first);
        lemma_encoded_size(first);
        lemma_decode_encode(first);
        assert(data.subrange(pos, pos + 4) =~= enc.subrange(0, 4));
        assert(data.subrange(pos, pos + enc.len()) =~= enc);
        assert(read_step(data, pos) == ReadStep::Record(first, pos + enc.len()));
        let head = pre + enc;
        assert(data =~= head + log_bytes(rest));
        assert forall|i: int| 0 <= i < rest.len() implies encodable(#[trigger] rest[i]) by {
            assert(rest[i] == records[i + 1]);
        }
        lemma_replay_from(head, rest);
        assert(seq![first] + rest =~= records);
    }
}

/// Replaying a log yields what was appended. A log that holds the
/// encodings of records whose lengths fit their fields replays, from its
/// start, to exactly those records in their order, with no failure.
pub proof fn lemma_replay_log(records: Seq<WalRecord>)
    requires
        forall|i: int| 0 <= i < records.len() ==> encodable(#[trigger] records[i]),
    ensures
        replay(log_bytes(records), 0) == (Replay { records, failure: None }),
{
    lemma_replay_from(Seq::<u8>::empty(), records);
    assert(Seq::<u8>::empty() + log_bytes(records) =~= log_bytes(records));
}

/// The records that a vector of log entries stands for.
pub open spec fn records_view(v: Seq<WALEntry>) -> Seq<WalRecord> {
    Seq::new(v.len(), |i: int| v[i]@)
}

/// The error `err` reports the replay failure `why`.
pub open spec fn replay_error(err: Error, why: ReplayFailure) -> bool {
    match why {
        ReplayFailure::Truncated => err matches Error::Io(msg) && msg@
            == "failed to fill whole buffer"@,
        ReplayFailure::Corrupt(reason) => err matches Error::Corruption(msg) && msg@ == reason,
    }
}

/// A sequential reader over the bytes of a log.
pub struct WALReader {
    data: Vec<u8>,
    position: usize,
}

impl WALReader {
    /// The bytes of the log.
    pub closed spec fn log(&self) -> Seq<u8> {
        self.data@
    }

    /// The position of the next read.
    pub closed spec fn offset(&self) -> int {
        self.position as int
    }

    /// The reader is well formed: its position lies within the log.
    pub closed spec fn wf(&self) -> bool {
        self.position <= self.data@.len()
    }

    /// Creates a reader over the bytes of a log, positioned at its start.
    pub fn new(data: Vec<u8>) -> (reader: Self)
        ensures
            reader.wf(),
            reader.log() == data@,
            reader.offset() == 0,
    {
        WALReader { data, position: 0 }
    }

    /// Reads the next record. At the end of the log, or when fewer than
    /// four bytes are left, the result is `None`. A record that is cut
    /// short by the end of the log is an input failure; a record that does
    /// not decode is reported as corrupt, and the reader moves past it.
    pub fn read_entry(&mut self) -> (r: Result<Option<WALEntry>>)
        requires
            old(self).wf(),
        ensures
            final(self).wf(),
            final(self).log() == old(self).log(),
            match read_step(old(self).log(), old(self).offset()) {
                ReadStep::End => r matches Ok(None) && final(self).offset() ==
                    old(self).log().len(),
                ReadStep::Truncated => r matches Err(err) && replay_error(
                    err,
                    ReplayFailure::Truncated,
                ) && final(self).offset() == old(self).log().len(),
                ReadStep::Record(record, next) => r matches Ok(Some(entry)) && entry@ == record
                    && final(self).offset() == next,
                ReadStep::Corrupt(reason, next) => r matches Err(err) && replay_error(
                    err,
                    ReplayFailure::Corrupt(reason),
                ) && final(self).offset() == next,
            },
    {
        let n = self.data.len();
        let pos = self.position;
        if n - pos < 4 {
            self.position = n;
            return Ok(None);
        }
        let length = read_u32_le(self.data.as_slice(), pos);
        if ((n - pos - 4) as u64) < length as u64 {
            self.position = n;
            return Err(Error::Io(String::from_str("failed to fill whole buffer")));
        }
        let end = pos + 4 + length as usize;
        self.position = end;
        match WALEntry::decode(slice_subrange(self.data.as_slice(), pos, end)) {
            Ok(entry) => Ok(Some(entry)),
            Err(err) => Err(err),
        }
    }

    /// Reads every remaining record. The first failure ends the replay and
    /// is returned in place of the records.
    pub fn read_all(&mut self) -> (r: Result<Vec<WALEntry>>)
        requires
            old(self).wf(),
        ensures
            final(self).wf(),
            final(self).log() == old(self).log(),
            match replay(old(self).log(), old(self).offset()).failure {
                None => r matches Ok(entries) && records_view(entries@) == replay(
                    old(self).log(),
                    old(self).offset(),
                ).records,
                Some(why) => r matches Err(err) && replay_error(err, why),
            },
    {
        let mut entries: Vec<WALEntry> = Vec::new();
        let ghost goal = replay(self.data@, self.position as int);
        let ghost data = self.data@;
        proof {
            assert(records_view(entries@) =~= Seq::<WalRecord>::empty());
            assert(Seq::<WalRecord>::empty() + goal.records =~= goal.records);
        }
        loop
            invariant
                self.wf(),
                self.data@ == data,
                data == old(self).data@,
                goal == replay(data, old(self).position as int),
                goal.records == records_view(entries@) + replay(
                    data,
                    self.position as int,
                ).records,
                goal.failure == replay(data, self.position as int).failure,
            ensures
                self.wf(),
                self.data@ == data,
                data == old(self).data@,
                goal == replay(data, old(self).position as int),
                goal.failure is None,
                goal.records == records_view(entries@),
            decreases data.len() - self.position,
        {
            let ghost before = records_view(entries@);
            let ghost at = self.position as int;
            match self.read_entry() {
                Ok(Some(entry)) => {
                    proof {
                        let rest = replay(data, self.position as int);
                        assert(records_view(entries@.push(entry)) =~= before.push(entry@));
                        assert(before + (seq![entry@] + rest.records) =~= before.push(entry@)
                            + rest.records);
                    }
                    entries.push(entry);
                },
                Ok(None) => {
                    proof {
                        assert(before + Seq::<WalRecord>::empty() =~= before);
                    }
                    break ;
                },
                Err(err) => {
                    return Err(err);
                },
            }
        }
        Ok(entries)
    }

    /// Yields the next record, or the failure met in reading it; `None` at
    /// the end of the log.
    pub fn next(&mut self) -> (r: Option<Result<WALEntry>>)
        requires
            old(self).wf(),
        ensures
            final(self).wf(),
            final(self).log() == old(self).log(),
            match read_step(old(self).log(), old(self).offset()) {
                ReadStep::End => r is None,
                ReadStep::Truncated => r matches Some(Err(err)) && replay_error(
                    err,
                    ReplayFailure::Truncated,
                ),
                ReadStep::Record(record, next) => r matches Some(Ok(entry)) && entry@ == record
                    && final(self).offset() == next,
                ReadStep::Corrupt(reason, next) => r matches Some(Err(err)) && replay_error(
                    err,
                    ReplayFailure::Corrupt(reason),
                ) && final(self).offset() == next,
            },
    {
        match self.read_entry() {
            Ok(Some(entry)) => Some(Ok(entry)),
            Ok(None) => None,
            Err(err) => Some(Err(err)),
        }
    }
}

} // verus!
