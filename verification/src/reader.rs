//! Streaming iteration over one section: a pull-based reader with a
//! carry buffer across chunk boundaries.
//!
//! The reader never touches a file. It is fed the section's bytes in
//! chunks of any size; `advance` extracts the next record from the
//! carry buffer, asks for more bytes when no terminator is in sight,
//! and distinguishes "not enough data yet" (the producer may still be
//! writing; poll again) from "record exceeds every legal size" (a hard
//! error). Errors latch: after the first failure every later advance
//! fails.

use vstd::prelude::*;

use crate::codec::MARKER_FAIL;
use crate::codec::MARKER_SEPARATOR;
use crate::codec::decode_payload;
use crate::codec::spec_encode_all;
use crate::error::Error;
use crate::section::MAX_FILE_SIZE;
use crate::section::MAX_ITEM_SIZE;
use crate::section::RecordParse;
use crate::section::lemma_parse_append_aligned;
use crate::section::lemma_sep_free_prefix;
use crate::section::lemma_sep_free_prefix_is;
use crate::section::sep_free_prefix_len;
use crate::section::spec_complete_count;
use crate::section::spec_parse_record;
use crate::section::spec_parse_records;
use crate::section::spec_recovered;

verus! {

/// A complete record read back from a section.
#[derive(Debug)]
pub struct Item {
    /// The resume offset: the byte position right after this record's
    /// separator.
    pub id: u32,
    /// The decoded payload, bit-identical to what was appended.
    pub data: Vec<u8>,
}

/// A truncated remnant closed by crash recovery, delivered raw.
#[derive(Debug)]
pub struct TruncatedItem {
    /// The record's undecoded bytes, ending in the truncation marker.
    pub data: Vec<u8>,
}

/// The outcome of parsing one terminated record.
#[derive(Debug)]
pub enum Decoded {
    /// A record that decoded cleanly.
    Item(Item),
    /// A remnant of a crash, surfaced undecoded.
    TruncatedItem(TruncatedItem),
}

/// Parses the raw bytes of one terminated record (everything before
/// its separator). A record ending in the truncation marker is
/// surfaced raw; anything else must decode, and an invalid escape
/// sequence is corrupt data.
pub fn parse_item(id: u32, raw: Vec<u8>) -> (r: Result<Decoded, Error>)
    ensures
        ({
            match spec_parse_record(raw@) {
                RecordParse::Truncated(bytes) => r matches Ok(d) && (d matches
                    Decoded::TruncatedItem(t) && t.data@ == bytes),
                RecordParse::Complete(data) => r matches Ok(d) && (d matches Decoded::Item(it)
                    && it.id == id && it.data@ == data),
                RecordParse::Invalid => r == Err::<Decoded, Error>(Error::CorruptData),
            }
        }),
{
    let n = raw.len();
    if n > 0 && raw[n - 1] == MARKER_FAIL {
        return Ok(Decoded::TruncatedItem(TruncatedItem { data: raw }));
    }
    match decode_payload(raw.as_slice()) {
        Ok(data) => Ok(Decoded::Item(Item { id, data })),
        Err(e) => Err(e),
    }
}

/// One record as delivered by the section reader.
#[derive(Debug)]
pub struct SectionItem {
    /// The resume offset: the byte position right after this record's
    /// separator.
    pub id: u32,
    /// The decoded payload, or the raw bytes when truncated.
    pub data: Vec<u8>,
    /// Set when `id` has reached the section-full threshold: no record
    /// will ever start at or after this offset, so a streamer should
    /// move to the next section.
    pub known_eof: bool,
    /// Set when this record is a remnant closed by crash recovery.
    pub truncated: bool,
}

/// What one call to `advance` asks of its caller.
pub enum ReadStep {
    /// A record was produced; `current` returns it.
    Produced,
    /// Feed up to this many more bytes from the file, or an empty
    /// slice when the file has no more right now.
    NeedBytes(usize),
    /// All fed bytes are consumed or hold no terminated record yet;
    /// poll again later, the producer may still be writing.
    NoItem,
    /// An error is latched; `current` reports it.
    Failed,
}

/// Finds the first separator at or after `start`, as an absolute
/// index into the buffer.
fn scan_sep(buf: &Vec<u8>, start: usize) -> (r: Option<usize>)
    requires
        start <= buf@.len(),
    ensures
        ({
            let u = buf@.skip(start as int);
            let k = sep_free_prefix_len(u);
            match r {
                Some(i) => start + k == i && i < buf@.len() && k < u.len(),
                None => k == u.len(),
            }
        }),
{
    let n = buf.len();
    let mut i: usize = start;
    while i < n
        invariant
            start <= i <= n == buf@.len(),
            forall|j: int| start <= j < i ==> buf@[j] != MARKER_SEPARATOR,
        decreases n - i,
    {
        if buf[i] == MARKER_SEPARATOR {
            proof {
                let u = buf@.skip(start as int);
                assert forall|j: int| 0 <= j < i - start implies u[j] != MARKER_SEPARATOR by {
                    assert(u[j] == buf@[start as int + j]);
                }
                assert(u[i - start] == buf@[i as int]);
                lemma_sep_free_prefix_is(u, i - start);
            }
            return Some(i);
        }
        i = i + 1;
    }
    proof {
        let u = buf@.skip(start as int);
        assert forall|j: int| 0 <= j < u.len() implies u[j] != MARKER_SEPARATOR by {
            assert(u[j] == buf@[start as int + j]);
        }
        lemma_sep_free_prefix_is(u, u.len() as int);
    }
    None
}

/// Functional correctness of streaming: at every point, the records a
/// reader has handed out are exactly the parse of the bytes it has
/// consumed, in order, and the current item is the last of them.
pub proof fn lemma_reader_items_parse_consumed(r: Reader)
    requires
        r.wf(),
    ensures
        r.spec_items() == spec_parse_records(r.consumed()),
        ({
            match r.spec_current() {
                Some(item) => r.spec_items().len() > 0 && (if item.truncated {
                    r.spec_items().last() == RecordParse::Truncated(item.data@)
                } else {
                    r.spec_items().last() == RecordParse::Complete(item.data@)
                }),
                None => true,
            }
        }),
{
}

/// Crash recovery end to end: a reader that has consumed a recovered
/// cut of a clean record stream has handed out exactly the records
/// that were fully written before the cut, in order and bit-identical,
/// followed by at most one truncated remnant; and running recovery
/// again changes nothing, so re-reading yields the same items.
pub proof fn lemma_reader_after_recovery(r: Reader, records: Seq<Seq<u8>>, cut: int)
    requires
        r.wf(),
        0 <= cut <= spec_encode_all(records).len(),
        r.consumed() == spec_recovered(spec_encode_all(records).take(cut)),
    ensures
        ({
            let m = spec_complete_count(records, cut);
            &&& 0 <= m <= records.len()
            &&& m <= r.spec_items().len() <= m + 1
            &&& forall|i: int|
                0 <= i < m ==> r.spec_items()[i] == RecordParse::Complete(records[i])
            &&& r.spec_items().len() == m + 1 ==> r.spec_items()[m] is Truncated
        }),
        spec_recovered(r.consumed()) == r.consumed(),
{
    crate::section::lemma_crash_recovery(records, cut);
    crate::section::lemma_recovery_idempotent(spec_encode_all(records).take(cut));
}

/// A pull-based reader over one section's bytes.
pub struct Reader {
    buf: Vec<u8>,
    start: usize,
    position: u32,
    max_file_size: u32,
    max_item_size: u32,
    read_chunk_size: u32,
    drained: bool,
    err: Option<Error>,
    current: Option<SectionItem>,
    fed: Ghost<Seq<u8>>,
    start_offset: Ghost<int>,
    items: Ghost<Seq<RecordParse>>,
}

impl Reader {
    /// Every byte fed so far, in order.
    pub closed spec fn fed(&self) -> Seq<u8> {
        self.fed@
    }

    /// The fed bytes not yet consumed into records.
    pub closed spec fn unconsumed(&self) -> Seq<u8> {
        self.buf@.skip(self.start as int)
    }

    /// The absolute byte offset of the first unconsumed byte: the id
    /// the next record would get.
    pub closed spec fn spec_position(&self) -> int {
        self.position as int
    }

    /// The offset this reader started at.
    pub closed spec fn start_offset(&self) -> int {
        self.start_offset@
    }

    /// The latched error, if any.
    pub closed spec fn spec_err(&self) -> Option<Error> {
        self.err
    }

    /// The most recently produced record.
    pub closed spec fn spec_current(&self) -> Option<SectionItem> {
        self.current
    }

    /// The section-full threshold in force.
    pub closed spec fn spec_max_file_size(&self) -> int {
        self.max_file_size as int
    }

    /// The record length limit in force.
    pub closed spec fn spec_max_item_size(&self) -> int {
        self.max_item_size as int
    }

    /// Whether the last feed handed over no bytes.
    pub closed spec fn spec_drained(&self) -> bool {
        self.drained
    }

    /// The prefix of the fed bytes already consumed into records.
    pub open spec fn consumed(&self) -> Seq<u8> {
        self.fed().take(self.fed().len() - self.unconsumed().len())
    }

    /// Every record this reader has produced, in order.
    pub closed spec fn spec_items(&self) -> Seq<RecordParse> {
        self.items@
    }

    /// The carry buffer holds exactly the unconsumed suffix of the fed
    /// bytes, and the position mirrors what was consumed.
    pub closed spec fn wf(&self) -> bool {
        &&& self.start <= self.buf@.len()
        &&& self.unconsumed() == self.fed@.skip(self.fed@.len() - self.unconsumed().len())
        &&& self.unconsumed().len() <= self.fed@.len()
        &&& self.position as int == self.start_offset@ + self.fed@.len()
            - self.unconsumed().len()
        &&& self.position as int + self.unconsumed().len() <= 0xFFFF_FFFF
        &&& self.max_item_size <= MAX_ITEM_SIZE
        &&& self.read_chunk_size >= 1
        &&& self.items@ == spec_parse_records(self.consumed())
        &&& self.consumed().len() == 0 || self.consumed()[self.consumed().len() - 1]
            == MARKER_SEPARATOR
        &&& match self.current {
            Some(item) => self.items@.len() > 0 && (if item.truncated {
                self.items@.last() == RecordParse::Truncated(item.data@)
            } else {
                self.items@.last() == RecordParse::Complete(item.data@)
            }),
            None => true,
        }
    }

    /// A reader for one section, resuming at byte offset `id`. The
    /// embedding must seek the file to `id` and feed bytes from there.
    pub fn new(id: u32, max_file_size: u32, max_item_size: u32, read_chunk_size: u32) -> (r:
        Reader)
        ensures
            r.wf(),
            r.fed() == Seq::<u8>::empty(),
            r.unconsumed() == Seq::<u8>::empty(),
            r.spec_position() == id,
            r.start_offset() == id,
            r.spec_err() is None,
            r.spec_current() is None,
            r.spec_max_file_size() == vstd::math::min(max_file_size as int, MAX_FILE_SIZE as int),
            r.spec_max_item_size() == vstd::math::min(max_item_size as int, MAX_ITEM_SIZE as int),
            !r.spec_drained(),
            r.spec_items() == Seq::<RecordParse>::empty(),
    {
        let max_file_size = if max_file_size < MAX_FILE_SIZE {
            max_file_size
        } else {
            MAX_FILE_SIZE
        };
        let max_item_size = if max_item_size < MAX_ITEM_SIZE {
            max_item_size
        } else {
            MAX_ITEM_SIZE
        };
        let read_chunk_size = if read_chunk_size == 0 {
            MAX_ITEM_SIZE
        } else {
            read_chunk_size
        };
        let r = Reader {
            buf: Vec::new(),
            start: 0,
            position: id,
            max_file_size,
            max_item_size,
            read_chunk_size,
            drained: false,
            err: None,
            current: None,
            fed: Ghost(Seq::empty()),
            start_offset: Ghost(id as int),
            items: Ghost(Seq::empty()),
        };
        proof {
            assert(r.unconsumed() =~= Seq::<u8>::empty());
            assert(r.consumed() =~= Seq::<u8>::empty());
            assert(sep_free_prefix_len(Seq::<u8>::empty()) == 0);
            assert(spec_parse_records(Seq::<u8>::empty()) =~= Seq::<RecordParse>::empty());
        }
        r
    }

    /// Hands the reader the next bytes read from the section file. An
    /// empty slice says the file holds nothing more right now.
    pub fn feed(&mut self, bytes: &[u8])
        requires
            old(self).wf(),
            old(self).spec_position() + old(self).unconsumed().len() + bytes@.len()
                <= 0xFFFF_FFFF,
        ensures
            final(self).wf(),
            final(self).fed() == old(self).fed() + bytes@,
            final(self).unconsumed() == old(self).unconsumed() + bytes@,
            final(self).spec_position() == old(self).spec_position(),
            final(self).start_offset() == old(self).start_offset(),
            final(self).spec_err() == old(self).spec_err(),
            final(self).spec_current() == old(self).spec_current(),
            final(self).spec_max_file_size() == old(self).spec_max_file_size(),
            final(self).spec_drained() == (bytes@.len() == 0),
            final(self).spec_items() == old(self).spec_items(),
    {
        let ghost prev = *self;
        crate::bytes::extend_from(&mut self.buf, bytes);
        self.drained = bytes.len() == 0;
        proof {
            self.fed@ = self.fed@ + bytes@;
            assert(self.unconsumed() =~= prev.unconsumed() + bytes@);
            let u = self.unconsumed();
            assert(u =~= self.fed@.skip(self.fed@.len() - u.len()));
            assert(self.consumed() =~= prev.consumed());
        }
    }

    /// Advances to the next record in the carry buffer.
    ///
    /// When a separator is in the buffer, the record before it becomes
    /// the current item: its id is the offset right after the
    /// separator, a trailing truncation marker makes it a raw
    /// truncated remnant, and anything else is decoded (an invalid
    /// escape latches an error). Without a separator, the reader asks
    /// for more bytes, reports that no record is available yet when
    /// the last feed was empty, or latches an error when the buffered
    /// bytes already exceed every legal record size.
    pub fn advance(&mut self) -> (step: ReadStep)
        requires
            old(self).wf(),
        ensures
            final(self).wf(),
            final(self).fed() == old(self).fed(),
            final(self).start_offset() == old(self).start_offset(),
            final(self).spec_max_file_size() == old(self).spec_max_file_size(),
            final(self).spec_max_item_size() == old(self).spec_max_item_size(),
            old(self).spec_err() is Some ==> (step is Failed && final(self).spec_err() == Some(
                Error::Halted,
            ) && final(self).unconsumed() == old(self).unconsumed() && final(self).spec_position() == old(self).spec_position()),
            !(step is Produced) ==> final(self).spec_items() == old(self).spec_items(),
            old(self).spec_err() is None ==> ({
                let u = old(self).unconsumed();
                let k = sep_free_prefix_len(u) as int;
                &&& (k < u.len() ==> (match spec_parse_record(u.take(k)) {
                    RecordParse::Invalid => step is Failed && final(self).spec_err() == Some(
                        Error::CorruptData,
                    ) && final(self).unconsumed() == u && final(self).spec_position() == old(self).spec_position(),
                    RecordParse::Complete(data) => step is Produced && final(self).spec_err() is None && (final(self).spec_current() matches Some(item)
                        && item.id as int == old(self).spec_position() + k + 1 && item.data@
                        == data && item.truncated == false && item.known_eof == (item.id as int
                        >= old(self).spec_max_file_size())) && final(self).spec_position() == old(self).spec_position() + k + 1 && final(self).unconsumed() == u.skip(k + 1)
                        && final(self).spec_items() == old(self).spec_items().push(
                        spec_parse_record(u.take(k)),
                    ) && final(self).spec_drained() == old(self).spec_drained(),
                    RecordParse::Truncated(bytes) => step is Produced && final(self).spec_err() is None && (final(self).spec_current() matches Some(item)
                        && item.id as int == old(self).spec_position() + k + 1 && item.data@
                        == bytes && item.truncated == true && item.known_eof == (item.id as int
                        >= old(self).spec_max_file_size())) && final(self).spec_position() == old(self).spec_position() + k + 1 && final(self).unconsumed() == u.skip(k + 1)
                        && final(self).spec_items() == old(self).spec_items().push(
                        spec_parse_record(u.take(k)),
                    ) && final(self).spec_drained() == old(self).spec_drained(),
                }))
                &&& (k == u.len() && u.len() > 2 * old(self).spec_max_item_size() + 2 ==> (
                step is Failed && final(self).spec_err() == Some(Error::CorruptData) && final(self).unconsumed() == u && final(self).spec_position() == old(self).spec_position()))
                &&& (k == u.len() && u.len() <= 2 * old(self).spec_max_item_size() + 2 && old(self).spec_drained() ==> (step is NoItem && final(self).spec_err() is None && final(self).spec_current() is None && final(self).unconsumed() == u && final(self).spec_position() == old(self).spec_position() && !final(self).spec_drained()))
                &&& (k == u.len() && u.len() <= 2 * old(self).spec_max_item_size() + 2 && !old(self).spec_drained() ==> (step matches ReadStep::NeedBytes(n) && n > 0 && final(self).spec_err() is None && final(self).spec_current() == old(self).spec_current()
                    && final(self).unconsumed() == u && final(self).spec_position() == old(self).spec_position() && !final(self).spec_drained()))
            }),
    {
        if self.err.is_some() {
            self.err = Some(Error::Halted);
            return ReadStep::Failed;
        }
        let ghost u = self.unconsumed();
        let ghost k = sep_free_prefix_len(u) as int;
        let buf_len = self.buf.len();
        match scan_sep(&self.buf, self.start) {
            Some(i) => {
                assert(i < buf_len);
                let raw = crate::bytes::copy_range(&self.buf, self.start, i);
                proof {
                    assert(raw@ =~= u.take(k));
                }
                let next_position = self.position + (i - self.start) as u32 + 1;
                match parse_item(next_position, raw) {
                    Ok(d) => {
                        let item = match d {
                            Decoded::Item(it) => SectionItem {
                                id: next_position,
                                data: it.data,
                                known_eof: next_position >= self.max_file_size,
                                truncated: false,
                            },
                            Decoded::TruncatedItem(t) => SectionItem {
                                id: next_position,
                                data: t.data,
                                known_eof: next_position >= self.max_file_size,
                                truncated: true,
                            },
                        };
                        self.current = Some(item);
                        self.start = i + 1;
                        self.position = next_position;
                        proof {
                            assert(self.unconsumed() =~= u.skip(k + 1));
                            assert(self.unconsumed() =~= self.fed@.skip(
                                self.fed@.len() - self.unconsumed().len(),
                            ));
                            let before = old(self).consumed();
                            let rec_bytes = u.take(k) + seq![MARKER_SEPARATOR];
                            lemma_sep_free_prefix(u);
                            let off = self.fed@.len() - u.len();
                            assert(u == self.fed@.skip(off));
                            assert forall|m: int| 0 <= m < u.len() implies u[m] == self.fed@[off
                                + m] by {
                                assert(u[m] == self.fed@.skip(off)[m]);
                            }
                            assert(self.consumed() =~= before + rec_bytes);
                            assert forall|j: int| 0 <= j < k implies rec_bytes[j]
                                != MARKER_SEPARATOR by {
                                assert(rec_bytes[j] == u[j]);
                            }
                            assert(rec_bytes[k] == MARKER_SEPARATOR);
                            lemma_sep_free_prefix_is(rec_bytes, k);
                            assert(rec_bytes.take(k) =~= u.take(k));
                            assert(rec_bytes.skip(k + 1) =~= Seq::<u8>::empty());
                            assert(sep_free_prefix_len(Seq::<u8>::empty()) == 0);
                            assert(spec_parse_records(rec_bytes) == seq![
                                spec_parse_record(u.take(k)),
                            ] + spec_parse_records(Seq::<u8>::empty()));
                            assert(spec_parse_records(rec_bytes) =~= seq![
                                spec_parse_record(u.take(k)),
                            ]);
                            lemma_parse_append_aligned(before, rec_bytes);
                            self.items@ = self.items@.push(spec_parse_record(u.take(k)));
                            assert(self.items@ =~= spec_parse_records(self.consumed()));
                            assert(self.consumed()[self.consumed().len() - 1]
                                == MARKER_SEPARATOR);
                        }
                        ReadStep::Produced
                    },
                    Err(_) => {
                        self.err = Some(Error::CorruptData);
                        ReadStep::Failed
                    },
                }
            },
            None => {
                if self.buf.len() - self.start > 2 * self.max_item_size as usize + 2 {
                    self.err = Some(Error::CorruptData);
                    ReadStep::Failed
                } else if self.drained {
                    self.drained = false;
                    self.current = None;
                    ReadStep::NoItem
                } else {
                    let end = self.buf.len();
                    let compacted = crate::bytes::copy_range(&self.buf, self.start, end);
                    proof {
                        assert(compacted@ =~= u);
                    }
                    self.buf = compacted;
                    self.start = 0;
                    proof {
                        assert(self.unconsumed() =~= u);
                    }
                    ReadStep::NeedBytes(self.read_chunk_size as usize)
                }
            },
        }
    }

    /// The most recently produced record, or `None` when the reader
    /// has none, or the latched error.
    pub fn current(&self) -> (r: Result<Option<&SectionItem>, Error>)
        ensures
            ({
                match self.spec_err() {
                    Some(e) => r == Err::<Option<&SectionItem>, Error>(e),
                    None => match self.spec_current() {
                        Some(item) => r matches Ok(o) && (o matches Some(it) && *it == item),
                        None => r == Ok::<Option<&SectionItem>, Error>(None),
                    },
                }
            }),
    {
        match self.err {
            Some(e) => Err(e),
            None => match &self.current {
                Some(item) => Ok(Some(item)),
                None => Ok(None),
            },
        }
    }
}

} // verus!
