//! The on-disk format of one section file, its crash-recovery rule,
//! and the append-only section writer.
//!
//! A section is a concatenation of encoded records, each terminated by
//! the separator byte. A record whose bytes before the separator end
//! in the truncation marker is a truncated remnant left behind by
//! crash recovery; everything else decodes back to the payload that
//! was appended.

use vstd::prelude::*;

use crate::codec::MARKER_FAIL;
use crate::codec::MARKER_SEPARATOR;
use crate::codec::lemma_decode_encode;
use crate::codec::lemma_encode_payload_clean;
use crate::codec::spec_decode_payload;
use crate::codec::spec_encode_all;
use crate::codec::spec_encode_payload;
use crate::codec::spec_encode_record;
use crate::error::Error;

verus! {

/// An absolute cap on section file length. A longer file can only be
/// the work of outside interference; ids stay representable as signed
/// 32-bit integers below this bound.
pub const FAIL_FILE_SIZE: u32 = 2_147_483_647;

/// The fixed maximum record length in bytes.
pub const MAX_ITEM_SIZE: u32 = 8192;

/// The largest allowed section-full threshold. Keeping three maximum
/// items of headroom below the absolute cap means escape expansion can
/// never push a byte offset past the signed 32-bit range.
pub const MAX_FILE_SIZE: u32 = FAIL_FILE_SIZE - 3 * MAX_ITEM_SIZE;

/// The outcome of reading one record's raw bytes.
pub enum RecordParse {
    /// A record that decodes to this payload.
    Complete(Seq<u8>),
    /// A remnant closed by crash recovery, kept as its raw bytes.
    Truncated(Seq<u8>),
    /// Raw bytes with an invalid escape sequence.
    Invalid,
}

/// How many leading bytes of `s` precede its first separator; the
/// length of `s` when it has none.
pub open spec fn sep_free_prefix_len(s: Seq<u8>) -> nat
    decreases s.len(),
{
    if s.len() == 0 {
        0
    } else if s[0] == MARKER_SEPARATOR {
        0
    } else {
        1 + sep_free_prefix_len(s.skip(1))
    }
}

/// What one record's raw bytes (the bytes before its separator) mean.
pub open spec fn spec_parse_record(raw: Seq<u8>) -> RecordParse {
    if raw.len() > 0 && raw[raw.len() - 1] == MARKER_FAIL {
        RecordParse::Truncated(raw)
    } else {
        match spec_decode_payload(raw) {
            Some(data) => RecordParse::Complete(data),
            None => RecordParse::Invalid,
        }
    }
}

/// All records of a section's content, in order. Trailing bytes after
/// the last separator belong to no record yet and are ignored.
pub open spec fn spec_parse_records(content: Seq<u8>) -> Seq<RecordParse>
    decreases content.len(),
{
    let k = sep_free_prefix_len(content);
    if k < content.len() {
        seq![spec_parse_record(content.take(k as int))] + spec_parse_records(
            content.skip(k as int + 1),
        )
    } else {
        Seq::empty()
    }
}

/// Basic facts about the separator-free prefix: it is bounded by the
/// length, holds no separator, and ends at one when any exists.
pub proof fn lemma_sep_free_prefix(s: Seq<u8>)
    ensures
        sep_free_prefix_len(s) <= s.len(),
        forall|j: int| 0 <= j < sep_free_prefix_len(s) ==> s[j] != MARKER_SEPARATOR,
        sep_free_prefix_len(s) < s.len() ==> s[sep_free_prefix_len(s) as int]
            == MARKER_SEPARATOR,
    decreases s.len(),
{
    if s.len() > 0 && s[0] != MARKER_SEPARATOR {
        lemma_sep_free_prefix(s.skip(1));
        assert forall|j: int| 0 <= j < sep_free_prefix_len(s) implies s[j] != MARKER_SEPARATOR by {
            if j > 0 {
                assert(s[j] == s.skip(1)[j - 1]);
            }
        }
        if sep_free_prefix_len(s) < s.len() {
            assert(s[sep_free_prefix_len(s) as int] == s.skip(1)[sep_free_prefix_len(
                s.skip(1),
            ) as int]);
        }
    }
}

/// The separator-free prefix is exactly `k` when the first separator
/// stands at `k`.
pub proof fn lemma_sep_free_prefix_is(s: Seq<u8>, k: int)
    requires
        0 <= k <= s.len(),
        forall|j: int| 0 <= j < k ==> s[j] != MARKER_SEPARATOR,
        k < s.len() ==> s[k] == MARKER_SEPARATOR,
    ensures
        sep_free_prefix_len(s) == k,
    decreases k,
{
    if k > 0 {
        lemma_sep_free_prefix_is(s.skip(1), k - 1);
    }
}

/// Parsing starts with the first record: one encoded record followed
/// by anything parses to that record's payload, then the rest.
pub proof fn lemma_parse_prepend_record(data: Seq<u8>, rest: Seq<u8>)
    ensures
        spec_parse_records(spec_encode_record(data) + rest) == seq![
            RecordParse::Complete(data),
        ] + spec_parse_records(rest),
{
    let payload = spec_encode_payload(data);
    let content = spec_encode_record(data) + rest;
    lemma_encode_payload_clean(data);
    assert forall|j: int| 0 <= j < payload.len() implies content[j] != MARKER_SEPARATOR by {
        assert(content[j] == payload[j]);
    }
    assert(content[payload.len() as int] == MARKER_SEPARATOR);
    lemma_sep_free_prefix_is(content, payload.len() as int);
    assert(content.take(payload.len() as int) =~= payload);
    assert(content.skip(payload.len() as int + 1) =~= rest);
    if payload.len() > 0 {
        assert(payload[payload.len() - 1] != MARKER_FAIL);
    }
    lemma_decode_encode(data);
    assert(spec_parse_record(payload) == RecordParse::Complete(data));
}

/// Round trip: a section holding exactly the encodings of `records`
/// parses back to `records`, in order, none truncated.
pub proof fn lemma_parse_encode_all(records: Seq<Seq<u8>>)
    ensures
        spec_parse_records(spec_encode_all(records)).len() == records.len(),
        forall|i: int| 0 <= i < records.len() ==> spec_parse_records(spec_encode_all(records))[i]
            == RecordParse::Complete(records[i]),
    decreases records.len(),
{
    if records.len() == 0 {
        assert(sep_free_prefix_len(spec_encode_all(records)) == 0);
    } else {
        lemma_parse_encode_all(records.skip(1));
        lemma_parse_prepend_record(records[0], spec_encode_all(records.skip(1)));
    }
}

/// Records already terminated are unaffected by what follows: parsing
/// bytes that end on a record boundary, followed by more bytes, parses
/// both parts independently.
pub proof fn lemma_parse_append_aligned(base: Seq<u8>, rest: Seq<u8>)
    requires
        base.len() == 0 || base[base.len() - 1] == MARKER_SEPARATOR,
    ensures
        spec_parse_records(base + rest) == spec_parse_records(base) + spec_parse_records(rest),
    decreases base.len(),
{
    if base.len() == 0 {
        assert(base + rest =~= rest);
        assert(sep_free_prefix_len(base) == 0);
        assert(spec_parse_records(base) =~= Seq::<RecordParse>::empty());
        assert(Seq::<RecordParse>::empty() + spec_parse_records(rest) =~= spec_parse_records(
            rest,
        ));
    } else {
        let both = base + rest;
        lemma_sep_free_prefix(base);
        let k = sep_free_prefix_len(base) as int;
        if k == base.len() {
            assert(base[base.len() - 1] != MARKER_SEPARATOR);
        }
        assert(k < base.len());
        assert forall|j: int| 0 <= j < k implies both[j] != MARKER_SEPARATOR by {
            assert(both[j] == base[j]);
        }
        assert(both[k] == base[k]);
        lemma_sep_free_prefix_is(both, k);
        assert(both.take(k) =~= base.take(k));
        let tail = base.skip(k + 1);
        assert(both.skip(k + 1) =~= tail + rest);
        if tail.len() > 0 {
            assert(tail[tail.len() - 1] == base[base.len() - 1]);
        }
        lemma_parse_append_aligned(tail, rest);
        assert(spec_parse_records(base) == seq![spec_parse_record(base.take(k))]
            + spec_parse_records(tail));
        assert(spec_parse_records(both) == seq![spec_parse_record(base.take(k))] + (
        spec_parse_records(tail) + spec_parse_records(rest)));
        assert(seq![spec_parse_record(base.take(k))] + (spec_parse_records(tail)
            + spec_parse_records(rest)) =~= (seq![spec_parse_record(base.take(k))]
            + spec_parse_records(tail)) + spec_parse_records(rest));
    }
}

/// The bytes crash recovery appends to a section file. A file that is
/// empty or already ends in a separator needs nothing. Otherwise the
/// dangling record is closed: if the last two bytes are already
/// truncation markers (a crash hit during an earlier recovery), one
/// separator suffices; otherwise two truncation markers and a
/// separator are appended. Two markers are needed because the crash
/// may have landed right after an escape byte, which would swallow a
/// single trailing marker as its escaped form on decode.
pub open spec fn spec_recovery_pad(content: Seq<u8>) -> Seq<u8> {
    if content.len() == 0 {
        Seq::empty()
    } else if content[content.len() - 1] == MARKER_SEPARATOR {
        Seq::empty()
    } else if content.len() >= 2 && content[content.len() - 2] == MARKER_FAIL
        && content[content.len() - 1] == MARKER_FAIL {
        seq![MARKER_SEPARATOR]
    } else {
        seq![MARKER_FAIL, MARKER_FAIL, MARKER_SEPARATOR]
    }
}

/// The file content after recovery has run.
pub open spec fn spec_recovered(content: Seq<u8>) -> Seq<u8> {
    content + spec_recovery_pad(content)
}

/// Computes the recovery pad for a section file's current bytes.
pub fn recovery_pad(content: &[u8]) -> (pad: Vec<u8>)
    ensures
        pad@ == spec_recovery_pad(content@),
{
    let n = content.len();
    let mut pad: Vec<u8> = Vec::new();
    if n == 0 {
        assert(pad@ =~= spec_recovery_pad(content@));
        return pad;
    }
    if content[n - 1] == MARKER_SEPARATOR {
        assert(pad@ =~= spec_recovery_pad(content@));
        return pad;
    }
    if n >= 2 && content[n - 2] == MARKER_FAIL && content[n - 1] == MARKER_FAIL {
        pad.push(MARKER_SEPARATOR);
        assert(pad@ =~= spec_recovery_pad(content@));
    } else {
        pad.push(MARKER_FAIL);
        pad.push(MARKER_FAIL);
        pad.push(MARKER_SEPARATOR);
        assert(pad@ =~= spec_recovery_pad(content@));
    }
    pad
}

/// A recovered non-empty file always ends in a separator.
pub proof fn lemma_recovered_ends_in_sep(content: Seq<u8>)
    requires
        content.len() > 0,
    ensures
        spec_recovered(content).len() > 0,
        spec_recovered(content)[spec_recovered(content).len() - 1] == MARKER_SEPARATOR,
{
}

/// Recovery is idempotent: running it on an already recovered file
/// appends nothing, so record count and order never change.
pub proof fn lemma_recovery_idempotent(content: Seq<u8>)
    ensures
        spec_recovery_pad(spec_recovered(content)) == Seq::<u8>::empty(),
        spec_recovered(spec_recovered(content)) == spec_recovered(content),
{
    if content.len() > 0 {
        lemma_recovered_ends_in_sep(content);
    }
    assert(spec_recovered(spec_recovered(content)) =~= spec_recovered(content));
}

/// No byte of a clean record stream is a raw truncation marker:
/// payload bytes are escape-expanded and the separator differs from
/// the marker.
pub proof fn lemma_encode_all_no_fail(records: Seq<Seq<u8>>)
    ensures
        forall|i: int| 0 <= i < spec_encode_all(records).len() ==> #[trigger] spec_encode_all(
            records,
        )[i] != MARKER_FAIL,
    decreases records.len(),
{
    if records.len() > 0 {
        lemma_encode_all_no_fail(records.skip(1));
        lemma_encode_payload_clean(records[0]);
        let head = spec_encode_record(records[0]);
        let rest = spec_encode_all(records.skip(1));
        assert forall|i: int| 0 <= i < spec_encode_all(records).len() implies #[trigger] spec_encode_all(
            records,
        )[i] != MARKER_FAIL by {
            if i < head.len() {
                assert(spec_encode_all(records)[i] == head[i]);
                if i < head.len() - 1 {
                    assert(head[i] == spec_encode_payload(records[0])[i]);
                }
            } else {
                assert(spec_encode_all(records)[i] == rest[i - head.len()]);
            }
        }
    }
}

/// How many of `records` have their encodings fully inside the first
/// `k` bytes of the stream.
pub open spec fn spec_complete_count(records: Seq<Seq<u8>>, k: int) -> int
    decreases records.len(),
{
    if records.len() == 0 {
        0
    } else {
        let n = spec_encode_record(records[0]).len();
        if k >= n {
            1 + spec_complete_count(records.skip(1), k - n)
        } else {
            0
        }
    }
}

/// Crash recovery: cut a clean record stream at any byte, run
/// recovery, and parsing yields exactly the records that were fully
/// written, in order, followed by at most one truncated remnant.
pub proof fn lemma_crash_recovery(records: Seq<Seq<u8>>, k: int)
    requires
        0 <= k <= spec_encode_all(records).len(),
    ensures
        ({
            let items = spec_parse_records(spec_recovered(spec_encode_all(records).take(k)));
            let m = spec_complete_count(records, k);
            &&& 0 <= m <= records.len()
            &&& m <= items.len() <= m + 1
            &&& forall|i: int| 0 <= i < m ==> items[i] == RecordParse::Complete(records[i])
            &&& items.len() == m + 1 ==> items[m] is Truncated
        }),
    decreases records.len(),
{
    let full = spec_encode_all(records);
    let prefix = full.take(k);
    if records.len() == 0 {
        assert(prefix =~= Seq::<u8>::empty());
        assert(spec_recovered(prefix) =~= Seq::<u8>::empty());
    } else {
        let head = spec_encode_record(records[0]);
        let n = head.len() as int;
        let rest = spec_encode_all(records.skip(1));
        assert(full == head + rest);
        if k >= n {
            let sub = rest.take(k - n);
            assert(prefix =~= head + sub);
            lemma_encode_all_no_fail(records.skip(1));
            assert forall|i: int| 0 <= i < sub.len() implies sub[i] != MARKER_FAIL by {
                assert(sub[i] == rest[i]);
            }
            assert(spec_recovery_pad(prefix) =~= spec_recovery_pad(sub)) by {
                if sub.len() == 0 {
                    assert(prefix[prefix.len() - 1] == head[head.len() - 1]);
                    assert(prefix[prefix.len() - 1] == MARKER_SEPARATOR);
                } else if sub.len() == 1 {
                    assert(prefix[prefix.len() - 1] == sub[0]);
                    if sub[0] != MARKER_SEPARATOR {
                        assert(sub[0] != MARKER_FAIL);
                    }
                } else {
                    assert(prefix[prefix.len() - 1] == sub[sub.len() - 1]);
                    assert(prefix[prefix.len() - 2] == sub[sub.len() - 2]);
                }
            }
            assert(spec_recovered(prefix) =~= head + spec_recovered(sub));
            lemma_parse_prepend_record(records[0], spec_recovered(sub));
            lemma_crash_recovery(records.skip(1), k - n);
            let items = spec_parse_records(spec_recovered(prefix));
            let sub_items = spec_parse_records(spec_recovered(sub));
            assert(items == seq![RecordParse::Complete(records[0])] + sub_items);
            let m = spec_complete_count(records, k);
            assert(m == 1 + spec_complete_count(records.skip(1), k - n));
            assert forall|i: int| 0 <= i < m implies items[i] == RecordParse::Complete(
                records[i],
            ) by {
                if i > 0 {
                    assert(items[i] == sub_items[i - 1]);
                    assert(records[i] == records.skip(1)[i - 1]);
                }
            }
        } else {
            // the cut lands inside the first record's encoding
            let payload = spec_encode_payload(records[0]);
            lemma_encode_payload_clean(records[0]);
            assert(k <= payload.len());
            assert(prefix =~= payload.take(k));
            assert forall|i: int| 0 <= i < prefix.len() implies prefix[i] != MARKER_SEPARATOR
                && prefix[i] != MARKER_FAIL by {
                assert(prefix[i] == payload[i]);
            }
            if k == 0 {
                assert(prefix =~= Seq::<u8>::empty());
                assert(spec_recovered(prefix) =~= Seq::<u8>::empty());
            } else {
                let rec = spec_recovered(prefix);
                assert(spec_recovery_pad(prefix) == seq![
                    MARKER_FAIL,
                    MARKER_FAIL,
                    MARKER_SEPARATOR,
                ]);
                let raw = prefix + seq![MARKER_FAIL, MARKER_FAIL];
                assert forall|j: int| 0 <= j < raw.len() implies raw[j] != MARKER_SEPARATOR by {
                    if j < prefix.len() {
                        assert(raw[j] == prefix[j]);
                    }
                }
                assert(rec[raw.len() as int] == MARKER_SEPARATOR);
                lemma_sep_free_prefix_is(rec, raw.len() as int);
                assert(rec.take(raw.len() as int) =~= raw);
                assert(raw[raw.len() - 1] == MARKER_FAIL);
                assert(spec_parse_record(raw) == RecordParse::Truncated(raw));
                assert(rec.skip(raw.len() as int + 1) =~= Seq::<u8>::empty());
                assert(spec_parse_records(rec) == seq![RecordParse::Truncated(raw)]
                    + spec_parse_records(Seq::<u8>::empty()));
                assert(sep_free_prefix_len(Seq::<u8>::empty()) == 0);
                assert(spec_parse_records(rec) =~= seq![RecordParse::Truncated(raw)]);
            }
        }
    }
}

/// The index of the last separator in `s`, if any.
pub open spec fn spec_rfind_sep(s: Seq<u8>) -> Option<int>
    decreases s.len(),
{
    if s.len() == 0 {
        None
    } else if s[s.len() - 1] == MARKER_SEPARATOR {
        Some(s.len() - 1)
    } else {
        spec_rfind_sep(s.take(s.len() - 1))
    }
}

/// The last separator, when there is one, stands inside the sequence
/// with nothing but other bytes after it.
pub proof fn lemma_rfind_sep(s: Seq<u8>)
    ensures
        spec_rfind_sep(s) matches Some(j) ==> 0 <= j < s.len() && s[j] == MARKER_SEPARATOR && (
        forall|i: int| j < i < s.len() ==> s[i] != MARKER_SEPARATOR),
        spec_rfind_sep(s) is None ==> forall|i: int| 0 <= i < s.len() ==> s[i]
            != MARKER_SEPARATOR,
    decreases s.len(),
{
    if s.len() > 0 && s[s.len() - 1] != MARKER_SEPARATOR {
        let t = s.take(s.len() - 1);
        lemma_rfind_sep(t);
        match spec_rfind_sep(t) {
            Some(j) => {
                assert(s[j] == t[j]);
                assert forall|i: int| j < i < s.len() implies s[i] != MARKER_SEPARATOR by {
                    if i < s.len() - 1 {
                        assert(s[i] == t[i]);
                    }
                }
            },
            None => {
                assert forall|i: int| 0 <= i < s.len() implies s[i] != MARKER_SEPARATOR by {
                    if i < s.len() - 1 {
                        assert(s[i] == t[i]);
                    }
                }
            },
        }
    }
}

/// The byte offset at which the last terminated record starts: the
/// position right after the second-to-last separator. `None` for an
/// empty file; an error for a non-empty file with no separator at all.
pub open spec fn spec_last_id(content: Seq<u8>) -> Result<Option<int>, Error> {
    if content.len() == 0 {
        Ok(None)
    } else {
        match spec_rfind_sep(content) {
            None => Err(Error::CorruptData),
            Some(j) => match spec_rfind_sep(content.take(j)) {
                Some(i) => Ok(Some(i + 1)),
                None => Ok(Some(0)),
            },
        }
    }
}

/// Scans `content[..from]` backward for the last separator.
fn rfind_sep(content: &[u8], from: usize) -> (r: Option<usize>)
    requires
        from <= content@.len(),
    ensures
        spec_rfind_sep(content@.take(from as int)) is Some ==> (r matches Some(i) && i as int
            == spec_rfind_sep(content@.take(from as int))->Some_0),
        spec_rfind_sep(content@.take(from as int)) is None ==> r is None,
{
    let mut k: usize = from;
    while k > 0
        invariant
            k <= from <= content@.len(),
            spec_rfind_sep(content@.take(from as int)) == spec_rfind_sep(
                content@.take(k as int),
            ),
        decreases k,
    {
        proof {
            assert(content@.take(k as int)[k - 1] == content@[k - 1]);
        }
        if content[k - 1] == MARKER_SEPARATOR {
            return Some(k - 1);
        }
        proof {
            assert(content@.take(k as int).take(k - 1) =~= content@.take(k - 1));
        }
        k = k - 1;
    }
    proof {
        assert(content@.take(0) =~= Seq::<u8>::empty());
    }
    None
}

/// Finds the starting offset of the last terminated record in a
/// section file's bytes.
pub fn last_id(content: &[u8]) -> (r: Result<Option<u32>, Error>)
    requires
        content@.len() < 0x1_0000_0000,
    ensures
        ({
            match spec_last_id(content@) {
                Ok(None) => r == Ok::<Option<u32>, Error>(None),
                Ok(Some(v)) => r matches Ok(o) && o matches Some(u) && u as int == v,
                Err(e) => r == Err::<Option<u32>, Error>(e),
            }
        }),
{
    let n = content.len();
    if n == 0 {
        return Ok(None);
    }
    proof {
        assert(content@.take(n as int) =~= content@);
        lemma_rfind_sep(content@);
    }
    match rfind_sep(content, n) {
        None => Err(Error::CorruptData),
        Some(j) => {
            proof {
                lemma_rfind_sep(content@.take(j as int));
            }
            match rfind_sep(content, j) {
                Some(i) => Ok(Some((i + 1) as u32)),
                None => Ok(Some(0)),
            }
        },
    }
}

/// Append-only access to one section file.
///
/// The writer never touches a file itself: `open` reports the bytes
/// recovery must append, and `append` returns the encoded bytes of the
/// new record, which the embedding writes behind any buffering it
/// chooses. The writer tracks the resulting file content exactly.
pub struct SectionWriter {
    position: u32,
    last: Option<u32>,
    max_file_size: u32,
    max_item_size: u32,
    base: Ghost<Seq<u8>>,
    records: Ghost<Seq<Seq<u8>>>,
}

impl SectionWriter {
    /// The recovered file content this writer started from.
    pub closed spec fn base(&self) -> Seq<u8> {
        self.base@
    }

    /// The payloads appended through this writer, in order.
    pub closed spec fn records(&self) -> Seq<Seq<u8>> {
        self.records@
    }

    /// The section file's full content, as written so far.
    pub open spec fn content(&self) -> Seq<u8> {
        self.base() + spec_encode_all(self.records())
    }

    /// The write cursor: the file length in bytes.
    pub closed spec fn spec_position(&self) -> int {
        self.position as int
    }

    /// The section-full threshold in force.
    pub closed spec fn spec_max_file_size(&self) -> int {
        self.max_file_size as int
    }

    /// The record length limit in force.
    pub closed spec fn spec_max_item_size(&self) -> int {
        self.max_item_size as int
    }

    /// The starting offset of the last record, `None` when the section
    /// holds none.
    pub closed spec fn spec_last(&self) -> Option<int> {
        match self.last {
            Some(v) => Some(v as int),
            None => None,
        }
    }

    /// A full section accepts no further appends.
    pub open spec fn spec_is_full(&self) -> bool {
        self.spec_position() >= self.spec_max_file_size()
    }

    /// The writer's cursor mirrors the file content, and the limits
    /// leave escape expansion enough headroom below the absolute cap.
    pub closed spec fn wf(&self) -> bool {
        &&& self.position as int == self.content().len()
        &&& self.max_file_size <= MAX_FILE_SIZE
        &&& self.max_item_size <= MAX_ITEM_SIZE
        &&& self.base@.len() == 0 || self.base@[self.base@.len() - 1] == MARKER_SEPARATOR
    }

    /// Opens a writer on a section file whose current bytes are
    /// `existing`. Returns the writer and the recovery pad, which the
    /// embedding must append to the file (and flush) before anything
    /// else. Fails only when the file exceeds the absolute length cap.
    pub fn open(existing: &[u8], max_file_size: u32, max_item_size: u32) -> (r: Result<
        (SectionWriter, Vec<u8>),
        Error,
    >)
        ensures
            existing@.len() > FAIL_FILE_SIZE ==> r == Err::<(SectionWriter, Vec<u8>), Error>(
                Error::CorruptData,
            ),
            existing@.len() <= FAIL_FILE_SIZE ==> (r matches Ok(p) && {
                let (w, pad) = p;
                &&& pad@ == spec_recovery_pad(existing@)
                &&& w.wf()
                &&& w.base() == spec_recovered(existing@)
                &&& w.records() == Seq::<Seq<u8>>::empty()
                &&& w.spec_position() == spec_recovered(existing@).len()
                &&& w.spec_max_file_size() == vstd::math::min(
                    max_file_size as int,
                    MAX_FILE_SIZE as int,
                )
                &&& w.spec_max_item_size() == vstd::math::min(
                    max_item_size as int,
                    MAX_ITEM_SIZE as int,
                )
                &&& spec_last_id(spec_recovered(existing@)) == Ok::<Option<int>, Error>(
                    w.spec_last(),
                )
            }),
    {
        if existing.len() > FAIL_FILE_SIZE as usize {
            return Err(Error::CorruptData);
        }
        let max_file_size = if max_file_size < MAX_FILE_SIZE {
            max_file_size
        } else {
            MAX_FILE_SIZE
        };
        let max_item_size = if max_item_size < MAX_ITEM_SIZE {
            max_item_size
        } else {
            MAX_ITEM_SIZE
        };
        let pad = recovery_pad(existing);
        let mut recovered = crate::bytes::copy_to_vec(existing);
        crate::bytes::extend_from(&mut recovered, pad.as_slice());
        proof {
            assert(recovered@ == spec_recovered(existing@));
        }
        let last = match last_id(recovered.as_slice()) {
            Ok(o) => o,
            Err(_) => {
                proof {
                    if existing@.len() > 0 {
                        lemma_recovered_ends_in_sep(existing@);
                    }
                    assert(false);
                }
                None
            },
        };
        let position = recovered.len() as u32;
        let w = SectionWriter {
            position,
            last,
            max_file_size,
            max_item_size,
            base: Ghost(recovered@),
            records: Ghost(Seq::empty()),
        };
        proof {
            assert(w.content() =~= recovered@);
        }
        Ok((w, pad))
    }

    /// Appends one record: returns exactly the bytes the embedding
    /// must write to the file. Fails with `InvalidInput` when the
    /// record exceeds the item limit and with `SectionFull` when the
    /// cursor has reached the threshold, leaving the writer unchanged.
    pub fn append(&mut self, data: &[u8]) -> (r: Result<Vec<u8>, Error>)
        requires
            old(self).wf(),
        ensures
            final(self).wf(),
            data@.len() > old(self).spec_max_item_size() ==> (r == Err::<Vec<u8>, Error>(
                Error::InvalidInput,
            ) && *final(self) == *old(self)),
            data@.len() <= old(self).spec_max_item_size() && old(self).spec_is_full() ==> (r
                == Err::<Vec<u8>, Error>(Error::SectionFull) && *final(self) == *old(self)),
            data@.len() <= old(self).spec_max_item_size() && !old(self).spec_is_full() ==> (
            r matches Ok(bytes) && {
                &&& bytes@ == spec_encode_record(data@)
                &&& final(self).records() == old(self).records().push(data@)
                &&& final(self).base() == old(self).base()
                &&& final(self).spec_position() == old(self).spec_position() + bytes@.len()
                &&& final(self).spec_last() == Some(old(self).spec_position())
                &&& final(self).spec_max_file_size() == old(self).spec_max_file_size()
                &&& final(self).spec_max_item_size() == old(self).spec_max_item_size()
            }),
    {
        if data.len() > self.max_item_size as usize {
            return Err(Error::InvalidInput);
        }
        if self.position >= self.max_file_size {
            return Err(Error::SectionFull);
        }
        let bytes = crate::codec::encode_record(data);
        let next_id = self.position;
        proof {
            lemma_encode_all_push(self.records@, data@);
        }
        self.position = self.position + bytes.len() as u32;
        self.last = Some(next_id);
        proof {
            self.records@ = self.records@.push(data@);
            assert(self.content() =~= old(self).content() + spec_encode_record(data@));
        }
        Ok(bytes)
    }

    /// A section is empty exactly when it holds no record at all.
    pub fn is_empty(&self) -> (r: bool)
        ensures
            r == (self.spec_last() is None),
    {
        match self.last {
            None => true,
            Some(_) => false,
        }
    }

    /// A section is full exactly when its cursor has reached the
    /// section-full threshold.
    pub fn is_full(&self) -> (r: bool)
        ensures
            r == self.spec_is_full(),
    {
        self.position >= self.max_file_size
    }

    /// The starting offset of the last record in this section.
    pub fn last_id(&self) -> (r: Option<u32>)
        ensures
            ({
                match self.spec_last() {
                    Some(v) => r matches Some(u) && u as int == v,
                    None => r is None,
                }
            }),
    {
        self.last
    }

    /// The current write cursor: the file length in bytes.
    pub fn position(&self) -> (r: u32)
        ensures
            r as int == self.spec_position(),
    {
        self.position
    }
}

/// Round trip through a section file: the records appended through a
/// writer parse back from the file's content, in order and
/// bit-identical, right after whatever the recovered file already
/// held.
pub proof fn lemma_writer_content_parses(w: SectionWriter)
    requires
        w.wf(),
    ensures
        ({
            let items = spec_parse_records(w.content());
            let base_items = spec_parse_records(w.base());
            &&& items.len() == base_items.len() + w.records().len()
            &&& forall|i: int| 0 <= i < base_items.len() ==> items[i] == base_items[i]
            &&& forall|i: int| 0 <= i < w.records().len() ==> items[base_items.len() + i]
                == RecordParse::Complete(w.records()[i])
        }),
{
    lemma_parse_append_aligned(w.base(), spec_encode_all(w.records()));
    lemma_parse_encode_all(w.records());
}

/// Appending one record to a stream appends its encoding.
pub proof fn lemma_encode_all_push(records: Seq<Seq<u8>>, data: Seq<u8>)
    ensures
        spec_encode_all(records.push(data)) == spec_encode_all(records) + spec_encode_record(data),
    decreases records.len(),
{
    if records.len() == 0 {
        assert(records.push(data)[0] == data);
        assert(records.push(data).skip(1) =~= Seq::<Seq<u8>>::empty());
        assert(spec_encode_all(records.push(data)) == spec_encode_record(data) + spec_encode_all(
            Seq::<Seq<u8>>::empty(),
        ));
        assert(spec_encode_all(records.push(data)) =~= spec_encode_record(data));
        assert(spec_encode_all(records) + spec_encode_record(data) =~= spec_encode_record(data));
    } else {
        assert(records.push(data)[0] == records[0]);
        assert(records.push(data).skip(1) =~= records.skip(1).push(data));
        lemma_encode_all_push(records.skip(1), data);
        assert(spec_encode_all(records.push(data)) == spec_encode_record(records[0]) + (
        spec_encode_all(records.skip(1)) + spec_encode_record(data)));
        assert(spec_encode_record(records[0]) + (spec_encode_all(records.skip(1))
            + spec_encode_record(data)) =~= (spec_encode_record(records[0]) + spec_encode_all(
            records.skip(1),
        )) + spec_encode_record(data));
    }
}

} // verus!
