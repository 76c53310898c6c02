//! The queue: an unbounded logical log composed of sections addressed
//! by consecutive components, with a writer side that rolls to a fresh
//! section when the current one fills, and a streaming reader side
//! that follows sections in order and hands out 64-bit resume tokens.

use vstd::prelude::*;

use crate::codec::spec_encode_record;
use crate::component::Component;
use crate::component::MAX_COMPONENT_ENCODED_VALUE;
use crate::error::Error;
use crate::reader::Reader;
use crate::reader::ReadStep;
use crate::section::FAIL_FILE_SIZE;
use crate::section::MAX_FILE_SIZE;
use crate::section::MAX_ITEM_SIZE;
use crate::section::SectionWriter;
use crate::section::sep_free_prefix_len;
use crate::section::spec_parse_record;
use crate::section::spec_recovered;
use crate::section::spec_recovery_pad;
use crate::token::TOKEN_SPLIT;
use crate::token::offset_encode;
use crate::token::offset_decode;
use crate::token::spec_offset_encode;

verus! {

/// The records of consecutive sections, flattened in section order.
pub open spec fn spec_concat_sections(sections: Seq<Seq<Seq<u8>>>) -> Seq<Seq<u8>>
    decreases sections.len(),
{
    if sections.len() == 0 {
        Seq::empty()
    } else {
        sections[0] + spec_concat_sections(sections.skip(1))
    }
}

/// Flattening no sections gives no records.
proof fn lemma_concat_none()
    ensures
        spec_concat_sections(Seq::<Seq<Seq<u8>>>::empty()) == Seq::<Seq<u8>>::empty(),
{
}

/// Starting an empty section adds no records to the flattening.
proof fn lemma_concat_push_empty(sections: Seq<Seq<Seq<u8>>>)
    ensures
        spec_concat_sections(sections.push(Seq::empty())) == spec_concat_sections(sections),
    decreases sections.len(),
{
    let p = sections.push(Seq::<Seq<u8>>::empty());
    if sections.len() == 0 {
        assert(p[0] =~= Seq::<Seq<u8>>::empty());
        assert(p.skip(1) =~= Seq::<Seq<Seq<u8>>>::empty());
        lemma_concat_none();
        assert(spec_concat_sections(p) == p[0] + spec_concat_sections(p.skip(1)));
        assert(p[0] + Seq::<Seq<u8>>::empty() =~= Seq::<Seq<u8>>::empty());
        assert(spec_concat_sections(sections) =~= Seq::<Seq<u8>>::empty());
    } else {
        assert(p[0] == sections[0]);
        assert(p.skip(1) =~= sections.skip(1).push(Seq::empty()));
        lemma_concat_push_empty(sections.skip(1));
        assert(spec_concat_sections(p) == p[0] + spec_concat_sections(p.skip(1)));
    }
}

/// Appending a record to the last section appends it to the
/// flattening.
proof fn lemma_concat_extend_last(sections: Seq<Seq<Seq<u8>>>, data: Seq<u8>)
    requires
        sections.len() > 0,
    ensures
        spec_concat_sections(
            sections.update(sections.len() - 1, sections.last().push(data)),
        ) == spec_concat_sections(sections).push(data),
    decreases sections.len(),
{
    let updated = sections.update(sections.len() - 1, sections.last().push(data));
    if sections.len() == 1 {
        lemma_concat_none();
        assert(updated[0] == sections[0].push(data));
        assert(updated.skip(1) =~= Seq::<Seq<Seq<u8>>>::empty());
        assert(spec_concat_sections(updated) == updated[0] + spec_concat_sections(
            updated.skip(1),
        ));
        assert(spec_concat_sections(updated) == sections[0].push(data) + Seq::<Seq<u8>>::empty());
        assert(sections.skip(1) =~= Seq::<Seq<Seq<u8>>>::empty());
        assert(spec_concat_sections(sections) == sections[0] + spec_concat_sections(
            sections.skip(1),
        ));
        assert(spec_concat_sections(sections) == sections[0] + Seq::<Seq<u8>>::empty());
        assert(sections[0].push(data) + Seq::<Seq<u8>>::empty() =~= (sections[0] + Seq::<
            Seq<u8>,
        >::empty()).push(data));
    } else {
        assert(updated[0] == sections[0]);
        assert(updated.skip(1) =~= sections.skip(1).update(
            sections.skip(1).len() - 1,
            sections.skip(1).last().push(data),
        ));
        lemma_concat_extend_last(sections.skip(1), data);
        assert(spec_concat_sections(updated) == sections[0] + spec_concat_sections(
            sections.skip(1),
        ).push(data));
        assert(sections[0] + spec_concat_sections(sections.skip(1)).push(data) =~= (sections[0]
            + spec_concat_sections(sections.skip(1))).push(data));
    }
}

/// The writer side of the log. Owns the current section writer and its
/// component; the embedding performs the file operations the methods
/// call for, and drives the roll to a fresh section when the current
/// one is full.
pub struct Queue {
    component: Component,
    section: SectionWriter,
    max_file_size: u32,
    max_item_size: u32,
    read_chunk_size: u32,
    sections: Ghost<Seq<Seq<Seq<u8>>>>,
    all_records: Ghost<Seq<Seq<u8>>>,
    first_encode: Ghost<int>,
}

impl Queue {
    /// The component addressing the current section.
    pub closed spec fn spec_component(&self) -> Component {
        self.component
    }

    /// The current section writer's state.
    pub closed spec fn spec_section(&self) -> SectionWriter {
        self.section
    }

    /// Every record appended through this queue value, in write order.
    pub closed spec fn spec_all_records(&self) -> Seq<Seq<u8>> {
        self.all_records@
    }

    /// The records appended through this queue value, grouped by
    /// section, in ascending component order.
    pub closed spec fn spec_sections(&self) -> Seq<Seq<Seq<u8>>> {
        self.sections@
    }

    /// The record length limit in force.
    pub closed spec fn spec_max_item_size(&self) -> int {
        self.max_item_size as int
    }

    /// The section-full threshold handed to sections and streamers.
    pub closed spec fn spec_max_file_size(&self) -> int {
        self.max_file_size as int
    }

    /// The read buffer size hint handed to streamers.
    pub closed spec fn spec_read_chunk_size(&self) -> int {
        self.read_chunk_size as int
    }

    /// Section roll bookkeeping: records land in the current section,
    /// sections carry consecutive components, and flattening the
    /// sections in component order gives exactly the records in write
    /// order.
    pub closed spec fn wf(&self) -> bool {
        &&& self.component.wf()
        &&& self.section.wf()
        &&& self.sections@.len() >= 1
        &&& self.sections@.last() == self.section.records()
        &&& self.component.spec_encode() == self.first_encode@ + self.sections@.len() - 1
        &&& self.first_encode@ >= 0
        &&& spec_concat_sections(self.sections@) == self.all_records@
        &&& self.section.spec_max_item_size() == self.max_item_size
        &&& self.section.spec_max_file_size() == vstd::math::min(
            self.max_file_size as int,
            MAX_FILE_SIZE as int,
        )
        &&& 1 <= self.max_item_size <= MAX_ITEM_SIZE
    }

    /// Opens the queue's write side on the section addressed by
    /// `component`, whose file currently holds `existing`. The
    /// embedding discovers the latest component from the directory
    /// tree, reads that file, and must append the returned recovery
    /// pad to it before anything else. Fails only when the file
    /// exceeds the absolute length cap.
    pub fn open(
        component: Component,
        existing: &[u8],
        max_file_size: u32,
        max_item_size: u32,
        read_chunk_size: u32,
    ) -> (r: Result<(Queue, Vec<u8>), Error>)
        requires
            component.wf(),
        ensures
            existing@.len() > FAIL_FILE_SIZE ==> r == Err::<(Queue, Vec<u8>), Error>(
                Error::CorruptData,
            ),
            existing@.len() <= FAIL_FILE_SIZE ==> (r matches Ok(p) && {
                let (q, pad) = p;
                &&& pad@ == spec_recovery_pad(existing@)
                &&& q.wf()
                &&& q.spec_component() == component
                &&& q.spec_all_records() == Seq::<Seq<u8>>::empty()
                &&& q.spec_section().base() == spec_recovered(existing@)
                &&& q.spec_section().records() == Seq::<Seq<u8>>::empty()
                &&& q.spec_section().spec_position() == spec_recovered(existing@).len()
                &&& q.spec_max_file_size() == max_file_size
                &&& crate::section::spec_last_id(spec_recovered(existing@)) == Ok::<
                    Option<int>,
                    Error,
                >(q.spec_section().spec_last())
            }),
    {
        let max_item_size = if max_item_size == 0 {
            1
        } else if max_item_size > MAX_ITEM_SIZE {
            MAX_ITEM_SIZE
        } else {
            max_item_size
        };
        match SectionWriter::open(existing, max_file_size, max_item_size) {
            Ok((section, pad)) => {
                let ghost e = component.spec_encode();
                let ghost initial_sections: Seq<Seq<Seq<u8>>> = seq![Seq::empty()];
                proof {
                    crate::component::lemma_component_round_trip(component);
                }
                let q = Queue {
                    component,
                    section,
                    max_file_size,
                    max_item_size,
                    read_chunk_size,
                    sections: Ghost(initial_sections),
                    all_records: Ghost(Seq::empty()),
                    first_encode: Ghost(e),
                };
                proof {
                    lemma_concat_none();
                    assert(q.sections@.last() =~= q.section.records());
                    assert(q.sections@.skip(1) =~= Seq::<Seq<Seq<u8>>>::empty());
                    assert(spec_concat_sections(q.sections@) == q.sections@[0]
                        + spec_concat_sections(q.sections@.skip(1)));
                    assert(spec_concat_sections(q.sections@) =~= Seq::<Seq<u8>>::empty());
                }
                Ok((q, pad))
            },
            Err(e) => Err(e),
        }
    }

    /// Appends one record to the current section: returns the bytes
    /// the embedding must write to the section file. `InvalidInput`
    /// rejects an oversized record; `SectionFull` asks the caller to
    /// `advance` to the next section and try again.
    pub fn append(&mut self, data: &[u8]) -> (r: Result<Vec<u8>, Error>)
        requires
            old(self).wf(),
        ensures
            final(self).wf(),
            final(self).spec_component() == old(self).spec_component(),
            data@.len() > old(self).spec_max_item_size() ==> (r == Err::<Vec<u8>, Error>(
                Error::InvalidInput,
            ) && *final(self) == *old(self)),
            data@.len() <= old(self).spec_max_item_size() && old(self).spec_section().spec_is_full() ==> (r == Err::<Vec<u8>, Error>(Error::SectionFull)
                && *final(self) == *old(self)),
            data@.len() <= old(self).spec_max_item_size() && !old(self).spec_section().spec_is_full() ==> (r matches Ok(bytes) && {
                &&& bytes@ == spec_encode_record(data@)
                &&& final(self).spec_all_records() == old(self).spec_all_records().push(data@)
                &&& final(self).spec_section().records() == old(self).spec_section().records().push(data@)
                &&& final(self).spec_section().spec_last() == Some(
                    old(self).spec_section().spec_position(),
                )
                &&& final(self).spec_section().spec_position() == old(self).spec_section().spec_position() + bytes@.len()
                &&& final(self).spec_sections() == old(self).spec_sections().update(
                    old(self).spec_sections().len() - 1,
                    old(self).spec_sections().last().push(data@),
                )
                &&& final(self).spec_max_item_size() == old(self).spec_max_item_size()
                &&& final(self).spec_max_file_size() == old(self).spec_max_file_size()
                &&& final(self).spec_read_chunk_size() == old(self).spec_read_chunk_size()
            }),
    {
        match self.section.append(data) {
            Ok(bytes) => {
                proof {
                    lemma_concat_extend_last(self.sections@, data@);
                    self.sections@ = self.sections@.update(
                        self.sections@.len() - 1,
                        self.sections@.last().push(data@),
                    );
                    self.all_records@ = self.all_records@.push(data@);
                }
                Ok(bytes)
            },
            Err(e) => Err(e),
        }
    }

    /// Rolls to the successor component, whose section file currently
    /// holds `existing` (normally nothing). The embedding must first
    /// flush any write buffering on the old section, create the
    /// successor's parent directories, and afterwards append the
    /// returned recovery pad to the new file. Fails with `QueueFull`
    /// when no successor exists.
    pub fn advance(&mut self, existing: &[u8]) -> (r: Result<Vec<u8>, Error>)
        requires
            old(self).wf(),
        ensures
            final(self).wf(),
            old(self).spec_component().spec_encode() == MAX_COMPONENT_ENCODED_VALUE ==> (r
                == Err::<Vec<u8>, Error>(Error::QueueFull) && *final(self) == *old(self)),
            old(self).spec_component().spec_encode() < MAX_COMPONENT_ENCODED_VALUE
                && existing@.len() > FAIL_FILE_SIZE ==> (r == Err::<Vec<u8>, Error>(
                Error::CorruptData,
            ) && *final(self) == *old(self)),
            old(self).spec_component().spec_encode() < MAX_COMPONENT_ENCODED_VALUE
                && existing@.len() <= FAIL_FILE_SIZE ==> (r matches Ok(pad) && {
                &&& pad@ == spec_recovery_pad(existing@)
                &&& final(self).spec_component().spec_encode() == old(self).spec_component().spec_encode() + 1
                &&& final(self).spec_all_records() == old(self).spec_all_records()
                &&& final(self).spec_section().records() == Seq::<Seq<u8>>::empty()
                &&& final(self).spec_section().base() == spec_recovered(existing@)
                &&& final(self).spec_section().spec_position() == spec_recovered(
                    existing@,
                ).len()
                &&& final(self).spec_sections() == old(self).spec_sections().push(
                    Seq::empty(),
                )
                &&& final(self).spec_all_records() == spec_concat_sections(
                    final(self).spec_sections(),
                )
                &&& final(self).spec_max_item_size() == old(self).spec_max_item_size()
                &&& final(self).spec_max_file_size() == old(self).spec_max_file_size()
                &&& final(self).spec_read_chunk_size() == old(self).spec_read_chunk_size()
            }),
    {
        proof {
            crate::component::lemma_component_round_trip(self.component);
        }
        let next = match self.component.next() {
            Some(c) => c,
            None => {
                return Err(Error::QueueFull);
            },
        };
        match SectionWriter::open(existing, self.max_file_size, self.max_item_size) {
            Ok((section, pad)) => {
                self.component = next;
                self.section = section;
                proof {
                    lemma_concat_push_empty(self.sections@);
                    self.sections@ = self.sections@.push(Seq::empty());
                }
                Ok(pad)
            },
            Err(e) => Err(e),
        }
    }

    /// The queue is empty exactly when it stands at the first
    /// component and that section holds no record.
    pub fn is_empty(&self) -> (r: bool)
        requires
            self.wf(),
        ensures
            r == (self.spec_component().spec_encode() == 0
                && self.spec_section().spec_last() is None),
    {
        self.component.is_empty() && self.section.is_empty()
    }

    /// The queue is full exactly when the last component's section has
    /// reached its capacity: nothing can ever be appended again.
    pub fn is_full(&self) -> (r: bool)
        requires
            self.wf(),
        ensures
            r == (self.spec_component().spec_encode() == MAX_COMPONENT_ENCODED_VALUE
                && self.spec_section().spec_is_full()),
    {
        self.component.is_full() && self.section.is_full()
    }

    /// The starting offset of the last record in the current section.
    pub fn last_id(&self) -> (r: Option<u32>)
        ensures
            ({
                match self.spec_section().spec_last() {
                    Some(v) => r matches Some(u) && u as int == v,
                    None => r is None,
                }
            }),
    {
        self.section.last_id()
    }

    /// The component addressing the current section.
    pub fn component(&self) -> (c: Component)
        ensures
            c == self.spec_component(),
    {
        self.component
    }

    /// Whether the current section has reached its capacity; when it
    /// has, `advance` moves the queue to the next section.
    pub fn needs_advance(&self) -> (r: bool)
        ensures
            r == self.spec_section().spec_is_full(),
    {
        self.section.is_full()
    }

    /// A streamer over this queue, resuming at `id` when given, from
    /// the start otherwise. Fails exactly when a token's high half is
    /// not a valid component encoding.
    pub fn stream(&self, id: Option<u64>) -> (r: Result<QueueStreamer, Error>)
        ensures
            id is None ==> (r matches Ok(s) && s.wf() && s.spec_component().spec_encode() == 0
                && s.spec_section_offset() == 0 && s.spec_max_file_size()
                == self.spec_max_file_size() && s.spec_err() is None && !s.spec_has_section()
                && !s.spec_ended() && !s.spec_known_eof() && s.spec_last_token() is None
                && s.spec_produced() == Seq::<int>::empty()),
            id matches Some(t) ==> ({
                if t / TOKEN_SPLIT <= MAX_COMPONENT_ENCODED_VALUE {
                    r matches Ok(s) && s.wf() && s.spec_component().spec_encode() == t
                        / TOKEN_SPLIT && s.spec_section_offset() == t % TOKEN_SPLIT
                        && s.spec_max_file_size() == self.spec_max_file_size()
                        && s.spec_err() is None && !s.spec_has_section() && !s.spec_ended()
                        && !s.spec_known_eof() && s.spec_last_token() is None
                        && s.spec_produced() == Seq::<int>::empty()
                } else {
                    r == Err::<QueueStreamer, Error>(Error::CorruptData)
                }
            }),
    {
        let (component, section_offset) = match id {
            Some(t) => match offset_decode(t) {
                Ok(p) => p,
                Err(e) => {
                    return Err(e);
                },
            },
            None => (Component::new(), 0u32),
        };
        Ok(
            QueueStreamer::new(
                component,
                section_offset,
                self.max_file_size,
                self.max_item_size,
                self.read_chunk_size,
            ),
        )
    }
}

/// Section roll keeps write order: flattening the queue's per-section
/// record groups in ascending component order gives exactly the
/// appended records, and each group parses back from the bytes that
/// were written for it.
pub proof fn lemma_roll_order(q: Queue)
    requires
        q.wf(),
    ensures
        spec_concat_sections(q.spec_sections()) == q.spec_all_records(),
        q.spec_sections().len() >= 1,
        q.spec_sections().last() == q.spec_section().records(),
        forall|i: int|
            0 <= i < q.spec_sections().len() ==> {
                let group = #[trigger] q.spec_sections()[i];
                let items = crate::section::spec_parse_records(
                    crate::codec::spec_encode_all(group),
                );
                items.len() == group.len() && (forall|j: int|
                    0 <= j < group.len() ==> items[j] == crate::section::RecordParse::Complete(
                        #[trigger] group[j],
                    ))
            },
{
    assert forall|i: int| 0 <= i < q.spec_sections().len() implies {
        let group = #[trigger] q.spec_sections()[i];
        let items = crate::section::spec_parse_records(crate::codec::spec_encode_all(group));
        items.len() == group.len() && (forall|j: int|
            0 <= j < group.len() ==> items[j] == crate::section::RecordParse::Complete(
                #[trigger] group[j],
            ))
    } by {
        crate::section::lemma_parse_encode_all(q.spec_sections()[i]);
    }
}

/// Monotonic ids: in any single stream, the resume tokens of
/// successive items are strictly increasing — a stream never repeats
/// or reorders a position.
pub proof fn lemma_monotonic_tokens(s: QueueStreamer)
    requires
        s.wf(),
    ensures
        forall|i: int, j: int|
            0 <= i < j < s.spec_produced().len() ==> s.spec_produced()[i] < s.spec_produced()[j],
        ({
            match s.spec_last_token() {
                Some(t) => s.spec_produced().len() > 0 && s.spec_produced().last() == t,
                None => s.spec_produced().len() == 0,
            }
        }),
{
}

/// One record as delivered by the queue streamer: the payload together
/// with the 64-bit resume token of the position right after it.
#[derive(Debug)]
pub struct QueueItem {
    /// The resume token for the next record: streaming from this token
    /// continues right after this item.
    pub id: u64,
    /// The record's bytes.
    pub data: Vec<u8>,
}

/// Whether a streamed record is a regular one or a truncated remnant.
#[derive(Debug, Clone, Copy, PartialEq, Eq, Structural)]
pub enum QueueItemType {
    /// A record that decoded cleanly.
    Regular,
    /// A remnant closed by crash recovery.
    Truncated,
}

/// What one call to `QueueStreamer::advance` asks of its caller.
pub enum StreamStep {
    /// An outcome is available through `current`: a fresh item, or no
    /// item right now (poll again later), or a latched error.
    Ready,
    /// Check whether the file for the streamer's current component
    /// exists and answer through `open_section`.
    NeedSection,
    /// Read up to this many bytes from the current section file, from
    /// where the last read ended, and hand them to `feed`.
    NeedBytes(usize),
    /// The component space is exhausted: no item will ever follow.
    End,
}

/// The reading side of the log: follows sections in ascending
/// component order, skipping or surfacing truncated remnants, and
/// stamps every item with a resume token. Tokens of successive items
/// are strictly increasing.
pub struct QueueStreamer {
    component: Component,
    section: Reader,
    has_section: bool,
    section_offset: u32,
    known_eof: bool,
    ended: bool,
    err: Option<Error>,
    max_file_size: u32,
    max_item_size: u32,
    read_chunk_size: u32,
    last_token: Ghost<Option<int>>,
    produced: Ghost<Seq<int>>,
}

impl QueueStreamer {
    /// The component whose section the streamer currently reads.
    pub closed spec fn spec_component(&self) -> Component {
        self.component
    }

    /// The in-section byte offset the streamer stands at: the id of
    /// the last delivered item, or the resume offset before the first.
    pub closed spec fn spec_section_offset(&self) -> int {
        self.section_offset as int
    }

    /// Whether a section reader is currently open.
    pub closed spec fn spec_has_section(&self) -> bool {
        self.has_section
    }

    /// The open section reader's state.
    pub closed spec fn spec_reader(&self) -> Reader {
        self.section
    }

    /// The latched error, if any.
    pub closed spec fn spec_err(&self) -> Option<Error> {
        self.err
    }

    /// Whether the current section is known to be at its capacity, so
    /// the next advance rolls to the successor component.
    pub closed spec fn spec_known_eof(&self) -> bool {
        self.known_eof
    }

    /// Whether the component space is exhausted.
    pub closed spec fn spec_ended(&self) -> bool {
        self.ended
    }

    /// The token of the most recently delivered item.
    pub closed spec fn spec_last_token(&self) -> Option<int> {
        self.last_token@
    }

    /// The section-full threshold in force: the offset at which the
    /// streamer rolls to the next section.
    pub closed spec fn spec_max_file_size(&self) -> int {
        self.max_file_size as int
    }

    /// The tokens of every item this streamer has produced, in order,
    /// skipped truncated remnants included.
    pub closed spec fn spec_produced(&self) -> Seq<int> {
        self.produced@
    }

    /// The reader stands exactly at the streamer's offset, and every
    /// delivered token lies at or before the current position, so the
    /// next one is strictly larger.
    pub closed spec fn wf(&self) -> bool {
        &&& self.component.wf()
        &&& self.has_section ==> self.section.wf()
        &&& self.has_section ==> self.section.spec_position() == self.section_offset as int
        &&& self.has_section ==> self.section.spec_max_file_size() == vstd::math::min(
            self.max_file_size as int,
            MAX_FILE_SIZE as int,
        )
        &&& self.has_section && self.err is None ==> self.section.spec_err() is None
        &&& match self.last_token@ {
            Some(t) => 0 <= t <= spec_offset_encode(
                self.component.spec_encode(),
                self.section_offset as int,
            ) && self.produced@.len() > 0 && self.produced@.last() == t,
            None => self.produced@.len() == 0,
        }
        &&& forall|i: int, j: int|
            0 <= i < j < self.produced@.len() ==> self.produced@[i] < self.produced@[j]
    }

    /// A streamer positioned at `section_offset` inside the section
    /// addressed by `component`.
    pub fn new(
        component: Component,
        section_offset: u32,
        max_file_size: u32,
        max_item_size: u32,
        read_chunk_size: u32,
    ) -> (s: QueueStreamer)
        requires
            component.wf(),
        ensures
            s.wf(),
            s.spec_component() == component,
            s.spec_section_offset() == section_offset,
            !s.spec_has_section(),
            s.spec_err() is None,
            !s.spec_known_eof(),
            !s.spec_ended(),
            s.spec_last_token() is None,
            s.spec_produced() == Seq::<int>::empty(),
            s.spec_max_file_size() == max_file_size,
    {
        let section = Reader::new(section_offset, max_file_size, max_item_size, read_chunk_size);
        QueueStreamer {
            component,
            section,
            has_section: false,
            section_offset,
            known_eof: false,
            ended: false,
            err: None,
            max_file_size,
            max_item_size,
            read_chunk_size,
            last_token: Ghost(None),
            produced: Ghost(Seq::empty()),
        }
    }

    /// Moves to the next item, skipping truncated remnants unless
    /// `include_truncated` is set. Rolls to the successor component
    /// when the current section is known to be at capacity, asks the
    /// caller to open section files and read bytes as needed, and
    /// stops at `End` only when the component space is exhausted.
    ///
    /// A healthy `Ready` either carries a freshly produced item (the
    /// produced-token trace grows) or reports a genuine end of the
    /// flushed data (the file said it had no more and no terminated
    /// record is buffered); an error is latched only when the buffered
    /// bytes are corrupt beyond doubt.
    pub fn advance(&mut self, include_truncated: bool) -> (step: StreamStep)
        requires
            old(self).wf(),
        ensures
            final(self).wf(),
            old(self).spec_err() is Some ==> (step is Ready && *final(self) == *old(self)),
            old(self).spec_err() is None && old(self).spec_ended() ==> (step is End && *final(self) == *old(self)),
            final(self).spec_last_token() == old(self).spec_last_token() || (final(self).spec_last_token() matches Some(t) && (old(self).spec_last_token() matches Some(t0)
                ==> t > t0)),
            final(self).spec_max_file_size() == old(self).spec_max_file_size(),
            // advance never opens a section; only `open_section` does
            final(self).spec_has_section() ==> old(self).spec_has_section(),
            // with no section open, the streamer can only ask for one
            old(self).spec_err() is None && !old(self).spec_ended() && !old(self).spec_known_eof()
                && !old(self).spec_has_section() ==> (step is NeedSection && *final(self) == *old(self)),
            // a section known to be at capacity forces the roll
            old(self).spec_err() is None && !old(self).spec_ended() && old(self).spec_known_eof()
                ==> ({
                if old(self).spec_component().spec_encode() < MAX_COMPONENT_ENCODED_VALUE {
                    step is NeedSection && final(self).spec_component().spec_encode() == old(self).spec_component().spec_encode() + 1 && final(self).spec_section_offset() == 0
                        && !final(self).spec_known_eof() && !final(self).spec_ended()
                } else {
                    step is End
                }
            }),
            // an error can be latched only on genuinely corrupt bytes
            final(self).spec_err() != old(self).spec_err() ==> (old(self).spec_err() is None
                && final(self).spec_err() == Some(Error::CorruptData) && old(self).spec_has_section() && final(self).spec_has_section() && ({
                let bytes = final(self).spec_reader().unconsumed();
                let head = sep_free_prefix_len(bytes) as int;
                (head < bytes.len() && spec_parse_record(bytes.take(head)) is Invalid) || (head
                    == bytes.len() && bytes.len() > 2 * final(self).spec_reader().spec_max_item_size() + 2)
            })),
            step is NeedSection ==> !final(self).spec_has_section() && final(self).spec_err() is None && !final(self).spec_ended(),
            // more bytes are requested only when no terminated record
            // is buffered
            step matches StreamStep::NeedBytes(n) ==> n > 0 && final(self).spec_has_section()
                && final(self).spec_err() is None && sep_free_prefix_len(
                final(self).spec_reader().unconsumed(),
            ) == final(self).spec_reader().unconsumed().len(),
            step is End ==> final(self).spec_ended() && final(self).spec_err() == old(self).spec_err(),
            old(self).spec_produced().len() <= final(self).spec_produced().len() && (forall|i: int|
                0 <= i < old(self).spec_produced().len() ==> old(self).spec_produced()[i] == final(self).spec_produced()[i]),
            // without a fresh delivery, only truncated remnants may be
            // consumed from the reader, and none at all when they are
            // to be surfaced
            (final(self).spec_has_section() && !(step is Ready && final(self).spec_err() is None
                && final(self).spec_reader().spec_current() is Some)) ==> ({
                let before = old(self).spec_reader().spec_items();
                let after = final(self).spec_reader().spec_items();
                &&& before.len() <= after.len()
                &&& (forall|i: int| 0 <= i < before.len() ==> after[i] == before[i])
                &&& (forall|i: int| before.len() <= i < after.len() ==> after[i] is Truncated)
                &&& (include_truncated ==> after.len() == before.len())
            }),
            // a healthy Ready means either a freshly produced item or a
            // genuine end of the flushed data
            (step is Ready && old(self).spec_err() is None && !old(self).spec_ended() && final(self).spec_err() is None) ==> final(self).spec_has_section() && ({
                match final(self).spec_reader().spec_current() {
                    Some(item) => {
                        &&& final(self).spec_produced().len() > old(self).spec_produced().len()
                        &&& !item.truncated || include_truncated
                        &&& final(self).spec_last_token() == Some(
                            spec_offset_encode(
                                final(self).spec_component().spec_encode(),
                                item.id as int,
                            ),
                        )
                        &&& final(self).spec_section_offset() == item.id
                        &&& final(self).spec_known_eof() == item.known_eof
                        &&& final(self).spec_reader().spec_items().len() > old(self).spec_reader().spec_items().len()
                        &&& (forall|i: int|
                            0 <= i < old(self).spec_reader().spec_items().len() ==> final(self).spec_reader().spec_items()[i] == old(self).spec_reader().spec_items()[i])
                        &&& (forall|i: int|
                            old(self).spec_reader().spec_items().len() <= i < final(self).spec_reader().spec_items().len() - 1 ==> final(self).spec_reader().spec_items()[i] is Truncated)
                        &&& (include_truncated ==> final(self).spec_reader().spec_items().len()
                            == old(self).spec_reader().spec_items().len() + 1)
                    },
                    None => {
                        &&& old(self).spec_has_section()
                        &&& old(self).spec_reader().spec_drained()
                        &&& sep_free_prefix_len(final(self).spec_reader().unconsumed()) == final(self).spec_reader().unconsumed().len()
                    },
                }
            }),
    {
        if self.err.is_some() {
            return StreamStep::Ready;
        }
        if self.ended {
            return StreamStep::End;
        }
        if self.known_eof {
            if !self.roll() {
                return StreamStep::End;
            }
        }
        if !self.has_section {
            return StreamStep::NeedSection;
        }
        loop
            invariant
                self.wf(),
                self.err is None,
                !self.ended,
                self.has_section,
                old(self).spec_err() is None,
                !old(self).spec_ended(),
                old(self).spec_has_section(),
                !old(self).spec_known_eof(),
                self.spec_max_file_size() == old(self).spec_max_file_size(),
                self.section.spec_drained() == old(self).spec_reader().spec_drained(),
                old(self).spec_reader().spec_items().len() <= self.section.spec_items().len(),
                forall|i: int|
                    0 <= i < old(self).spec_reader().spec_items().len() ==> self.section.spec_items()[i] == old(self).spec_reader().spec_items()[i],
                forall|i: int|
                    old(self).spec_reader().spec_items().len() <= i
                        < self.section.spec_items().len() ==> self.section.spec_items()[i] is Truncated,
                include_truncated ==> self.section.spec_items().len() == old(self).spec_reader().spec_items().len(),
                self.last_token@ == old(self).spec_last_token() || (self.last_token@ matches Some(
                    t,
                ) && (old(self).spec_last_token() matches Some(t0) ==> t > t0)),
                old(self).spec_produced().len() <= self.produced@.len(),
                forall|i: int|
                    0 <= i < old(self).spec_produced().len() ==> old(self).spec_produced()[i]
                        == self.produced@[i],
            decreases self.section.unconsumed().len(),
        {
            let ghost pre = *self;
            proof {
                crate::section::lemma_sep_free_prefix(pre.section.unconsumed());
            }
            match self.section.advance() {
                ReadStep::Produced => {
                    let (id, truncated, keof) = match self.section.current() {
                        Ok(Some(item)) => (item.id, item.truncated, item.known_eof),
                        _ => {
                            proof {
                                assert(false);
                            }
                            (0u32, false, false)
                        },
                    };
                    proof {
                        crate::component::lemma_component_round_trip(self.component);
                        let e = self.component.spec_encode();
                        let t = spec_offset_encode(e, id as int);
                        assert(id as int > pre.section_offset as int);
                        match self.last_token@ {
                            Some(t0) => {
                                assert(t0 <= spec_offset_encode(e, pre.section_offset as int));
                                assert(spec_offset_encode(e, pre.section_offset as int) < t);
                            },
                            None => {},
                        }
                        self.last_token@ = Some(t);
                        let trace = self.produced@;
                        assert forall|i: int| 0 <= i < trace.len() implies trace[i] < t by {
                            if i < trace.len() - 1 {
                                assert(trace[i] < trace[trace.len() - 1]);
                            }
                        }
                        self.produced@ = self.produced@.push(t);
                        assert(self.produced@.last() == t);
                        assert forall|i: int, j: int|
                            0 <= i < j < self.produced@.len() implies self.produced@[i]
                            < self.produced@[j] by {
                            if j < trace.len() {
                                assert(trace[i] < trace[j]);
                            } else {
                                assert(self.produced@[i] == trace[i]);
                            }
                        }
                    }
                    self.known_eof = keof;
                    self.section_offset = id;
                    if !truncated || include_truncated {
                        return StreamStep::Ready;
                    }
                    if self.known_eof {
                        // the skipped remnant closed the section
                        if !self.roll() {
                            return StreamStep::End;
                        }
                        return StreamStep::NeedSection;
                    }
                },
                ReadStep::NeedBytes(n) => {
                    return StreamStep::NeedBytes(n);
                },
                ReadStep::NoItem => {
                    return StreamStep::Ready;
                },
                ReadStep::Failed => {
                    self.err = Some(Error::CorruptData);
                    return StreamStep::Ready;
                },
            }
        }
    }

    /// Rolls to the successor component; false when none exists.
    fn roll(&mut self) -> (ok: bool)
        requires
            old(self).wf(),
            old(self).spec_err() is None,
            !old(self).spec_ended(),
        ensures
            final(self).wf(),
            final(self).spec_err() is None,
            final(self).spec_last_token() == old(self).spec_last_token(),
            final(self).spec_produced() == old(self).spec_produced(),
            final(self).spec_max_file_size() == old(self).spec_max_file_size(),
            ok <==> old(self).spec_component().spec_encode() < MAX_COMPONENT_ENCODED_VALUE,
            ok ==> !final(self).spec_has_section() && !final(self).spec_known_eof() && !final(self).spec_ended() && final(self).spec_section_offset() == 0 && final(self).spec_component().spec_encode() == old(self).spec_component().spec_encode() + 1,
            !ok ==> final(self).spec_ended() && !final(self).spec_has_section() && final(self).spec_component() == old(self).spec_component(),
    {
        proof {
            crate::component::lemma_component_round_trip(self.component);
        }
        match self.component.next() {
            Some(c) => {
                proof {
                    let e = self.component.spec_encode();
                    match self.last_token@ {
                        Some(t) => {
                            assert(t <= spec_offset_encode(e, self.section_offset as int));
                            crate::token::lemma_token_order(
                                e,
                                self.section_offset as int,
                                e + 1,
                                0,
                            );
                        },
                        None => {},
                    }
                }
                self.component = c;
                self.known_eof = false;
                self.has_section = false;
                self.section_offset = 0;
                true
            },
            None => {
                self.ended = true;
                self.has_section = false;
                false
            },
        }
    }

    /// Answers `NeedSection`: reports whether the current component's
    /// file exists, opening a reader at the streamer's offset when it
    /// does. The embedding must afterwards feed bytes read from that
    /// offset onward.
    pub fn open_section(&mut self, exists: bool)
        requires
            old(self).wf(),
            !old(self).spec_has_section(),
            old(self).spec_err() is None,
        ensures
            final(self).wf(),
            final(self).spec_component() == old(self).spec_component(),
            final(self).spec_section_offset() == old(self).spec_section_offset(),
            final(self).spec_err() is None,
            final(self).spec_known_eof() == old(self).spec_known_eof(),
            final(self).spec_ended() == old(self).spec_ended(),
            final(self).spec_last_token() == old(self).spec_last_token(),
            exists ==> final(self).spec_has_section() && final(self).spec_reader().fed() == Seq::<
                u8,
            >::empty() && final(self).spec_reader().spec_current() is None,
            !exists ==> *final(self) == *old(self),
    {
        if exists {
            self.section = Reader::new(
                self.section_offset,
                self.max_file_size,
                self.max_item_size,
                self.read_chunk_size,
            );
            self.has_section = true;
        }
    }

    /// Answers `NeedBytes`: hands over the next bytes of the current
    /// section file. An empty slice says the file has no more bytes
    /// right now.
    pub fn feed(&mut self, bytes: &[u8])
        requires
            old(self).wf(),
            old(self).spec_has_section(),
            old(self).spec_err() is None,
            old(self).spec_reader().spec_position() + old(self).spec_reader().unconsumed().len()
                + bytes@.len() <= 0xFFFF_FFFF,
        ensures
            final(self).wf(),
            final(self).spec_component() == old(self).spec_component(),
            final(self).spec_section_offset() == old(self).spec_section_offset(),
            final(self).spec_has_section(),
            final(self).spec_err() is None,
            final(self).spec_known_eof() == old(self).spec_known_eof(),
            final(self).spec_ended() == old(self).spec_ended(),
            final(self).spec_last_token() == old(self).spec_last_token(),
            final(self).spec_reader().fed() == old(self).spec_reader().fed() + bytes@,
            final(self).spec_reader().spec_current() == old(self).spec_reader().spec_current(),
    {
        self.section.feed(bytes);
    }

    /// The component whose section file the streamer wants opened or
    /// read; the embedding derives the file path from it.
    pub fn component(&self) -> (c: Component)
        ensures
            c == self.spec_component(),
    {
        self.component
    }

    /// The in-section byte offset to seek to when opening the current
    /// section's file.
    pub fn section_offset(&self) -> (r: u32)
        ensures
            r as int == self.spec_section_offset(),
    {
        self.section_offset
    }

    /// The current item with its kind: the most recently delivered
    /// record, `None` when the streamer stands before one, or the
    /// latched error.
    pub fn current_all(&self) -> (r: Result<Option<(QueueItem, QueueItemType)>, Error>)
        requires
            self.wf(),
        ensures
            ({
                match self.spec_err() {
                    Some(e) => r == Err::<Option<(QueueItem, QueueItemType)>, Error>(e),
                    None => {
                        if !self.spec_has_section() {
                            r == Ok::<Option<(QueueItem, QueueItemType)>, Error>(None)
                        } else {
                            match self.spec_reader().spec_current() {
                                None => r == Ok::<Option<(QueueItem, QueueItemType)>, Error>(
                                    None,
                                ),
                                Some(item) => r matches Ok(o) && (o matches Some(p) && {
                                    let (qi, ty) = p;
                                    &&& qi.id as int == spec_offset_encode(
                                        self.spec_component().spec_encode(),
                                        item.id as int,
                                    )
                                    &&& qi.data@ == item.data@
                                    &&& (ty is Truncated <==> item.truncated)
                                }),
                            }
                        }
                    },
                }
            }),
    {
        match self.err {
            Some(e) => Err(e),
            None => {
                if !self.has_section {
                    return Ok(None);
                }
                match self.section.current() {
                    Err(e) => {
                        proof {
                            assert(false);
                        }
                        Err(e)
                    },
                    Ok(None) => Ok(None),
                    Ok(Some(item)) => {
                        let id = offset_encode(&self.component, item.id);
                        let data = crate::bytes::copy_to_vec(item.data.as_slice());
                        let ty = if item.truncated {
                            QueueItemType::Truncated
                        } else {
                            QueueItemType::Regular
                        };
                        Ok(Some((QueueItem { id, data }, ty)))
                    },
                }
            },
        }
    }

    /// The current item without its kind.
    pub fn current(&self) -> (r: Result<Option<QueueItem>, Error>)
        requires
            self.wf(),
        ensures
            ({
                match self.spec_err() {
                    Some(e) => r == Err::<Option<QueueItem>, Error>(e),
                    None => {
                        if !self.spec_has_section() {
                            r == Ok::<Option<QueueItem>, Error>(None)
                        } else {
                            match self.spec_reader().spec_current() {
                                None => r == Ok::<Option<QueueItem>, Error>(None),
                                Some(item) => r matches Ok(o) && (o matches Some(qi) && qi.id as int
                                    == spec_offset_encode(
                                    self.spec_component().spec_encode(),
                                    item.id as int,
                                ) && qi.data@ == item.data@),
                            }
                        }
                    },
                }
            }),
    {
        match self.current_all() {
            Ok(Some((item, _))) => Ok(Some(item)),
            Ok(None) => Ok(None),
            Err(e) => Err(e),
        }
    }
}

} // verus!
