use std::collections::HashMap;

use depot::component::Component;
use depot::error::Error;
use depot::queue::Queue;
use depot::queue::QueueItem;
use depot::queue::QueueItemType;
use depot::queue::QueueStreamer;
use depot::queue::StreamStep;

/// The queue's directory tree, reduced to what the library reads and
/// writes: one byte vector per component encoding, plus the read
/// cursor of the currently open section.
struct Disk {
    files: HashMap<u32, Vec<u8>>,
    cursor: usize,
}

impl Disk {
    fn new() -> Disk {
        Disk { files: HashMap::new(), cursor: 0 }
    }

    fn open_queue(&mut self, max_file_size: u32) -> Queue {
        let existing: Vec<u8> = self.files.get(&0).cloned().unwrap_or_default();
        let (q, pad) =
            Queue::open(Component::new(), &existing, max_file_size, 65536, 8192).unwrap();
        self.files.entry(0).or_default().extend_from_slice(&pad);
        q
    }

    /// Appends one record, rolling to the next section when the
    /// current one is full.
    fn append(&mut self, q: &mut Queue, data: &[u8]) {
        loop {
            match q.append(data) {
                Ok(bytes) => {
                    let enc = q.component().encode();
                    self.files.entry(enc).or_default().extend_from_slice(&bytes);
                    return;
                }
                Err(Error::SectionFull) => {
                    let pad = q.advance(&[]).unwrap();
                    let enc = q.component().encode();
                    self.files.entry(enc).or_default().extend_from_slice(&pad);
                }
                Err(e) => panic!("append failed: {:?}", e),
            }
        }
    }

    /// Drives the streamer to its next outcome, doing the file work it
    /// asks for.
    fn next_item(
        &mut self,
        s: &mut QueueStreamer,
        include_truncated: bool,
    ) -> Result<Option<(QueueItem, QueueItemType)>, Error> {
        loop {
            match s.advance(include_truncated) {
                StreamStep::Ready => return s.current_all(),
                StreamStep::End => return Ok(None),
                StreamStep::NeedSection => {
                    let enc = s.component().encode();
                    if self.files.contains_key(&enc) {
                        self.cursor = s.section_offset() as usize;
                        s.open_section(true);
                    } else {
                        s.open_section(false);
                        return s.current_all();
                    }
                }
                StreamStep::NeedBytes(n) => {
                    let enc = s.component().encode();
                    let file = &self.files[&enc];
                    let end = std::cmp::min(file.len(), self.cursor + n);
                    s.feed(&file[self.cursor..end]);
                    self.cursor = end;
                }
            }
        }
    }
}

#[test]
fn empty_queue() {
    let mut disk = Disk::new();
    let q = disk.open_queue(8_388_608);

    assert!(q.is_empty());
    assert!(!q.is_full());
    assert_eq!(q.last_id(), None);

    let mut s = q.stream(None).unwrap();
    assert!(disk.next_item(&mut s, false).unwrap().is_none());
}

#[test]
fn producer_consumer() {
    let mut disk = Disk::new();
    let mut q = disk.open_queue(8_388_608);
    let size: usize = 1_000_000;

    for i in 0..size {
        let message = format!("the quick brown fox jumped over the lazy dog, -\n #{}", i);
        disk.append(&mut q, message.as_bytes());
    }

    let mut s = q.stream(None).unwrap();
    let mut last_token: Option<u64> = None;
    for i in 0..size {
        let (item, ty) = disk
            .next_item(&mut s, false)
            .unwrap()
            .unwrap_or_else(|| panic!("no item at {}", i));
        let expected = format!("the quick brown fox jumped over the lazy dog, -\n #{}", i);
        assert_eq!(item.data, expected.into_bytes());
        assert!(matches!(ty, QueueItemType::Regular));
        // successive resume tokens are strictly increasing
        if let Some(t) = last_token {
            assert!(item.id > t);
        }
        last_token = Some(item.id);
    }
    assert!(disk.next_item(&mut s, false).unwrap().is_none());
}

#[test]
fn crash_recovery() {
    let mut disk = Disk::new();
    let mut q = disk.open_queue(8_388_608);

    for i in 0..100 {
        let message = format!("record number {}", i);
        disk.append(&mut q, message.as_bytes());
    }

    // the process dies right after writing a lone escape byte
    disk.files.get_mut(&0).unwrap().push(0x5C);

    // reopening pads the dangling record closed
    let before = disk.files[&0].len();
    let q = disk.open_queue(8_388_608);
    let file = &disk.files[&0];
    assert_eq!(&file[before..], &[0x2D, 0x2D, 0x0A]);

    // the recovered remnant is now the last record of the section
    assert_eq!(q.last_id(), Some((file.len() - 4) as u32));
    assert!(!q.is_empty());

    // without truncated items the 100 records come back
    let mut s = q.stream(None).unwrap();
    for i in 0..100 {
        let (item, ty) = disk.next_item(&mut s, false).unwrap().unwrap();
        assert_eq!(item.data, format!("record number {}", i).into_bytes());
        assert!(matches!(ty, QueueItemType::Regular));
    }
    assert!(disk.next_item(&mut s, false).unwrap().is_none());

    // with truncated items the remnant appears exactly once, last
    let mut s = q.stream(None).unwrap();
    let mut regular = 0;
    let mut truncated = 0;
    while let Some((item, ty)) = disk.next_item(&mut s, true).unwrap() {
        match ty {
            QueueItemType::Regular => {
                assert_eq!(truncated, 0);
                regular += 1;
            }
            QueueItemType::Truncated => {
                assert_eq!(item.data, vec![0x5C, 0x2D, 0x2D]);
                truncated += 1;
            }
        }
    }
    assert_eq!(regular, 100);
    assert_eq!(truncated, 1);
}

#[test]
fn section_roll() {
    let mut disk = Disk::new();
    // each record encodes to 9 bytes; 51 fill the first section
    let mut q = disk.open_queue(455);

    for i in 0..100 {
        let message = format!("item {:03}", i);
        disk.append(&mut q, message.as_bytes());
    }

    // exactly the first two components' files exist
    assert!(disk.files.contains_key(&0));
    assert!(disk.files.contains_key(&1));
    assert_eq!(disk.files.len(), 2);
    assert_eq!(q.component().encode(), 1);

    // write order is read order across the roll, and items from the
    // second file carry its component in the token's high half
    let mut s = q.stream(None).unwrap();
    for i in 0..100 {
        let (item, _) = disk.next_item(&mut s, false).unwrap().unwrap();
        assert_eq!(item.data, format!("item {:03}", i).into_bytes());
        let high = (item.id >> 32) as u32;
        if i < 51 {
            assert_eq!(high, 0);
        } else {
            assert_eq!(high, Component::from(0, 0, 0, 1).unwrap().encode());
            assert_eq!(high, 1);
        }
    }
    assert!(disk.next_item(&mut s, false).unwrap().is_none());
}

#[test]
fn resume_from_token() {
    let mut disk = Disk::new();
    let mut q = disk.open_queue(455);

    for i in 0..100 {
        let message = format!("item {:03}", i);
        disk.append(&mut q, message.as_bytes());
    }

    // stream the first 50 items and keep the 50th item's token
    let mut s = q.stream(None).unwrap();
    let mut token: u64 = 0;
    for _ in 0..50 {
        let (item, _) = disk.next_item(&mut s, false).unwrap().unwrap();
        token = item.id;
    }

    // a fresh stream from that token starts at item 51
    let mut resumed = q.stream(Some(token)).unwrap();
    let (item, _) = disk.next_item(&mut resumed, false).unwrap().unwrap();
    assert_eq!(item.data, format!("item {:03}", 50).into_bytes());
}

#[test]
fn streamer_latches_corrupt_data() {
    let mut disk = Disk::new();
    let q = disk.open_queue(8_388_608);

    // an invalid escape sequence inside a terminated record
    disk.files.insert(0, vec![b'a', 0x5C, b'q', 0x0A]);

    let mut s = q.stream(None).unwrap();
    assert_eq!(disk.next_item(&mut s, false).unwrap_err(), Error::CorruptData);
    // the error is latched: later advances keep failing
    assert!(disk.next_item(&mut s, false).is_err());
}

#[test]
fn largest_record_round_trips() {
    // a maximum-size record of escape bytes doubles on disk, spanning
    // several read chunks, and still comes back bit-identical
    let mut disk = Disk::new();
    let mut q = disk.open_queue(8_388_608);
    let record = vec![0x5Cu8; 8192];
    disk.append(&mut q, &record);
    assert_eq!(disk.files[&0].len(), 2 * 8192 + 1);

    let mut s = q.stream(None).unwrap();
    let (item, _) = disk.next_item(&mut s, false).unwrap().unwrap();
    assert_eq!(item.data, record);
    assert!(disk.next_item(&mut s, false).unwrap().is_none());

    // one byte more is rejected as invalid input
    let too_big = vec![0u8; 8193];
    assert_eq!(q.append(&too_big), Err(Error::InvalidInput));
}

#[test]
fn empty_record_round_trips() {
    let mut disk = Disk::new();
    let mut q = disk.open_queue(8_388_608);
    disk.append(&mut q, b"");
    disk.append(&mut q, b"after");
    assert_eq!(disk.files[&0], vec![0x0A, b'a', b'f', b't', b'e', b'r', 0x0A]);

    let mut s = q.stream(None).unwrap();
    let (item, _) = disk.next_item(&mut s, false).unwrap().unwrap();
    assert_eq!(item.data, Vec::<u8>::new());
    let (item, _) = disk.next_item(&mut s, false).unwrap().unwrap();
    assert_eq!(item.data, b"after".to_vec());
}

#[test]
fn queue_full_at_last_component() {
    // a queue standing at the very last component with a full section
    // can never grow again
    let last = Component::from(1, 999, 999, 999).unwrap();
    let (mut q, pad) = Queue::open(last, &[], 4, 8192, 8192).unwrap();
    assert!(pad.is_empty());
    assert!(!q.is_full());

    let mut file: Vec<u8> = Vec::new();
    file.extend_from_slice(&q.append(b"ab").unwrap());
    file.extend_from_slice(&q.append(b"cd").unwrap());
    assert!(q.is_full());
    assert_eq!(q.append(b"ef"), Err(Error::SectionFull));
    assert_eq!(q.advance(&[]), Err(Error::QueueFull));
}

#[test]
fn stream_rejects_bad_token() {
    let mut disk = Disk::new();
    let q = disk.open_queue(8_388_608);
    let bad: u64 = 2_000_000_000u64 << 32;
    assert!(q.stream(Some(bad)).is_err());
}

#[test]
fn queue_reader_polls_while_producer_writes() {
    let mut disk = Disk::new();
    let mut q = disk.open_queue(8_388_608);
    let mut s = q.stream(None).unwrap();

    // nothing yet: the reader backs off
    disk.append(&mut q, b"one");
    assert_eq!(
        disk.next_item(&mut s, false).unwrap().unwrap().0.data,
        b"one".to_vec()
    );
    assert!(disk.next_item(&mut s, false).unwrap().is_none());

    // the producer writes more; the same streamer picks it up
    disk.append(&mut q, b"two");
    assert_eq!(
        disk.next_item(&mut s, false).unwrap().unwrap().0.data,
        b"two".to_vec()
    );
}
