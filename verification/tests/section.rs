use depot::error::Error;
use depot::reader::ReadStep;
use depot::reader::Reader;
use depot::section::SectionWriter;
use depot::section::last_id;
use depot::section::recovery_pad;

/// Reads every item out of `file` starting at byte `start`, returning
/// (id, data, known_eof, truncated) tuples.
fn read_all(file: &[u8], start: u32, max_file_size: u32) -> Vec<(u32, Vec<u8>, bool, bool)> {
    let mut reader = Reader::new(start, max_file_size, 8192, 8192);
    let mut cursor = start as usize;
    let mut items = Vec::new();
    loop {
        match reader.advance() {
            ReadStep::Produced => {
                let item = reader.current().unwrap().unwrap();
                items.push((item.id, item.data.clone(), item.known_eof, item.truncated));
            }
            ReadStep::NeedBytes(n) => {
                let end = std::cmp::min(file.len(), cursor + n);
                reader.feed(&file[cursor..end]);
                cursor = end;
            }
            ReadStep::NoItem => return items,
            ReadStep::Failed => panic!("reader failed: {:?}", reader.current().unwrap_err()),
        }
    }
}

#[test]
fn single_record_on_disk() {
    let (mut writer, pad) = SectionWriter::open(&[], 2_147_287_039, 8192).unwrap();
    assert!(pad.is_empty());
    assert!(writer.is_empty());
    assert_eq!(writer.last_id(), None);

    let mut file: Vec<u8> = Vec::new();
    let bytes = writer.append(&[0x00, 0x0A, 0x2D, 0x5C, 0xFF]).unwrap();
    file.extend_from_slice(&bytes);

    // the last complete record ends in the separator
    assert_eq!(*file.last().unwrap(), 0x0A);
    assert_eq!(writer.last_id(), Some(0));
    assert!(!writer.is_empty());

    let items = read_all(&file, 0, 2_147_287_039);
    assert_eq!(items.len(), 1);
    let (id, data, known_eof, truncated) = &items[0];
    assert_eq!(*id, file.len() as u32);
    assert_eq!(data, &vec![0x00, 0x0A, 0x2D, 0x5C, 0xFF]);
    assert!(!known_eof);
    assert!(!truncated);
}

#[test]
fn writer_rejects_oversized_and_full() {
    // a record longer than the item limit is invalid input
    let (mut writer, _) = SectionWriter::open(&[], 2_147_287_039, 8).unwrap();
    assert_eq!(writer.append(&[0u8; 9]), Err(Error::InvalidInput));

    // once the cursor reaches the threshold the section is full
    let (mut writer, _) = SectionWriter::open(&[], 4, 8192).unwrap();
    let mut file: Vec<u8> = Vec::new();
    file.extend_from_slice(&writer.append(b"ab").unwrap());
    assert!(!writer.is_full());
    file.extend_from_slice(&writer.append(b"cd").unwrap());
    assert!(writer.is_full());
    assert_eq!(writer.append(b"ef"), Err(Error::SectionFull));
    assert_eq!(writer.last_id(), Some(3));
    assert_eq!(file, b"ab\ncd\n".to_vec());
}

#[test]
fn recovery_pads_dangling_record() {
    // a file ending mid-record gets two fail markers and a separator
    assert_eq!(recovery_pad(b"ab\ncd"), vec![0x2D, 0x2D, 0x0A]);
    // a crash right after recovery wrote its two markers needs only
    // the separator
    assert_eq!(recovery_pad(&[b'a', 0x2D, 0x2D]), vec![0x0A]);
    // a clean file and an empty file need nothing
    assert_eq!(recovery_pad(b"ab\n"), Vec::<u8>::new());
    assert_eq!(recovery_pad(b""), Vec::<u8>::new());
}

#[test]
fn recovery_is_idempotent() {
    let mut file = b"ab\ncd".to_vec();
    let pad = recovery_pad(&file);
    file.extend_from_slice(&pad);
    assert_eq!(*file.last().unwrap(), 0x0A);
    // a second recovery changes nothing
    assert_eq!(recovery_pad(&file), Vec::<u8>::new());

    // reopening a recovered file is a no-op and record order is kept
    let before = read_all(&file, 0, 2_147_287_039);
    let (_, pad2) = SectionWriter::open(&file, 2_147_287_039, 8192).unwrap();
    assert!(pad2.is_empty());
    let after = read_all(&file, 0, 2_147_287_039);
    assert_eq!(before.len(), after.len());
    assert_eq!(before, after);
}

#[test]
fn writer_open_recovers_crashed_file() {
    // write records, then "crash" with a dangling escape byte
    let (mut writer, _) = SectionWriter::open(&[], 2_147_287_039, 8192).unwrap();
    let mut file: Vec<u8> = Vec::new();
    for i in 0..10 {
        let record = format!("record {}", i);
        file.extend_from_slice(&writer.append(record.as_bytes()).unwrap());
    }
    file.push(0x5C);

    let (reopened, pad) = SectionWriter::open(&file, 2_147_287_039, 8192).unwrap();
    assert_eq!(pad, vec![0x2D, 0x2D, 0x0A]);
    file.extend_from_slice(&pad);

    // the recovered remnant is the section's last record
    assert_eq!(reopened.last_id(), Some((file.len() - 4) as u32));

    let items = read_all(&file, 0, 2_147_287_039);
    assert_eq!(items.len(), 11);
    for i in 0..10 {
        assert_eq!(items[i].1, format!("record {}", i).into_bytes());
        assert!(!items[i].3);
    }
    // the remnant is surfaced raw: the escape byte plus both markers
    assert!(items[10].3);
    assert_eq!(items[10].1, vec![0x5C, 0x2D, 0x2D]);
}

#[test]
fn last_id_finds_last_record_start() {
    assert_eq!(last_id(b"ab\ncd\n"), Ok(Some(3)));
    assert_eq!(last_id(b"ab\n"), Ok(Some(0)));
    assert_eq!(last_id(b""), Ok(None));
    assert_eq!(last_id(b"abc"), Err(Error::CorruptData));
    // an unterminated tail belongs to no record yet
    assert_eq!(last_id(b"ab\ncd"), Ok(Some(0)));
}

#[test]
fn reader_carries_partial_records_across_feeds() {
    let mut reader = Reader::new(0, 2_147_287_039, 8192, 8192);

    // hand over half a record: the reader wants more
    assert!(matches!(reader.advance(), ReadStep::NeedBytes(_)));
    reader.feed(b"hel");
    assert!(matches!(reader.advance(), ReadStep::NeedBytes(_)));

    // nothing more right now: no item, poll later
    reader.feed(b"");
    assert!(matches!(reader.advance(), ReadStep::NoItem));
    assert!(reader.current().unwrap().is_none());

    // the producer wrote the rest: the record completes
    assert!(matches!(reader.advance(), ReadStep::NeedBytes(_)));
    reader.feed(b"lo\nwor");
    assert!(matches!(reader.advance(), ReadStep::Produced));
    let item = reader.current().unwrap().unwrap();
    assert_eq!(item.data, b"hello".to_vec());
    assert_eq!(item.id, 6);
}

#[test]
fn reader_latches_errors() {
    // an invalid escape inside a terminated record is corrupt data,
    // and the failure latches
    let mut reader = Reader::new(0, 2_147_287_039, 8192, 8192);
    assert!(matches!(reader.advance(), ReadStep::NeedBytes(_)));
    reader.feed(&[b'a', 0x5C, b'q', 0x0A]);
    assert!(matches!(reader.advance(), ReadStep::Failed));
    assert_eq!(reader.current().unwrap_err(), Error::CorruptData);
    assert!(matches!(reader.advance(), ReadStep::Failed));
    assert_eq!(reader.current().unwrap_err(), Error::Halted);
}

#[test]
fn reader_rejects_unterminated_giant_record() {
    // with a tiny item limit, a long stretch without a separator can
    // be no legal record
    let mut reader = Reader::new(0, 2_147_287_039, 4, 16);
    let mut failed = false;
    for _ in 0..8 {
        match reader.advance() {
            ReadStep::NeedBytes(n) => {
                let chunk = vec![b'x'; n];
                reader.feed(&chunk);
            }
            ReadStep::Failed => {
                failed = true;
                break;
            }
            _ => panic!("expected more reads or a failure"),
        }
    }
    assert!(failed);
    assert_eq!(reader.current().unwrap_err(), Error::CorruptData);
}
