//! Byte-level escape encoding and decoding of records.
//!
//! Four sentinel byte values are reserved on disk: a record is its
//! payload with each sentinel escape-expanded, followed by a single
//! separator byte. The separator therefore never appears inside a
//! record's encoded bytes, so records can always be split by scanning
//! for the separator.

use vstd::prelude::*;

use crate::error::Error;

verus! {

/// Escape introducer (`\`).
pub const MARKER_ESCAPE: u8 = 0x5c;

/// Record terminator (`\n`); never appears inside an encoded record.
pub const MARKER_SEPARATOR: u8 = 0x0a;

/// Escaped form of the separator (`$`).
pub const MARKER_SEPARATOR_REMAP: u8 = 0x24;

/// Truncation marker (`-`); ends the raw bytes of a truncated record.
pub const MARKER_FAIL: u8 = 0x2d;

/// Escaped form of the truncation marker (`.`).
pub const MARKER_FAIL_REMAP: u8 = 0x2e;

/// The on-disk expansion of one payload byte.
pub open spec fn spec_escape_byte(b: u8) -> Seq<u8> {
    if b == MARKER_ESCAPE {
        seq![MARKER_ESCAPE, MARKER_ESCAPE]
    } else if b == MARKER_SEPARATOR {
        seq![MARKER_ESCAPE, MARKER_SEPARATOR_REMAP]
    } else if b == MARKER_FAIL {
        seq![MARKER_ESCAPE, MARKER_FAIL_REMAP]
    } else {
        seq![b]
    }
}

/// The on-disk expansion of a whole payload, without the terminator.
pub open spec fn spec_encode_payload(data: Seq<u8>) -> Seq<u8>
    decreases data.len(),
{
    if data.len() == 0 {
        Seq::empty()
    } else {
        spec_escape_byte(data[0]) + spec_encode_payload(data.skip(1))
    }
}

/// The full on-disk form of one record: escaped payload, then separator.
pub open spec fn spec_encode_record(data: Seq<u8>) -> Seq<u8> {
    spec_encode_payload(data) + seq![MARKER_SEPARATOR]
}

/// The on-disk form of a sequence of records, in order.
pub open spec fn spec_encode_all(records: Seq<Seq<u8>>) -> Seq<u8>
    decreases records.len(),
{
    if records.len() == 0 {
        Seq::empty()
    } else {
        spec_encode_record(records[0]) + spec_encode_all(records.skip(1))
    }
}

/// Inverse of the payload encoding. `None` when an escape introducer
/// is followed by anything but the three accepted remap bytes, or by
/// nothing at all.
pub open spec fn spec_decode_payload(raw: Seq<u8>) -> Option<Seq<u8>>
    decreases raw.len(),
{
    if raw.len() == 0 {
        Some(Seq::empty())
    } else if raw[0] == MARKER_ESCAPE {
        if raw.len() >= 2 && (raw[1] == MARKER_ESCAPE || raw[1] == MARKER_SEPARATOR_REMAP
            || raw[1] == MARKER_FAIL_REMAP) {
            let unescaped = if raw[1] == MARKER_ESCAPE {
                MARKER_ESCAPE
            } else if raw[1] == MARKER_SEPARATOR_REMAP {
                MARKER_SEPARATOR
            } else {
                MARKER_FAIL
            };
            match spec_decode_payload(raw.skip(2)) {
                Some(rest) => Some(seq![unescaped] + rest),
                None => None,
            }
        } else {
            None
        }
    } else {
        match spec_decode_payload(raw.skip(1)) {
            Some(rest) => Some(seq![raw[0]] + rest),
            None => None,
        }
    }
}

/// Encodes one payload byte by byte.
pub fn encode_record(data: &[u8]) -> (out: Vec<u8>)
    ensures
        out@ == spec_encode_record(data@),
        out@.len() <= 2 * data@.len() + 1,
{
    let mut out: Vec<u8> = Vec::new();
    let mut i: usize = 0;
    while i < data.len()
        invariant
            i <= data@.len(),
            out@ == spec_encode_payload(data@.take(i as int)),
            out@.len() <= 2 * i,
        decreases data@.len() - i,
    {
        let b = data[i];
        proof {
            lemma_encode_payload_push(data@.take(i as int), b);
            assert(data@.take(i as int).push(b) =~= data@.take(i as int + 1));
        }
        if b == MARKER_ESCAPE {
            out.push(MARKER_ESCAPE);
            out.push(MARKER_ESCAPE);
        } else if b == MARKER_SEPARATOR {
            out.push(MARKER_ESCAPE);
            out.push(MARKER_SEPARATOR_REMAP);
        } else if b == MARKER_FAIL {
            out.push(MARKER_ESCAPE);
            out.push(MARKER_FAIL_REMAP);
        } else {
            out.push(b);
        }
        i = i + 1;
    }
    proof {
        assert(data@.take(data@.len() as int) =~= data@);
    }
    out.push(MARKER_SEPARATOR);
    out
}

/// Appending one byte to a payload appends its expansion to the encoding.
pub proof fn lemma_encode_payload_push(data: Seq<u8>, b: u8)
    ensures
        spec_encode_payload(data.push(b)) == spec_encode_payload(data) + spec_escape_byte(b),
    decreases data.len(),
{
    if data.len() == 0 {
        assert(data.push(b)[0] == b);
        assert(data.push(b).skip(1) =~= Seq::<u8>::empty());
        assert(spec_encode_payload(data.push(b)) == spec_escape_byte(b)
            + spec_encode_payload(Seq::<u8>::empty()));
        assert(spec_escape_byte(b) + Seq::<u8>::empty() =~= spec_escape_byte(b));
        assert(spec_encode_payload(data) + spec_escape_byte(b) =~= spec_escape_byte(b));
    } else {
        assert(data.push(b)[0] == data[0]);
        assert(data.push(b).skip(1) =~= data.skip(1).push(b));
        lemma_encode_payload_push(data.skip(1), b);
        assert(spec_encode_payload(data.push(b)) == spec_escape_byte(data[0])
            + (spec_encode_payload(data.skip(1)) + spec_escape_byte(b)));
        assert(spec_escape_byte(data[0]) + (spec_encode_payload(data.skip(1))
            + spec_escape_byte(b)) =~= (spec_escape_byte(data[0])
            + spec_encode_payload(data.skip(1))) + spec_escape_byte(b));
    }
}

/// Decodes the escaped bytes of one record (everything before its
/// terminating separator).
pub fn decode_payload(raw: &[u8]) -> (r: Result<Vec<u8>, Error>)
    ensures
        spec_decode_payload(raw@) is Some ==> (r matches Ok(out)
            && out@ == spec_decode_payload(raw@)->Some_0),
        spec_decode_payload(raw@) is None ==> r == Err::<Vec<u8>, Error>(Error::CorruptData),
{
    let mut out: Vec<u8> = Vec::new();
    let mut i: usize = 0;
    proof {
        assert(raw@.skip(0) =~= raw@);
        if spec_decode_payload(raw@) is Some {
            assert(Seq::<u8>::empty() + spec_decode_payload(raw@)->Some_0 =~= spec_decode_payload(
                raw@,
            )->Some_0);
        }
    }
    while i < raw.len()
        invariant
            i <= raw@.len(),
            spec_decode_payload(raw@.skip(i as int)) is Some ==> spec_decode_payload(raw@)
                == Some(out@ + spec_decode_payload(raw@.skip(i as int))->Some_0),
            spec_decode_payload(raw@.skip(i as int)) is None ==> spec_decode_payload(
                raw@,
            ) is None,
        decreases raw@.len() - i,
    {
        let ghost pre = raw@.skip(i as int);
        proof {
            assert(pre[0] == raw@[i as int]);
        }
        let b = raw[i];
        if b == MARKER_ESCAPE {
            if i + 1 == raw.len() {
                assert(spec_decode_payload(pre) is None);
                return Err(Error::CorruptData);
            }
            proof {
                assert(pre[1] == raw@[i as int + 1]);
            }
            let c = raw[i + 1];
            let unescaped = if c == MARKER_ESCAPE {
                MARKER_ESCAPE
            } else if c == MARKER_SEPARATOR_REMAP {
                MARKER_SEPARATOR
            } else if c == MARKER_FAIL_REMAP {
                MARKER_FAIL
            } else {
                assert(spec_decode_payload(pre) is None);
                return Err(Error::CorruptData);
            };
            proof {
                assert(pre.skip(2) =~= raw@.skip(i as int + 2));
                if spec_decode_payload(raw@.skip(i as int + 2)) is Some {
                    let rest = spec_decode_payload(raw@.skip(i as int + 2))->Some_0;
                    assert(spec_decode_payload(pre) == Some(seq![unescaped] + rest));
                    assert(out@ + (seq![unescaped] + rest) =~= out@.push(unescaped) + rest);
                }
            }
            out.push(unescaped);
            i = i + 2;
        } else {
            proof {
                assert(pre.skip(1) =~= raw@.skip(i as int + 1));
                if spec_decode_payload(raw@.skip(i as int + 1)) is Some {
                    let rest = spec_decode_payload(raw@.skip(i as int + 1))->Some_0;
                    assert(spec_decode_payload(pre) == Some(seq![b] + rest));
                    assert(out@ + (seq![b] + rest) =~= out@.push(b) + rest);
                }
            }
            out.push(b);
            i = i + 1;
        }
    }
    proof {
        assert(raw@.skip(i as int) =~= Seq::<u8>::empty());
        assert(out@ + Seq::<u8>::empty() =~= out@);
    }
    Ok(out)
}

/// No byte of an encoded payload is the separator or the raw
/// truncation marker: both are always escape-expanded.
pub proof fn lemma_encode_payload_clean(data: Seq<u8>)
    ensures
        forall|i: int| 0 <= i < spec_encode_payload(data).len() ==> #[trigger] spec_encode_payload(
            data,
        )[i] != MARKER_SEPARATOR && spec_encode_payload(data)[i] != MARKER_FAIL,
    decreases data.len(),
{
    if data.len() > 0 {
        lemma_encode_payload_clean(data.skip(1));
        let e = spec_escape_byte(data[0]);
        let rest = spec_encode_payload(data.skip(1));
        assert(spec_encode_payload(data) == e + rest);
        assert forall|i: int| 0 <= i < spec_encode_payload(data).len() implies spec_encode_payload(
            data,
        )[i] != MARKER_SEPARATOR && spec_encode_payload(data)[i] != MARKER_FAIL by {
            if i < e.len() {
                assert(spec_encode_payload(data)[i] == e[i]);
            } else {
                assert(spec_encode_payload(data)[i] == rest[i - e.len()]);
            }
        }
    }
}

/// Decoding inverts encoding: the escape scheme loses nothing.
pub proof fn lemma_decode_encode(data: Seq<u8>)
    ensures
        spec_decode_payload(spec_encode_payload(data)) == Some(data),
    decreases data.len(),
{
    if data.len() == 0 {
        assert(spec_encode_payload(data) =~= Seq::<u8>::empty());
    } else {
        let b = data[0];
        let enc = spec_encode_payload(data);
        let rest_enc = spec_encode_payload(data.skip(1));
        lemma_decode_encode(data.skip(1));
        if b == MARKER_ESCAPE || b == MARKER_SEPARATOR || b == MARKER_FAIL {
            assert(enc.len() >= 2);
            assert(enc[0] == MARKER_ESCAPE);
            assert(enc.skip(2) =~= rest_enc);
            assert(seq![b] + data.skip(1) =~= data);
        } else {
            assert(enc[0] == b);
            assert(enc.skip(1) =~= rest_enc);
            assert(seq![b] + data.skip(1) =~= data);
        }
    }
}

} // verus!
