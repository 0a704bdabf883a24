//! Length-prefixed binary-blob framing: one marker byte chooses the width
//! of an unsigned big-endian length field, and exactly that many payload
//! bytes follow. Marker `0xc4` takes a one-byte length, `0xc5` a two-byte
//! length, `0xc6` a four-byte length; no other marker frames a record.

use vstd::prelude::*;

verus! {

/// A record could not be framed out of the byte stream.
#[derive(Clone, Copy, Debug, PartialEq, Eq, Structural)]
pub enum FramingError {
    /// The length prefix has a bad marker or is itself cut short.
    MalformedLength,
    /// The length prefix declares more payload bytes than remain.
    TruncatedPayload,
}

/// A complete length prefix starts at `pos`: a recognised marker whose
/// length field lies fully inside the stream.
pub open spec fn header_ok(data: Seq<u8>, pos: int) -> bool {
    &&& 0 <= pos < data.len()
    &&& {
        ||| data[pos] == 0xc4u8 && pos + 2 <= data.len()
        ||| data[pos] == 0xc5u8 && pos + 3 <= data.len()
        ||| data[pos] == 0xc6u8 && pos + 5 <= data.len()
    }
}

/// Bytes taken by the length prefix at `pos`, marker included.
pub open spec fn header_size(data: Seq<u8>, pos: int) -> nat {
    if data[pos] == 0xc4u8 {
        2
    } else if data[pos] == 0xc5u8 {
        3
    } else {
        5
    }
}

/// The payload length the prefix at `pos` declares, big endian.
pub open spec fn payload_len(data: Seq<u8>, pos: int) -> nat {
    if data[pos] == 0xc4u8 {
        data[pos + 1] as nat
    } else if data[pos] == 0xc5u8 {
        (data[pos + 1] as nat) * 0x100 + (data[pos + 2] as nat)
    } else {
        (data[pos + 1] as nat) * 0x1000000 + (data[pos + 2] as nat) * 0x10000 + (data[pos
            + 3] as nat) * 0x100 + (data[pos + 4] as nat)
    }
}

/// First position past the record whose prefix starts at `pos`.
pub open spec fn frame_end(data: Seq<u8>, pos: int) -> int {
    pos + header_size(data, pos) + payload_len(data, pos)
}

/// The whole record at `pos` — prefix and payload — lies inside the stream.
pub open spec fn frame_fits(data: Seq<u8>, pos: int) -> bool {
    header_ok(data, pos) && frame_end(data, pos) <= data.len()
}

/// The payload bytes of the record at `pos`.
pub open spec fn frame_payload(data: Seq<u8>, pos: int) -> Seq<u8> {
    data.subrange(pos + header_size(data, pos), frame_end(data, pos))
}

/// What a byte stream parses to from a given position on: the records
/// framed in order, and how the stream ends.
pub enum StreamModel {
    /// Every record framed; the stream ends exactly at a record boundary.
    Complete { records: Seq<Seq<u8>> },
    /// After `records`, the next length prefix is missing, cut short, or
    /// carries an unrecognised marker.
    BadLength { records: Seq<Seq<u8>> },
    /// After `records`, the next prefix declares more payload bytes than
    /// the stream still holds.
    Cut { records: Seq<Seq<u8>> },
}

/// The records a model carries, whatever its ending.
pub open spec fn stream_records(m: StreamModel) -> Seq<Seq<u8>> {
    match m {
        StreamModel::Complete { records } => records,
        StreamModel::BadLength { records } => records,
        StreamModel::Cut { records } => records,
    }
}

/// The same ending, with `prefix` prepended to the records.
pub open spec fn with_prefix(prefix: Seq<Seq<u8>>, m: StreamModel) -> StreamModel {
    match m {
        StreamModel::Complete { records } => StreamModel::Complete { records: prefix + records },
        StreamModel::BadLength { records } => StreamModel::BadLength { records: prefix + records },
        StreamModel::Cut { records } => StreamModel::Cut { records: prefix + records },
    }
}

/// Parses the stream from `pos` to its end: records in order, then the
/// ending the remaining bytes force.
pub open spec fn stream_model(data: Seq<u8>, pos: int) -> StreamModel
    decreases data.len() - pos,
{
    if pos < 0 || pos >= data.len() {
        StreamModel::Complete { records: Seq::empty() }
    } else if !header_ok(data, pos) {
        StreamModel::BadLength { records: Seq::empty() }
    } else if frame_end(data, pos) > data.len() {
        StreamModel::Cut { records: Seq::empty() }
    } else {
        with_prefix(seq![frame_payload(data, pos)], stream_model(data, frame_end(data, pos)))
    }
}

/// The length prefix a writer puts before a payload of `len` bytes: the
/// smallest of the three markers that can hold `len`, its length field
/// big endian.
pub open spec fn frame_header(len: nat) -> Seq<u8> {
    if len < 0x100 {
        seq![0xc4u8, len as u8]
    } else if len < 0x10000 {
        seq![0xc5u8, (len / 0x100) as u8, (len % 0x100) as u8]
    } else {
        seq![
            0xc6u8,
            (len / 0x1000000) as u8,
            ((len / 0x10000) % 0x100) as u8,
            ((len / 0x100) % 0x100) as u8,
            (len % 0x100) as u8,
        ]
    }
}

/// One framed record: the length prefix, then the payload verbatim.
pub open spec fn framed(payload: Seq<u8>) -> Seq<u8> {
    frame_header(payload.len()) + payload
}

/// A whole stream: the records framed one after the other, nothing else.
pub open spec fn framed_stream(payloads: Seq<Seq<u8>>) -> Seq<u8>
    decreases payloads.len(),
{
    if payloads.len() == 0 {
        Seq::empty()
    } else {
        framed(payloads.first()) + framed_stream(payloads.drop_first())
    }
}

/// A written length prefix reads back as itself: where the bytes of
/// `frame_header(len)` sit at `pos`, the prefix is recognised and
/// declares exactly `len` payload bytes.
proof fn lemma_header_roundtrip(data: Seq<u8>, pos: int, len: nat)
    requires
        len < 0x100000000,
        0 <= pos,
        pos + frame_header(len).len() <= data.len(),
        data.subrange(pos, pos + frame_header(len).len() as int) == frame_header(len),
    ensures
        header_ok(data, pos),
        header_size(data, pos) == frame_header(len).len(),
        payload_len(data, pos) == len,
{
    let hdr = frame_header(len);
    assert forall|i: int| 0 <= i < hdr.len() implies data[pos + i] == hdr[i] by {
        assert(data.subrange(pos, pos + hdr.len() as int)[i] == data[pos + i]);
    }
    if len < 0x100 {
        assert(data[pos] == 0xc4u8);
    } else if len < 0x10000 {
        assert(data[pos] == 0xc5u8);
        vstd::arithmetic::div_mod::lemma_fundamental_div_mod(len as int, 0x100);
        assert(len / 0x100 < 0x100);
    } else {
        assert(data[pos] == 0xc6u8);
        vstd::arithmetic::div_mod::lemma_fundamental_div_mod(len as int, 0x100);
        vstd::arithmetic::div_mod::lemma_fundamental_div_mod(len as int / 0x100, 0x100);
        vstd::arithmetic::div_mod::lemma_fundamental_div_mod(len as int / 0x10000, 0x100);
        vstd::arithmetic::div_mod::lemma_div_denominator(len as int, 0x100, 0x100);
        vstd::arithmetic::div_mod::lemma_div_denominator(len as int, 0x10000, 0x100);
        assert(len / 0x1000000 < 0x100);
    }
}

/// Parsing is shift invariant: the stream `b`, read from `pos`, parses
/// the same whatever bytes stand before it.
proof fn lemma_stream_model_shift(a: Seq<u8>, b: Seq<u8>, pos: int)
    requires
        0 <= pos <= b.len(),
    ensures
        stream_model(a + b, a.len() + pos) == stream_model(b, pos),
    decreases b.len() - pos,
{
    let data = a + b;
    let p = a.len() + pos;
    if pos < b.len() {
        assert(data[p] == b[pos]);
        if b[pos] == 0xc4u8 && pos + 2 <= b.len() {
            assert(data[p + 1] == b[pos + 1]);
        } else if b[pos] == 0xc5u8 && pos + 3 <= b.len() {
            assert(data[p + 1] == b[pos + 1]);
            assert(data[p + 2] == b[pos + 2]);
        } else if b[pos] == 0xc6u8 && pos + 5 <= b.len() {
            assert(data[p + 1] == b[pos + 1]);
            assert(data[p + 2] == b[pos + 2]);
            assert(data[p + 3] == b[pos + 3]);
            assert(data[p + 4] == b[pos + 4]);
        }
        assert(header_ok(data, p) <==> header_ok(b, pos));
        if frame_fits(b, pos) {
            let e = frame_end(b, pos);
            assert(frame_end(data, p) == a.len() + e);
            assert(frame_payload(data, p) =~= frame_payload(b, pos));
            lemma_stream_model_shift(a, b, e);
        }
    }
}

/// A framed stream of encodable payloads parses back completely, to
/// exactly those payloads in order.
pub proof fn lemma_framed_stream_complete(payloads: Seq<Seq<u8>>)
    requires
        forall|i: int| 0 <= i < payloads.len() ==> (#[trigger] payloads[i]).len() < 0x100000000,
    ensures
        stream_model(framed_stream(payloads), 0) == (StreamModel::Complete { records: payloads }),
    decreases payloads.len(),
{
    if payloads.len() == 0 {
        assert(Seq::<Seq<u8>>::empty() =~= payloads);
    } else {
        let first = payloads.first();
        let rest = payloads.drop_first();
        let hdr = frame_header(first.len());
        let data = framed_stream(payloads);
        assert(payloads[0] == first);
        assert(data == framed(first) + framed_stream(rest));
        assert(data.subrange(0, hdr.len() as int) =~= hdr);
        lemma_header_roundtrip(data, 0, first.len());
        assert(frame_end(data, 0) == framed(first).len());
        assert(frame_payload(data, 0) =~= first);
        assert(frame_fits(data, 0));
        lemma_stream_model_shift(framed(first), framed_stream(rest), 0);
        assert forall|i: int| 0 <= i < rest.len() implies (#[trigger] rest[i]).len()
            < 0x100000000 by {
            assert(rest[i] == payloads[i + 1]);
        }
        lemma_framed_stream_complete(rest);
        assert(seq![frame_payload(data, 0)] =~= seq![first]);
        assert(seq![first] + rest =~= payloads);
    }
}

/// Streams length-prefixed records out of an in-memory byte sequence.
pub struct RecordReader<'a> {
    data: &'a Vec<u8>,
    pos: usize,
}

impl<'a> RecordReader<'a> {
    /// The underlying bytes.
    pub closed spec fn data_spec(&self) -> Seq<u8> {
        self.data@
    }

    /// The position of the next unread byte.
    pub closed spec fn pos_spec(&self) -> int {
        self.pos as int
    }

    /// The position never passes the end of the stream.
    pub open spec fn wf(&self) -> bool {
        0 <= self.pos_spec() <= self.data_spec().len()
    }

    /// A reader at the start of the stream.
    pub fn new(data: &'a Vec<u8>) -> (r: RecordReader<'a>)
        ensures
            r.wf(),
            r.data_spec() == data@,
            r.pos_spec() == 0,
    {
        RecordReader { data, pos: 0 }
    }

    /// The next record's payload, `Ok(None)` at a clean end of stream, or
    /// the framing error the remaining bytes force.
    pub fn next_record(&mut self) -> (r: Result<Option<Vec<u8>>, FramingError>)
        requires
            old(self).wf(),
        ensures
            final(self).wf(),
            final(self).data_spec() == old(self).data_spec(),
            ({
                let d = old(self).data_spec();
                let p = old(self).pos_spec();
                match r {
                    Ok(opt) => match opt {
                        Some(rec) => {
                            &&& frame_fits(d, p)
                            &&& rec@ == frame_payload(d, p)
                            &&& final(self).pos_spec() == frame_end(d, p)
                        },
                        None => p == d.len() && final(self).pos_spec() == p,
                    },
                    Err(e) => {
                        &&& final(self).pos_spec() == p
                        &&& p < d.len()
                        &&& match e {
                            FramingError::MalformedLength => !header_ok(d, p),
                            FramingError::TruncatedPayload => header_ok(d, p) && frame_end(d, p)
                                > d.len(),
                        }
                    },
                }
            }),
    {
        let n = self.data.len();
        if self.pos == n {
            return Ok(None);
        }
        let marker = self.data[self.pos];
        let remaining = n - self.pos;
        let hsize: usize;
        let plen: usize;
        if marker == 0xc4 {
            if remaining < 2 {
                return Err(FramingError::MalformedLength);
            }
            hsize = 2;
            plen = self.data[self.pos + 1] as usize;
        } else if marker == 0xc5 {
            if remaining < 3 {
                return Err(FramingError::MalformedLength);
            }
            hsize = 3;
            let b1 = self.data[self.pos + 1] as usize;
            let b2 = self.data[self.pos + 2] as usize;
            plen = b1 * 0x100 + b2;
        } else if marker == 0xc6 {
            if remaining < 5 {
                return Err(FramingError::MalformedLength);
            }
            hsize = 5;
            let b1 = self.data[self.pos + 1] as usize;
            let b2 = self.data[self.pos + 2] as usize;
            let b3 = self.data[self.pos + 3] as usize;
            let b4 = self.data[self.pos + 4] as usize;
            plen = b1 * 0x1000000 + b2 * 0x10000 + b3 * 0x100 + b4;
        } else {
            return Err(FramingError::MalformedLength);
        }
        let start = self.pos + hsize;
        if plen > n - start {
            return Err(FramingError::TruncatedPayload);
        }
        let mut buf: Vec<u8> = Vec::new();
        let mut k: usize = 0;
        while k < plen
            invariant
                self.data_spec().len() <= usize::MAX,
                self.pos_spec() + hsize + plen <= self.data_spec().len(),
                start == self.pos_spec() + hsize,
                k <= plen,
                buf@.len() == k,
                forall|j: int| 0 <= j < k ==> buf@[j] == self.data_spec()[start + j],
            decreases plen - k,
        {
            buf.push(self.data[start + k]);
            k = k + 1;
        }
        proof {
            assert(header_size(self.data@, self.pos as int) == hsize);
            assert(payload_len(self.data@, self.pos as int) == plen);
            assert(buf@ =~= frame_payload(self.data@, self.pos as int));
        }
        self.pos = start + plen;
        Ok(Some(buf))
    }
}

} // verus!
