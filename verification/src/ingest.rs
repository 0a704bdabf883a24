//! The batch driver: feeds records from either source through the row
//! validator into the destination matrix, tracking the write cursor and
//! reporting every skipped record.

use vstd::prelude::*;

use crate::framing;
use crate::framing::{FramingError, RecordReader, StreamModel};
use crate::matrix::Matrix;
use crate::record;
use crate::record::{decoded_row, row_well_formed};

verus! {

/// The byte sequences of a list of records.
pub open spec fn byte_rows(records: Seq<Vec<u8>>) -> Seq<Seq<u8>> {
    Seq::new(records.len(), |i: int| records[i]@)
}

/// The well-formed records, in input order.
pub open spec fn kept(records: Seq<Seq<u8>>, w: nat) -> Seq<Seq<u8>>
    decreases records.len(),
{
    if records.len() == 0 {
        Seq::empty()
    } else if row_well_formed(records.last(), w) {
        kept(records.drop_last(), w).push(records.last())
    } else {
        kept(records.drop_last(), w)
    }
}

/// Index and byte length of each malformed record, in input order.
pub open spec fn skip_list(records: Seq<Seq<u8>>, w: nat) -> Seq<(int, int)>
    decreases records.len(),
{
    if records.len() == 0 {
        Seq::empty()
    } else if row_well_formed(records.last(), w) {
        skip_list(records.drop_last(), w)
    } else {
        skip_list(records.drop_last(), w).push(
            ((records.len() - 1) as int, records.last().len() as int),
        )
    }
}

/// There are never fewer records than well-formed records.
pub proof fn lemma_kept_len(records: Seq<Seq<u8>>, w: nat)
    ensures
        kept(records, w).len() <= records.len(),
    decreases records.len(),
{
    if records.len() > 0 {
        lemma_kept_len(records.drop_last(), w);
    }
}

/// Every record is either kept or skipped: the two counts always sum to
/// the record count.
pub proof fn lemma_kept_skip_partition(records: Seq<Seq<u8>>, w: nat)
    ensures
        kept(records, w).len() + skip_list(records, w).len() == records.len(),
    decreases records.len(),
{
    if records.len() > 0 {
        lemma_kept_skip_partition(records.drop_last(), w);
    }
}

/// Keeping distributes over concatenation.
pub proof fn lemma_kept_add(a: Seq<Seq<u8>>, b: Seq<Seq<u8>>, w: nat)
    ensures
        kept(a + b, w) == kept(a, w) + kept(b, w),
    decreases b.len(),
{
    if b.len() == 0 {
        assert(a + b =~= a);
        assert(kept(a, w) + kept(b, w) =~= kept(a, w));
    } else {
        lemma_kept_add(a, b.drop_last(), w);
        assert((a + b).drop_last() =~= a + b.drop_last());
        assert((a + b).last() == b.last());
        if row_well_formed(b.last(), w) {
            assert(kept(a, w) + kept(b.drop_last(), w).push(b.last()) =~= (kept(a, w) + kept(
                b.drop_last(),
                w,
            )).push(b.last()));
        }
    }
}

/// A batch whose records are all well formed keeps every one of them.
pub proof fn lemma_kept_all_well_formed(records: Seq<Seq<u8>>, w: nat)
    requires
        forall|i: int| 0 <= i < records.len() ==> row_well_formed(#[trigger] records[i], w),
    ensures
        kept(records, w) == records,
        skip_list(records, w) == Seq::<(int, int)>::empty(),
    decreases records.len(),
{
    if records.len() > 0 {
        lemma_kept_all_well_formed(records.drop_last(), w);
        assert(kept(records.drop_last(), w).push(records.last()) =~= records);
    }
}

/// Why an ingestion call failed as a whole.
#[derive(Clone, Copy, Debug, PartialEq, Eq, Structural)]
pub enum IngestError {
    /// In-memory path: more records than destination rows, found before
    /// any row is written.
    TooManyRecords,
    /// The destination matrix's column count is not the configured width.
    ShapeMismatch,
    /// File path: a record arrived with every destination row already
    /// filled.
    CapacityExceeded,
    /// File path: a framing error ended the stream.
    Framing(FramingError),
}

/// One skipped record: where it stood in the input, and the byte length
/// that disqualified it.
#[derive(Clone, Copy, Debug, PartialEq, Eq, Structural)]
pub struct SkippedRecord {
    /// Index of the record among all records of the call.
    pub index: usize,
    /// Its byte length, which differs from four bytes per element.
    pub length: usize,
}

/// What one ingestion call did: rows written, and every record skipped.
#[derive(Debug)]
pub struct BatchReport {
    /// Number of rows written, and index of the first row left untouched.
    pub written: usize,
    /// The skipped records, in input order.
    pub skipped: Vec<SkippedRecord>,
}

/// The skipped list names exactly the malformed records, in order, each
/// with its byte length.
pub open spec fn skips_match(skipped: Seq<SkippedRecord>, records: Seq<Seq<u8>>, w: nat) -> bool {
    &&& skipped.len() == skip_list(records, w).len()
    &&& forall|k: int|
        0 <= k < skipped.len() ==> (#[trigger] skipped[k]).index as int == skip_list(records, w)[k].0
            && skipped[k].length as int == skip_list(records, w)[k].1
}

/// The report counts the well-formed records and lists the malformed ones.
pub open spec fn report_matches(report: BatchReport, records: Seq<Seq<u8>>, w: nat) -> bool {
    &&& report.written == kept(records, w).len()
    &&& skips_match(report.skipped@, records, w)
}

/// Rows `0 .. count` hold the decoded well-formed records in input order;
/// rows from `count` on keep the values they had.
pub open spec fn rows_filled(
    m: Seq<Seq<u32>>,
    prior: Seq<Seq<u32>>,
    records: Seq<Seq<u8>>,
    w: nat,
    count: int,
) -> bool {
    &&& forall|j: int| 0 <= j < count ==> #[trigger] m[j] == decoded_row(kept(records, w)[j], w)
    &&& forall|j: int| count <= j < m.len() ==> #[trigger] m[j] == prior[j]
}

/// Ingests an in-memory batch of records. The whole call fails, with the
/// matrix untouched, when the batch has more records than the matrix has
/// rows, or when the matrix's column count is not `width`. Otherwise each
/// well-formed record fills the next row in input order and each malformed
/// one is reported and skipped.
pub fn take_records(records: &Vec<Vec<u8>>, matrix: &mut Matrix, width: usize) -> (r: Result<
    BatchReport,
    IngestError,
>)
    requires
        old(matrix).wf(),
        4 * (width as int) <= usize::MAX as int,
    ensures
        final(matrix).wf(),
        final(matrix).spec_width() == old(matrix).spec_width(),
        final(matrix)@.len() == old(matrix)@.len(),
        ({
            let rv = byte_rows(records@);
            let w = width as nat;
            match r {
                Ok(report) => {
                    &&& records@.len() <= old(matrix)@.len()
                    &&& old(matrix).spec_width() == w
                    &&& report_matches(report, rv, w)
                    &&& report.written + report.skipped@.len() == records@.len()
                    &&& report.written <= old(matrix)@.len()
                    &&& rows_filled(final(matrix)@, old(matrix)@, rv, w, report.written as int)
                },
                Err(e) => final(matrix)@ == old(matrix)@ && match e {
                    IngestError::TooManyRecords => records@.len() > old(matrix)@.len(),
                    IngestError::ShapeMismatch => records@.len() <= old(matrix)@.len() && old(
                        matrix,
                    ).spec_width() != w,
                    _ => false,
                },
            }
        }),
{
    if records.len() > matrix.num_rows() {
        return Err(IngestError::TooManyRecords);
    }
    if matrix.width() != width {
        return Err(IngestError::ShapeMismatch);
    }
    let ghost m0 = *matrix;
    let ghost rv = byte_rows(records@);
    let ghost w = width as nat;
    let mut skipped: Vec<SkippedRecord> = Vec::new();
    let mut idx: usize = 0;
    let mut i: usize = 0;
    while i < records.len()
        invariant
            i <= records@.len(),
            records@.len() <= m0@.len(),
            rv == byte_rows(records@),
            w == width as nat,
            4 * (width as int) <= usize::MAX as int,
            matrix.wf(),
            matrix.spec_width() == m0.spec_width(),
            m0.spec_width() == w,
            matrix@.len() == m0@.len(),
            m0.wf(),
            idx as int == kept(rv.take(i as int), w).len(),
            idx <= i,
            forall|j: int|
                0 <= j < idx ==> #[trigger] matrix@[j] == decoded_row(
                    kept(rv.take(i as int), w)[j],
                    w,
                ),
            forall|j: int| idx <= j < matrix@.len() ==> #[trigger] matrix@[j] == m0@[j],
            skips_match(skipped@, rv.take(i as int), w),
        decreases records@.len() - i,
    {
        let rec = &records[i];
        proof {
            assert(rv.take(i + 1).drop_last() =~= rv.take(i as int));
            assert(rv.take(i + 1).last() == rec@);
            lemma_kept_len(rv.take(i as int), w);
        }
        match record::decode_row(rec, width) {
            Ok(row) => {
                matrix.set_row(idx, row);
                idx = idx + 1;
            },
            Err(e) => {
                skipped.push(SkippedRecord { index: i, length: e.actual });
            },
        }
        i = i + 1;
    }
    proof {
        assert(rv.take(records@.len() as int) =~= rv);
        lemma_kept_skip_partition(rv, w);
    }
    Ok(BatchReport { written: idx, skipped })
}

/// Two parses end the same way, whatever records they carry.
pub open spec fn same_ending(a: StreamModel, b: StreamModel) -> bool {
    &&& (a is Complete <==> b is Complete)
    &&& (a is BadLength <==> b is BadLength)
    &&& (a is Cut <==> b is Cut)
}

/// The stream never brings a record while every row is already filled:
/// before each record, the well-formed ones so far leave a free row.
pub open spec fn file_capacity_ok(records: Seq<Seq<u8>>, w: nat, rows: nat) -> bool {
    forall|i: int| 0 <= i < records.len() ==> kept(#[trigger] records.take(i), w).len() < rows
}

/// Round trip through a file: framing records of exactly four bytes per
/// element and parsing the stream back yields the records unchanged —
/// every one well formed and kept, none skipped — and, with no more
/// records than rows, capacity is never hit. Together with the contract
/// of `take_framed` this pins the whole read-back: the call succeeds,
/// writes one row per record, and each row decodes its record's bytes.
pub proof fn lemma_round_trip(payloads: Seq<Seq<u8>>, w: nat, rows: nat)
    requires
        forall|i: int| 0 <= i < payloads.len() ==> (#[trigger] payloads[i]).len() == 4 * w,
        payloads.len() <= rows,
        4 * w < 0x100000000,
    ensures
        framing::stream_model(framing::framed_stream(payloads), 0) == (StreamModel::Complete {
            records: payloads,
        }),
        kept(payloads, w) == payloads,
        skip_list(payloads, w) == Seq::<(int, int)>::empty(),
        file_capacity_ok(payloads, w, rows),
{
    framing::lemma_framed_stream_complete(payloads);
    lemma_kept_all_well_formed(payloads, w);
    assert forall|i: int| 0 <= i < payloads.len() implies kept(
        #[trigger] payloads.take(i),
        w,
    ).len() < rows by {
        assert(forall|k: int|
            0 <= k < i ==> row_well_formed(#[trigger] payloads.take(i)[k], w));
        lemma_kept_all_well_formed(payloads.take(i), w);
    }
}

/// Ingests a stream of length-prefixed records. The call fails with the
/// matrix untouched when the matrix's column count is not `width`. Rows
/// are then filled as records stream in, so a capacity or framing error
/// mid-stream leaves the rows written before it; the in-memory path, by
/// contrast, checks capacity before any write.
pub fn take_framed(data: &Vec<u8>, matrix: &mut Matrix, width: usize) -> (r: Result<
    BatchReport,
    IngestError,
>)
    requires
        old(matrix).wf(),
        4 * (width as int) <= usize::MAX as int,
    ensures
        final(matrix).wf(),
        final(matrix).spec_width() == old(matrix).spec_width(),
        final(matrix)@.len() == old(matrix)@.len(),
        ({
            let model = framing::stream_model(data@, 0);
            let recs = framing::stream_records(model);
            let w = width as nat;
            let rows = old(matrix)@.len();
            match r {
                Ok(report) => {
                    &&& old(matrix).spec_width() == w
                    &&& model is Complete
                    &&& file_capacity_ok(recs, w, rows)
                    &&& report_matches(report, recs, w)
                    &&& report.written + report.skipped@.len() == recs.len()
                    &&& report.written <= rows
                    &&& rows_filled(final(matrix)@, old(matrix)@, recs, w, report.written as int)
                },
                Err(e) => match e {
                    IngestError::ShapeMismatch => old(matrix).spec_width() != w && final(matrix)@
                        == old(matrix)@,
                    IngestError::CapacityExceeded => {
                        &&& old(matrix).spec_width() == w
                        &&& !file_capacity_ok(recs, w, rows)
                        &&& rows <= kept(recs, w).len()
                        &&& rows_filled(final(matrix)@, old(matrix)@, recs, w, rows as int)
                    },
                    IngestError::Framing(fe) => {
                        &&& old(matrix).spec_width() == w
                        &&& file_capacity_ok(recs, w, rows)
                        &&& !(model is Complete)
                        &&& (fe is MalformedLength <==> model is BadLength)
                        &&& (fe is TruncatedPayload <==> model is Cut)
                        &&& kept(recs, w).len() <= rows
                        &&& rows_filled(final(matrix)@, old(matrix)@, recs, w, kept(recs, w).len() as int)
                    },
                    IngestError::TooManyRecords => false,
                },
            }
        }),
{
    if matrix.width() != width {
        return Err(IngestError::ShapeMismatch);
    }
    let n = data.len();
    let mut reader = RecordReader::new(data);
    let ghost d = data@;
    let ghost m0 = *matrix;
    let ghost w = width as nat;
    let ghost mut consumed: Seq<Seq<u8>> = Seq::empty();
    let mut skipped: Vec<SkippedRecord> = Vec::new();
    let mut idx: usize = 0;
    let mut framed_count: usize = 0;
    loop
        invariant
            d == data@,
            n as int == d.len(),
            reader.wf(),
            reader.data_spec() == d,
            4 * (width as int) <= usize::MAX as int,
            w == width as nat,
            matrix.wf(),
            m0 == *old(matrix),
            m0.wf(),
            matrix.spec_width() == m0.spec_width(),
            m0.spec_width() == w,
            matrix@.len() == m0@.len(),
            same_ending(
                framing::stream_model(d, 0),
                framing::stream_model(d, reader.pos_spec()),
            ),
            framing::stream_records(framing::stream_model(d, 0)) == consumed
                + framing::stream_records(framing::stream_model(d, reader.pos_spec())),
            2 * consumed.len() <= reader.pos_spec(),
            framed_count as int == consumed.len(),
            idx as int == kept(consumed, w).len(),
            idx <= m0@.len(),
            file_capacity_ok(consumed, w, m0@.len()),
            forall|j: int|
                0 <= j < idx ==> #[trigger] matrix@[j] == decoded_row(kept(consumed, w)[j], w),
            forall|j: int| idx <= j < matrix@.len() ==> #[trigger] matrix@[j] == m0@[j],
            skips_match(skipped@, consumed, w),
        decreases d.len() - reader.pos_spec(),
    {
        let ghost pos = reader.pos_spec();
        match reader.next_record() {
            Ok(None) => {
                proof {
                    assert(framing::stream_model(d, pos) == (StreamModel::Complete {
                        records: Seq::<Seq<u8>>::empty(),
                    }));
                    assert(consumed + Seq::<Seq<u8>>::empty() =~= consumed);
                    lemma_kept_skip_partition(consumed, w);
                }
                return Ok(BatchReport { written: idx, skipped });
            },
            Ok(Some(rec)) => {
                let ghost c = consumed;
                let ghost rest = framing::stream_model(d, reader.pos_spec());
                proof {
                    assert(framing::frame_end(d, pos) > pos);
                    assert(framing::stream_model(d, pos) == framing::with_prefix(
                        seq![rec@],
                        rest,
                    ));
                    consumed = consumed.push(rec@);
                    assert(c + (seq![rec@] + framing::stream_records(rest)) =~= consumed
                        + framing::stream_records(rest));
                    assert(consumed.drop_last() =~= c);
                    lemma_kept_len(c, w);
                }
                if idx >= matrix.num_rows() {
                    proof {
                        let recs = framing::stream_records(framing::stream_model(d, 0));
                        assert(recs.take(c.len() as int) =~= c);
                        assert(!file_capacity_ok(recs, w, m0@.len()));
                        assert(recs =~= c + (seq![rec@] + framing::stream_records(rest)));
                        lemma_kept_add(c, seq![rec@] + framing::stream_records(rest), w);
                    }
                    return Err(IngestError::CapacityExceeded);
                }
                match record::decode_row(&rec, width) {
                    Ok(row) => {
                        matrix.set_row(idx, row);
                        idx = idx + 1;
                    },
                    Err(e) => {
                        skipped.push(SkippedRecord { index: framed_count, length: e.actual });
                    },
                }
                framed_count = framed_count + 1;
                proof {
                    assert forall|i: int| 0 <= i < consumed.len() implies kept(
                        #[trigger] consumed.take(i),
                        w,
                    ).len() < m0@.len() by {
                        if i < c.len() {
                            assert(consumed.take(i) =~= c.take(i));
                        } else {
                            assert(consumed.take(i) =~= c);
                        }
                    }
                }
            },
            Err(fe) => {
                proof {
                    assert(framing::stream_records(framing::stream_model(d, pos))
                        =~= Seq::<Seq<u8>>::empty());
                    assert(consumed + Seq::<Seq<u8>>::empty() =~= consumed);
                }
                return Err(IngestError::Framing(fe));
            },
        }
    }
}

} // verus!
