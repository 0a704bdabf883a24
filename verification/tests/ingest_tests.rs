use take_iter::framing::{FramingError, RecordReader};
use take_iter::ingest::{take_framed, take_records, IngestError};
use take_iter::matrix::Matrix;
use take_iter::record::decode_row;

fn le_bytes(words: &[u32]) -> Vec<u8> {
    let mut out: Vec<u8> = Vec::new();
    for w in words {
        out.extend_from_slice(&w.to_le_bytes());
    }
    out
}

fn float_bytes(vals: &[f32]) -> Vec<u8> {
    let words: Vec<u32> = vals.iter().map(|v| v.to_bits()).collect();
    le_bytes(&words)
}

fn frame_all(records: &[Vec<u8>]) -> Vec<u8> {
    let mut out: Vec<u8> = Vec::new();
    for rec in records {
        rmp::encode::write_bin(&mut out, rec).unwrap();
    }
    out
}

fn sentinel_matrix(rows: usize, width: usize, fill: u32) -> Matrix {
    let data: Vec<Vec<u32>> = (0..rows).map(|_| vec![fill; width]).collect();
    Matrix::from_rows(width, data).unwrap()
}

#[test]
fn in_memory_scenario() {
    let mut matrix = sentinel_matrix(4, 512, 0xDEAD_BEEF);
    let ascending: Vec<f32> = (1..=512).map(|i| i as f32).collect();
    let records = vec![
        float_bytes(&ascending),
        float_bytes(&[0.0f32; 512]),
        vec![0u8; 100],
    ];
    let report = take_records(&records, &mut matrix, 512).unwrap();
    assert_eq!(report.written, 2);
    assert_eq!(report.skipped.len(), 1);
    assert_eq!(report.skipped[0].index, 2);
    assert_eq!(report.skipped[0].length, 100);
    for j in 0..512 {
        assert_eq!(matrix.entry(0, j), ((j + 1) as f32).to_bits());
        assert_eq!(matrix.entry(1, j), 0.0f32.to_bits());
        assert_eq!(matrix.entry(2, j), 0xDEAD_BEEF);
        assert_eq!(matrix.entry(3, j), 0xDEAD_BEEF);
    }
}

#[test]
fn in_memory_too_many_records() {
    let mut matrix = sentinel_matrix(1, 2, 7);
    let records = vec![le_bytes(&[1, 2]), le_bytes(&[3, 4])];
    let err = take_records(&records, &mut matrix, 2).unwrap_err();
    assert_eq!(err, IngestError::TooManyRecords);
    assert_eq!(matrix.entry(0, 0), 7);
    assert_eq!(matrix.entry(0, 1), 7);
}

#[test]
fn in_memory_shape_mismatch() {
    let mut matrix = sentinel_matrix(2, 3, 9);
    let records = vec![le_bytes(&[1, 2])];
    let err = take_records(&records, &mut matrix, 2).unwrap_err();
    assert_eq!(err, IngestError::ShapeMismatch);
    for i in 0..2 {
        for j in 0..3 {
            assert_eq!(matrix.entry(i, j), 9);
        }
    }
}

#[test]
fn in_memory_capacity_checked_before_shape() {
    let mut matrix = sentinel_matrix(1, 3, 9);
    let records = vec![le_bytes(&[1, 2]), le_bytes(&[3, 4])];
    let err = take_records(&records, &mut matrix, 2).unwrap_err();
    assert_eq!(err, IngestError::TooManyRecords);
}

#[test]
fn in_memory_empty_batch() {
    let mut matrix = sentinel_matrix(2, 2, 5);
    let records: Vec<Vec<u8>> = Vec::new();
    let report = take_records(&records, &mut matrix, 2).unwrap();
    assert_eq!(report.written, 0);
    assert!(report.skipped.is_empty());
    assert_eq!(matrix.entry(1, 1), 5);
}

#[test]
fn file_shape_mismatch() {
    let mut matrix = sentinel_matrix(2, 3, 9);
    let data = vec![0xFFu8, 0xFF];
    let err = take_framed(&data, &mut matrix, 2).unwrap_err();
    assert_eq!(err, IngestError::ShapeMismatch);
    assert_eq!(matrix.entry(0, 0), 9);
}

#[test]
fn file_empty_stream() {
    let mut matrix = sentinel_matrix(3, 2, 4);
    let data: Vec<u8> = Vec::new();
    let report = take_framed(&data, &mut matrix, 2).unwrap();
    assert_eq!(report.written, 0);
    assert!(report.skipped.is_empty());
    assert_eq!(matrix.entry(2, 1), 4);
}

#[test]
fn file_round_trip() {
    // Bit patterns survive the trip exactly, specials included: a quiet
    // NaN, negative infinity, and a negative zero.
    let rows = vec![
        vec![0x7FC0_0001u32, 0xFF80_0000],
        vec![0x8000_0000u32, 0x3F80_0000],
        vec![0x0000_0001u32, 0x4020_0000],
    ];
    let records: Vec<Vec<u8>> = rows.iter().map(|r| le_bytes(r)).collect();
    let data = frame_all(&records);
    let mut matrix = sentinel_matrix(3, 2, 0);
    let report = take_framed(&data, &mut matrix, 2).unwrap();
    assert_eq!(report.written, 3);
    assert!(report.skipped.is_empty());
    for i in 0..3 {
        for j in 0..2 {
            assert_eq!(matrix.entry(i, j), rows[i][j]);
        }
    }
}

#[test]
fn file_round_trip_two_byte_length() {
    // 75 elements make a 300-byte record, so the writer picks the
    // two-byte length marker.
    let row: Vec<u32> = (0..75u32).map(|i| i * 11).collect();
    let data = frame_all(&[le_bytes(&row)]);
    assert_eq!(data[0], 0xC5);
    let mut matrix = sentinel_matrix(2, 75, 1);
    let report = take_framed(&data, &mut matrix, 75).unwrap();
    assert_eq!(report.written, 1);
    for j in 0..75 {
        assert_eq!(matrix.entry(0, j), (j as u32) * 11);
        assert_eq!(matrix.entry(1, j), 1);
    }
}

#[test]
fn file_round_trip_four_byte_length() {
    // 16500 elements make a 66000-byte record, past the two-byte length
    // limit, so the writer picks the four-byte marker.
    let row: Vec<u32> = (0..16500u32).collect();
    let data = frame_all(&[le_bytes(&row)]);
    assert_eq!(data[0], 0xC6);
    let mut matrix = sentinel_matrix(1, 16500, 0);
    let report = take_framed(&data, &mut matrix, 16500).unwrap();
    assert_eq!(report.written, 1);
    assert_eq!(matrix.entry(0, 0), 0);
    assert_eq!(matrix.entry(0, 9999), 9999);
    assert_eq!(matrix.entry(0, 16499), 16499);
}

#[test]
fn file_truncated_payload() {
    let mut data = frame_all(&[le_bytes(&[1, 2])]);
    data.pop();
    let mut matrix = sentinel_matrix(2, 2, 3);
    let err = take_framed(&data, &mut matrix, 2).unwrap_err();
    assert_eq!(err, IngestError::Framing(FramingError::TruncatedPayload));
    assert_eq!(matrix.entry(0, 0), 3);
}

#[test]
fn file_truncation_after_good_record_keeps_it() {
    let good = le_bytes(&[10, 20]);
    let mut data = frame_all(&[good.clone(), le_bytes(&[30, 40])]);
    data.pop();
    let mut matrix = sentinel_matrix(3, 2, 9);
    let err = take_framed(&data, &mut matrix, 2).unwrap_err();
    assert_eq!(err, IngestError::Framing(FramingError::TruncatedPayload));
    assert_eq!(matrix.entry(0, 0), 10);
    assert_eq!(matrix.entry(0, 1), 20);
    assert_eq!(matrix.entry(1, 0), 9);
}

#[test]
fn file_malformed_marker() {
    // A fixstr marker is not a binary blob.
    let data = vec![0xA1u8, 0x61];
    let mut matrix = sentinel_matrix(1, 2, 0);
    let err = take_framed(&data, &mut matrix, 2).unwrap_err();
    assert_eq!(err, IngestError::Framing(FramingError::MalformedLength));
}

#[test]
fn file_length_field_cut_short() {
    // A two-byte length marker with only one length byte behind it.
    let data = vec![0xC5u8, 0x01];
    let mut matrix = sentinel_matrix(1, 2, 0);
    let err = take_framed(&data, &mut matrix, 2).unwrap_err();
    assert_eq!(err, IngestError::Framing(FramingError::MalformedLength));
}

#[test]
fn file_capacity_exceeded() {
    let data = frame_all(&[le_bytes(&[1, 2]), le_bytes(&[3, 4])]);
    let mut matrix = sentinel_matrix(1, 2, 0);
    let err = take_framed(&data, &mut matrix, 2).unwrap_err();
    assert_eq!(err, IngestError::CapacityExceeded);
    assert_eq!(matrix.entry(0, 0), 1);
    assert_eq!(matrix.entry(0, 1), 2);
}

#[test]
fn file_capacity_hit_even_by_malformed_record() {
    // The stream's capacity check runs per record, before validation: a
    // trailing record of the wrong length still fails the call once every
    // row is filled, where the in-memory path would have skipped it.
    let data = frame_all(&[le_bytes(&[1, 2]), vec![0u8; 3]]);
    let mut matrix = sentinel_matrix(1, 2, 0);
    let err = take_framed(&data, &mut matrix, 2).unwrap_err();
    assert_eq!(err, IngestError::CapacityExceeded);
}

#[test]
fn file_skips_malformed_records() {
    let data = frame_all(&[le_bytes(&[1, 2]), vec![0u8; 5], le_bytes(&[3, 4])]);
    let mut matrix = sentinel_matrix(3, 2, 7);
    let report = take_framed(&data, &mut matrix, 2).unwrap();
    assert_eq!(report.written, 2);
    assert_eq!(report.skipped.len(), 1);
    assert_eq!(report.skipped[0].index, 1);
    assert_eq!(report.skipped[0].length, 5);
    assert_eq!(matrix.entry(0, 0), 1);
    assert_eq!(matrix.entry(1, 0), 3);
    assert_eq!(matrix.entry(2, 0), 7);
}

#[test]
fn decode_row_exact_values() {
    let rec = float_bytes(&[1.0, 2.5]);
    let row = decode_row(&rec, 2).unwrap();
    assert_eq!(row, vec![0x3F80_0000u32, 0x4020_0000]);
}

#[test]
fn decode_row_reports_lengths() {
    let rec = vec![0u8; 7];
    let err = decode_row(&rec, 2).unwrap_err();
    assert_eq!(err.actual, 7);
    assert_eq!(err.expected, 8);
}

#[test]
fn matrix_from_rows_checks_width() {
    assert!(Matrix::from_rows(2, vec![vec![1, 2], vec![3]]).is_none());
    let m = Matrix::from_rows(2, vec![vec![1, 2], vec![3, 4]]).unwrap();
    assert_eq!(m.num_rows(), 2);
    assert_eq!(m.width(), 2);
    assert_eq!(m.entry(1, 0), 3);
}

#[test]
fn reader_streams_records() {
    let data = frame_all(&[vec![1u8, 2, 3], Vec::new()]);
    let mut reader = RecordReader::new(&data);
    assert_eq!(reader.next_record().unwrap().unwrap(), vec![1u8, 2, 3]);
    assert_eq!(reader.next_record().unwrap().unwrap(), Vec::<u8>::new());
    assert!(reader.next_record().unwrap().is_none());
}
