//! The row copy validator: checks one byte record against the configured
//! row width and decodes it into 32-bit little-endian values.

use vstd::prelude::*;

verus! {

/// The 32-bit value whose little-endian encoding sits at byte offset `4 * i`
/// of the record.
pub open spec fn word_at(rec: Seq<u8>, i: int) -> u32 {
    ((rec[4 * i] as int)
        + (rec[4 * i + 1] as int) * 0x100
        + (rec[4 * i + 2] as int) * 0x10000
        + (rec[4 * i + 3] as int) * 0x1000000) as u32
}

/// The whole record, decoded as `w` little-endian 32-bit values.
pub open spec fn decoded_row(rec: Seq<u8>, w: nat) -> Seq<u32> {
    Seq::new(w, |i: int| word_at(rec, i))
}

/// A record is well formed when it holds exactly the bytes of one row:
/// four bytes per element.
pub open spec fn row_well_formed(rec: Seq<u8>, w: nat) -> bool {
    rec.len() == 4 * w
}

/// Why one record was rejected: its byte length against the expected one.
#[derive(Clone, Copy, Debug, PartialEq, Eq, Structural)]
pub struct RowMismatch {
    /// Byte length of the rejected record.
    pub actual: usize,
    /// Byte length a well-formed record would have, `4 * width`.
    pub expected: usize,
}

/// Validates one record's length and decodes it into a row of 32-bit
/// values, little endian, element `i` from bytes `4 * i .. 4 * i + 4`.
pub fn decode_row(rec: &Vec<u8>, width: usize) -> (r: Result<Vec<u32>, RowMismatch>)
    requires
        4 * (width as int) <= usize::MAX as int,
    ensures
        match r {
            Ok(row) => row_well_formed(rec@, width as nat) && row@ == decoded_row(
                rec@,
                width as nat,
            ),
            Err(e) => !row_well_formed(rec@, width as nat) && e.actual == rec@.len()
                && e.expected == 4 * (width as int),
        },
{
    if rec.len() != 4 * width {
        return Err(RowMismatch { actual: rec.len(), expected: 4 * width });
    }
    let mut row: Vec<u32> = Vec::new();
    let mut i: usize = 0;
    while i < width
        invariant
            rec@.len() == 4 * width,
            4 * (width as int) <= usize::MAX as int,
            i <= width,
            row@.len() == i,
            forall|k: int| 0 <= k < i ==> row@[k] == word_at(rec@, k),
        decreases width - i,
    {
        let b0 = rec[4 * i];
        let b1 = rec[4 * i + 1];
        let b2 = rec[4 * i + 2];
        let b3 = rec[4 * i + 3];
        let w: u32 = (b0 as u32) + (b1 as u32) * 0x100 + (b2 as u32) * 0x10000 + (b3 as u32)
            * 0x1000000;
        row.push(w);
        i = i + 1;
    }
    proof {
        assert(row@ =~= decoded_row(rec@, width as nat));
    }
    Ok(row)
}

} // verus!
