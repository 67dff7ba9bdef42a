//! The table that maps a transaction's sequence number to its digest, its
//! checkpoint and the number of its events.
//!
//! The row key is the sequence number as eight bytes, the highest first. There is
//! one row for each transaction. The number of events lets a reader enumerate the
//! events of a transaction without reading the transaction.
//!
//! A row without the column of the number of events is read as one of a transaction
//! without events.

use vstd::prelude::*;

use crate::bcs_codec;
use crate::bigtable::rows;
use crate::codec;
use crate::row_map;

verus! {

/// The name of the table.
pub const NAME: &'static str = "tx_seq_digest";

/// The column of the 32 bytes of the digest.
pub const COL_DIGEST: &'static str = "d";

/// The column of the checkpoint's sequence number, a 64-bit number in BCS.
pub const COL_CHECKPOINT_SEQ: &'static str = "c";

/// The column of the number of events, a 32-bit number in BCS.
pub const COL_EVENT_COUNT: &'static str = "e";

/// The digest of a transaction.
#[derive(Clone, Copy, Debug, PartialEq, Eq)]
pub struct TransactionDigest(pub [u8; 32]);

/// Why a row cannot be read.
#[derive(Debug, PartialEq, Eq)]
pub enum DecodeError {
    /// A digest does not have 32 bytes.
    DigestLength,
    /// A checkpoint's sequence number is no 64-bit number in BCS; reading it failed with
    /// this.
    InvalidCheckpointSeq(bcs::Error),
    /// A number of events is no 32-bit number in BCS; reading it failed with this.
    InvalidEventCount(bcs::Error),
    /// There is no digest.
    MissingDigest,
    /// There is no checkpoint's sequence number.
    MissingCheckpointSeq,
}

/// The row key of a transaction.
pub fn encode_key(tx_seq: u64) -> (key: Vec<u8>)
    ensures
        key@ == codec::be_bytes(tx_seq),
{
    codec::to_be_bytes(tx_seq)
}

/// No two transactions have the same row key.
pub proof fn law_keys_do_not_collide(a: u64, b: u64)
    requires
        codec::be_bytes(a) == codec::be_bytes(b),
    ensures
        a == b,
{
    codec::law_be_value_of_be_bytes(a);
    codec::law_be_value_of_be_bytes(b);
}

/// The cells are those of a transaction's row.
pub open spec fn is_encoding(
    digest: TransactionDigest,
    checkpoint_seq: u64,
    event_count: u32,
    cells: Seq<(&'static str, Vec<u8>)>,
) -> bool {
    &&& cells.len() == 3
    &&& cells[0].0 == COL_DIGEST
    &&& cells[0].1@ == digest.0@
    &&& cells[1].0 == COL_CHECKPOINT_SEQ
    &&& cells[1].1@ == codec::le_bytes_u64(checkpoint_seq)
    &&& cells[2].0 == COL_EVENT_COUNT
    &&& cells[2].1@ == codec::le_bytes_u32(event_count)
}

/// The cells of a transaction's row.
pub fn encode(digest: &TransactionDigest, checkpoint_seq: u64, event_count: u32) -> (cells: [(
    &'static str,
    Vec<u8>,
); 3])
    ensures
        is_encoding(*digest, checkpoint_seq, event_count, cells@),
{
    [
        (COL_DIGEST, row_map::copy_bytes(digest.0.as_slice())),
        (COL_CHECKPOINT_SEQ, bcs_codec::write_u64(checkpoint_seq)),
        (COL_EVENT_COUNT, bcs_codec::write_u32(event_count)),
    ]
}

/// What can be wrong with a cell.
pub enum CellFault {
    DigestLength,
    InvalidCheckpointSeq,
    InvalidEventCount,
}

impl DecodeError {
    /// What is wrong with the cell that the error is about; absent where a column is
    /// missing.
    pub open spec fn fault(self) -> Option<CellFault> {
        match self {
            DecodeError::DigestLength => Some(CellFault::DigestLength),
            DecodeError::InvalidCheckpointSeq(_) => Some(CellFault::InvalidCheckpointSeq),
            DecodeError::InvalidEventCount(_) => Some(CellFault::InvalidEventCount),
            DecodeError::MissingDigest => None,
            DecodeError::MissingCheckpointSeq => None,
        }
    }
}

/// The cell of a row, of column and value, is in `column`.
pub open spec fn is_in(cell: (Vec<u8>, Vec<u8>), column: &str) -> bool {
    cell.0@ == rows::column_bytes(column)
}

/// What is wrong with a cell.
pub open spec fn cell_fault(cell: (Vec<u8>, Vec<u8>)) -> Option<CellFault> {
    if is_in(cell, COL_DIGEST) {
        if cell.1@.len() == 32 {
            None
        } else {
            Some(CellFault::DigestLength)
        }
    } else if is_in(cell, COL_CHECKPOINT_SEQ) {
        if cell.1@.len() == 8 {
            None
        } else {
            Some(CellFault::InvalidCheckpointSeq)
        }
    } else if is_in(cell, COL_EVENT_COUNT) {
        if cell.1@.len() == 4 {
            None
        } else {
            Some(CellFault::InvalidEventCount)
        }
    } else {
        None
    }
}

/// What is wrong with the first bad cell.
pub open spec fn first_fault(cells: Seq<(Vec<u8>, Vec<u8>)>) -> Option<CellFault>
    decreases cells.len(),
{
    if cells.len() == 0 {
        None
    } else if first_fault(cells.drop_last()) is Some {
        first_fault(cells.drop_last())
    } else {
        cell_fault(cells.last())
    }
}

/// The value of the last cell in `column`.
pub open spec fn last_in(cells: Seq<(Vec<u8>, Vec<u8>)>, column: &str) -> Option<Seq<u8>>
    decreases cells.len(),
{
    if cells.len() == 0 {
        None
    } else if is_in(cells.last(), column) {
        Some(cells.last().1@)
    } else {
        last_in(cells.drop_last(), column)
    }
}

proof fn lemma_error_stays(cells: Seq<(Vec<u8>, Vec<u8>)>, n: int)
    requires
        0 <= n <= cells.len(),
        first_fault(cells.take(n)) is Some,
    ensures
        first_fault(cells) == first_fault(cells.take(n)),
    decreases cells.len() - n,
{
    if n < cells.len() {
        assert(cells.take(n + 1).drop_last() =~= cells.take(n));
        lemma_error_stays(cells, n + 1);
    } else {
        assert(cells.take(n) =~= cells);
    }
}

proof fn lemma_columns_differ()
    ensures
        rows::column_bytes(COL_DIGEST) != rows::column_bytes(COL_CHECKPOINT_SEQ),
        rows::column_bytes(COL_DIGEST) != rows::column_bytes(COL_EVENT_COUNT),
        rows::column_bytes(COL_CHECKPOINT_SEQ) != rows::column_bytes(COL_EVENT_COUNT),
{
    reveal_strlit("d");
    reveal_strlit("c");
    reveal_strlit("e");
    vstd::utf8::is_ascii_chars_encode_utf8(COL_DIGEST@);
    vstd::utf8::is_ascii_chars_encode_utf8(COL_CHECKPOINT_SEQ@);
    vstd::utf8::is_ascii_chars_encode_utf8(COL_EVENT_COUNT@);
    assert(rows::column_bytes(COL_DIGEST)[0] != rows::column_bytes(COL_CHECKPOINT_SEQ)[0]);
    assert(rows::column_bytes(COL_DIGEST)[0] != rows::column_bytes(COL_EVENT_COUNT)[0]);
    assert(rows::column_bytes(COL_CHECKPOINT_SEQ)[0] != rows::column_bytes(COL_EVENT_COUNT)[0]);
}

/// Take 32 bytes as a digest.
fn read_digest(bytes: &Vec<u8>) -> (digest: Option<TransactionDigest>)
    ensures
        match digest {
            Some(digest) => digest.0@ == bytes@,
            None => bytes@.len() != 32,
        },
{
    if bytes.len() != 32 {
        return None;
    }
    let mut digest: [u8; 32] = [0u8; 32];
    let mut i: usize = 0;
    while i < 32
        invariant
            i <= 32,
            bytes@.len() == 32,
            digest@.len() == 32,
            forall|j: int| 0 <= j < i ==> digest@[j] == bytes@[j],
        decreases 32 - i,
    {
        digest[i] = bytes[i];
        i = i + 1;
    }
    assert(digest@ =~= bytes@);
    Some(TransactionDigest(digest))
}

/// The row, or the error, is what the cells hold.
pub open spec fn is_decoding(
    cells: Seq<(Vec<u8>, Vec<u8>)>,
    row: Result<(TransactionDigest, u64, u32), DecodeError>,
) -> bool {
    match row {
        Ok((digest, checkpoint_seq, event_count)) => {
            &&& first_fault(cells) is None
            &&& last_in(cells, COL_DIGEST) == Some(digest.0@)
            &&& last_in(cells, COL_CHECKPOINT_SEQ) == Some(codec::le_bytes_u64(checkpoint_seq))
            &&& match last_in(cells, COL_EVENT_COUNT) {
                Some(bytes) => bytes == codec::le_bytes_u32(event_count),
                None => event_count == 0,
            }
        },
        Err(error) => match first_fault(cells) {
            Some(first) => error.fault() == Some(first),
            None => if last_in(cells, COL_DIGEST) is None {
                error == DecodeError::MissingDigest
            } else {
                &&& error == DecodeError::MissingCheckpointSeq
                &&& last_in(cells, COL_CHECKPOINT_SEQ) is None
            },
        },
    }
}

/// Read a transaction's row from its cells, of column and value. The first bad cell
/// decides the error. Of two cells in one column the later counts; cells in other
/// columns are skipped.
pub fn decode(cells: &[(Vec<u8>, Vec<u8>)]) -> (row: Result<(TransactionDigest, u64, u32), DecodeError>)
    ensures
        is_decoding(cells@, row),
{
    let mut digest: Option<TransactionDigest> = None;
    let mut checkpoint_seq: Option<u64> = None;
    let mut event_count: u32 = 0;
    let mut i: usize = 0;
    proof {
        lemma_columns_differ();
    }
    while i < cells.len()
        invariant
            i <= cells.len(),
            rows::column_bytes(COL_DIGEST) != rows::column_bytes(COL_CHECKPOINT_SEQ),
            rows::column_bytes(COL_DIGEST) != rows::column_bytes(COL_EVENT_COUNT),
            rows::column_bytes(COL_CHECKPOINT_SEQ) != rows::column_bytes(COL_EVENT_COUNT),
            first_fault(cells@.take(i as int)) is None,
            match digest {
                Some(digest) => last_in(cells@.take(i as int), COL_DIGEST) == Some(digest.0@),
                None => last_in(cells@.take(i as int), COL_DIGEST) is None,
            },
            match checkpoint_seq {
                Some(seq) => last_in(cells@.take(i as int), COL_CHECKPOINT_SEQ) == Some(
                    codec::le_bytes_u64(seq),
                ),
                None => last_in(cells@.take(i as int), COL_CHECKPOINT_SEQ) is None,
            },
            match last_in(cells@.take(i as int), COL_EVENT_COUNT) {
                Some(bytes) => bytes == codec::le_bytes_u32(event_count),
                None => event_count == 0,
            },
        decreases cells.len() - i,
    {
        let column = &cells[i].0;
        let value = &cells[i].1;
        let ghost more = cells@.take(i + 1);
        proof {
            assert(more.drop_last() =~= cells@.take(i as int));
            assert(more.last() == cells@[i as int]);
            if first_fault(more) is Some {
                lemma_error_stays(cells@, i + 1);
            }
        }
        if row_map::same_bytes(column, COL_DIGEST.as_bytes()) {
            match read_digest(value) {
                Some(read) => {
                    digest = Some(read);
                },
                None => {
                    return Err(DecodeError::DigestLength);
                },
            }
        } else if row_map::same_bytes(column, COL_CHECKPOINT_SEQ.as_bytes()) {
            match bcs_codec::read_u64(value) {
                Ok(seq) => {
                    checkpoint_seq = Some(seq);
                },
                Err(error) => {
                    return Err(DecodeError::InvalidCheckpointSeq(error));
                },
            }
        } else if row_map::same_bytes(column, COL_EVENT_COUNT.as_bytes()) {
            match bcs_codec::read_u32(value) {
                Ok(count) => {
                    event_count = count;
                },
                Err(error) => {
                    return Err(DecodeError::InvalidEventCount(error));
                },
            }
        }
        i = i + 1;
    }
    assert(cells@.take(i as int) =~= cells@);
    match (digest, checkpoint_seq) {
        (Some(digest), Some(checkpoint_seq)) => Ok((digest, checkpoint_seq, event_count)),
        (None, _) => Err(DecodeError::MissingDigest),
        (Some(_), None) => Err(DecodeError::MissingCheckpointSeq),
    }
}

/// Reading gives back what was written, whatever the order of the cells, and whatever a
/// row holds in other columns.
pub proof fn law_rows_round_trip(
    digest: TransactionDigest,
    checkpoint_seq: u64,
    event_count: u32,
    cells: Seq<(&'static str, Vec<u8>)>,
    row: Seq<(Vec<u8>, Vec<u8>)>,
    positions: (int, int, int),
    read: Result<(TransactionDigest, u64, u32), DecodeError>,
)
    requires
        is_encoding(digest, checkpoint_seq, event_count, cells),
        is_cell_at(row, positions.0, cells[0]),
        is_cell_at(row, positions.1, cells[1]),
        is_cell_at(row, positions.2, cells[2]),
        forall|i: int|
            0 <= i < row.len() && i != positions.0 && i != positions.1 && i != positions.2 ==> {
                &&& !is_in(#[trigger] row[i], COL_DIGEST)
                &&& !is_in(row[i], COL_CHECKPOINT_SEQ)
                &&& !is_in(row[i], COL_EVENT_COUNT)
            },
        is_decoding(row, read),
    ensures
        read matches Ok(read) && read.0.0@ == digest.0@ && read.1 == checkpoint_seq && read.2 == event_count,
{
    lemma_columns_differ();
    lemma_no_fault(row);
    lemma_only_cell(row, COL_DIGEST, positions.0);
    lemma_only_cell(row, COL_CHECKPOINT_SEQ, positions.1);
    lemma_only_cell(row, COL_EVENT_COUNT, positions.2);
    if let Ok(read) = read {
        codec::lemma_le_bytes_u64_determine(read.1, checkpoint_seq);
        codec::lemma_le_bytes_u32_determine(read.2, event_count);
    }
}

/// The `i`-th cell of a row is the cell that was written.
pub open spec fn is_cell_at(row: Seq<(Vec<u8>, Vec<u8>)>, i: int, cell: (&'static str, Vec<u8>)) -> bool {
    &&& 0 <= i < row.len()
    &&& is_in(row[i], cell.0)
    &&& row[i].1@ == cell.1@
}

proof fn lemma_no_fault(cells: Seq<(Vec<u8>, Vec<u8>)>)
    requires
        forall|i: int| 0 <= i < cells.len() ==> cell_fault(#[trigger] cells[i]) is None,
    ensures
        first_fault(cells) is None,
    decreases cells.len(),
{
    if cells.len() > 0 {
        assert(cells.last() == cells[cells.len() - 1]);
        lemma_no_fault(cells.drop_last());
    }
}

proof fn lemma_only_cell(cells: Seq<(Vec<u8>, Vec<u8>)>, column: &str, at: int)
    requires
        0 <= at < cells.len(),
        forall|i: int| 0 <= i < cells.len() ==> (is_in(#[trigger] cells[i], column) <==> i == at),
    ensures
        last_in(cells, column) == Some(cells[at].1@),
    decreases cells.len(),
{
    if at < cells.len() - 1 {
        assert(!is_in(cells[cells.len() - 1], column));
        lemma_only_cell(cells.drop_last(), column, at);
    }
}

/// A row without the column of the number of events is that of a transaction without
/// events.
pub proof fn law_missing_event_count_is_zero(
    cells: Seq<(Vec<u8>, Vec<u8>)>,
    digest: TransactionDigest,
    checkpoint_seq: u64,
    event_count: u32,
)
    requires
        forall|i: int| 0 <= i < cells.len() ==> !is_in(#[trigger] cells[i], COL_EVENT_COUNT),
        is_decoding(cells, Ok((digest, checkpoint_seq, event_count))),
    ensures
        event_count == 0,
{
    lemma_absent_column(cells, COL_EVENT_COUNT);
}

proof fn lemma_absent_column(cells: Seq<(Vec<u8>, Vec<u8>)>, column: &str)
    requires
        forall|i: int| 0 <= i < cells.len() ==> !is_in(#[trigger] cells[i], column),
    ensures
        last_in(cells, column) is None,
    decreases cells.len(),
{
    if cells.len() > 0 {
        assert(cells.last() == cells[cells.len() - 1]);
        lemma_absent_column(cells.drop_last(), column);
    }
}

proof fn lemma_column_names()
    ensures
        rows::column_bytes(COL_DIGEST) == seq![100u8],
        rows::column_bytes(COL_CHECKPOINT_SEQ) == seq![99u8],
        rows::column_bytes(COL_EVENT_COUNT) == seq![101u8],
{
    reveal_strlit("d");
    reveal_strlit("c");
    reveal_strlit("e");
    vstd::utf8::is_ascii_chars_encode_utf8(COL_DIGEST@);
    vstd::utf8::is_ascii_chars_encode_utf8(COL_CHECKPOINT_SEQ@);
    vstd::utf8::is_ascii_chars_encode_utf8(COL_EVENT_COUNT@);
    assert(rows::column_bytes(COL_DIGEST) =~= seq![100u8]);
    assert(rows::column_bytes(COL_CHECKPOINT_SEQ) =~= seq![99u8]);
    assert(rows::column_bytes(COL_EVENT_COUNT) =~= seq![101u8]);
}

/// The cell is bad: in column `d` without 32 bytes, in column `c` without eight, or in
/// column `e` without four.
pub open spec fn is_bad(cell: (Vec<u8>, Vec<u8>)) -> bool {
    ||| cell.0@ == seq![100u8] && cell.1@.len() != 32
    ||| cell.0@ == seq![99u8] && cell.1@.len() != 8
    ||| cell.0@ == seq![101u8] && cell.1@.len() != 4
}

/// The `i`-th cell is the last in the column of the name.
pub open spec fn is_last(cells: Seq<(Vec<u8>, Vec<u8>)>, name: Seq<u8>, i: int) -> bool {
    &&& 0 <= i < cells.len()
    &&& cells[i].0@ == name
    &&& forall|j: int| i < j < cells.len() ==> (#[trigger] cells[j]).0@ != name
}

proof fn lemma_last_in(cells: Seq<(Vec<u8>, Vec<u8>)>, column: &str)
    ensures
        match last_in(cells, column) {
            Some(value) => exists|i: int|
                #[trigger] is_last(cells, rows::column_bytes(column), i) && cells[i].1@ == value,
            None => forall|i: int|
                0 <= i < cells.len() ==> (#[trigger] cells[i]).0@ != rows::column_bytes(column),
        },
    decreases cells.len(),
{
    let name = rows::column_bytes(column);
    if cells.len() > 0 {
        let front = cells.drop_last();
        let last = cells.len() - 1;
        assert(cells.last() == cells[last]);
        if is_in(cells.last(), column) {
            assert(is_last(cells, name, last));
        } else {
            lemma_last_in(front, column);
            match last_in(cells, column) {
                Some(value) => {
                    let i = choose|i: int| #[trigger] is_last(front, name, i) && front[i].1@ == value;
                    assert(cells[i] == front[i]);
                    assert forall|j: int| i < j < cells.len() implies (#[trigger] cells[j]).0@ != name by {
                        if j < last {
                            assert(cells[j] == front[j]);
                        }
                    }
                    assert(is_last(cells, name, i));
                },
                None => {
                    assert forall|i: int| 0 <= i < cells.len() implies (#[trigger] cells[i]).0@ != name by {
                        if i < last {
                            assert(cells[i] == front[i]);
                        }
                    }
                },
            }
        }
    }
}

proof fn lemma_first_fault(cells: Seq<(Vec<u8>, Vec<u8>)>)
    ensures
        match first_fault(cells) {
            Some(fault) => exists|i: int|
                0 <= i < cells.len() && cell_fault(#[trigger] cells[i]) == Some(fault) && forall|j: int|
                    0 <= j < i ==> cell_fault(#[trigger] cells[j]) is None,
            None => forall|i: int| 0 <= i < cells.len() ==> cell_fault(#[trigger] cells[i]) is None,
        },
    decreases cells.len(),
{
    if cells.len() > 0 {
        let front = cells.drop_last();
        let last = cells.len() - 1;
        lemma_first_fault(front);
        assert(cells.last() == cells[last]);
        match first_fault(front) {
            Some(fault) => {
                let i = choose|i: int|
                    0 <= i < front.len() && cell_fault(#[trigger] front[i]) == Some(fault) && forall|j: int|
                        0 <= j < i ==> cell_fault(#[trigger] front[j]) is None;
                assert(cells[i] == front[i]);
                assert forall|j: int| 0 <= j < i implies cell_fault(#[trigger] cells[j]) is None by {
                    assert(cells[j] == front[j]);
                }
            },
            None => {
                assert forall|j: int| 0 <= j < last implies cell_fault(#[trigger] cells[j]) is None by {
                    assert(cells[j] == front[j]);
                }
            },
        }
    }
}

/// A row is written in three cells: the digest in column `d`, the checkpoint's sequence
/// number in column `c` and the number of events in column `e`, each number by its
/// digits to the base 256, the lowest first.
pub proof fn law_rows_are_written_in_three_columns(
    digest: TransactionDigest,
    checkpoint_seq: u64,
    event_count: u32,
    cells: Seq<(&'static str, Vec<u8>)>,
)
    requires
        is_encoding(digest, checkpoint_seq, event_count, cells),
    ensures
        cells.len() == 3,
        rows::column_bytes(cells[0].0) == seq![100u8],
        cells[0].1@ == digest.0@,
        rows::column_bytes(cells[1].0) == seq![99u8],
        cells[1].1@.len() == 8,
        cells[1].1@[0] == checkpoint_seq % 256,
        codec::be_value(cells[1].1@.reverse()) == checkpoint_seq,
        rows::column_bytes(cells[2].0) == seq![101u8],
        cells[2].1@.len() == 4,
        cells[2].1@[0] == event_count % 256,
        cells[2].1@[1] == event_count / 0x100 % 256,
        cells[2].1@[2] == event_count / 0x1_0000 % 256,
        cells[2].1@[3] == event_count / 0x100_0000,
{
    lemma_column_names();
    codec::law_le_bytes_are_digits(checkpoint_seq, event_count);
    codec::law_be_value_of_be_bytes(checkpoint_seq);
    assert(cells[1].1@.reverse() =~= codec::be_bytes(checkpoint_seq));
}

/// A row is read exactly if no cell is bad and there are a digest and a checkpoint's
/// sequence number. What is read is what the last cell of each column holds.
pub proof fn law_the_last_cells_are_read(
    cells: Seq<(Vec<u8>, Vec<u8>)>,
    row: Result<(TransactionDigest, u64, u32), DecodeError>,
)
    requires
        is_decoding(cells, row),
    ensures
        row is Ok <==> {
            &&& forall|i: int| 0 <= i < cells.len() ==> !is_bad(#[trigger] cells[i])
            &&& exists|i: int| 0 <= i < cells.len() && (#[trigger] cells[i]).0@ == seq![100u8]
            &&& exists|i: int| 0 <= i < cells.len() && (#[trigger] cells[i]).0@ == seq![99u8]
        },
        row matches Ok((digest, checkpoint_seq, event_count)) ==> {
            &&& exists|i: int| #[trigger] is_last(cells, seq![100u8], i) && cells[i].1@ == digest.0@
            &&& exists|i: int|
                #[trigger] is_last(cells, seq![99u8], i) && cells[i].1@ == codec::le_bytes_u64(checkpoint_seq)
            &&& forall|i: int| #[trigger]
                is_last(cells, seq![101u8], i) ==> cells[i].1@ == codec::le_bytes_u32(event_count)
            &&& (forall|i: int| 0 <= i < cells.len() ==> (#[trigger] cells[i]).0@ != seq![101u8]) ==> event_count == 0
        },
{
    lemma_column_names();
    lemma_first_fault(cells);
    lemma_last_in(cells, COL_DIGEST);
    lemma_last_in(cells, COL_CHECKPOINT_SEQ);
    lemma_last_in(cells, COL_EVENT_COUNT);
    assert(seq![100u8][0] != seq![99u8][0] && seq![100u8][0] != seq![101u8][0] && seq![99u8][0] != seq![101u8][0]);
    assert forall|i: int| 0 <= i < cells.len() implies (cell_fault(#[trigger] cells[i]) is Some <==> is_bad(
        cells[i],
    )) by {}
}

/// The error of a row that cannot be read is that of its first bad cell. Where none is
/// bad, the digest is missing, or else the checkpoint's sequence number is.
pub proof fn law_the_first_bad_cell_decides(cells: Seq<(Vec<u8>, Vec<u8>)>, error: DecodeError, i: int)
    requires
        is_decoding(cells, Err(error)),
    ensures
        0 <= i < cells.len() && is_bad(cells[i]) && (forall|j: int| 0 <= j < i ==> !is_bad(#[trigger] cells[j]))
            ==> {
            &&& cells[i].0@ == seq![100u8] ==> error is DigestLength
            &&& cells[i].0@ == seq![99u8] ==> error is InvalidCheckpointSeq
            &&& cells[i].0@ == seq![101u8] ==> error is InvalidEventCount
        },
        (forall|j: int| 0 <= j < cells.len() ==> !is_bad(#[trigger] cells[j])) ==> {
            if exists|j: int| 0 <= j < cells.len() && (#[trigger] cells[j]).0@ == seq![100u8] {
                error is MissingCheckpointSeq
            } else {
                error is MissingDigest
            }
        },
{
    lemma_column_names();
    lemma_first_fault(cells);
    lemma_last_in(cells, COL_DIGEST);
    lemma_last_in(cells, COL_CHECKPOINT_SEQ);
    assert(seq![100u8][0] != seq![99u8][0] && seq![100u8][0] != seq![101u8][0] && seq![99u8][0] != seq![101u8][0]);
    assert forall|j: int| 0 <= j < cells.len() implies (cell_fault(#[trigger] cells[j]) is Some <==> is_bad(
        cells[j],
    )) by {}
    if 0 <= i < cells.len() && is_bad(cells[i]) && (forall|j: int| 0 <= j < i ==> !is_bad(#[trigger] cells[j])) {
        assert(cell_fault(cells[i]) is Some);
        let k = choose|k: int|
            0 <= k < cells.len() && cell_fault(#[trigger] cells[k]) == first_fault(cells) && forall|j: int|
                0 <= j < k ==> cell_fault(#[trigger] cells[j]) is None;
        assert(k == i) by {
            if k < i {
                assert(!is_bad(cells[k]));
            }
            if i < k {
                assert(cell_fault(cells[i]) is None);
            }
        }
    }
}

} // verus!
