//! The table of checkpoints, by sequence number.
//!
//! The row key is the sequence number with its bits in reverse order, as eight
//! bytes, the highest first. Reversing is a bijection that spreads the ascending
//! sequence numbers evenly over the keys, so sequential writes do not all land in
//! the same place. The table is read by key only, so lost locality costs nothing.

use vstd::prelude::*;

use crate::bigtable::rows;
use crate::codec;
use crate::row_map;

verus! {

/// The name of the table.
pub const NAME: &'static str = "checkpoints";

/// The column of the summary.
pub const COL_SUMMARY: &'static str = "s";

/// The column of the signatures.
pub const COL_SIGNATURES: &'static str = "sg";

/// The column of the contents.
pub const COL_CONTENTS: &'static str = "c";

/// The row key of a checkpoint.
pub open spec fn checkpoint_key(sequence_number: u64) -> Seq<u8> {
    codec::be_bytes(codec::reversed_bits(sequence_number))
}

/// The row key of a checkpoint.
pub fn encode_key(sequence_number: u64) -> (key: Vec<u8>)
    ensures
        key@ == checkpoint_key(sequence_number),
{
    codec::to_be_bytes(codec::reverse_bits(sequence_number))
}

/// The key gives the sequence number back, and every eight bytes are the key of one
/// checkpoint.
pub proof fn law_keys_are_bijective(sequence_number: u64, key: Seq<u8>)
    requires
        key.len() == 8,
    ensures
        checkpoint_key(sequence_number).len() == 8,
        codec::reversed_bits(codec::be_value(checkpoint_key(sequence_number))) == sequence_number,
        checkpoint_key(codec::reversed_bits(codec::be_value(key))) == key,
{
    codec::law_be_value_of_be_bytes(codec::reversed_bits(sequence_number));
    codec::law_reversing_twice(sequence_number);
    codec::law_reversing_twice(codec::be_value(key));
    codec::law_be_bytes_of_be_value(key);
}

/// Consecutive checkpoints land on opposite halves of the keys: the top bit of the
/// first byte flips every step.
pub proof fn law_consecutive_keys_are_far_apart(sequence_number: u64)
    requires
        sequence_number < u64::MAX,
    ensures
        checkpoint_key(sequence_number)[0] & 0x80 != checkpoint_key((sequence_number + 1) as u64)[0] & 0x80,
{
    let a = sequence_number;
    let b = (sequence_number + 1) as u64;
    let ra = codec::reversed_bits(a);
    let rb = codec::reversed_bits(b);
    codec::law_reversed_bits(a, 0);
    codec::law_reversed_bits(b, 0);
    assert(((a >> 0) & 1 == 1) != ((b >> 0) & 1 == 1)) by (bit_vector)
        requires
            b == a + 1,
    ;
    assert((ra >> 56) as u8 & 0x80 != (rb >> 56) as u8 & 0x80) by (bit_vector)
        requires
            ((ra >> 63) & 1 == 1) != ((rb >> 63) & 1 == 1),
    ;
}

/// The first byte of a key takes every value among the first 256 checkpoints.
pub proof fn law_first_byte_covers_every_value(byte: u8)
    ensures
        exists|sequence_number: u64|
            sequence_number < 256 && (#[trigger] checkpoint_key(sequence_number))[0] == byte,
{
    let high = (byte as u64) << 56;
    let sequence_number = codec::reversed_bits(high);
    assert(high << 8 == 0 && (high >> 56) as u8 == byte) by (bit_vector)
        requires
            high == (byte as u64) << 56,
    ;
    codec::lemma_high_byte_reverses_low(high);
    codec::law_reversing_twice(high);
    assert(checkpoint_key(sequence_number)[0] == byte);
}

/// A checkpoint as a row holds it: each part may be absent.
pub struct CheckpointData<S, C, G> {
    pub summary: Option<S>,
    pub contents: Option<C>,
    pub signatures: Option<G>,
}

/// The cells are those of the checkpoint: one for each part, as it was serialized.
pub open spec fn is_encoding<S, G, C, E, FS, FG, FC>(
    summary: &S,
    signatures: &G,
    contents: &C,
    serialize_summary: FS,
    serialize_signatures: FG,
    serialize_contents: FC,
    cells: Seq<(&'static str, Vec<u8>)>,
) -> bool where
    FS: Fn(&S) -> Result<Vec<u8>, E>,
    FG: Fn(&G) -> Result<Vec<u8>, E>,
    FC: Fn(&C) -> Result<Vec<u8>, E>,
 {
    &&& cells.len() == 3
    &&& cells[0].0 == COL_SUMMARY
    &&& call_ensures(serialize_summary, (summary,), Ok(cells[0].1))
    &&& cells[1].0 == COL_SIGNATURES
    &&& call_ensures(serialize_signatures, (signatures,), Ok(cells[1].1))
    &&& cells[2].0 == COL_CONTENTS
    &&& call_ensures(serialize_contents, (contents,), Ok(cells[2].1))
}

/// The cells of a checkpoint's row. Each part is serialized by the function that is
/// given for it; the first failure, in the order of the cells, is the error.
pub fn encode<S, G, C, E, FS, FG, FC>(
    summary: &S,
    signatures: &G,
    contents: &C,
    serialize_summary: FS,
    serialize_signatures: FG,
    serialize_contents: FC,
) -> (cells: Result<[(&'static str, Vec<u8>); 3], E>) where
    FS: Fn(&S) -> Result<Vec<u8>, E>,
    FG: Fn(&G) -> Result<Vec<u8>, E>,
    FC: Fn(&C) -> Result<Vec<u8>, E>,

    requires
        call_requires(serialize_summary, (summary,)),
        call_requires(serialize_signatures, (signatures,)),
        call_requires(serialize_contents, (contents,)),
    ensures
        match cells {
            Ok(cells) => is_encoding(
                summary,
                signatures,
                contents,
                serialize_summary,
                serialize_signatures,
                serialize_contents,
                cells@,
            ),
            Err(error) => {
                ||| call_ensures(serialize_summary, (summary,), Err(error))
                ||| serializes(serialize_summary, summary) && call_ensures(
                    serialize_signatures,
                    (signatures,),
                    Err(error),
                )
                ||| serializes(serialize_summary, summary) && serializes(serialize_signatures, signatures)
                    && call_ensures(serialize_contents, (contents,), Err(error))
            },
        },
{
    let summary_bytes = match serialize_summary(summary) {
        Ok(bytes) => bytes,
        Err(error) => {
            return Err(error);
        },
    };
    let signatures_bytes = match serialize_signatures(signatures) {
        Ok(bytes) => bytes,
        Err(error) => {
            return Err(error);
        },
    };
    let contents_bytes = match serialize_contents(contents) {
        Ok(bytes) => bytes,
        Err(error) => {
            return Err(error);
        },
    };
    Ok(
        [
            (COL_SUMMARY, summary_bytes),
            (COL_SIGNATURES, signatures_bytes),
            (COL_CONTENTS, contents_bytes),
        ],
    )
}

/// The function can serialize the value.
pub open spec fn serializes<T, E, F: Fn(&T) -> Result<Vec<u8>, E>>(serialize: F, value: &T) -> bool {
    exists|bytes: Vec<u8>| #[trigger] call_ensures(serialize, (value,), Ok(bytes))
}

/// The cell of a row, of column and value, is in `column`.
pub open spec fn is_in(cell: (Vec<u8>, Vec<u8>), column: &str) -> bool {
    cell.0@ == rows::column_bytes(column)
}

/// The function can parse the bytes.
pub open spec fn parses<T, E, F: Fn(&Vec<u8>) -> Result<T, E>>(parse: F, bytes: Vec<u8>) -> bool {
    exists|value: T| #[trigger] call_ensures(parse, (&bytes,), Ok(value))
}

/// The cell, if it is in `column`, can be parsed.
pub open spec fn cell_parses<T, E, F: Fn(&Vec<u8>) -> Result<T, E>>(
    cell: (Vec<u8>, Vec<u8>),
    column: &str,
    parse: F,
) -> bool {
    is_in(cell, column) ==> parses(parse, cell.1)
}

/// The cell is in `column`, and parsing it failed with `error`.
pub open spec fn cell_fails<T, E, F: Fn(&Vec<u8>) -> Result<T, E>>(
    cell: (Vec<u8>, Vec<u8>),
    column: &str,
    parse: F,
    error: E,
) -> bool {
    is_in(cell, column) && call_ensures(parse, (&cell.1,), Err(error))
}

/// The `i`-th cell is the last in `column`, and it was parsed to `value`.
pub open spec fn parsed_at<T, E, F: Fn(&Vec<u8>) -> Result<T, E>>(
    row: Seq<(Vec<u8>, Vec<u8>)>,
    column: &str,
    parse: F,
    value: T,
    i: int,
) -> bool {
    &&& 0 <= i < row.len()
    &&& is_in(row[i], column)
    &&& call_ensures(parse, (&row[i].1,), Ok(value))
    &&& forall|j: int| i < j < row.len() ==> !is_in(#[trigger] row[j], column)
}

/// What was read from `column`: the last cell, parsed, or nothing where there is
/// none.
pub open spec fn was_read<T, E, F: Fn(&Vec<u8>) -> Result<T, E>>(
    row: Seq<(Vec<u8>, Vec<u8>)>,
    column: &str,
    parse: F,
    value: Option<T>,
) -> bool {
    match value {
        None => forall|i: int| 0 <= i < row.len() ==> !is_in(#[trigger] row[i], column),
        Some(value) => exists|i: int| parsed_at(row, column, parse, value, i),
    }
}

proof fn lemma_read_more<T, E, F: Fn(&Vec<u8>) -> Result<T, E>>(
    row: Seq<(Vec<u8>, Vec<u8>)>,
    n: int,
    column: &str,
    parse: F,
    value: Option<T>,
)
    requires
        0 <= n < row.len(),
        was_read(row.take(n), column, parse, value),
        !is_in(row[n], column),
    ensures
        was_read(row.take(n + 1), column, parse, value),
{
    let before = row.take(n);
    let after = row.take(n + 1);
    match value {
        None => {
            assert forall|i: int| 0 <= i < after.len() implies !is_in(#[trigger] after[i], column) by {
                if i < n {
                    assert(before[i] == after[i]);
                }
            }
        },
        Some(value) => {
            let i = choose|i: int| parsed_at(before, column, parse, value, i);
            assert(after[i] == before[i]);
            assert forall|j: int| i < j < after.len() implies !is_in(#[trigger] after[j], column) by {
                if j < n {
                    assert(before[j] == after[j]);
                }
            }
            assert(parsed_at(after, column, parse, value, i));
        },
    }
}

proof fn lemma_read_last<T, E, F: Fn(&Vec<u8>) -> Result<T, E>>(
    row: Seq<(Vec<u8>, Vec<u8>)>,
    column: &str,
    parse: F,
    value: T,
    i: int,
)
    requires
        parsed_at(row, column, parse, value, i),
    ensures
        was_read(row, column, parse, Some(value)),
{
    let read = Some(value);
    assert(parsed_at(row, column, parse, read->0, i));
    assert(was_read(row, column, parse, read));
}

proof fn lemma_columns_differ()
    ensures
        rows::column_bytes(COL_SUMMARY) != rows::column_bytes(COL_SIGNATURES),
        rows::column_bytes(COL_SUMMARY) != rows::column_bytes(COL_CONTENTS),
        rows::column_bytes(COL_SIGNATURES) != rows::column_bytes(COL_CONTENTS),
{
    reveal_strlit("s");
    reveal_strlit("sg");
    reveal_strlit("c");
    vstd::utf8::is_ascii_chars_encode_utf8(COL_SUMMARY@);
    vstd::utf8::is_ascii_chars_encode_utf8(COL_SIGNATURES@);
    vstd::utf8::is_ascii_chars_encode_utf8(COL_CONTENTS@);
    assert(rows::column_bytes(COL_SUMMARY)[0] != rows::column_bytes(COL_CONTENTS)[0]);
}

/// Read a checkpoint from the cells of its row, of column and value. Each part is
/// parsed by the function that is given for it; the first failure, in the order of
/// the cells, is the error. Of two cells in one column the later counts; cells in
/// other columns are skipped.
pub fn decode<S, C, G, E, FS, FC, FG>(
    row: &[(Vec<u8>, Vec<u8>)],
    parse_summary: FS,
    parse_contents: FC,
    parse_signatures: FG,
) -> (data: Result<CheckpointData<S, C, G>, E>) where
    FS: Fn(&Vec<u8>) -> Result<S, E>,
    FC: Fn(&Vec<u8>) -> Result<C, E>,
    FG: Fn(&Vec<u8>) -> Result<G, E>,

    requires
        forall|bytes: Vec<u8>| call_requires(parse_summary, (&bytes,)),
        forall|bytes: Vec<u8>| call_requires(parse_contents, (&bytes,)),
        forall|bytes: Vec<u8>| call_requires(parse_signatures, (&bytes,)),
    ensures
        match data {
            Ok(data) => is_decoding(row@, parse_summary, parse_contents, parse_signatures, data),
            Err(error) => row_fails(row@, parse_summary, parse_contents, parse_signatures, error),
        },
{
    let mut summary: Option<S> = None;
    let mut contents: Option<C> = None;
    let mut signatures: Option<G> = None;
    proof {
        lemma_columns_differ();
    }
    let mut i: usize = 0;
    while i < row.len()
        invariant
            i <= row.len(),
            rows::column_bytes(COL_SUMMARY) != rows::column_bytes(COL_SIGNATURES),
            rows::column_bytes(COL_SUMMARY) != rows::column_bytes(COL_CONTENTS),
            rows::column_bytes(COL_SIGNATURES) != rows::column_bytes(COL_CONTENTS),
            forall|bytes: Vec<u8>| call_requires(parse_summary, (&bytes,)),
            forall|bytes: Vec<u8>| call_requires(parse_contents, (&bytes,)),
            forall|bytes: Vec<u8>| call_requires(parse_signatures, (&bytes,)),
            was_read(row@.take(i as int), COL_SUMMARY, parse_summary, summary),
            was_read(row@.take(i as int), COL_CONTENTS, parse_contents, contents),
            was_read(row@.take(i as int), COL_SIGNATURES, parse_signatures, signatures),
            forall|j: int|
                0 <= j < i ==> is_readable(
                    #[trigger] row@[j],
                    parse_summary,
                    parse_contents,
                    parse_signatures,
                ),
        decreases row.len() - i,
    {
        let column = &row[i].0;
        let value = &row[i].1;
        let ghost more = row@.take(i + 1);
        assert(more[i as int] == row@[i as int]);
        if row_map::same_bytes(column, COL_SUMMARY.as_bytes()) {
            match parse_summary(value) {
                Ok(parsed) => {
                    proof {
                        lemma_read_last(more, COL_SUMMARY, parse_summary, parsed, i as int);
                    }
                    summary = Some(parsed);
                },
                Err(error) => {
                    proof {
                        lemma_row_fails(
                            row@,
                            parse_summary,
                            parse_contents,
                            parse_signatures,
                            error,
                            i as int,
                        );
                    }
                    return Err(error);
                },
            }
        } else if row_map::same_bytes(column, COL_CONTENTS.as_bytes()) {
            match parse_contents(value) {
                Ok(parsed) => {
                    proof {
                        lemma_read_last(more, COL_CONTENTS, parse_contents, parsed, i as int);
                    }
                    contents = Some(parsed);
                },
                Err(error) => {
                    proof {
                        lemma_row_fails(
                            row@,
                            parse_summary,
                            parse_contents,
                            parse_signatures,
                            error,
                            i as int,
                        );
                    }
                    return Err(error);
                },
            }
        } else if row_map::same_bytes(column, COL_SIGNATURES.as_bytes()) {
            match parse_signatures(value) {
                Ok(parsed) => {
                    proof {
                        lemma_read_last(more, COL_SIGNATURES, parse_signatures, parsed, i as int);
                    }
                    signatures = Some(parsed);
                },
                Err(error) => {
                    proof {
                        lemma_row_fails(
                            row@,
                            parse_summary,
                            parse_contents,
                            parse_signatures,
                            error,
                            i as int,
                        );
                    }
                    return Err(error);
                },
            }
        }
        proof {
            if !is_in(row@[i as int], COL_SUMMARY) {
                lemma_read_more(row@, i as int, COL_SUMMARY, parse_summary, summary);
            }
            if !is_in(row@[i as int], COL_CONTENTS) {
                lemma_read_more(row@, i as int, COL_CONTENTS, parse_contents, contents);
            }
            if !is_in(row@[i as int], COL_SIGNATURES) {
                lemma_read_more(row@, i as int, COL_SIGNATURES, parse_signatures, signatures);
            }
        }
        i = i + 1;
    }
    assert(row@.take(i as int) =~= row@);
    Ok(CheckpointData { summary, contents, signatures })
}

/// The cell can be parsed, or is in another column.
pub open spec fn is_readable<S, C, G, E, FS, FC, FG>(
    cell: (Vec<u8>, Vec<u8>),
    parse_summary: FS,
    parse_contents: FC,
    parse_signatures: FG,
) -> bool where
    FS: Fn(&Vec<u8>) -> Result<S, E>,
    FC: Fn(&Vec<u8>) -> Result<C, E>,
    FG: Fn(&Vec<u8>) -> Result<G, E>,
 {
    &&& cell_parses(cell, COL_SUMMARY, parse_summary)
    &&& cell_parses(cell, COL_CONTENTS, parse_contents)
    &&& cell_parses(cell, COL_SIGNATURES, parse_signatures)
}

/// The `i`-th cell is the first that cannot be parsed, with `error`.
pub open spec fn row_fails_at<S, C, G, E, FS, FC, FG>(
    row: Seq<(Vec<u8>, Vec<u8>)>,
    parse_summary: FS,
    parse_contents: FC,
    parse_signatures: FG,
    error: E,
    i: int,
) -> bool where
    FS: Fn(&Vec<u8>) -> Result<S, E>,
    FC: Fn(&Vec<u8>) -> Result<C, E>,
    FG: Fn(&Vec<u8>) -> Result<G, E>,
 {
    &&& 0 <= i < row.len()
    &&& {
        ||| cell_fails(row[i], COL_SUMMARY, parse_summary, error)
        ||| cell_fails(row[i], COL_CONTENTS, parse_contents, error)
        ||| cell_fails(row[i], COL_SIGNATURES, parse_signatures, error)
    }
    &&& forall|j: int|
        0 <= j < i ==> is_readable(#[trigger] row[j], parse_summary, parse_contents, parse_signatures)
}

/// Some cell cannot be parsed, the first of them with `error`.
pub open spec fn row_fails<S, C, G, E, FS, FC, FG>(
    row: Seq<(Vec<u8>, Vec<u8>)>,
    parse_summary: FS,
    parse_contents: FC,
    parse_signatures: FG,
    error: E,
) -> bool where
    FS: Fn(&Vec<u8>) -> Result<S, E>,
    FC: Fn(&Vec<u8>) -> Result<C, E>,
    FG: Fn(&Vec<u8>) -> Result<G, E>,
 {
    exists|i: int| row_fails_at(row, parse_summary, parse_contents, parse_signatures, error, i)
}

proof fn lemma_row_fails<S, C, G, E, FS, FC, FG>(
    row: Seq<(Vec<u8>, Vec<u8>)>,
    parse_summary: FS,
    parse_contents: FC,
    parse_signatures: FG,
    error: E,
    i: int,
) where
    FS: Fn(&Vec<u8>) -> Result<S, E>,
    FC: Fn(&Vec<u8>) -> Result<C, E>,
    FG: Fn(&Vec<u8>) -> Result<G, E>,

    requires
        row_fails_at(row, parse_summary, parse_contents, parse_signatures, error, i),
    ensures
        row_fails(row, parse_summary, parse_contents, parse_signatures, error),
{
}

/// The data is what the row holds: every cell can be parsed, and each part was read
/// from its column.
pub open spec fn is_decoding<S, C, G, E, FS, FC, FG>(
    row: Seq<(Vec<u8>, Vec<u8>)>,
    parse_summary: FS,
    parse_contents: FC,
    parse_signatures: FG,
    data: CheckpointData<S, C, G>,
) -> bool where
    FS: Fn(&Vec<u8>) -> Result<S, E>,
    FC: Fn(&Vec<u8>) -> Result<C, E>,
    FG: Fn(&Vec<u8>) -> Result<G, E>,
 {
    &&& was_read(row, COL_SUMMARY, parse_summary, data.summary)
    &&& was_read(row, COL_CONTENTS, parse_contents, data.contents)
    &&& was_read(row, COL_SIGNATURES, parse_signatures, data.signatures)
    &&& forall|i: int|
        0 <= i < row.len() ==> is_readable(#[trigger] row[i], parse_summary, parse_contents, parse_signatures)
}

/// Parsing undoes serializing, for one value.
pub open spec fn undoes<T, E, P: Fn(&Vec<u8>) -> Result<T, E>, F: Fn(&T) -> Result<Vec<u8>, E>>(
    parse: P,
    serialize: F,
    value: &T,
) -> bool {
    forall|bytes: Vec<u8>, read: Result<T, E>|
        call_ensures(serialize, (value,), Ok(bytes)) && #[trigger] call_ensures(parse, (&bytes,), read) ==> read
            == Ok::<T, E>(*value)
}

/// The `i`-th cell of a row is the cell that was written.
pub open spec fn is_cell_at(row: Seq<(Vec<u8>, Vec<u8>)>, i: int, cell: (&'static str, Vec<u8>)) -> bool {
    &&& 0 <= i < row.len()
    &&& is_in(row[i], cell.0)
    &&& row[i].1 == cell.1
}

/// Reading gives back what was written: where parsing undoes serializing, a row with
/// the cells of a checkpoint is never an error, and it holds all three parts as they
/// were, whatever the order of the cells, and whatever the row holds in other columns.
pub proof fn law_checkpoints_round_trip<S, G, C, E, FS, FG, FC, PS, PG, PC>(
    summary: &S,
    signatures: &G,
    contents: &C,
    serialize_summary: FS,
    serialize_signatures: FG,
    serialize_contents: FC,
    parse_summary: PS,
    parse_signatures: PG,
    parse_contents: PC,
    cells: Seq<(&'static str, Vec<u8>)>,
    row: Seq<(Vec<u8>, Vec<u8>)>,
    positions: (int, int, int),
    data: CheckpointData<S, C, G>,
    error: E,
) where
    FS: Fn(&S) -> Result<Vec<u8>, E>,
    FG: Fn(&G) -> Result<Vec<u8>, E>,
    FC: Fn(&C) -> Result<Vec<u8>, E>,
    PS: Fn(&Vec<u8>) -> Result<S, E>,
    PG: Fn(&Vec<u8>) -> Result<G, E>,
    PC: Fn(&Vec<u8>) -> Result<C, E>,

    requires
        undoes(parse_summary, serialize_summary, summary),
        undoes(parse_signatures, serialize_signatures, signatures),
        undoes(parse_contents, serialize_contents, contents),
        is_encoding(
            summary,
            signatures,
            contents,
            serialize_summary,
            serialize_signatures,
            serialize_contents,
            cells,
        ),
        is_cell_at(row, positions.0, cells[0]),
        is_cell_at(row, positions.1, cells[1]),
        is_cell_at(row, positions.2, cells[2]),
        forall|i: int|
            0 <= i < row.len() && i != positions.0 && i != positions.1 && i != positions.2 ==> {
                &&& !is_in(#[trigger] row[i], COL_SUMMARY)
                &&& !is_in(row[i], COL_SIGNATURES)
                &&& !is_in(row[i], COL_CONTENTS)
            },
    ensures
        !row_fails(row, parse_summary, parse_contents, parse_signatures, error),
        is_decoding(row, parse_summary, parse_contents, parse_signatures, data) ==> {
            &&& data.summary == Some(*summary)
            &&& data.contents == Some(*contents)
            &&& data.signatures == Some(*signatures)
        },
{
    lemma_columns_differ();
    assert(is_in(row[positions.0], COL_SUMMARY));
    assert(is_in(row[positions.1], COL_SIGNATURES));
    assert(is_in(row[positions.2], COL_CONTENTS));
    if row_fails(row, parse_summary, parse_contents, parse_signatures, error) {
        let i = choose|i: int| row_fails_at(row, parse_summary, parse_contents, parse_signatures, error, i);
        assert(i == positions.0 || i == positions.1 || i == positions.2);
    }
    if is_decoding(row, parse_summary, parse_contents, parse_signatures, data) {
        assert(data.summary is Some && data.contents is Some && data.signatures is Some);
        let s = choose|i: int| parsed_at(row, COL_SUMMARY, parse_summary, data.summary->0, i);
        let c = choose|i: int| parsed_at(row, COL_CONTENTS, parse_contents, data.contents->0, i);
        let g = choose|i: int| parsed_at(row, COL_SIGNATURES, parse_signatures, data.signatures->0, i);
        assert(s == positions.0 && g == positions.1 && c == positions.2);
    }
}

/// The bits of a key, read as a number, are those of the sequence number, from the other
/// end.
pub proof fn law_keys_are_reversed(sequence_number: u64, i: u64)
    requires
        i < 64,
    ensures
        codec::bit(codec::be_value(checkpoint_key(sequence_number)), (63 - i) as u64) == codec::bit(
            sequence_number,
            i,
        ),
{
    codec::law_be_value_of_be_bytes(codec::reversed_bits(sequence_number));
    codec::law_reversed_bits(sequence_number, i);
}

proof fn lemma_column_names()
    ensures
        rows::column_bytes(COL_SUMMARY) == seq![115u8],
        rows::column_bytes(COL_SIGNATURES) == seq![115u8, 103u8],
        rows::column_bytes(COL_CONTENTS) == seq![99u8],
{
    reveal_strlit("s");
    reveal_strlit("sg");
    reveal_strlit("c");
    vstd::utf8::is_ascii_chars_encode_utf8(COL_SUMMARY@);
    vstd::utf8::is_ascii_chars_encode_utf8(COL_SIGNATURES@);
    vstd::utf8::is_ascii_chars_encode_utf8(COL_CONTENTS@);
    assert(rows::column_bytes(COL_SUMMARY) =~= seq![115u8]);
    assert(rows::column_bytes(COL_SIGNATURES) =~= seq![115u8, 103u8]);
    assert(rows::column_bytes(COL_CONTENTS) =~= seq![99u8]);
}

/// A checkpoint is written in three cells, each part as it is serialized: the summary in
/// column `s`, the signatures in column `sg` and the contents in column `c`.
pub proof fn law_checkpoints_are_written_in_three_columns<S, G, C, E, FS, FG, FC>(
    summary: &S,
    signatures: &G,
    contents: &C,
    serialize_summary: FS,
    serialize_signatures: FG,
    serialize_contents: FC,
    cells: Seq<(&'static str, Vec<u8>)>,
) where
    FS: Fn(&S) -> Result<Vec<u8>, E>,
    FG: Fn(&G) -> Result<Vec<u8>, E>,
    FC: Fn(&C) -> Result<Vec<u8>, E>,

    requires
        is_encoding(
            summary,
            signatures,
            contents,
            serialize_summary,
            serialize_signatures,
            serialize_contents,
            cells,
        ),
    ensures
        cells.len() == 3,
        rows::column_bytes(cells[0].0) == seq![115u8],
        call_ensures(serialize_summary, (summary,), Ok(cells[0].1)),
        rows::column_bytes(cells[1].0) == seq![115u8, 103u8],
        call_ensures(serialize_signatures, (signatures,), Ok(cells[1].1)),
        rows::column_bytes(cells[2].0) == seq![99u8],
        call_ensures(serialize_contents, (contents,), Ok(cells[2].1)),
{
    lemma_column_names();
}

/// The `i`-th cell is the last in the column of the name.
pub open spec fn is_last(row: Seq<(Vec<u8>, Vec<u8>)>, name: Seq<u8>, i: int) -> bool {
    &&& 0 <= i < row.len()
    &&& row[i].0@ == name
    &&& forall|j: int| i < j < row.len() ==> (#[trigger] row[j]).0@ != name
}

/// What is read of a part is what the last cell of its column is parsed to, and nothing
/// exactly if there is no such cell.
pub open spec fn is_parsed_from_last<T, E, F: Fn(&Vec<u8>) -> Result<T, E>>(
    row: Seq<(Vec<u8>, Vec<u8>)>,
    name: Seq<u8>,
    parse: F,
    part: Option<T>,
) -> bool {
    &&& part is None <==> forall|i: int| 0 <= i < row.len() ==> (#[trigger] row[i]).0@ != name
    &&& part matches Some(value) ==> exists|i: int|
        #[trigger] is_last(row, name, i) && call_ensures(parse, (&row[i].1,), Ok(value))
}

proof fn lemma_parsed_from_last<T, E, F: Fn(&Vec<u8>) -> Result<T, E>>(
    row: Seq<(Vec<u8>, Vec<u8>)>,
    column: &str,
    parse: F,
    part: Option<T>,
)
    requires
        was_read(row, column, parse, part),
    ensures
        is_parsed_from_last(row, rows::column_bytes(column), parse, part),
{
    let name = rows::column_bytes(column);
    match part {
        None => {
            assert forall|i: int| 0 <= i < row.len() implies (#[trigger] row[i]).0@ != name by {
                assert(!is_in(row[i], column));
            }
        },
        Some(value) => {
            let i = choose|i: int| parsed_at(row, column, parse, value, i);
            assert(row[i].0@ == name);
            assert forall|j: int| i < j < row.len() implies (#[trigger] row[j]).0@ != name by {
                assert(!is_in(row[j], column));
            }
            assert(is_last(row, name, i));
        },
    }
}

/// A row is read part by part, each from the last cell of its own column.
pub proof fn law_the_last_cells_are_read<S, C, G, E, FS, FC, FG>(
    row: Seq<(Vec<u8>, Vec<u8>)>,
    parse_summary: FS,
    parse_contents: FC,
    parse_signatures: FG,
    data: CheckpointData<S, C, G>,
) where
    FS: Fn(&Vec<u8>) -> Result<S, E>,
    FC: Fn(&Vec<u8>) -> Result<C, E>,
    FG: Fn(&Vec<u8>) -> Result<G, E>,

    requires
        is_decoding(row, parse_summary, parse_contents, parse_signatures, data),
    ensures
        is_parsed_from_last(row, seq![115u8], parse_summary, data.summary),
        is_parsed_from_last(row, seq![115u8, 103u8], parse_signatures, data.signatures),
        is_parsed_from_last(row, seq![99u8], parse_contents, data.contents),
{
    lemma_column_names();
    lemma_parsed_from_last(row, COL_SUMMARY, parse_summary, data.summary);
    lemma_parsed_from_last(row, COL_SIGNATURES, parse_signatures, data.signatures);
    lemma_parsed_from_last(row, COL_CONTENTS, parse_contents, data.contents);
}

/// The error of a row that cannot be read is that of a cell in one of the three columns,
/// and every cell before it can be parsed.
pub proof fn law_the_first_bad_cell_decides<S, C, G, E, FS, FC, FG>(
    row: Seq<(Vec<u8>, Vec<u8>)>,
    parse_summary: FS,
    parse_contents: FC,
    parse_signatures: FG,
    error: E,
) -> (i: int) where
    FS: Fn(&Vec<u8>) -> Result<S, E>,
    FC: Fn(&Vec<u8>) -> Result<C, E>,
    FG: Fn(&Vec<u8>) -> Result<G, E>,

    requires
        row_fails(row, parse_summary, parse_contents, parse_signatures, error),
    ensures
        0 <= i < row.len(),
        row[i].0@ == seq![115u8] && call_ensures(parse_summary, (&row[i].1,), Err(error)) || row[i].0@ == seq![
            115u8,
            103u8,
        ] && call_ensures(parse_signatures, (&row[i].1,), Err(error)) || row[i].0@ == seq![99u8] && call_ensures(
            parse_contents,
            (&row[i].1,),
            Err(error),
        ),
        forall|j: int|
            0 <= j < i ==> {
                let cell = #[trigger] row[j];
                &&& cell.0@ == seq![115u8] ==> exists|value: S| #[trigger]
                    call_ensures(parse_summary, (&cell.1,), Ok(value))
                &&& cell.0@ == seq![115u8, 103u8] ==> exists|value: G| #[trigger]
                    call_ensures(parse_signatures, (&cell.1,), Ok(value))
                &&& cell.0@ == seq![99u8] ==> exists|value: C| #[trigger]
                    call_ensures(parse_contents, (&cell.1,), Ok(value))
            },
{
    lemma_column_names();
    let i = choose|i: int| row_fails_at(row, parse_summary, parse_contents, parse_signatures, error, i);
    assert forall|j: int| 0 <= j < i implies {
        let cell = #[trigger] row[j];
        &&& cell.0@ == seq![115u8] ==> exists|value: S| #[trigger] call_ensures(parse_summary, (&cell.1,), Ok(value))
        &&& cell.0@ == seq![115u8, 103u8] ==> exists|value: G| #[trigger]
            call_ensures(parse_signatures, (&cell.1,), Ok(value))
        &&& cell.0@ == seq![99u8] ==> exists|value: C| #[trigger] call_ensures(parse_contents, (&cell.1,), Ok(value))
    } by {
        assert(is_readable(row[j], parse_summary, parse_contents, parse_signatures));
    }
    i
}

} // verus!
