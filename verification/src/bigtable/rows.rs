//! What is written to and read back from a BigTable row that holds a bitmap.

use roaring::RoaringBitmap;
use vstd::prelude::*;

use crate::bitmap;
use crate::row_map;
use crate::row_map::RowMap;

verus! {

/// One row to write: a single cell, versioned by `timestamp_ms`.
pub struct Entry {
    pub row_key: Vec<u8>,
    pub column: &'static str,
    pub value: Vec<u8>,
    pub timestamp_ms: u64,
}

/// One row as a read returned it: cells of column and value, in order.
pub struct FetchedRow {
    pub row_key: Vec<u8>,
    pub cells: Vec<(Vec<u8>, Vec<u8>)>,
}

/// A cell that should hold a bitmap does not.
#[derive(Debug)]
pub struct CorruptBitmap {
    /// What reading it failed with.
    pub error: std::io::Error,
}

/// The bytes of a column's name.
pub open spec fn column_bytes(column: &str) -> Seq<u8> {
    vstd::utf8::encode_utf8(column@)
}

/// The value of the first cell in `column`.
pub open spec fn first_cell(cells: Seq<(Vec<u8>, Vec<u8>)>, column: Seq<u8>) -> Option<Seq<u8>>
    decreases cells.len(),
{
    if cells.len() == 0 {
        None
    } else if cells[0].0@ == column {
        Some(cells[0].1@)
    } else {
        first_cell(cells.drop_first(), column)
    }
}

/// The bits of each bitmap of a map.
pub open spec fn bits_by_key(bitmaps: Map<Seq<u8>, RoaringBitmap>) -> Map<Seq<u8>, Set<u32>> {
    bitmaps.map_values(|b: RoaringBitmap| bitmap::bitmap_bits(b))
}

/// The bits that fetched rows hold in `column`, by row key. Rows without that
/// column are left out; of two rows with one key the later counts. `None` if some
/// row's cell is no bitmap.
pub open spec fn fetched_bits(fetched: Seq<FetchedRow>, column: Seq<u8>) -> Option<Map<Seq<u8>, Set<u32>>>
    decreases fetched.len(),
{
    if fetched.len() == 0 {
        Some(Map::empty())
    } else {
        match fetched_bits(fetched.drop_last(), column) {
            None => None,
            Some(bits) => match first_cell(fetched.last().cells@, column) {
                None => Some(bits),
                Some(value) => match bitmap::stored_bits(value) {
                    None => None,
                    Some(row_bits) => Some(bits.insert(fetched.last().row_key@, row_bits)),
                },
            },
        }
    }
}

proof fn lemma_corrupt_prefix(fetched: Seq<FetchedRow>, column: Seq<u8>, n: int)
    requires
        0 <= n <= fetched.len(),
        fetched_bits(fetched.take(n), column) is None,
    ensures
        fetched_bits(fetched, column) is None,
    decreases fetched.len() - n,
{
    if n < fetched.len() {
        assert(fetched.take(n + 1).drop_last() =~= fetched.take(n));
        lemma_corrupt_prefix(fetched, column, n + 1);
    } else {
        assert(fetched.take(n) =~= fetched);
    }
}

/// Find the first cell in `column`.
pub fn find_cell<'a>(cells: &'a Vec<(Vec<u8>, Vec<u8>)>, column: &str) -> (value: Option<&'a Vec<u8>>)
    ensures
        match value {
            Some(value) => first_cell(cells@, column_bytes(column)) == Some(value@),
            None => first_cell(cells@, column_bytes(column)) is None,
        },
{
    let name = column.as_bytes();
    let mut i: usize = 0;
    assert(cells@.skip(0) =~= cells@);
    while i < cells.len()
        invariant
            i <= cells.len(),
            name@ == column_bytes(column),
            first_cell(cells@, name@) == first_cell(cells@.skip(i as int), name@),
        decreases cells.len() - i,
    {
        if row_map::same_bytes(&cells[i].0, name) {
            return Some(&cells[i].1);
        }
        assert(cells@.skip(i as int).drop_first() =~= cells@.skip(i + 1));
        i = i + 1;
    }
    None
}

/// Read the bitmaps out of fetched rows.
pub fn read_fetched(fetched: &Vec<FetchedRow>, column: &str) -> (bitmaps: Result<
    RowMap<RoaringBitmap>,
    CorruptBitmap,
>)
    ensures
        match bitmaps {
            Ok(bitmaps) => bitmaps.wf() && fetched_bits(fetched@, column_bytes(column)) == Some(
                bits_by_key(bitmaps@),
            ),
            Err(_) => fetched_bits(fetched@, column_bytes(column)) is None,
        },
{
    let ghost name = column_bytes(column);
    let mut bitmaps: RowMap<RoaringBitmap> = RowMap::new();
    let mut i: usize = 0;
    assert(bits_by_key(bitmaps@) =~= Map::empty());
    while i < fetched.len()
        invariant
            i <= fetched.len(),
            name == column_bytes(column),
            bitmaps.wf(),
            fetched_bits(fetched@.take(i as int), name) == Some(bits_by_key(bitmaps@)),
        decreases fetched.len() - i,
    {
        let row = &fetched[i];
        let ghost prefix = fetched@.take(i + 1);
        assert(prefix.drop_last() =~= fetched@.take(i as int));
        assert(prefix.last() == *row);
        match find_cell(&row.cells, column) {
            None => {},
            Some(value) => match bitmap::read_bitmap(value) {
                Err(error) => {
                    proof {
                        lemma_corrupt_prefix(fetched@, name, i + 1);
                    }
                    return Err(CorruptBitmap { error });
                },
                Ok(bits) => {
                    let ghost before = bitmaps@;
                    bitmaps.insert(row_map::copy_bytes(&row.row_key), bits);
                    assert(bits_by_key(bitmaps@) =~= bits_by_key(before).insert(
                        row.row_key@,
                        bitmap::bitmap_bits(bits),
                    ));
                },
            },
        }
        i = i + 1;
    }
    assert(fetched@.take(i as int) =~= fetched@);
    Ok(bitmaps)
}

/// The entry writes these bits to the row at `key`, in `column`, under the timestamp.
pub open spec fn writes_row(
    entry: Entry,
    key: Seq<u8>,
    column: Seq<char>,
    bits: Set<u32>,
    timestamp_ms: u64,
) -> bool {
    &&& entry.row_key@ == key
    &&& entry.column@ == column
    &&& bitmap::stored_bits(entry.value@) == Some(bits)
    &&& entry.timestamp_ms == timestamp_ms
}

/// The value is that of the first cell in the column.
pub proof fn law_first_cell_is_the_first(cells: Seq<(Vec<u8>, Vec<u8>)>, column: Seq<u8>)
    ensures
        match first_cell(cells, column) {
            Some(value) => exists|i: int|
                0 <= i < cells.len() && (#[trigger] cells[i]).0@ == column && cells[i].1@ == value && forall|j: int|
                    0 <= j < i ==> (#[trigger] cells[j]).0@ != column,
            None => forall|i: int| 0 <= i < cells.len() ==> (#[trigger] cells[i]).0@ != column,
        },
    decreases cells.len(),
{
    if cells.len() > 0 && cells[0].0@ != column {
        let rest = cells.drop_first();
        law_first_cell_is_the_first(rest, column);
        match first_cell(cells, column) {
            Some(value) => {
                let i = choose|i: int|
                    0 <= i < rest.len() && (#[trigger] rest[i]).0@ == column && rest[i].1@ == value && forall|j: int|
                        0 <= j < i ==> (#[trigger] rest[j]).0@ != column;
                assert(cells[i + 1] == rest[i]);
                assert forall|j: int| 0 <= j < i + 1 implies (#[trigger] cells[j]).0@ != column by {
                    if j > 0 {
                        assert(cells[j] == rest[j - 1]);
                    }
                }
            },
            None => {
                assert forall|i: int| 0 <= i < cells.len() implies (#[trigger] cells[i]).0@ != column by {
                    if i > 0 {
                        assert(cells[i] == rest[i - 1]);
                    }
                }
            },
        }
    }
}

/// Reading what was fetched fails exactly if some row's cell is no bitmap.
pub proof fn law_corrupt_cells_are_found(fetched: Seq<FetchedRow>, column: Seq<u8>)
    ensures
        fetched_bits(fetched, column) is None <==> exists|i: int|
            0 <= i < fetched.len() && first_cell((#[trigger] fetched[i]).cells@, column) is Some
                && bitmap::stored_bits(first_cell(fetched[i].cells@, column)->0) is None,
    decreases fetched.len(),
{
    if fetched.len() > 0 {
        let front = fetched.drop_last();
        law_corrupt_cells_are_found(front, column);
        if fetched_bits(front, column) is None {
            let i = choose|i: int|
                0 <= i < front.len() && first_cell((#[trigger] front[i]).cells@, column) is Some
                    && bitmap::stored_bits(first_cell(front[i].cells@, column)->0) is None;
            assert(fetched[i] == front[i]);
        } else if fetched_bits(fetched, column) is None {
            assert(fetched[fetched.len() - 1] == fetched.last());
        } else {
            assert forall|i: int| 0 <= i < fetched.len() && first_cell((#[trigger] fetched[i]).cells@, column) is Some implies bitmap::stored_bits(
                first_cell(fetched[i].cells@, column)->0,
            ) is Some by {
                if i < front.len() {
                    assert(fetched[i] == front[i]);
                }
            }
        }
    }
}

/// What was fetched is what the rows hold: the bits at a key are those of the last row
/// with that key that has the column, and there are none where no row does.
pub proof fn law_fetched_bits_are_those_of_the_rows(
    fetched: Seq<FetchedRow>,
    column: Seq<u8>,
    found: Map<Seq<u8>, Set<u32>>,
    key: Seq<u8>,
)
    requires
        fetched_bits(fetched, column) == Some(found),
    ensures
        found.contains_key(key) ==> exists|i: int|
            0 <= i < fetched.len() && (#[trigger] fetched[i]).row_key@ == key && first_cell(
                fetched[i].cells@,
                column,
            ) is Some && bitmap::stored_bits(first_cell(fetched[i].cells@, column)->0) == Some(found[key])
                && forall|j: int|
                i < j < fetched.len() && (#[trigger] fetched[j]).row_key@ == key ==> first_cell(
                    fetched[j].cells@,
                    column,
                ) is None,
        !found.contains_key(key) ==> forall|i: int|
            0 <= i < fetched.len() && (#[trigger] fetched[i]).row_key@ == key ==> first_cell(
                fetched[i].cells@,
                column,
            ) is None,
    decreases fetched.len(),
{
    if fetched.len() > 0 {
        let front = fetched.drop_last();
        let last = fetched.len() - 1;
        let before = fetched_bits(front, column)->0;
        law_fetched_bits_are_those_of_the_rows(front, column, before, key);
        assert(fetched.last() == fetched[last]);
        if first_cell(fetched[last].cells@, column) is Some && fetched[last].row_key@ == key {
            assert(found.contains_key(key));
        } else {
            assert(found.contains_key(key) == before.contains_key(key));
            if found.contains_key(key) {
                let i = choose|i: int|
                    0 <= i < front.len() && (#[trigger] front[i]).row_key@ == key && first_cell(
                        front[i].cells@,
                        column,
                    ) is Some && bitmap::stored_bits(first_cell(front[i].cells@, column)->0) == Some(before[key])
                        && forall|j: int|
                        i < j < front.len() && (#[trigger] front[j]).row_key@ == key ==> first_cell(
                            front[j].cells@,
                            column,
                        ) is None;
                assert(fetched[i] == front[i]);
                assert forall|j: int| i < j < fetched.len() && (#[trigger] fetched[j]).row_key@ == key implies first_cell(
                    fetched[j].cells@,
                    column,
                ) is None by {
                    if j < last {
                        assert(fetched[j] == front[j]);
                    }
                }
            } else {
                assert forall|i: int| 0 <= i < fetched.len() && (#[trigger] fetched[i]).row_key@ == key implies first_cell(
                    fetched[i].cells@,
                    column,
                ) is None by {
                    if i < last {
                        assert(fetched[i] == front[i]);
                    }
                }
            }
        }
    }
}

/// A column goes by the UTF-8 bytes of its name, so no two columns go by the same.
pub proof fn law_columns_go_by_their_names(a: &str, b: &str)
    ensures
        column_bytes(a) == vstd::utf8::encode_utf8(a@),
        column_bytes(a) == column_bytes(b) ==> a@ == b@,
{
    if column_bytes(a) == column_bytes(b) {
        vstd::utf8::encode_utf8_decode_utf8(a@);
        vstd::utf8::encode_utf8_decode_utf8(b@);
    }
}

/// The bits at a key are those of the bitmap at that key.
pub proof fn law_bits_are_those_of_the_bitmaps(bitmaps: Map<Seq<u8>, RoaringBitmap>, key: Seq<u8>)
    ensures
        bits_by_key(bitmaps).contains_key(key) == bitmaps.contains_key(key),
        bitmaps.contains_key(key) ==> bits_by_key(bitmaps)[key] == bitmap::bitmap_bits(bitmaps[key]),
{
}

} // verus!
