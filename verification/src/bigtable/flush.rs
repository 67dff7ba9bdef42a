//! The steps of a flush.
//!
//! A flush reads and writes rows and decides in between. Whoever decides hands out
//! a [`FlushAction`]; whoever reads and writes performs it and reports back.

use vstd::prelude::*;

use crate::bigtable::rows::Entry;
use crate::chunks;

verus! {

/// Row keys per read request when rows are loaded that an earlier process wrote.
pub const PRE_RESTART_LOAD_CHUNK_SIZE: usize = 100;

/// Read requests in flight at a time when such rows are loaded.
pub const PRE_RESTART_LOAD_CONCURRENCY: usize = 10;

/// Why a flush stopped. `E` is what the client reports.
#[derive(Debug)]
pub enum FlushError<E> {
    /// A read of rows that an earlier process wrote failed.
    Load(E),
    /// Such a row holds no readable bitmap; reading it failed with this.
    CorruptBitmap(std::io::Error),
    /// A write failed.
    Write(E),
}

/// What to do next in a flush that yields a `T`.
pub enum FlushAction<T, E> {
    /// Read these rows, `concurrency` chunks at a time.
    Load { key_chunks: Vec<Vec<Vec<u8>>>, concurrency: usize },
    /// Go on with what is under way.
    Wait,
    /// Write these entries, `concurrency` chunks at a time.
    Write { entry_count: usize, entry_chunks: Vec<Vec<Entry>>, concurrency: usize },
    /// The flush is over.
    Done(Result<T, FlushError<E>>),
}

/// The action is to load exactly the rows at `keys`, in chunks.
pub open spec fn loads<T, E>(action: FlushAction<T, E>, keys: Set<Seq<u8>>) -> bool {
    &&& action matches FlushAction::Load { key_chunks, concurrency }
    &&& {
        let listed = chunks::contents(key_chunks@).flatten();
        &&& chunks::contents(listed).no_duplicates()
        &&& chunks::contents(listed).to_set() == keys
        &&& chunks::contents(key_chunks@) == chunks::cut(listed, PRE_RESTART_LOAD_CHUNK_SIZE as nat)
        &&& concurrency == PRE_RESTART_LOAD_CONCURRENCY
    }
}

/// The key stands in one of the chunks.
pub open spec fn is_asked_for(key_chunks: Seq<Vec<Vec<u8>>>, key: Seq<u8>) -> bool {
    exists|c: int, j: int|
        0 <= c < key_chunks.len() && 0 <= j < key_chunks[c]@.len() && (#[trigger] key_chunks[c]@[j])@ == key
}

/// A load asks for exactly the rows that are to be loaded, for none of them twice, in
/// chunks of at most a hundred, ten at a time.
pub proof fn law_loads_ask_for_the_rows<T, E>(action: FlushAction<T, E>, keys: Set<Seq<u8>>)
    requires
        loads(action, keys),
    ensures
        action matches FlushAction::Load { key_chunks, concurrency } && {
            &&& concurrency == 10
            &&& forall|key: Seq<u8>| #[trigger] keys.contains(key) <==> is_asked_for(key_chunks@, key)
            &&& forall|c: int| 0 <= c < key_chunks@.len() ==> 0 < (#[trigger] key_chunks@[c])@.len() <= 100
            &&& forall|c: int, j: int, d: int, k: int|
                #![trigger key_chunks@[c]@[j], key_chunks@[d]@[k]]
                0 <= c < key_chunks@.len() && 0 <= j < key_chunks@[c]@.len() && 0 <= d < key_chunks@.len() && 0 <= k
                    < key_chunks@[d]@.len() && key_chunks@[c]@[j]@ == key_chunks@[d]@[k]@ ==> c == d && j == k
        },
{
    if let FlushAction::Load { key_chunks, concurrency } = action {
        let cutting = chunks::contents(key_chunks@);
        let listed = cutting.flatten();
        let names = chunks::contents(listed);
        let size = PRE_RESTART_LOAD_CHUNK_SIZE as nat;
        assert forall|key: Seq<u8>| #[trigger] keys.contains(key) <==> is_asked_for(key_chunks@, key) by {
            if keys.contains(key) {
                assert(names.to_set().contains(key));
                let i = choose|i: int| 0 <= i < names.len() && names[i] == key;
                let (c, j) = chunks::law_every_item_is_in_a_chunk(listed, size, i);
                assert(key_chunks@[c]@ == cutting[c]);
                assert(key_chunks@[c]@[j]@ == key);
            }
            if is_asked_for(key_chunks@, key) {
                let (c, j) = choose|c: int, j: int|
                    0 <= c < key_chunks@.len() && 0 <= j < key_chunks@[c]@.len() && (#[trigger] key_chunks@[c]@[j])@
                        == key;
                chunks::law_chunks_are_runs(listed, size, c);
                assert(key_chunks@[c]@ == cutting[c]);
                assert(cutting[c][j] == listed[c * size + j]);
                assert(names[c * size + j] == key);
                assert(names.to_set().contains(key));
            }
        }
        assert forall|c: int| 0 <= c < key_chunks@.len() implies 0 < (#[trigger] key_chunks@[c])@.len() <= 100 by {
            chunks::law_chunks_are_runs(listed, size, c);
            assert(key_chunks@[c]@ == cutting[c]);
        }
        assert forall|c: int, j: int, d: int, k: int|
            #![trigger key_chunks@[c]@[j], key_chunks@[d]@[k]]
            0 <= c < key_chunks@.len() && 0 <= j < key_chunks@[c]@.len() && 0 <= d < key_chunks@.len() && 0 <= k
                < key_chunks@[d]@.len() && key_chunks@[c]@[j]@ == key_chunks@[d]@[k]@ implies c == d && j == k by {
            chunks::law_chunks_are_runs(listed, size, c);
            chunks::law_chunks_are_runs(listed, size, d);
            assert(key_chunks@[c]@ == cutting[c] && key_chunks@[d]@ == cutting[d]);
            assert(cutting[c][j] == listed[c * size + j] && cutting[d][k] == listed[d * size + k]);
            assert(names[c * size + j] == names[d * size + k]);
            assert(c * size + j == d * size + k);
            assert(c == d && j == k) by (nonlinear_arith)
                requires
                    c * size + j == d * size + k,
                    0 <= j < size,
                    0 <= k < size,
                    size > 0,
            ;
        }
    }
}

} // verus!
