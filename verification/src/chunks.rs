//! Cutting a list into chunks of bounded size.

use vstd::prelude::*;

verus! {

/// `items`, cut off `size` at a time; the last chunk takes what is left.
pub open spec fn cut<T>(items: Seq<T>, size: nat) -> Seq<Seq<T>>
    decreases items.len(),
{
    if items.len() == 0 || size == 0 {
        seq![]
    } else if items.len() <= size {
        seq![items]
    } else {
        seq![items.take(size as int)] + cut(items.skip(size as int), size)
    }
}

/// The contents of each list of a list of lists.
pub open spec fn contents<T>(chunks: Seq<Vec<T>>) -> Seq<Seq<T>> {
    chunks.map_values(|chunk: Vec<T>| chunk@)
}

/// Cutting loses nothing and repeats nothing: the chunks in a row are the list.
pub proof fn lemma_cut_is_a_partition<T>(items: Seq<T>, size: nat)
    requires
        size > 0,
    ensures
        cut(items, size).flatten() == items,
    decreases items.len(),
{
    let chunks = cut(items, size);
    if items.len() == 0 {
        assert(chunks =~= seq![]);
    } else if items.len() <= size {
        assert(chunks.drop_first() =~= seq![]);
        assert(chunks.first() + chunks.drop_first().flatten() =~= items);
    } else {
        lemma_cut_is_a_partition(items.skip(size as int), size);
        assert(chunks.drop_first() =~= cut(items.skip(size as int), size));
        assert(items.take(size as int) + items.skip(size as int) =~= items);
    }
}

/// No chunk is empty, and none exceeds the size.
pub proof fn lemma_cut_bounds<T>(items: Seq<T>, size: nat)
    requires
        size > 0,
    ensures
        forall|c: int| 0 <= c < cut(items, size).len() ==> 0 < (#[trigger] cut(items, size)[c]).len() <= size,
    decreases items.len(),
{
    if items.len() > size {
        let tail = cut(items.skip(size as int), size);
        lemma_cut_bounds(items.skip(size as int), size);
        assert forall|c: int| 0 <= c < cut(items, size).len() implies 0 < (#[trigger] cut(items, size)[c]).len()
            <= size by {
            if c > 0 {
                assert(cut(items, size)[c] == tail[c - 1]);
            }
        }
    }
}

/// Cut a list into chunks of `size` items, the last one possibly shorter.
pub fn into_chunks<T>(items: Vec<T>, size: usize) -> (chunks: Vec<Vec<T>>)
    requires
        size > 0,
    ensures
        contents(chunks@) == cut(items@, size as nat),
{
    let mut chunks: Vec<Vec<T>> = Vec::new();
    let mut current: Vec<T> = Vec::new();
    let ghost all = items@;
    proof {
        assert(current@ + all.skip(0) =~= all);
        assert(contents(chunks@) + cut(all, size as nat) =~= cut(all, size as nat));
    }
    for item in walk: items
        invariant
            walk.seq() == all,
            size > 0,
            current@.len() < size,
            contents(chunks@) + cut(current@ + all.skip(walk.index() as int), size as nat) == cut(
                all,
                size as nat,
            ),
    {
        let ghost i = walk.index() as int;
        let ghost rest = all.skip(i + 1);
        let ghost held = current@;
        current.push(item);
        assert(held + all.skip(i) =~= current@ + rest);
        if current.len() == size {
            let ghost full = current@;
            let ghost done = contents(chunks@);
            let mut chunk: Vec<T> = Vec::new();
            std::mem::swap(&mut chunk, &mut current);
            chunks.push(chunk);
            proof {
                assert(contents(chunks@) =~= done.push(full));
                assert((full + rest).take(size as int) =~= full);
                assert((full + rest).skip(size as int) =~= rest);
                assert(current@ + rest =~= rest);
                if rest.len() == 0 {
                    assert(full + rest =~= full);
                }
                assert(cut(full + rest, size as nat) =~= seq![full] + cut(rest, size as nat));
                assert(done.push(full) + cut(rest, size as nat) =~= done + (seq![full] + cut(
                    rest,
                    size as nat,
                )));
            }
        }
    }
    let ghost done = contents(chunks@);
    let ghost last = current@;
    assert(last + all.skip(all.len() as int) =~= last);
    if current.len() > 0 {
        chunks.push(current);
        assert(contents(chunks@) =~= done + seq![last]);
    } else {
        assert(done + cut(last, size as nat) =~= done);
    }
    chunks
}

/// The chunks are consecutive runs of the list, each of `size` items but for the last:
/// the `j`-th item of the `c`-th chunk is the item at `c * size + j`.
pub proof fn law_chunks_are_runs<T>(items: Seq<T>, size: nat, c: int)
    requires
        size > 0,
        0 <= c < cut(items, size).len(),
    ensures
        0 <= c * size < items.len(),
        cut(items, size)[c].len() == if items.len() - c * size < size {
            items.len() - c * size
        } else {
            size as int
        },
        forall|j: int| 0 <= j < cut(items, size)[c].len() ==> #[trigger] cut(items, size)[c][j] == items[c * size + j],
    decreases items.len(),
{
    if c == 0 {
        assert(c * size == 0) by (nonlinear_arith)
            requires
                c == 0,
        ;
    } else {
        let rest = items.skip(size as int);
        law_chunks_are_runs(rest, size, c - 1);
        assert((c - 1) * size == c * size - size) by (nonlinear_arith);
        assert(cut(items, size)[c] == cut(rest, size)[c - 1]);
        assert forall|j: int| 0 <= j < cut(items, size)[c].len() implies #[trigger] cut(items, size)[c][j] == items[c
            * size + j] by {
            assert(cut(rest, size)[c - 1][j] == rest[(c - 1) * size + j]);
        }
    }
}

/// Every item of the list is in a chunk.
pub proof fn law_every_item_is_in_a_chunk<T>(items: Seq<T>, size: nat, i: int) -> (at: (int, int))
    requires
        size > 0,
        0 <= i < items.len(),
    ensures
        0 <= at.0 < cut(items, size).len(),
        0 <= at.1 < cut(items, size)[at.0].len(),
        at.0 * size + at.1 == i,
        cut(items, size)[at.0][at.1] == items[i],
    decreases items.len(),
{
    if i < size {
        assert(0 * size == 0) by (nonlinear_arith);
        (0int, i)
    } else {
        let rest = items.skip(size as int);
        let (c, j) = law_every_item_is_in_a_chunk(rest, size, i - size);
        assert((c + 1) * size == c * size + size) by (nonlinear_arith);
        assert(cut(items, size)[c + 1] == cut(rest, size)[c]);
        (c + 1, j)
    }
}

/// What is said of a list of chunks is said of each chunk.
pub proof fn law_contents_are_the_items<T>(chunks: Seq<Vec<T>>, c: int)
    ensures
        contents(chunks).len() == chunks.len(),
        0 <= c < chunks.len() ==> contents(chunks)[c] == chunks[c]@,
{
}

} // verus!
