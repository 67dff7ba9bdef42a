//! Listing transactions, page by page.
//!
//! A listing alternates reads with decisions. The decisions are made here:
//! [`TransactionListing::begin`] takes a request, and
//! [`TransactionListing::list_transactions`] takes what was read and says what to do
//! next.

use vstd::prelude::*;

use crate::codec;

verus! {

/// The page size where none is asked for.
pub const DEFAULT_PAGE_SIZE: u32 = 50;

/// The largest page size.
pub const MAX_PAGE_SIZE: u32 = 1000;

/// What a listing is asked for.
pub struct ListTransactionsRequest {
    pub page_size: Option<u32>,
    /// The token that the page before gave.
    pub page_token: Option<Vec<u8>>,
    /// The first checkpoint.
    pub start_checkpoint: Option<u64>,
    /// The checkpoint after the last.
    pub end_checkpoint: Option<u64>,
    /// Whether there is a filter.
    pub filtered: bool,
}

/// Why a listing fails.
#[derive(Clone, Copy, Debug, PartialEq, Eq, Structural)]
pub enum ListError {
    /// The page token does not have eight bytes.
    InvalidPageToken,
    /// Nothing is indexed yet.
    NoWatermark,
}

/// A range of transactions, without its end.
#[derive(Clone, Copy, Debug, PartialEq, Eq, Structural)]
pub struct TxRange {
    pub start: u64,
    pub end: u64,
}

/// The page size that is asked for, within bounds.
pub open spec fn clamped_page_size(requested: Option<u32>) -> int {
    match requested {
        None => DEFAULT_PAGE_SIZE as int,
        Some(0) => 1,
        Some(size) => if size > MAX_PAGE_SIZE {
            MAX_PAGE_SIZE as int
        } else {
            size as int
        },
    }
}

/// The page size that is asked for, within bounds.
pub fn page_size_of(requested: Option<u32>) -> (size: usize)
    ensures
        size == clamped_page_size(requested),
        1 <= size <= MAX_PAGE_SIZE,
{
    match requested {
        None => DEFAULT_PAGE_SIZE as usize,
        Some(size) => if size < 1 {
            1
        } else if size > MAX_PAGE_SIZE {
            MAX_PAGE_SIZE as usize
        } else {
            size as usize
        },
    }
}

/// The token of a page that ends with a transaction.
pub fn encode_tx_page_token(tx_seq: u64) -> (token: Vec<u8>)
    ensures
        token@ == codec::be_bytes(tx_seq),
{
    codec::to_be_bytes(tx_seq)
}

/// The transaction that a page ends with, from the page's token.
pub fn decode_tx_page_token(token: &Vec<u8>) -> (tx_seq: Result<u64, ListError>)
    ensures
        tx_seq == if token@.len() == 8 {
            Ok::<u64, ListError>(codec::be_value(token@))
        } else {
            Err(ListError::InvalidPageToken)
        },
{
    match codec::from_be_bytes(token) {
        Some(tx_seq) => Ok(tx_seq),
        None => Err(ListError::InvalidPageToken),
    }
}

/// A token gives the transaction back that it was made for.
pub proof fn law_tokens_round_trip(tx_seq: u64)
    ensures
        codec::be_bytes(tx_seq).len() == 8,
        codec::be_value(codec::be_bytes(tx_seq)) == tx_seq,
{
    codec::law_be_value_of_be_bytes(tx_seq);
}

/// A transaction as it was read: its sequence number, its checkpoint, and `T`.
pub type Row<T> = (u64, u64, T);

/// The rows of one transaction, in order.
pub open spec fn rows_of<T>(rows: Seq<Row<T>>, tx_seq: u64) -> Seq<Row<T>> {
    rows.filter(|row: Row<T>| row.0 == tx_seq)
}

/// The rows ascend by sequence number.
pub open spec fn ascends<T>(rows: Seq<Row<T>>) -> bool {
    forall|i: int, j: int| 0 <= i < j < rows.len() ==> (#[trigger] rows[i]).0 <= (#[trigger] rows[j]).0
}

/// `sorted` is `rows` in ascending order, with rows of the same transaction in the
/// order in which they were.
pub open spec fn is_sorted_form<T>(rows: Seq<Row<T>>, sorted: Seq<Row<T>>) -> bool {
    &&& ascends(sorted)
    &&& forall|tx_seq: u64| #[trigger] rows_of(sorted, tx_seq) == rows_of(rows, tx_seq)
}

proof fn lemma_no_rows_of<T>(rows: Seq<Row<T>>, tx_seq: u64)
    requires
        forall|i: int| 0 <= i < rows.len() ==> (#[trigger] rows[i]).0 != tx_seq,
    ensures
        rows_of(rows, tx_seq).len() == 0,
    decreases rows.len(),
{
    reveal(Seq::filter);
    if rows.len() > 0 {
        assert(rows.last() == rows[rows.len() - 1]);
        lemma_no_rows_of(rows.drop_last(), tx_seq);
    }
}

/// Putting a row behind the rows that do not come after it.
proof fn lemma_insert_in_order<T>(sorted: Seq<Row<T>>, at: int, row: Row<T>)
    requires
        ascends(sorted),
        0 <= at <= sorted.len(),
        forall|i: int| 0 <= i < at ==> (#[trigger] sorted[i]).0 <= row.0,
        forall|i: int| at <= i < sorted.len() ==> row.0 < (#[trigger] sorted[i]).0,
    ensures
        ascends(sorted.insert(at, row)),
        forall|tx_seq: u64| #[trigger]
            rows_of(sorted.insert(at, row), tx_seq) == if row.0 == tx_seq {
                rows_of(sorted, tx_seq).push(row)
            } else {
                rows_of(sorted, tx_seq)
            },
{
    let after = sorted.insert(at, row);
    let low = sorted.take(at);
    let high = sorted.skip(at);
    assert(after =~= low + seq![row] + high);
    assert(sorted =~= low + high);
    assert forall|tx_seq: u64| #[trigger] rows_of(after, tx_seq) == (if row.0 == tx_seq {
        rows_of(sorted, tx_seq).push(row)
    } else {
        rows_of(sorted, tx_seq)
    }) by {
        let pred = |r: Row<T>| r.0 == tx_seq;
        let one = seq![row];
        Seq::filter_distributes_over_add(low + one, high, pred);
        Seq::filter_distributes_over_add(low, one, pred);
        Seq::filter_distributes_over_add(low, high, pred);
        reveal(Seq::filter);
        assert(one.drop_last() =~= seq![]);
        assert(one.drop_last().filter(pred) =~= seq![]);
        if row.0 == tx_seq {
            assert(one.filter(pred) =~= seq![row]);
            lemma_no_rows_of(high, tx_seq);
            assert(high.filter(pred) =~= seq![]);
            assert(after.filter(pred) =~= sorted.filter(pred).push(row));
        } else {
            assert(one.filter(pred) =~= seq![]);
            assert(after.filter(pred) =~= sorted.filter(pred));
        }
    }
}

/// Sort rows by sequence number. Rows of the same transaction keep their order.
pub fn sort_by_seq<T>(rows: Vec<Row<T>>) -> (sorted: Vec<Row<T>>)
    ensures
        is_sorted_form(rows@, sorted@),
        sorted@.len() == rows@.len(),
{
    let ghost all = rows@;
    let mut sorted: Vec<Row<T>> = Vec::with_capacity(rows.len());
    assert(all.take(0) =~= sorted@);
    for row in walk: rows
        invariant
            walk.seq() == all,
            is_sorted_form(all.take(walk.index() as int), sorted@),
            sorted@.len() == walk.index(),
    {
        let ghost i = walk.index() as int;
        let ghost before = sorted@;
        let mut at: usize = sorted.len();
        while at > 0 && sorted[at - 1].0 > row.0
            invariant
                at <= sorted.len(),
                before == sorted@,
                ascends(before),
                forall|k: int| at <= k < before.len() ==> row.0 < (#[trigger] before[k]).0,
            decreases at,
        {
            at = at - 1;
        }
        sorted.insert(at, row);
        proof {
            lemma_insert_in_order(before, at as int, row);
            assert forall|tx_seq: u64| #[trigger] rows_of(sorted@, tx_seq) == rows_of(all.take(i + 1), tx_seq) by {
                reveal(Seq::filter);
                assert(all.take(i + 1).drop_last() =~= all.take(i));
                assert(rows_of(before, tx_seq) == rows_of(all.take(i), tx_seq));
            }
        }
    }
    assert(all.take(all.len() as int) =~= all);
    sorted
}

/// Rows have one sorted form only.
pub proof fn law_sorted_form_is_unique<T>(rows: Seq<Row<T>>, a: Seq<Row<T>>, b: Seq<Row<T>>)
    requires
        is_sorted_form(rows, a),
        is_sorted_form(rows, b),
    ensures
        a == b,
{
    assert forall|tx_seq: u64| #[trigger] rows_of(a, tx_seq) == rows_of(b, tx_seq) by {
        assert(rows_of(a, tx_seq) == rows_of(rows, tx_seq));
    }
    lemma_sorted_forms_agree(a, b);
}

proof fn lemma_last_row<T>(rows: Seq<Row<T>>)
    requires
        rows.len() > 0,
    ensures
        rows_of(rows, rows.last().0).len() > 0,
        rows_of(rows, rows.last().0).last() == rows.last(),
        rows_of(rows.drop_last(), rows.last().0) == rows_of(rows, rows.last().0).drop_last(),
        forall|tx_seq: u64|
            tx_seq != rows.last().0 ==> #[trigger] rows_of(rows.drop_last(), tx_seq) == rows_of(rows, tx_seq),
{
    reveal(Seq::filter);
    let own = rows_of(rows, rows.last().0);
    assert(own.drop_last() =~= rows_of(rows.drop_last(), rows.last().0));
}

proof fn lemma_sorted_forms_agree<T>(a: Seq<Row<T>>, b: Seq<Row<T>>)
    requires
        ascends(a),
        ascends(b),
        forall|tx_seq: u64| #[trigger] rows_of(a, tx_seq) == rows_of(b, tx_seq),
    ensures
        a == b,
    decreases a.len(),
{
    reveal(Seq::filter);
    if a.len() == 0 {
        if b.len() > 0 {
            lemma_last_row(b);
            assert(rows_of(a, b.last().0).len() == 0);
        }
        assert(a =~= b);
    } else {
        lemma_last_row(a);
        let s = a.last().0;
        assert(rows_of(b, s).len() > 0);
        if b.len() == 0 {
            assert(rows_of(b, s).len() == 0);
        }
        lemma_last_row(b);
        let t = b.last().0;
        // Each ends with its largest sequence number, and both hold the same ones.
        if s < t {
            lemma_no_rows_of(a, t);
            assert(rows_of(a, t) == rows_of(b, t));
        }
        if t < s {
            lemma_no_rows_of(b, s);
        }
        assert(s == t);
        assert(rows_of(a, s) == rows_of(b, s));
        assert(a.last() == b.last());
        assert forall|tx_seq: u64| #[trigger] rows_of(a.drop_last(), tx_seq) == rows_of(b.drop_last(), tx_seq) by {
            assert(rows_of(a, tx_seq) == rows_of(b, tx_seq));
        }
        lemma_sorted_forms_agree(a.drop_last(), b.drop_last());
        assert(a =~= a.drop_last().push(a.last()));
        assert(b =~= b.drop_last().push(b.last()));
    }
}

/// Rows in ascending order, with rows of the same transaction in the order in which
/// they were.
pub open spec fn sorted_form<T>(rows: Seq<Row<T>>) -> Seq<Row<T>> {
    choose|sorted: Seq<Row<T>>| is_sorted_form(rows, sorted)
}

/// Rows have a sorted form, of the same length.
pub proof fn law_sorted_form_exists<T>(rows: Seq<Row<T>>)
    ensures
        is_sorted_form(rows, sorted_form(rows)),
        sorted_form(rows).len() == rows.len(),
{
    let sorted = lemma_sort(rows);
    law_sorted_form_is_unique(rows, sorted, sorted_form(rows));
}

proof fn lemma_sort<T>(rows: Seq<Row<T>>) -> (sorted: Seq<Row<T>>)
    ensures
        is_sorted_form(rows, sorted),
        sorted.len() == rows.len(),
    decreases rows.len(),
{
    if rows.len() == 0 {
        rows
    } else {
        let row = rows.last();
        let before = lemma_sort(rows.drop_last());
        let at = lemma_place(before, row);
        lemma_insert_in_order(before, at, row);
        let sorted = before.insert(at, row);
        assert forall|tx_seq: u64| #[trigger] rows_of(sorted, tx_seq) == rows_of(rows, tx_seq) by {
            reveal(Seq::filter);
            assert(rows_of(before, tx_seq) == rows_of(rows.drop_last(), tx_seq));
        }
        sorted
    }
}

/// Where a row goes among rows that ascend.
proof fn lemma_place<T>(sorted: Seq<Row<T>>, row: Row<T>) -> (at: int)
    requires
        ascends(sorted),
    ensures
        0 <= at <= sorted.len(),
        forall|i: int| 0 <= i < at ==> (#[trigger] sorted[i]).0 <= row.0,
        forall|i: int| at <= i < sorted.len() ==> row.0 < (#[trigger] sorted[i]).0,
    decreases sorted.len(),
{
    if sorted.len() == 0 || sorted.last().0 <= row.0 {
        sorted.len() as int
    } else {
        let front = sorted.drop_last();
        let at = lemma_place(front, row);
        assert forall|i: int| 0 <= i < at implies (#[trigger] sorted[i]).0 <= row.0 by {
            assert(front[i] == sorted[i]);
        }
        assert forall|i: int| at <= i < sorted.len() implies row.0 < (#[trigger] sorted[i]).0 by {
            if i < front.len() {
                assert(front[i] == sorted[i]);
            }
        }
        at
    }
}

/// One transaction of a page.
pub struct TransactionResult<T> {
    /// The token with which a listing goes on behind this transaction.
    pub cursor: Vec<u8>,
    pub checkpoint: u64,
    pub transaction: T,
}

/// A page.
pub struct Page<T> {
    pub transactions: Vec<TransactionResult<T>>,
    /// The token of the next page; absent on the last page.
    pub next_page_token: Option<Vec<u8>>,
}

/// Where the range of transactions starts.
#[derive(Clone, Copy, Debug, PartialEq, Eq, Structural)]
pub enum TxStart {
    /// At this transaction.
    At(u64),
    /// At the first transaction of this checkpoint.
    AtCheckpoint(u64),
}

/// What was read for a listing.
pub enum ListEvent<T> {
    /// The last checkpoint that is indexed, if any.
    Watermark(Option<u64>),
    /// The first transaction of [`ListAction::ResolveTxRange`], and the one after the
    /// last.
    TxRange { start_tx: u64, end_tx: u64 },
    /// The transactions that match the filter.
    Matches(Vec<u64>),
    /// The rows of [`ListAction::ReadRows`], in any order.
    Rows(Vec<Row<T>>),
}

/// What to do next in a listing.
pub enum ListAction<T> {
    /// Find the transaction at `start`, and the one after the last of the checkpoints
    /// before `end_checkpoint`.
    ResolveTxRange { start: TxStart, end_checkpoint: u64 },
    /// Find the first `limit` transactions of the range that match the filter.
    EvaluateFilter { range: TxRange, limit: usize },
    /// Read the rows of these transactions.
    ReadRows(Vec<u64>),
    /// The listing is over.
    Done(Result<Page<T>, ListError>),
}

/// A listing that is under way.
pub struct TransactionListing {
    pub page_size: usize,
    /// The last transaction of the page before.
    pub cursor: Option<u64>,
    pub start_checkpoint: Option<u64>,
    pub end_checkpoint: Option<u64>,
    pub filtered: bool,
}

/// A page without transactions, and without a next one.
pub open spec fn is_empty_page<T>(page: Page<T>) -> bool {
    page.transactions@.len() == 0 && page.next_page_token is None
}

/// The smaller of two numbers.
pub open spec fn min_of(a: int, b: int) -> int {
    if a < b {
        a
    } else {
        b
    }
}

/// The first transactions of a range, at most `limit`.
pub open spec fn first_of(range: TxRange, limit: nat) -> Seq<u64> {
    let len = if range.start < range.end { range.end - range.start } else { 0 };
    Seq::new(min_of(len, limit as int) as nat, |i: int| (range.start + i) as u64)
}

/// The page holds the first `page_size` of the sorted rows, each with its token. If
/// there are more, the token of the last is that of the next page.
pub open spec fn is_page_of<T>(page: Page<T>, sorted: Seq<Row<T>>, page_size: nat) -> bool {
    let len = min_of(sorted.len() as int, page_size as int);
    &&& page.transactions@.len() == len
    &&& forall|i: int|
        0 <= i < len ==> {
            let item = #[trigger] page.transactions@[i];
            &&& item.cursor@ == codec::be_bytes(sorted[i].0)
            &&& item.checkpoint == sorted[i].1
            &&& item.transaction == sorted[i].2
        }
    &&& match page.next_page_token {
        Some(token) => sorted.len() > page_size && token@ == codec::be_bytes(sorted[page_size - 1].0),
        None => sorted.len() <= page_size,
    }
}

impl TransactionListing {
    /// Pages are not empty, and not too large.
    pub open spec fn wf(&self) -> bool {
        1 <= self.page_size <= MAX_PAGE_SIZE
    }

    /// Begin the listing of a request.
    pub fn begin(request: &ListTransactionsRequest) -> (listing: Result<Self, ListError>)
        ensures
            match listing {
                Ok(listing) => {
                    &&& listing.wf()
                    &&& listing.page_size == clamped_page_size(request.page_size)
                    &&& match request.page_token {
                        Some(token) => token@.len() == 8 && listing.cursor == Some(codec::be_value(token@)),
                        None => listing.cursor is None,
                    }
                    &&& listing.start_checkpoint == request.start_checkpoint
                    &&& listing.end_checkpoint == request.end_checkpoint
                    &&& listing.filtered == request.filtered
                },
                Err(error) => {
                    &&& error == ListError::InvalidPageToken
                    &&& request.page_token matches Some(token) && token@.len() != 8
                },
            },
    {
        let page_size: usize = page_size_of(request.page_size);
        let cursor: Option<u64> = match &request.page_token {
            Some(token) => match decode_tx_page_token(token) {
                Ok(tx_seq) => Some(tx_seq),
                Err(error) => {
                    return Err(error);
                },
            },
            None => None,
        };
        Ok(
            TransactionListing {
                page_size,
                cursor,
                start_checkpoint: request.start_checkpoint,
                end_checkpoint: request.end_checkpoint,
                filtered: request.filtered,
            },
        )
    }

    /// The first checkpoint of the listing, given the number of indexed ones.
    pub open spec fn start_cp(&self, indexed: int) -> int {
        match self.start_checkpoint {
            Some(checkpoint) => min_of(checkpoint as int, indexed),
            None => 0,
        }
    }

    /// The checkpoint after the last of the listing, given the number of indexed ones.
    pub open spec fn end_cp(&self, indexed: int) -> int {
        match self.end_checkpoint {
            Some(checkpoint) => min_of(checkpoint as int, indexed),
            None => indexed,
        }
    }

    /// Where the range of transactions starts: behind the page before, or else at the
    /// first checkpoint.
    pub open spec fn start_of(&self, indexed: int) -> TxStart {
        match self.cursor {
            Some(cursor) => TxStart::At((cursor + 1) as u64),
            None => if self.start_cp(indexed) == 0 {
                TxStart::At(0)
            } else {
                TxStart::AtCheckpoint(self.start_cp(indexed) as u64)
            },
        }
    }

    /// The range of transactions can be determined: the checkpoints can be counted, and
    /// unless there are none, there can be a transaction behind the page before.
    pub open spec fn can_resolve(&self, watermark: Option<u64>) -> bool {
        watermark matches Some(checkpoint) ==> {
            &&& checkpoint < u64::MAX
            &&& self.start_cp(checkpoint + 1) < self.end_cp(checkpoint + 1) ==> self.cursor != Some(u64::MAX)
        }
    }

    /// The first checkpoint and the one after the last, given the number of indexed
    /// ones.
    fn clamped_bounds(&self, indexed: u64) -> (bounds: (u64, u64))
        ensures
            bounds.0 == self.start_cp(indexed as int),
            bounds.1 == self.end_cp(indexed as int),
    {
        let start_cp: u64 = match self.start_checkpoint {
            Some(checkpoint) => if checkpoint < indexed {
                checkpoint
            } else {
                indexed
            },
            None => 0,
        };
        let end_cp: u64 = match self.end_checkpoint {
            Some(checkpoint) => if checkpoint < indexed {
                checkpoint
            } else {
                indexed
            },
            None => indexed,
        };
        (start_cp, end_cp)
    }

    /// Whether [`Self::resolve_tx_range`] can be asked, given the last checkpoint that is
    /// indexed.
    pub fn can_resolve_tx_range(&self, watermark: Option<u64>) -> (can: bool)
        ensures
            can == self.can_resolve(watermark),
    {
        match watermark {
            None => true,
            Some(checkpoint) => if checkpoint == u64::MAX {
                false
            } else {
                let (start_cp, end_cp) = self.clamped_bounds(checkpoint + 1);
                start_cp >= end_cp || match self.cursor {
                    Some(cursor) => cursor < u64::MAX,
                    None => true,
                }
            },
        }
    }

    /// Determine the range of transactions. The checkpoints that were asked for are
    /// clamped to those that are indexed, so bounds that are out of range give an
    /// empty listing, and no checkpoint is looked up that is not there.
    pub fn resolve_tx_range<T>(&self, watermark: Option<u64>) -> (action: ListAction<T>)
        requires
            self.can_resolve(watermark),
        ensures
            match watermark {
                None => action == ListAction::<T>::Done(Err(ListError::NoWatermark)),
                Some(checkpoint) => {
                    let indexed = checkpoint + 1;
                    if self.start_cp(indexed) >= self.end_cp(indexed) {
                        action matches ListAction::Done(Ok(page)) && is_empty_page(page)
                    } else {
                        action == ListAction::<T>::ResolveTxRange {
                            start: self.start_of(indexed),
                            end_checkpoint: self.end_cp(indexed) as u64,
                        }
                    }
                },
            },
    {
        let indexed: u64 = match watermark {
            Some(checkpoint) => checkpoint + 1,
            None => {
                return ListAction::Done(Err(ListError::NoWatermark));
            },
        };
        let (start_cp, end_cp) = self.clamped_bounds(indexed);
        if start_cp >= end_cp {
            return ListAction::Done(Ok(Page { transactions: Vec::new(), next_page_token: None }));
        }
        let start = match self.cursor {
            Some(cursor) => TxStart::At(cursor + 1),
            None => if start_cp == 0 {
                TxStart::At(0)
            } else {
                TxStart::AtCheckpoint(start_cp)
            },
        };
        ListAction::ResolveTxRange { start, end_checkpoint: end_cp }
    }

    /// Collect the candidates of a range of transactions, one more than the page
    /// holds, so that it shows whether there is a next page.
    pub fn find_candidates<T>(&self, start_tx: u64, end_tx: u64) -> (action: ListAction<T>)
        requires
            self.wf(),
        ensures
            if start_tx >= end_tx {
                action matches ListAction::Done(Ok(page)) && is_empty_page(page)
            } else if self.filtered {
                action == ListAction::<T>::EvaluateFilter {
                    range: TxRange { start: start_tx, end: end_tx },
                    limit: (self.page_size + 1) as usize,
                }
            } else {
                action matches ListAction::ReadRows(seqs) && seqs@ == first_of(
                    TxRange { start: start_tx, end: end_tx },
                    (self.page_size + 1) as nat,
                )
            },
    {
        if start_tx >= end_tx {
            return ListAction::Done(Ok(Page { transactions: Vec::new(), next_page_token: None }));
        }
        let range = TxRange { start: start_tx, end: end_tx };
        let limit: usize = self.page_size + 1;
        if self.filtered {
            return ListAction::EvaluateFilter { range, limit };
        }
        let mut seqs: Vec<u64> = Vec::new();
        let mut seq: u64 = start_tx;
        while seq < end_tx && seqs.len() < limit
            invariant
                start_tx <= seq <= end_tx,
                seqs@.len() == seq - start_tx,
                seqs@.len() <= limit,
                forall|i: int| 0 <= i < seqs@.len() ==> seqs@[i] == start_tx + i,
            decreases end_tx - seq,
        {
            seqs.push(seq);
            seq = seq + 1;
        }
        assert(seqs@ =~= first_of(range, limit as nat));
        ListAction::ReadRows(seqs)
    }

    /// Put a page together from the rows that were read, in any order.
    pub fn assemble_page<T>(&self, rows: Vec<Row<T>>) -> (page: Page<T>)
        requires
            self.wf(),
        ensures
            is_page_of(page, sorted_form(rows@), self.page_size as nat),
    {
        let mut sorted = sort_by_seq(rows);
        let ghost all = sorted@;
        let ghost given = rows@;
        proof {
            assert(is_sorted_form(given, all));
            law_sorted_form_is_unique(given, all, sorted_form(given));
        }
        let has_next: bool = sorted.len() > self.page_size;
        sorted.truncate(self.page_size);
        let ghost kept = sorted@;
        let mut next_page_token: Option<Vec<u8>> = None;
        if has_next {
            next_page_token = Some(encode_tx_page_token(sorted[self.page_size - 1].0));
        }
        let mut transactions: Vec<TransactionResult<T>> = Vec::with_capacity(sorted.len());
        for row in walk: sorted
            invariant
                walk.seq() == kept,
                transactions@.len() == walk.index(),
                forall|i: int|
                    0 <= i < transactions@.len() ==> {
                        let item = #[trigger] transactions@[i];
                        &&& item.cursor@ == codec::be_bytes(kept[i].0)
                        &&& item.checkpoint == kept[i].1
                        &&& item.transaction == kept[i].2
                    },
        {
            let (tx_seq, checkpoint, transaction) = row;
            transactions.push(
                TransactionResult { cursor: encode_tx_page_token(tx_seq), checkpoint, transaction },
            );
        }
        Page { transactions, next_page_token }
    }

    /// Decide the next step of the listing.
    pub fn list_transactions<T>(&self, event: ListEvent<T>) -> (action: ListAction<T>)
        requires
            self.wf(),
            event matches ListEvent::Watermark(watermark) ==> self.can_resolve(watermark),
        ensures
            match event {
                ListEvent::Watermark(None) => action == ListAction::<T>::Done(Err(ListError::NoWatermark)),
                ListEvent::Watermark(Some(checkpoint)) => {
                    let indexed = checkpoint + 1;
                    if self.start_cp(indexed) >= self.end_cp(indexed) {
                        action matches ListAction::Done(Ok(page)) && is_empty_page(page)
                    } else {
                        action == ListAction::<T>::ResolveTxRange {
                            start: self.start_of(indexed),
                            end_checkpoint: self.end_cp(indexed) as u64,
                        }
                    }
                },
                ListEvent::TxRange { start_tx, end_tx } => if start_tx >= end_tx {
                    action matches ListAction::Done(Ok(page)) && is_empty_page(page)
                } else if self.filtered {
                    action == ListAction::<T>::EvaluateFilter {
                        range: TxRange { start: start_tx, end: end_tx },
                        limit: (self.page_size + 1) as usize,
                    }
                } else {
                    action matches ListAction::ReadRows(seqs) && seqs@ == first_of(
                        TxRange { start: start_tx, end: end_tx },
                        (self.page_size + 1) as nat,
                    )
                },
                ListEvent::Matches(matching) => action == ListAction::<T>::ReadRows(matching),
                ListEvent::Rows(rows) => action matches ListAction::Done(Ok(page)) && is_page_of(
                    page,
                    sorted_form(rows@),
                    self.page_size as nat,
                ),
            },
    {
        match event {
            ListEvent::Watermark(watermark) => self.resolve_tx_range(watermark),
            ListEvent::TxRange { start_tx, end_tx } => self.find_candidates(start_tx, end_tx),
            ListEvent::Matches(matching) => ListAction::ReadRows(matching),
            ListEvent::Rows(rows) => ListAction::Done(Ok(self.assemble_page(rows))),
        }
    }
}

/// Pages follow each other without overlap and without a gap: every transaction of a
/// page comes before the one at which the next page's token has the listing go on, and
/// every row that was left out does not.
pub proof fn law_next_page_follows<T>(
    listing: TransactionListing,
    next: TransactionListing,
    sorted: Seq<Row<T>>,
    page: Page<T>,
    indexed: int,
    i: int,
)
    requires
        listing.wf(),
        ascends(sorted),
        forall|a: int, b: int| 0 <= a < b < sorted.len() ==> (#[trigger] sorted[a]).0 != (#[trigger] sorted[b]).0,
        is_page_of(page, sorted, listing.page_size as nat),
        page.next_page_token matches Some(token) && next.cursor == Some(codec::be_value(token@)),
        0 <= i < sorted.len(),
    ensures
        next.start_of(indexed) matches TxStart::At(start) && {
            &&& i < listing.page_size ==> sorted[i].0 < start
            &&& i >= listing.page_size ==> sorted[i].0 >= start
        },
{
    let last = listing.page_size - 1;
    codec::law_be_value_of_be_bytes(sorted[last].0);
    assert(sorted[last].0 < sorted[last + 1].0);
    if i < last {
        assert(sorted[i].0 < sorted[last].0);
    }
    if i > last {
        assert(sorted[last].0 < sorted[i].0);
    }
}

/// Without a filter, the pages cover the range in order: the first page of a range
/// holds its first transactions, and if there are more, the next page's token has the
/// listing go on at the first that was left out.
pub proof fn law_unfiltered_pages_cover_the_range<T>(
    listing: TransactionListing,
    next: TransactionListing,
    range: TxRange,
    sorted: Seq<Row<T>>,
    page: Page<T>,
    indexed: int,
)
    requires
        listing.wf(),
        range.start < range.end,
        sorted.map_values(|row: Row<T>| row.0) == first_of(range, (listing.page_size + 1) as nat),
        is_page_of(page, sorted, listing.page_size as nat),
        page.next_page_token matches Some(token) ==> next.cursor == Some(codec::be_value(token@)),
    ensures
        page.transactions@.len() == min_of(range.end - range.start, listing.page_size as int),
        forall|i: int|
            0 <= i < page.transactions@.len() ==> codec::be_value((#[trigger] page.transactions@[i]).cursor@)
                == range.start + i,
        page.next_page_token is Some <==> range.end - range.start > listing.page_size,
        page.next_page_token is Some ==> next.start_of(indexed) == TxStart::At(
            (range.start + listing.page_size) as u64,
        ),
{
    let seqs = sorted.map_values(|row: Row<T>| row.0);
    let expected = first_of(range, (listing.page_size + 1) as nat);
    assert(sorted.len() == expected.len());
    assert forall|i: int| 0 <= i < sorted.len() implies (#[trigger] sorted[i]).0 == range.start + i by {
        assert(seqs[i] == expected[i]);
    }
    assert forall|i: int| 0 <= i < page.transactions@.len() implies codec::be_value(
        (#[trigger] page.transactions@[i]).cursor@,
    ) == range.start + i by {
        codec::law_be_value_of_be_bytes(sorted[i].0);
    }
    if page.next_page_token is Some {
        codec::law_be_value_of_be_bytes(sorted[listing.page_size - 1].0);
    }
}

/// No checkpoint is looked up that is not indexed, whatever bounds were asked for.
pub proof fn law_bounds_are_clamped(listing: TransactionListing, indexed: int)
    requires
        indexed > 0,
    ensures
        0 <= listing.start_cp(indexed) <= indexed,
        0 <= listing.end_cp(indexed) <= indexed,
        listing.start_cp(indexed) < listing.end_cp(indexed) && indexed <= u64::MAX ==> {
            listing.start_of(indexed) matches TxStart::AtCheckpoint(checkpoint) ==> checkpoint < indexed
        },
{
}

/// Bounds that are out of range are no error: a listing that starts behind the last
/// indexed checkpoint is empty, and one that ends behind it is the listing without an
/// end.
pub proof fn law_bounds_behind_the_index(listing: TransactionListing, checkpoint: u64)
    requires
        checkpoint < u64::MAX,
    ensures
        ({
            let indexed = checkpoint + 1;
            let open_ended = TransactionListing { end_checkpoint: None, ..listing };
            &&& (listing.start_checkpoint matches Some(start) && start > checkpoint) ==> {
                &&& listing.start_cp(indexed) >= listing.end_cp(indexed)
                &&& listing.can_resolve(Some(checkpoint))
            }
            &&& (listing.end_checkpoint matches Some(end) && end > checkpoint) ==> {
                &&& listing.start_cp(indexed) == open_ended.start_cp(indexed)
                &&& listing.end_cp(indexed) == open_ended.end_cp(indexed)
                &&& listing.start_of(indexed) == open_ended.start_of(indexed)
                &&& listing.can_resolve(Some(checkpoint)) == open_ended.can_resolve(Some(checkpoint))
            }
        }),
{
}

/// The rows ascend by sequence number, and each transaction has one.
pub open spec fn ascends_strictly<T>(rows: Seq<Row<T>>) -> bool {
    forall|i: int, j: int| 0 <= i < j < rows.len() ==> (#[trigger] rows[i]).0 < (#[trigger] rows[j]).0
}

/// The first transaction of a listing's range, where `resolved` is the first transaction
/// of its first checkpoint.
pub open spec fn first_tx(listing: TransactionListing, indexed: int, resolved: u64) -> u64 {
    match listing.start_of(indexed) {
        TxStart::At(tx_seq) => tx_seq,
        TxStart::AtCheckpoint(_) => resolved,
    }
}

/// The first `limit` rows of the transactions from `start` on.
pub open spec fn rows_from<T>(stored: Seq<Row<T>>, start: u64, limit: nat) -> Seq<Row<T>> {
    let behind = stored.filter(|row: Row<T>| row.0 >= start);
    behind.take(min_of(behind.len() as int, limit as int))
}

/// One call of a walk through the pages of a listing: what was asked, the rows that were
/// read for it, and the page.
pub struct Turn<T> {
    pub listing: TransactionListing,
    pub rows: Seq<Row<T>>,
    pub page: Page<T>,
}

/// The call finds the matching rows of its range among those that are stored, one more
/// than the page holds, reads them in any order, and makes a page of them.
pub open spec fn is_turn<T>(turn: Turn<T>, indexed: int, resolved: u64, stored: Seq<Row<T>>) -> bool {
    &&& turn.listing.wf()
    &&& is_sorted_form(
        turn.rows,
        rows_from(stored, first_tx(turn.listing, indexed, resolved), (turn.listing.page_size + 1) as nat),
    )
    &&& is_page_of(turn.page, sorted_form(turn.rows), turn.listing.page_size as nat)
}

/// The calls walk through the pages of a listing: the first has no page token, and each
/// other one has the token that the page before gave. The page size may change.
pub open spec fn is_walk<T>(turns: Seq<Turn<T>>, indexed: int, resolved: u64, stored: Seq<Row<T>>) -> bool {
    &&& turns.len() > 0
    &&& turns[0].listing.cursor is None
    &&& forall|i: int| 0 <= i < turns.len() ==> is_turn(#[trigger] turns[i], indexed, resolved, stored)
    &&& forall|i: int| #![trigger turns[i]]
        0 <= i < turns.len() - 1 ==> {
            &&& turns[i].page.next_page_token matches Some(token)
            &&& turns[i + 1].listing.cursor == Some(codec::be_value(token@))
        }
}

/// The transactions of all pages, joined.
pub open spec fn joined<T>(turns: Seq<Turn<T>>) -> Seq<TransactionResult<T>>
    decreases turns.len(),
{
    if turns.len() == 0 {
        seq![]
    } else {
        joined(turns.drop_last()) + turns.last().page.transactions@
    }
}

/// The transaction of a page is the row.
pub open spec fn is_item_of<T>(item: TransactionResult<T>, row: Row<T>) -> bool {
    &&& item.cursor@ == codec::be_bytes(row.0)
    &&& item.checkpoint == row.1
    &&& item.transaction == row.2
}

proof fn lemma_filter_none<A>(items: Seq<A>, pred: spec_fn(A) -> bool)
    requires
        forall|i: int| 0 <= i < items.len() ==> !pred(#[trigger] items[i]),
    ensures
        items.filter(pred) == Seq::<A>::empty(),
    decreases items.len(),
{
    reveal(Seq::filter);
    if items.len() > 0 {
        assert(items.last() == items[items.len() - 1]);
        lemma_filter_none(items.drop_last(), pred);
    }
}

proof fn lemma_filter_all<A>(items: Seq<A>, pred: spec_fn(A) -> bool)
    requires
        forall|i: int| 0 <= i < items.len() ==> pred(#[trigger] items[i]),
    ensures
        items.filter(pred) == items,
    decreases items.len(),
{
    reveal(Seq::filter);
    if items.len() > 0 {
        assert(items.last() == items[items.len() - 1]);
        lemma_filter_all(items.drop_last(), pred);
        assert(items.drop_last().push(items.last()) =~= items);
    } else {
        assert(items.filter(pred) =~= items);
    }
}

/// If `start` comes behind the first `n` rows and not behind the next one, the rows from
/// there on are the others.
proof fn lemma_rows_from<T>(stored: Seq<Row<T>>, start: u64, limit: nat, n: int)
    requires
        0 <= n <= stored.len(),
        forall|i: int| 0 <= i < n ==> (#[trigger] stored[i]).0 < start,
        forall|i: int| n <= i < stored.len() ==> (#[trigger] stored[i]).0 >= start,
    ensures
        rows_from(stored, start, limit) == stored.subrange(n, n + min_of(stored.len() - n, limit as int)),
{
    let pred = |row: Row<T>| row.0 >= start;
    let low = stored.take(n);
    let high = stored.skip(n);
    assert(stored =~= low + high);
    Seq::filter_distributes_over_add(low, high, pred);
    lemma_filter_none(low, pred);
    lemma_filter_all(high, pred);
    assert(stored.filter(pred) =~= high);
    assert(rows_from(stored, start, limit) =~= stored.subrange(n, n + min_of(stored.len() - n, limit as int)));
}

/// What one call of a walk lists where `m` rows come before its range: the next rows, as
/// many as the page holds.
#[verifier::spinoff_prover]
proof fn lemma_turn<T>(turn: Turn<T>, indexed: int, resolved: u64, stored: Seq<Row<T>>, m: int)
    requires
        is_turn(turn, indexed, resolved, stored),
        0 <= m <= stored.len(),
        forall|i: int| 0 <= i < m ==> (#[trigger] stored[i]).0 < first_tx(turn.listing, indexed, resolved),
        forall|i: int|
            m <= i < stored.len() ==> (#[trigger] stored[i]).0 >= first_tx(turn.listing, indexed, resolved),
    ensures
        ({
            let size = turn.listing.page_size as int;
            let listed = turn.page.transactions@;
            &&& listed.len() == min_of(stored.len() - m, size)
            &&& forall|i: int| 0 <= i < listed.len() ==> is_item_of(#[trigger] listed[i], stored[m + i])
            &&& match turn.page.next_page_token {
                Some(token) => {
                    &&& m + size < stored.len()
                    &&& token@ == codec::be_bytes(stored[m + size - 1].0)
                },
                None => m + listed.len() == stored.len(),
            }
        }),
{
    let size = turn.listing.page_size as int;
    let start = first_tx(turn.listing, indexed, resolved);
    let read = rows_from(stored, start, (size + 1) as nat);
    lemma_rows_from(stored, start, (size + 1) as nat, m);
    law_sorted_form_exists(turn.rows);
    law_sorted_form_is_unique(turn.rows, read, sorted_form(turn.rows));
    assert(forall|i: int| 0 <= i < read.len() ==> #[trigger] read[i] == stored[m + i]);
}

/// The pages before a call, joined, with those of the call.
proof fn lemma_join<T>(turns: Seq<Turn<T>>, stored: Seq<Row<T>>, k: int, m: int)
    requires
        0 <= k < turns.len(),
        joined(turns.take(k)).len() == m,
        forall|i: int| 0 <= i < m ==> is_item_of(#[trigger] joined(turns.take(k))[i], stored[i]),
        forall|i: int|
            0 <= i < turns[k].page.transactions@.len() ==> is_item_of(
                #[trigger] turns[k].page.transactions@[i],
                stored[m + i],
            ),
    ensures
        ({
            let after = joined(turns.take(k + 1));
            &&& after.len() == m + turns[k].page.transactions@.len()
            &&& forall|i: int| 0 <= i < after.len() ==> is_item_of(#[trigger] after[i], stored[i])
        }),
{
    let before = joined(turns.take(k));
    let listed = turns[k].page.transactions@;
    let after = joined(turns.take(k + 1));
    assert(turns.take(k + 1).drop_last() =~= turns.take(k));
    assert(turns.take(k + 1).last() == turns[k]);
    assert(after == before + listed);
    assert forall|i: int| 0 <= i < after.len() implies is_item_of(#[trigger] after[i], stored[i]) by {
        if i < m {
            assert(after[i] == before[i]);
        } else {
            assert(after[i] == listed[i - m]);
            assert(is_item_of(listed[i - m], stored[m + (i - m)]));
        }
    }
}

/// What a walk has listed after `k` calls: the first rows, in order, and the next call
/// goes on with the row behind them.
#[verifier::spinoff_prover]
proof fn lemma_walk<T>(turns: Seq<Turn<T>>, indexed: int, resolved: u64, stored: Seq<Row<T>>, k: int) -> (n: int)
    requires
        is_walk(turns, indexed, resolved, stored),
        ascends_strictly(stored),
        forall|i: int| 0 <= i < stored.len() ==> (#[trigger] stored[i]).0 >= first_tx(turns[0].listing, indexed, resolved),
        0 <= k <= turns.len(),
    ensures
        0 <= n <= stored.len(),
        joined(turns.take(k)).len() == n,
        forall|i: int| 0 <= i < n ==> is_item_of(#[trigger] joined(turns.take(k))[i], stored[i]),
        k < turns.len() ==> {
            let start = first_tx(turns[k].listing, indexed, resolved);
            &&& forall|i: int| 0 <= i < n ==> (#[trigger] stored[i]).0 < start
            &&& forall|i: int| n <= i < stored.len() ==> (#[trigger] stored[i]).0 >= start
            &&& turns[k].listing.cursor != Some(u64::MAX)
            &&& n >= k
            &&& k > 0 ==> n < stored.len()
        },
        k == turns.len() && turns.last().page.next_page_token is None ==> n == stored.len(),
    decreases k,
{
    if k == 0 {
        assert(turns.take(0) =~= seq![]);
        0
    } else {
        let m = lemma_walk(turns, indexed, resolved, stored, k - 1);
        let turn = turns[k - 1];
        lemma_turn(turn, indexed, resolved, stored, m);
        lemma_join(turns, stored, k - 1, m);
        let n = m + turn.page.transactions@.len();
        if k < turns.len() {
            assert(turn.page.next_page_token is Some);
            let last = stored[n - 1].0;
            codec::law_be_value_of_be_bytes(last);
            assert(turns[k - 1 + 1].listing.cursor == Some(last));
            assert(last < stored[n].0);
            assert forall|i: int| 0 <= i < n implies (#[trigger] stored[i]).0 <= last by {
                if i < n - 1 {
                    assert(stored[i].0 < stored[n - 1].0);
                }
            }
            assert forall|i: int| n <= i < stored.len() implies (#[trigger] stored[i]).0 > last by {
                assert(stored[n - 1].0 < stored[i].0);
            }
        }
        n
    }
}

/// The pages of a listing, joined, are the matching transactions of its range: each
/// once, in ascending order, whatever the page sizes. This is of a walk that has come to
/// the page without a next one, over rows that do not change meanwhile.
pub proof fn law_pages_joined_are_the_listing<T>(
    turns: Seq<Turn<T>>,
    indexed: int,
    resolved: u64,
    stored: Seq<Row<T>>,
)
    requires
        is_walk(turns, indexed, resolved, stored),
        turns.last().page.next_page_token is None,
        ascends_strictly(stored),
        forall|i: int| 0 <= i < stored.len() ==> (#[trigger] stored[i]).0 >= first_tx(turns[0].listing, indexed, resolved),
    ensures
        joined(turns).len() == stored.len(),
        forall|i: int| 0 <= i < stored.len() ==> is_item_of(#[trigger] joined(turns)[i], stored[i]),
{
    let n = lemma_walk(turns, indexed, resolved, stored, turns.len() as int);
    assert(turns.take(turns.len() as int) =~= turns);
}

/// A walk through the pages of a listing ends: there are no more pages than matching
/// transactions, but for a listing without any, which has one page. And it does not get
/// stuck: each token can be gone on with.
pub proof fn law_walks_end<T>(
    turns: Seq<Turn<T>>,
    indexed: int,
    resolved: u64,
    stored: Seq<Row<T>>,
    i: int,
)
    requires
        is_walk(turns, indexed, resolved, stored),
        ascends_strictly(stored),
        forall|i: int| 0 <= i < stored.len() ==> (#[trigger] stored[i]).0 >= first_tx(turns[0].listing, indexed, resolved),
        0 <= i < turns.len(),
    ensures
        turns.len() == 1 || turns.len() <= stored.len(),
        turns[i].listing.cursor != Some(u64::MAX),
{
    let n = lemma_walk(turns, indexed, resolved, stored, turns.len() - 1);
    let m = lemma_walk(turns, indexed, resolved, stored, i);
}

/// The bounds of a listing are those that were asked for, as far as they are indexed,
/// each whatever the other is and whatever page token and page size came with it. A
/// listing without a start begins at the first checkpoint, and one without an end goes on
/// to the last that is indexed.
pub proof fn law_requested_bounds_are_kept(listing: TransactionListing, indexed: int)
    requires
        indexed >= 0,
    ensures
        match listing.end_checkpoint {
            Some(end) => {
                &&& end <= indexed ==> listing.end_cp(indexed) == end
                &&& end > indexed ==> listing.end_cp(indexed) == indexed
            },
            None => listing.end_cp(indexed) == indexed,
        },
        match listing.start_checkpoint {
            Some(start) => {
                &&& start <= indexed ==> listing.start_cp(indexed) == start
                &&& start > indexed ==> listing.start_cp(indexed) == indexed
            },
            None => listing.start_cp(indexed) == 0,
        },
{
}

/// Without a page token, a listing starts with the first transaction of the checkpoint
/// that was asked for. With one, it starts with the transaction behind the token's,
/// whatever bounds were asked for.
pub proof fn law_listings_start_where_asked(listing: TransactionListing, indexed: int)
    requires
        0 <= indexed <= u64::MAX,
    ensures
        match listing.cursor {
            Some(cursor) => cursor < u64::MAX ==> (listing.start_of(indexed) matches TxStart::At(tx_seq) && tx_seq
                == cursor + 1),
            None => match listing.start_checkpoint {
                Some(start) => 0 < start < indexed ==> listing.start_of(indexed) == TxStart::AtCheckpoint(start),
                None => listing.start_of(indexed) == TxStart::At(0),
            },
        },
        listing.cursor is None && listing.start_checkpoint == Some(0u64) ==> listing.start_of(indexed)
            == TxStart::At(0),
{
}

/// A listing can be resolved unless the checkpoints cannot be counted, or there are
/// checkpoints to list but no transaction can be behind the page token's.
pub proof fn law_listings_can_be_resolved(listing: TransactionListing, checkpoint: u64)
    ensures
        listing.can_resolve(None),
        !listing.can_resolve(Some(u64::MAX)),
        listing.cursor != Some(u64::MAX) && checkpoint < u64::MAX ==> listing.can_resolve(Some(checkpoint)),
        listing.cursor == Some(u64::MAX) && checkpoint < u64::MAX ==> (listing.can_resolve(Some(checkpoint))
            <==> listing.end_checkpoint == Some(0u64) || (listing.start_checkpoint matches Some(start) && (start
            > checkpoint || (listing.end_checkpoint matches Some(end) && end <= start)))),
{
}

/// The range of transactions of a listing over the checkpoints, where checkpoint `c` has
/// the transactions from `tx_lo[c]` to before `tx_lo[c + 1]`.
pub open spec fn is_range_of(listing: TransactionListing, tx_lo: Seq<u64>, range: TxRange) -> bool {
    let indexed = tx_lo.len() - 1;
    &&& match listing.start_of(indexed) {
        TxStart::At(tx_seq) => range.start == tx_seq,
        TxStart::AtCheckpoint(checkpoint) => range.start == tx_lo[checkpoint as int],
    }
    &&& range.end == tx_lo[listing.end_cp(indexed)]
}

/// No transaction of a listing is of a checkpoint outside the bounds that were asked for:
/// none is of the end checkpoint or a later one, and without a page token none is of a
/// checkpoint before the start. With a page token, none is listed that comes before it.
pub proof fn law_listed_transactions_are_within_the_bounds(
    listing: TransactionListing,
    tx_lo: Seq<u64>,
    range: TxRange,
    limit: nat,
    i: int,
    c: int,
)
    requires
        1 < tx_lo.len() <= u64::MAX,
        forall|a: int, b: int| 0 <= a <= b < tx_lo.len() ==> (#[trigger] tx_lo[a]) <= (#[trigger] tx_lo[b]),
        listing.cursor != Some(u64::MAX),
        is_range_of(listing, tx_lo, range),
        0 <= i < first_of(range, limit).len(),
        0 <= c < tx_lo.len() - 1,
        tx_lo[c] <= first_of(range, limit)[i] < tx_lo[c + 1],
    ensures
        listing.end_checkpoint matches Some(end) ==> c < end,
        listing.cursor is None && listing.start_checkpoint is Some ==> c >= listing.start_checkpoint->0,
        listing.cursor matches Some(cursor) ==> cursor < first_of(range, limit)[i],
{
    let indexed = tx_lo.len() - 1;
    let tx_seq = first_of(range, limit)[i];
    assert(range.start <= tx_seq < range.end);
    if listing.end_checkpoint is Some && c >= listing.end_checkpoint->0 {
        let end = listing.end_cp(indexed);
        assert(tx_lo[end] <= tx_lo[c]);
    }
    if listing.cursor is None && listing.start_checkpoint is Some && c < listing.start_checkpoint->0 {
        let start = listing.start_cp(indexed);
        assert(tx_lo[c + 1] <= tx_lo[start]);
    }
}

/// Every transaction of the checkpoints that were asked for is in the range of the
/// listing, but for those that the page token is behind.
pub proof fn law_transactions_within_the_bounds_are_listed(
    listing: TransactionListing,
    tx_lo: Seq<u64>,
    range: TxRange,
    tx_seq: u64,
    c: int,
)
    requires
        1 < tx_lo.len() <= u64::MAX,
        forall|a: int, b: int| 0 <= a <= b < tx_lo.len() ==> (#[trigger] tx_lo[a]) <= (#[trigger] tx_lo[b]),
        listing.cursor != Some(u64::MAX),
        is_range_of(listing, tx_lo, range),
        0 <= c < tx_lo.len() - 1,
        tx_lo[c] <= tx_seq < tx_lo[c + 1],
        listing.end_checkpoint matches Some(end) ==> c < end,
        listing.start_checkpoint matches Some(start) ==> start <= c,
        listing.cursor matches Some(cursor) ==> cursor < tx_seq,
    ensures
        range.start <= tx_seq < range.end,
        first_of(range, (tx_seq - range.start + 1) as nat).contains(tx_seq),
{
    let indexed = tx_lo.len() - 1;
    let start = listing.start_cp(indexed);
    let end = listing.end_cp(indexed);
    assert(tx_lo[c + 1] <= tx_lo[end]);
    assert(tx_lo[start] <= tx_lo[c]);
    let listed = first_of(range, (tx_seq - range.start + 1) as nat);
    assert(listed[tx_seq - range.start] == tx_seq);
}

/// The candidates of a range are its transactions from the first on, without a gap, as
/// many as there are or as are asked for.
pub proof fn law_candidates_are_the_first(range: TxRange, limit: nat)
    ensures
        forall|i: int|
            0 <= i < first_of(range, limit).len() ==> (#[trigger] first_of(range, limit)[i]) == range.start + i,
        range.start >= range.end ==> first_of(range, limit).len() == 0,
        range.start < range.end && range.end - range.start <= limit ==> first_of(range, limit).len() == range.end
            - range.start,
        range.start < range.end && range.end - range.start > limit ==> first_of(range, limit).len() == limit,
{
}

/// A page is as large as was asked for, but not empty and not larger than the largest; 50
/// where nothing was asked for.
pub proof fn law_page_sizes_are_bounded(requested: Option<u32>)
    ensures
        1 <= clamped_page_size(requested) <= 1000,
        requested is None ==> clamped_page_size(requested) == 50,
        requested matches Some(size) ==> {
            &&& 1 <= size <= 1000 ==> clamped_page_size(requested) == size
            &&& size == 0 ==> clamped_page_size(requested) == 1
            &&& size > 1000 ==> clamped_page_size(requested) == 1000
        },
{
}

/// A page holds the rows that were read, in order, as far as it is large enough, and has
/// a token exactly if it is not: that of its last transaction. So decoding the cursor of
/// a transaction gives the transaction.
pub proof fn law_pages_hold_the_first_rows<T>(page: Page<T>, sorted: Seq<Row<T>>, page_size: nat, i: int)
    requires
        is_page_of(page, sorted, page_size),
        page_size > 0,
    ensures
        0 <= i < sorted.len() && i < page_size ==> {
            &&& i < page.transactions@.len()
            &&& page.transactions@[i].checkpoint == sorted[i].1
            &&& page.transactions@[i].transaction == sorted[i].2
            &&& page.transactions@[i].cursor@.len() == 8
            &&& codec::be_value(page.transactions@[i].cursor@) == sorted[i].0
        },
        page.transactions@.len() <= sorted.len(),
        page.transactions@.len() <= page_size,
        page.next_page_token is Some <==> sorted.len() > page_size,
        page.next_page_token matches Some(token) ==> {
            &&& page.transactions@.len() == page_size
            &&& token@ == page.transactions@[page_size - 1].cursor@
        },
{
    if 0 <= i < sorted.len() && i < page_size {
        codec::law_be_value_of_be_bytes(sorted[i].0);
        assert(page.transactions@[i].checkpoint == sorted[i].1);
    }
    if page.next_page_token is Some {
        assert(page.transactions@[page_size - 1].checkpoint == sorted[page_size - 1].1);
    }
}

/// A page that is empty has no transaction, and nothing comes behind it.
pub proof fn law_empty_pages_are_the_last<T>(page: Page<T>)
    ensures
        is_empty_page(page) <==> is_page_of(page, Seq::<Row<T>>::empty(), 1),
{
}

proof fn lemma_filter_counts<A>(items: Seq<A>, pred: spec_fn(A) -> bool, item: A)
    requires
        pred(item),
    ensures
        items.filter(pred).to_multiset().count(item) == items.to_multiset().count(item),
    decreases items.len(),
{
    broadcast use vstd::seq_lib::group_to_multiset_ensures;

    reveal(Seq::filter);
    if items.len() > 0 {
        let front = items.drop_last();
        lemma_filter_counts(front, pred, item);
        assert(items =~= front.push(items.last()));
        if pred(items.last()) {
            assert(items.filter(pred) == front.filter(pred).push(items.last()));
        }
    } else {
        assert(items.filter(pred) =~= items);
    }
}

/// Sorting loses no row and makes none up, and puts them in ascending order.
pub proof fn law_sorting_keeps_the_rows<T>(rows: Seq<Row<T>>, sorted: Seq<Row<T>>)
    requires
        is_sorted_form(rows, sorted),
    ensures
        sorted.to_multiset() == rows.to_multiset(),
        forall|i: int, j: int| 0 <= i < j < sorted.len() ==> (#[trigger] sorted[i]).0 <= (#[trigger] sorted[j]).0,
{
    assert forall|row: Row<T>| #[trigger] sorted.to_multiset().count(row) == rows.to_multiset().count(row) by {
        let pred = |other: Row<T>| other.0 == row.0;
        lemma_filter_counts(sorted, pred, row);
        lemma_filter_counts(rows, pred, row);
        assert(rows_of(sorted, row.0) == rows_of(rows, row.0));
    }
    assert(sorted.to_multiset() =~= rows.to_multiset());
}

/// Sorting keeps the order of rows of the same transaction: the rows of each, in order,
/// are the same before and after.
pub proof fn law_sorting_is_stable<T>(
    rows: Seq<Row<T>>,
    sorted: Seq<Row<T>>,
    tx_seq: u64,
    is_of: spec_fn(Row<T>) -> bool,
)
    requires
        is_sorted_form(rows, sorted),
        forall|row: Row<T>| #[trigger] is_of(row) <==> row.0 == tx_seq,
    ensures
        sorted.filter(is_of) == rows.filter(is_of),
{
    lemma_rows_of_are_filtered(sorted, tx_seq, is_of);
    lemma_rows_of_are_filtered(rows, tx_seq, is_of);
    assert(rows_of(sorted, tx_seq) == rows_of(rows, tx_seq));
}

proof fn lemma_rows_of_are_filtered<T>(rows: Seq<Row<T>>, tx_seq: u64, is_of: spec_fn(Row<T>) -> bool)
    requires
        forall|row: Row<T>| #[trigger] is_of(row) <==> row.0 == tx_seq,
    ensures
        rows_of(rows, tx_seq) == rows.filter(is_of),
    decreases rows.len(),
{
    reveal(Seq::filter);
    if rows.len() > 0 {
        lemma_rows_of_are_filtered(rows.drop_last(), tx_seq, is_of);
    }
}

} // verus!
