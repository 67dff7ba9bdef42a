//! Listing transactions, page by page.

use sui_kvstore::list_transactions::decode_tx_page_token;
use sui_kvstore::list_transactions::encode_tx_page_token;
use sui_kvstore::list_transactions::page_size_of;
use sui_kvstore::list_transactions::sort_by_seq;
use sui_kvstore::list_transactions::ListAction;
use sui_kvstore::list_transactions::ListError;
use sui_kvstore::list_transactions::ListEvent;
use sui_kvstore::list_transactions::ListTransactionsRequest;
use sui_kvstore::list_transactions::Page;
use sui_kvstore::list_transactions::TransactionListing;
use sui_kvstore::list_transactions::TxRange;
use sui_kvstore::list_transactions::TxStart;

fn request() -> ListTransactionsRequest {
    ListTransactionsRequest {
        page_size: Some(2),
        page_token: None,
        start_checkpoint: None,
        end_checkpoint: None,
        filtered: false,
    }
}

fn begin(request: ListTransactionsRequest) -> TransactionListing {
    TransactionListing::begin(&request).unwrap()
}

fn is_empty(action: ListAction<&str>) -> bool {
    match action {
        ListAction::Done(Ok(page)) => page.transactions.is_empty() && page.next_page_token.is_none(),
        _ => false,
    }
}

#[test]
fn page_sizes_are_clamped() {
    assert_eq!(page_size_of(None), 50);
    assert_eq!(page_size_of(Some(0)), 1);
    assert_eq!(page_size_of(Some(1)), 1);
    assert_eq!(page_size_of(Some(7)), 7);
    assert_eq!(page_size_of(Some(1000)), 1000);
    assert_eq!(page_size_of(Some(1001)), 1000);
}

#[test]
fn page_tokens_round_trip() {
    assert_eq!(encode_tx_page_token(258), vec![0, 0, 0, 0, 0, 0, 1, 2]);
    for tx_seq in [0u64, 1, 42, u64::MAX] {
        assert_eq!(decode_tx_page_token(&encode_tx_page_token(tx_seq)), Ok(tx_seq));
    }
    for bad in [vec![], vec![0; 7], vec![0; 9]] {
        assert_eq!(decode_tx_page_token(&bad), Err(ListError::InvalidPageToken));
    }
}

#[test]
fn a_bad_token_is_refused() {
    let result = TransactionListing::begin(&ListTransactionsRequest {
        page_token: Some(vec![1, 2, 3]),
        ..request()
    });
    assert!(matches!(result, Err(ListError::InvalidPageToken)));
}

#[test]
fn nothing_can_be_listed_before_a_watermark() {
    let action: ListAction<&str> = begin(request()).list_transactions(ListEvent::Watermark(None));
    assert!(matches!(action, ListAction::Done(Err(ListError::NoWatermark))));
}

#[test]
fn the_range_is_resolved_within_the_watermark() {
    let resolve = |request: ListTransactionsRequest| -> ListAction<&'static str> {
        begin(request).list_transactions(ListEvent::Watermark(Some(9)))
    };
    // Everything that is indexed.
    assert!(matches!(
        resolve(request()),
        ListAction::ResolveTxRange { start: TxStart::At(0), end_checkpoint: 10 }
    ));
    // Given bounds, and bounds that reach too far.
    assert!(matches!(
        resolve(ListTransactionsRequest {
            start_checkpoint: Some(3),
            end_checkpoint: Some(5),
            ..request()
        }),
        ListAction::ResolveTxRange { start: TxStart::AtCheckpoint(3), end_checkpoint: 5 }
    ));
    assert!(matches!(
        resolve(ListTransactionsRequest {
            end_checkpoint: Some(u64::MAX),
            ..request()
        }),
        ListAction::ResolveTxRange { start: TxStart::At(0), end_checkpoint: 10 }
    ));
    // Bounds out of range give an empty page.
    assert!(is_empty(resolve(ListTransactionsRequest {
        start_checkpoint: Some(10),
        ..request()
    })));
    assert!(is_empty(resolve(ListTransactionsRequest {
        start_checkpoint: Some(5),
        end_checkpoint: Some(5),
        ..request()
    })));
    // A token goes before the first checkpoint.
    assert!(matches!(
        resolve(ListTransactionsRequest {
            page_token: Some(encode_tx_page_token(41)),
            start_checkpoint: Some(3),
            ..request()
        }),
        ListAction::ResolveTxRange { start: TxStart::At(42), end_checkpoint: 10 }
    ));
}

#[test]
fn candidates_are_one_more_than_a_page() {
    let listing = begin(request());
    let found = |start_tx, end_tx| -> ListAction<&'static str> {
        listing.list_transactions(ListEvent::TxRange { start_tx, end_tx })
    };
    assert!(matches!(found(5, 100), ListAction::ReadRows(seqs) if seqs == vec![5, 6, 7]));
    assert!(matches!(found(5, 7), ListAction::ReadRows(seqs) if seqs == vec![5, 6]));
    assert!(is_empty(found(7, 7)));
    assert!(is_empty(found(8, 7)));

    let filtered = begin(ListTransactionsRequest {
        filtered: true,
        ..request()
    });
    let action: ListAction<&str> = filtered.list_transactions(ListEvent::TxRange { start_tx: 5, end_tx: 100 });
    assert!(matches!(
        action,
        ListAction::EvaluateFilter { range: TxRange { start: 5, end: 100 }, limit: 3 }
    ));
    let action: ListAction<&str> = filtered.list_transactions(ListEvent::Matches(vec![8, 30]));
    assert!(matches!(action, ListAction::ReadRows(seqs) if seqs == vec![8, 30]));
}

fn page_of(listing: &TransactionListing, rows: Vec<(u64, u64, &'static str)>) -> Page<&'static str> {
    match listing.list_transactions(ListEvent::Rows(rows)) {
        ListAction::Done(Ok(page)) => page,
        _ => panic!("rows make a page"),
    }
}

#[test]
fn pages_are_sorted_and_cut() {
    let listing = begin(request());
    let page = page_of(&listing, vec![(7, 3, "c"), (5, 1, "a"), (6, 2, "b")]);
    let items: Vec<(Vec<u8>, u64, &str)> = page
        .transactions
        .iter()
        .map(|item| (item.cursor.clone(), item.checkpoint, item.transaction))
        .collect();
    assert_eq!(
        items,
        vec![
            (encode_tx_page_token(5), 1, "a"),
            (encode_tx_page_token(6), 2, "b"),
        ]
    );
    assert_eq!(page.next_page_token, Some(encode_tx_page_token(6)));

    let last = page_of(&listing, vec![(8, 3, "d"), (7, 3, "c")]);
    assert_eq!(last.transactions.len(), 2);
    assert_eq!(last.next_page_token, None);

    assert!(page_of(&listing, vec![]).transactions.is_empty());
}

#[test]
fn sorting_keeps_equal_rows_in_order() {
    let sorted = sort_by_seq(vec![(2, 0, "x"), (1, 0, "y"), (2, 0, "z"), (1, 0, "w")]);
    assert_eq!(sorted, vec![(1, 0, "y"), (1, 0, "w"), (2, 0, "x"), (2, 0, "z")]);
}

#[test]
fn pages_cover_a_range_without_gap_or_overlap() {
    let end_tx = 7u64;
    let mut seen = Vec::new();
    let mut page_token = None;
    loop {
        let listing = begin(ListTransactionsRequest {
            page_token,
            ..request()
        });
        let action: ListAction<&str> = listing.list_transactions(ListEvent::Watermark(Some(0)));
        let ListAction::ResolveTxRange { start: TxStart::At(start_tx), .. } = action else {
            panic!("one checkpoint is indexed");
        };
        let action: ListAction<&str> = listing.list_transactions(ListEvent::TxRange { start_tx, end_tx });
        let ListAction::ReadRows(seqs) = action else {
            panic!("the range is not empty");
        };
        // The rows come in any order.
        let rows = seqs.iter().rev().map(|seq| (*seq, 0, "tx")).collect();
        let page = page_of(&listing, rows);
        for item in &page.transactions {
            seen.push(decode_tx_page_token(&item.cursor).unwrap());
        }
        page_token = page.next_page_token;
        if page_token.is_none() {
            break;
        }
    }
    assert_eq!(seen, (0..end_tx).collect::<Vec<u64>>());
}

#[test]
fn filtered_pages_of_any_size_join_to_the_matches() {
    let matches = [3u64, 4, 9, 20, 21, 22, 40, u64::MAX - 1];
    for sizes in [vec![1], vec![2], vec![3], vec![8], vec![100], vec![2, 1, 4]] {
        let mut seen = Vec::new();
        let mut page_token = None;
        let mut calls = 0;
        loop {
            let listing = begin(ListTransactionsRequest {
                page_size: Some(sizes[calls % sizes.len()]),
                page_token,
                filtered: true,
                ..request()
            });
            calls += 1;
            assert!(calls <= matches.len());
            assert!(listing.can_resolve_tx_range(Some(0)));
            let action: ListAction<&str> = listing.list_transactions(ListEvent::Watermark(Some(0)));
            let ListAction::ResolveTxRange { start: TxStart::At(start_tx), .. } = action else {
                panic!("one checkpoint is indexed");
            };
            let mut rows: Vec<(u64, u64, &str)> = matches
                .iter()
                .filter(|seq| **seq >= start_tx)
                .take(listing.page_size + 1)
                .map(|seq| (*seq, 0, "tx"))
                .collect();
            // The rows come in any order.
            rows.reverse();
            let page = page_of(&listing, rows);
            for item in &page.transactions {
                seen.push(decode_tx_page_token(&item.cursor).unwrap());
            }
            page_token = page.next_page_token;
            if page_token.is_none() {
                break;
            }
        }
        assert_eq!(seen, matches.to_vec());
    }
}

#[test]
fn ranges_are_resolved_while_they_can_be_counted() {
    let last = begin(ListTransactionsRequest {
        page_token: Some(encode_tx_page_token(u64::MAX)),
        ..request()
    });
    assert!(begin(request()).can_resolve_tx_range(None));
    assert!(begin(request()).can_resolve_tx_range(Some(u64::MAX - 1)));
    assert!(!begin(request()).can_resolve_tx_range(Some(u64::MAX)));
    assert!(!last.can_resolve_tx_range(Some(9)));
    // Without checkpoints there is nothing to go on with.
    let none = begin(ListTransactionsRequest {
        page_token: Some(encode_tx_page_token(u64::MAX)),
        start_checkpoint: Some(10),
        ..request()
    });
    assert!(none.can_resolve_tx_range(Some(9)));
    assert!(is_empty(none.list_transactions(ListEvent::Watermark(Some(9)))));
}
