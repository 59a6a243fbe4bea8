use sequencer_block::cursor::Cursor;
use sequencer_block::models::{
    BlockData, BlockStatus, GetBlockResponse, GetTransactionResponse, ListBlockItem,
    ListTransactionItem, Transaction,
};
use sequencer_block::service::BlockService;

fn transaction(id: &str, amount: u128) -> Transaction {
    Transaction {
        id: id.to_string(),
        block_id: "b1".to_string(),
        age_ts: 1_700_000_000,
        creation_td: 12,
        amount,
        to: "0xaa".to_string(),
        from: "0xbb".to_string(),
    }
}

fn block(id: &str, txns: usize) -> BlockData {
    BlockData {
        block_id: id.to_string(),
        txn_ids: (0..txns).map(|i| i.to_string()).collect(),
        amount: 5,
        age_ts: 1_700_000_100,
        creation_td: 40,
        block_hash: format!("hash-{}", id),
    }
}

fn ids(items: &[ListTransactionItem]) -> Vec<&str> {
    items.iter().map(|i| i.transaction_id.as_str()).collect()
}

fn block_ids(items: &[ListBlockItem]) -> Vec<&str> {
    items.iter().map(|i| i.block_id.as_str()).collect()
}

#[test]
fn found_transaction_is_reported() {
    let response = BlockService::get_transaction_by_id(Some(transaction("7", 1000)));
    assert_eq!(
        response,
        GetTransactionResponse {
            transaction_id: "7".to_string(),
            block_id: "b1".to_string(),
            age_ts: 1_700_000_000,
            creation_td: 12,
            amount: 1000,
            to: "0xaa".to_string(),
            from: "0xbb".to_string(),
            status: BlockStatus::Validated,
        }
    );
}

#[test]
fn missing_transaction_gives_the_empty_response() {
    let response = BlockService::get_transaction_by_id(None);
    assert_eq!(response, GetTransactionResponse::default());
    assert_eq!(response.transaction_id, "");
    assert_eq!(response.amount, 0);
}

#[test]
fn found_block_is_reported_with_its_transaction_count() {
    let response = BlockService::get_block_by_id(Some(block("4", 3)));
    assert_eq!(
        response,
        GetBlockResponse {
            block_id: "4".to_string(),
            age_ts: 1_700_000_100,
            transactions_count: 3,
            creation_td: 40,
            status: BlockStatus::Validated,
            block_hash: "hash-4".to_string(),
            gas_cost: 32453,
        }
    );
}

#[test]
fn missing_block_gives_the_empty_response() {
    let response = BlockService::get_block_by_id(None);
    assert_eq!(response, GetBlockResponse::default());
    assert_eq!(response.gas_cost, 0);
}

#[test]
fn transactions_are_listed_newest_first() {
    let txs = vec![transaction("2", 1), transaction("10", 2), transaction("7", 3)];
    let (items, cursor, total) = BlockService::list_transactions(txs, None, None);
    assert_eq!(ids(&items), vec!["10", "7", "2"]);
    assert_eq!(total, 3);
    assert_eq!(cursor.get("t".to_string()), Some("2".to_string()));
    assert_eq!(items[0].amount, 2);
    assert_eq!(items[0].status, BlockStatus::Validated);
}

#[test]
fn transaction_listing_stops_at_the_limit() {
    let txs = vec![transaction("2", 1), transaction("10", 2), transaction("7", 3)];
    let (items, cursor, total) = BlockService::list_transactions(txs, Some(2), None);
    assert_eq!(ids(&items), vec!["10", "7"]);
    assert_eq!(total, 3);
    assert_eq!(cursor.get("t".to_string()), Some("7".to_string()));
}

#[test]
fn transaction_listing_continues_after_the_cursor() {
    let txs = vec![transaction("2", 1), transaction("10", 2), transaction("7", 3), transaction("5", 4)];
    let mut start = Cursor::new();
    start.insert("t".to_string(), "7".to_string());
    start.insert("b".to_string(), "99".to_string());
    let (items, cursor, total) = BlockService::list_transactions(txs, Some(1), Some(start));
    assert_eq!(ids(&items), vec!["5"]);
    assert_eq!(total, 4);
    assert_eq!(cursor.get("t".to_string()), Some("5".to_string()));
    assert_eq!(cursor.get("b".to_string()), Some("99".to_string()));
}

#[test]
fn pages_through_all_transactions_once() {
    let make = || {
        vec![
            transaction("3", 1),
            transaction("11", 2),
            transaction("8", 3),
            transaction("1", 4),
            transaction("20", 5),
        ]
    };
    let (first, cursor, _) = BlockService::list_transactions(make(), Some(2), None);
    let (second, cursor, _) = BlockService::list_transactions(make(), Some(2), Some(cursor));
    let (third, cursor, _) = BlockService::list_transactions(make(), Some(2), Some(cursor));
    let (fourth, cursor, _) = BlockService::list_transactions(make(), Some(2), Some(cursor));
    let mut all: Vec<&str> = ids(&first);
    all.extend(ids(&second));
    all.extend(ids(&third));
    assert_eq!(all, vec!["20", "11", "8", "3", "1"]);
    assert!(fourth.is_empty());
    assert_eq!(cursor.get("t".to_string()), Some("1".to_string()));
    let (whole, _, _) = BlockService::list_transactions(make(), Some(5), None);
    assert_eq!(ids(&whole), all);
}

#[test]
fn empty_page_leaves_the_cursor() {
    let txs = vec![transaction("2", 1)];
    let mut start = Cursor::new();
    start.insert("t".to_string(), "2".to_string());
    let (items, cursor, total) = BlockService::list_transactions(txs, None, Some(start));
    assert!(items.is_empty());
    assert_eq!(total, 1);
    assert_eq!(cursor.get("t".to_string()), Some("2".to_string()));
}

#[test]
fn zero_limit_lists_nothing() {
    let txs = vec![transaction("2", 1), transaction("3", 1)];
    let (items, cursor, total) = BlockService::list_transactions(txs, Some(0), None);
    assert!(items.is_empty());
    assert_eq!(total, 2);
    assert_eq!(cursor.get("t".to_string()), None);
}

#[test]
fn equal_ids_keep_their_stored_order() {
    let txs = vec![transaction("4", 1), transaction("9", 2), transaction("4", 3), transaction("04", 4)];
    let (items, _, _) = BlockService::list_transactions(txs, None, None);
    let amounts: Vec<u128> = items.iter().map(|i| i.amount).collect();
    assert_eq!(amounts, vec![2, 1, 3, 4]);
}

#[test]
fn empty_store_lists_nothing() {
    let (items, cursor, total) = BlockService::list_transactions(Vec::new(), Some(3), None);
    assert!(items.is_empty());
    assert_eq!(total, 0);
    assert!(cursor.entries().is_empty());
}

#[test]
fn blocks_are_listed_newest_first_with_their_counts() {
    let blocks = vec![block("1", 2), block("3", 0), block("2", 5)];
    let (items, cursor, total) = BlockService::list_blocks(blocks, None, None);
    assert_eq!(block_ids(&items), vec!["3", "2", "1"]);
    assert_eq!(items[1].transactions_count, 5);
    assert_eq!(items[1].block_hash, "hash-2");
    assert_eq!(total, 3);
    assert_eq!(cursor.get("b".to_string()), Some("1".to_string()));
}

#[test]
fn block_listing_continues_after_the_cursor() {
    let blocks = vec![block("1", 2), block("3", 0), block("2", 5), block("4", 1)];
    let mut start = Cursor::new();
    start.insert("b".to_string(), "3".to_string());
    let (items, cursor, total) = BlockService::list_blocks(blocks, Some(10), Some(start));
    assert_eq!(block_ids(&items), vec!["2", "1"]);
    assert_eq!(total, 4);
    assert_eq!(cursor.get("b".to_string()), Some("1".to_string()));
}

#[test]
fn block_listing_uses_its_own_cursor_key() {
    let blocks = vec![block("1", 2), block("3", 0)];
    let mut start = Cursor::new();
    start.insert("t".to_string(), "2".to_string());
    let (items, cursor, _) = BlockService::list_blocks(blocks, None, Some(start));
    assert_eq!(block_ids(&items), vec!["3", "1"]);
    assert_eq!(cursor.get("t".to_string()), Some("2".to_string()));
    assert_eq!(cursor.get("b".to_string()), Some("1".to_string()));
}

#[test]
fn long_listing_matches_a_stable_sort_by_id() {
    let n = 1000u64;
    let make = || -> Vec<Transaction> {
        (0..n)
            .map(|i| transaction(&((i * 7919) % 613).to_string(), i as u128))
            .collect()
    };
    let (items, _, total) = BlockService::list_transactions(make(), None, None);
    assert_eq!(total, 1000);
    let mut expected = make();
    expected.sort_by_key(|t| std::cmp::Reverse(t.id.parse::<usize>().unwrap()));
    let got: Vec<(String, u128)> = items.iter().map(|i| (i.transaction_id.clone(), i.amount)).collect();
    let want: Vec<(String, u128)> = expected.iter().map(|t| (t.id.clone(), t.amount)).collect();
    assert_eq!(got, want);
}
