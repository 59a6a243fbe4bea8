//! The block service: lookups of one transaction or block, and the paginated
//! listings of transactions and blocks, newest first.
//!
//! The store is read by the caller; the service works on what it returned.

use vstd::prelude::*;

use crate::cursor::Cursor;
use crate::decimal::{is_decimal_within, parse_u128, spec_parse_u128};
use crate::listing::{
    lemma_next_page_continues, lemma_page_contents, listing_page, next_after, page_positions,
    positions,
};
use crate::models::{
    is_empty_block_response, is_empty_transaction_response, BlockData, BlockStatus,
    GetBlockResponse, GetTransactionResponse, ListBlockItem, ListTransactionItem, Transaction,
};

verus! {

/// The gas cost that a block lookup reports.
pub const BLOCK_GAS_COST: u64 = 32453;

/// The key under which a transaction listing records its position.
pub open spec fn transactions_cursor_key() -> Seq<char> {
    seq!['t']
}

/// The key under which a block listing records its position.
pub open spec fn blocks_cursor_key() -> Seq<char> {
    seq!['b']
}

/// The number an id stands for when records are ordered (0 for an id that is
/// not a decimal number).
pub open spec fn id_key(id: Seq<char>) -> u128 {
    match spec_parse_u128(id) {
        Some(v) => v,
        None => 0,
    }
}

/// The ordering keys of a list of transactions.
pub open spec fn transaction_keys(transactions: Seq<Transaction>) -> Seq<u128> {
    transactions.map_values(|t: Transaction| id_key(t.id@))
}

/// The ordering keys of a list of blocks.
pub open spec fn block_keys(blocks: Seq<BlockData>) -> Seq<u128> {
    blocks.map_values(|b: BlockData| id_key(b.block_id@))
}

/// The cursor a listing starts from: the one given, or an empty one.
pub open spec fn starting_cursor(cursor: Option<Cursor>) -> Map<Seq<char>, Seq<char>> {
    match cursor {
        Some(c) => c@,
        None => Map::empty(),
    }
}

/// The bound that a cursor sets on the keys of a listing: the key of the
/// position recorded under `key`, if one is.
pub open spec fn cursor_bound(cursor: Map<Seq<char>, Seq<char>>, key: Seq<char>) -> Option<u128> {
    if cursor.contains_key(key) {
        Some(id_key(cursor[key]))
    } else {
        None
    }
}

/// The listing entry of a transaction.
pub open spec fn transaction_item(t: Transaction) -> ListTransactionItem {
    ListTransactionItem {
        transaction_id: t.id,
        age_ts: t.age_ts,
        creation_td: t.creation_td,
        amount: t.amount,
        to: t.to,
        from: t.from,
        status: BlockStatus::Validated,
    }
}

/// The listing entry of a block.
pub open spec fn block_item(b: BlockData) -> ListBlockItem {
    ListBlockItem {
        block_id: b.block_id,
        age_ts: b.age_ts,
        transactions_count: b.txn_ids.len(),
        creation_td: b.creation_td,
        status: BlockStatus::Validated,
        block_hash: b.block_hash,
    }
}

/// The answer to a lookup that found the transaction.
pub open spec fn transaction_response(t: Transaction) -> GetTransactionResponse {
    GetTransactionResponse {
        transaction_id: t.id,
        block_id: t.block_id,
        age_ts: t.age_ts,
        creation_td: t.creation_td,
        amount: t.amount,
        to: t.to,
        from: t.from,
        status: BlockStatus::Validated,
    }
}

/// The answer to a lookup that found the block.
pub open spec fn block_response(b: BlockData) -> GetBlockResponse {
    GetBlockResponse {
        block_id: b.block_id,
        age_ts: b.age_ts,
        transactions_count: b.txn_ids.len(),
        creation_td: b.creation_td,
        status: BlockStatus::Validated,
        block_hash: b.block_hash,
        gas_cost: BLOCK_GAS_COST,
    }
}

/// The ids can be ordered: each one is a decimal number no greater than
/// `bound`. Ordering only looks at ids when there are two records or more.
pub open spec fn ids_orderable(ids: Seq<Seq<char>>, bound: int) -> bool {
    ids.len() >= 2 ==> forall|i: int| 0 <= i < ids.len() ==> is_decimal_within(#[trigger] ids[i], bound)
}

/// The ids can be compared with the cursor's position: when the cursor holds
/// one and there is a record to compare, every id and the position are
/// decimal numbers that fit in a `u128`.
pub open spec fn ids_comparable(
    ids: Seq<Seq<char>>,
    cursor: Map<Seq<char>, Seq<char>>,
    key: Seq<char>,
) -> bool {
    cursor.contains_key(key) && ids.len() >= 1 ==> {
        &&& forall|i: int| 0 <= i < ids.len() ==> spec_parse_u128(#[trigger] ids[i]) is Some
        &&& spec_parse_u128(cursor[key]) is Some
    }
}

/// The ordering key of an id.
fn key_of(id: &String) -> (key: u128)
    ensures
        key == id_key(id@),
{
    match parse_u128(id.as_str()) {
        Some(v) => v,
        None => 0,
    }
}

fn list_item_of_transaction(t: &Transaction) -> (item: ListTransactionItem)
    ensures
        item == transaction_item(*t),
{
    ListTransactionItem {
        transaction_id: t.id.clone(),
        age_ts: t.age_ts,
        creation_td: t.creation_td,
        amount: t.amount,
        to: t.to.clone(),
        from: t.from.clone(),
        status: BlockStatus::Validated,
    }
}

fn list_item_of_block(b: &BlockData) -> (item: ListBlockItem)
    ensures
        item == block_item(*b),
{
    ListBlockItem {
        block_id: b.block_id.clone(),
        age_ts: b.age_ts,
        transactions_count: b.txn_ids.len(),
        creation_td: b.creation_td,
        status: BlockStatus::Validated,
        block_hash: b.block_hash.clone(),
    }
}

/// The positions of one page, ordered by `keys`, continuing after the position
/// that `cursor` records under `key`.
fn page_after_cursor(keys: &Vec<u128>, cursor: &Cursor, key: String, limit: Option<usize>) -> (page:
    Vec<usize>)
    ensures
        positions(page@) == listing_page(keys@, cursor_bound(cursor@, key@), limit),
        forall|a: int| 0 <= a < page.len() ==> #[trigger] page@[a] < keys.len(),
{
    let last_sent = cursor.get(key);
    let after = match last_sent {
        Some(position) => Some(key_of(&position)),
        None => None,
    };
    let page = page_positions(keys, after, limit);
    proof {
        lemma_page_contents(keys@, after, limit);
        assert forall|a: int| 0 <= a < page.len() implies #[trigger] page@[a] < keys.len() by {
            assert(positions(page@)[a] == page@[a] as int);
        }
    }
    page
}

/// The ordering keys of the transactions' ids.
fn keys_of_transactions(transactions: &Vec<Transaction>) -> (keys: Vec<u128>)
    ensures
        keys@ == transaction_keys(transactions@),
{
    let mut keys: Vec<u128> = Vec::new();
    for i in 0..transactions.len()
        invariant
            keys@ == transaction_keys(transactions@).take(i as int),
    {
        keys.push(key_of(&transactions[i].id));
        assert(keys@ =~= transaction_keys(transactions@).take(i + 1));
    }
    assert(keys@ =~= transaction_keys(transactions@));
    keys
}

/// The ordering keys of the blocks' ids.
fn keys_of_blocks(blocks: &Vec<BlockData>) -> (keys: Vec<u128>)
    ensures
        keys@ == block_keys(blocks@),
{
    let mut keys: Vec<u128> = Vec::new();
    for i in 0..blocks.len()
        invariant
            keys@ == block_keys(blocks@).take(i as int),
    {
        keys.push(key_of(&blocks[i].block_id));
        assert(keys@ =~= block_keys(blocks@).take(i + 1));
    }
    assert(keys@ =~= block_keys(blocks@));
    keys
}

/// The service that answers queries about blocks and transactions.
pub struct BlockService {}

impl BlockService {
    /// The answer to a lookup of a transaction by id, given what the store
    /// returned for it: the transaction's fields when it was found, an empty
    /// response when it was not.
    pub fn get_transaction_by_id(found: Option<Transaction>) -> (response: GetTransactionResponse)
        ensures
            found matches Some(t) ==> response == transaction_response(t),
            found matches Some(t) ==> {
                &&& response.transaction_id == t.id
                &&& response.block_id == t.block_id
                &&& response.age_ts == t.age_ts
                &&& response.creation_td == t.creation_td
                &&& response.amount == t.amount
                &&& response.to == t.to
                &&& response.from == t.from
                &&& response.status == BlockStatus::Validated
            },
            found is None ==> is_empty_transaction_response(response),
    {
        match found {
            Some(transaction) => GetTransactionResponse {
                transaction_id: transaction.id,
                block_id: transaction.block_id,
                age_ts: transaction.age_ts,
                creation_td: transaction.creation_td,
                amount: transaction.amount,
                to: transaction.to,
                from: transaction.from,
                status: BlockStatus::Validated,
            },
            None => GetTransactionResponse::default(),
        }
    }

    /// The answer to a lookup of a block by id, given what the store returned
    /// for it: the block's fields, its number of transactions and the fixed
    /// gas cost when it was found, an empty response when it was not.
    pub fn get_block_by_id(found: Option<BlockData>) -> (response: GetBlockResponse)
        ensures
            found matches Some(b) ==> response == block_response(b),
            found matches Some(b) ==> {
                &&& response.block_id == b.block_id
                &&& response.age_ts == b.age_ts
                &&& response.transactions_count == b.txn_ids.len()
                &&& response.creation_td == b.creation_td
                &&& response.status == BlockStatus::Validated
                &&& response.block_hash == b.block_hash
                &&& response.gas_cost == 32453
            },
            found is None ==> is_empty_block_response(response),
    {
        match found {
            Some(block) => GetBlockResponse {
                block_id: block.block_id.clone(),
                age_ts: block.age_ts,
                transactions_count: block.txn_ids.len(),
                creation_td: block.creation_td,
                status: BlockStatus::Validated,
                block_hash: block.block_hash,
                gas_cost: BLOCK_GAS_COST,
            },
            None => GetBlockResponse::default(),
        }
    }

    /// One page of the stored transactions, newest (greatest id) first.
    ///
    /// When the cursor records a transaction id under `t`, only transactions
    /// with a smaller id are listed; at most `limit` are listed. The cursor
    /// returned records the id of the last transaction listed (it is left as
    /// it was when the page is empty), and the count is that of all stored
    /// transactions.
    pub fn list_transactions(
        transactions: Vec<Transaction>,
        limit: Option<usize>,
        cursor: Option<Cursor>,
    ) -> (res: (Vec<ListTransactionItem>, Cursor, usize))
        requires
            ids_orderable(transactions@.map_values(|t: Transaction| t.id@), usize::MAX as int),
            ids_comparable(
                transactions@.map_values(|t: Transaction| t.id@),
                starting_cursor(cursor),
                transactions_cursor_key(),
            ),
        ensures
            ({
                let start = starting_cursor(cursor);
                let page = listing_page(
                    transaction_keys(transactions@),
                    cursor_bound(start, transactions_cursor_key()),
                    limit,
                );
                &&& res.2 == transactions.len()
                &&& res.0@ == page.map_values(|p: int| transaction_item(transactions@[p]))
                &&& res.0.len() == page.len()
                &&& forall|k: int|
                    0 <= k < res.0.len() ==> {
                        let t = transactions@[page[k]];
                        &&& 0 <= page[k] < transactions.len()
                        &&& (#[trigger] res.0@[k]).transaction_id == t.id
                        &&& res.0@[k].age_ts == t.age_ts
                        &&& res.0@[k].creation_td == t.creation_td
                        &&& res.0@[k].amount == t.amount
                        &&& res.0@[k].to == t.to
                        &&& res.0@[k].from == t.from
                        &&& res.0@[k].status == BlockStatus::Validated
                    }
                &&& forall|a: int, b: int|
                    0 <= a < b < res.0.len() ==> page[a] != page[b] && id_key(
                        (#[trigger] res.0@[a]).transaction_id@,
                    ) >= id_key((#[trigger] res.0@[b]).transaction_id@)
                &&& start.contains_key(transactions_cursor_key()) ==> forall|k: int|
                    0 <= k < res.0.len() ==> id_key((#[trigger] res.0@[k]).transaction_id@) < id_key(
                        start[transactions_cursor_key()],
                    )
                &&& limit matches Some(n) ==> res.0.len() <= n
                &&& res.1@ == if page.len() > 0 {
                    start.insert(transactions_cursor_key(), transactions@[page.last()].id@)
                } else {
                    start
                }
            }),
    {
        let ghost start = starting_cursor(cursor);
        let mut cursor = match cursor {
            Some(cursor_value) => cursor_value,
            None => Cursor::new(),
        };
        assert(cursor@ == start);
        proof {
            reveal_strlit("t");
            assert("t"@ =~= transactions_cursor_key());
        }
        let total_transactions_count = transactions.len();
        let keys = keys_of_transactions(&transactions);
        let page = page_after_cursor(&keys, &cursor, String::from_str("t"), limit);
        let ghost spec_page = positions(page@);
        let mut transactions_data: Vec<ListTransactionItem> = Vec::new();
        for k in 0..page.len()
            invariant
                keys@.len() == transactions.len(),
                forall|a: int| 0 <= a < page.len() ==> #[trigger] page@[a] < keys.len(),
                spec_page == positions(page@),
                transactions_data@ == spec_page.take(k as int).map_values(
                    |p: int| transaction_item(transactions@[p]),
                ),
        {
            let item = list_item_of_transaction(&transactions[page[k]]);
            transactions_data.push(item);
            assert(spec_page[k as int] == page@[k as int] as int);
            assert(transactions_data@ =~= spec_page.take(k + 1).map_values(
                |p: int| transaction_item(transactions@[p]),
            ));
        }
        assert(spec_page.take(page.len() as int) =~= spec_page);
        if page.len() > 0 {
            let last = page[page.len() - 1];
            assert(spec_page.last() == last as int);
            cursor.insert(String::from_str("t"), transactions[last].id.clone());
        }
        proof {
            let after = cursor_bound(start, transactions_cursor_key());
            lemma_page_contents(keys@, after, limit);
            assert forall|k: int| 0 <= k < transactions_data.len() implies keys@[spec_page[k]] == id_key(
                (#[trigger] transactions_data@[k]).transaction_id@,
            ) by {
                assert(transactions_data@[k] == transaction_item(transactions@[spec_page[k]]));
            }
        }
        (transactions_data, cursor, total_transactions_count)
    }

    /// One page of the stored blocks, newest (greatest id) first.
    ///
    /// When the cursor records a block id under `b`, only blocks with a
    /// smaller id are listed; at most `limit` are listed. The cursor returned
    /// records the id of the last block listed (it is left as it was when the
    /// page is empty), and the count is that of all stored blocks.
    pub fn list_blocks(blocks: Vec<BlockData>, limit: Option<usize>, cursor: Option<Cursor>) -> (res: (
        Vec<ListBlockItem>,
        Cursor,
        usize,
    ))
        requires
            ids_orderable(blocks@.map_values(|b: BlockData| b.block_id@), u128::MAX as int),
            ids_comparable(
                blocks@.map_values(|b: BlockData| b.block_id@),
                starting_cursor(cursor),
                blocks_cursor_key(),
            ),
        ensures
            ({
                let start = starting_cursor(cursor);
                let page = listing_page(
                    block_keys(blocks@),
                    cursor_bound(start, blocks_cursor_key()),
                    limit,
                );
                &&& res.2 == blocks.len()
                &&& res.0@ == page.map_values(|p: int| block_item(blocks@[p]))
                &&& res.0.len() == page.len()
                &&& forall|k: int|
                    0 <= k < res.0.len() ==> {
                        let b = blocks@[page[k]];
                        &&& 0 <= page[k] < blocks.len()
                        &&& (#[trigger] res.0@[k]).block_id == b.block_id
                        &&& res.0@[k].age_ts == b.age_ts
                        &&& res.0@[k].transactions_count == b.txn_ids.len()
                        &&& res.0@[k].creation_td == b.creation_td
                        &&& res.0@[k].status == BlockStatus::Validated
                        &&& res.0@[k].block_hash == b.block_hash
                    }
                &&& forall|a: int, b: int|
                    0 <= a < b < res.0.len() ==> page[a] != page[b] && id_key(
                        (#[trigger] res.0@[a]).block_id@,
                    ) >= id_key((#[trigger] res.0@[b]).block_id@)
                &&& start.contains_key(blocks_cursor_key()) ==> forall|k: int|
                    0 <= k < res.0.len() ==> id_key((#[trigger] res.0@[k]).block_id@) < id_key(
                        start[blocks_cursor_key()],
                    )
                &&& limit matches Some(n) ==> res.0.len() <= n
                &&& res.1@ == if page.len() > 0 {
                    start.insert(blocks_cursor_key(), blocks@[page.last()].block_id@)
                } else {
                    start
                }
            }),
    {
        let ghost start = starting_cursor(cursor);
        let mut cursor = match cursor {
            Some(cursor_value) => cursor_value,
            None => Cursor::new(),
        };
        assert(cursor@ == start);
        proof {
            reveal_strlit("b");
            assert("b"@ =~= blocks_cursor_key());
        }
        let total_blocks_count = blocks.len();
        let keys = keys_of_blocks(&blocks);
        let page = page_after_cursor(&keys, &cursor, String::from_str("b"), limit);
        let ghost spec_page = positions(page@);
        let mut blocks_data: Vec<ListBlockItem> = Vec::new();
        for k in 0..page.len()
            invariant
                keys@.len() == blocks.len(),
                forall|a: int| 0 <= a < page.len() ==> #[trigger] page@[a] < keys.len(),
                spec_page == positions(page@),
                blocks_data@ == spec_page.take(k as int).map_values(
                    |p: int| block_item(blocks@[p]),
                ),
        {
            let item = list_item_of_block(&blocks[page[k]]);
            blocks_data.push(item);
            assert(spec_page[k as int] == page@[k as int] as int);
            assert(blocks_data@ =~= spec_page.take(k + 1).map_values(
                |p: int| block_item(blocks@[p]),
            ));
        }
        assert(spec_page.take(page.len() as int) =~= spec_page);
        if page.len() > 0 {
            let last = page[page.len() - 1];
            assert(spec_page.last() == last as int);
            cursor.insert(String::from_str("b"), blocks[last].block_id.clone());
        }
        proof {
            let after = cursor_bound(start, blocks_cursor_key());
            lemma_page_contents(keys@, after, limit);
            assert forall|k: int| 0 <= k < blocks_data.len() implies keys@[spec_page[k]] == id_key(
                (#[trigger] blocks_data@[k]).block_id@,
            ) by {
                assert(blocks_data@[k] == block_item(blocks@[spec_page[k]]));
            }
        }
        (blocks_data, cursor, total_blocks_count)
    }
}

/// The cursor a listing leaves behind: the id of the last position listed
/// recorded under `key`, or the starting cursor when nothing was listed.
pub open spec fn cursor_after(
    start: Map<Seq<char>, Seq<char>>,
    key: Seq<char>,
    ids: Seq<Seq<char>>,
    page: Seq<int>,
) -> Map<Seq<char>, Seq<char>> {
    if page.len() > 0 {
        start.insert(key, ids[page.last()])
    } else {
        start
    }
}

/// Paging with the returned cursor: when the records' ids stand for distinct
/// numbers, a page of `first` records followed by the page listed from the
/// cursor it returns is the page of `first` plus `second` records (or all the
/// remaining records, when the second request has no limit). So paging
/// through a listing shows every record once, in order.
pub proof fn lemma_cursor_pages_continue(
    ids: Seq<Seq<char>>,
    start: Map<Seq<char>, Seq<char>>,
    key: Seq<char>,
    first: usize,
    second: Option<usize>,
)
    requires
        ids.map_values(|id: Seq<char>| id_key(id)).no_duplicates(),
        second matches Some(b) ==> first + b <= usize::MAX,
    ensures
        ({
            let keys = ids.map_values(|id: Seq<char>| id_key(id));
            let page1 = listing_page(keys, cursor_bound(start, key), Some(first));
            let next = cursor_after(start, key, ids, page1);
            let both = match second {
                Some(b) => Some((first + b) as usize),
                None => None,
            };
            page1 + listing_page(keys, cursor_bound(next, key), second) == listing_page(
                keys,
                cursor_bound(start, key),
                both,
            )
        }),
{
    let keys = ids.map_values(|id: Seq<char>| id_key(id));
    let after = cursor_bound(start, key);
    let page1 = listing_page(keys, after, Some(first));
    lemma_page_contents(keys, after, Some(first));
    if page1.len() > 0 {
        assert(0 <= page1.last() < keys.len());
        assert(cursor_bound(cursor_after(start, key, ids, page1), key) == next_after(keys, page1, after));
    }
    lemma_next_page_continues(keys, after, first, second);
}

/// Paging through the transactions: when the transactions' ids stand for
/// distinct numbers, the page `list_transactions` returns for `first`,
/// followed by the page it returns for `second` from the cursor the first call
/// returned, is the page it returns for `first + second` (or all remaining
/// transactions, when the second call has no limit).
pub proof fn lemma_transaction_pages_continue(
    transactions: Seq<Transaction>,
    start: Map<Seq<char>, Seq<char>>,
    first: usize,
    second: Option<usize>,
)
    requires
        transaction_keys(transactions).no_duplicates(),
        second matches Some(b) ==> first + b <= usize::MAX,
    ensures
        ({
            let keys = transaction_keys(transactions);
            let key = transactions_cursor_key();
            let page1 = listing_page(keys, cursor_bound(start, key), Some(first));
            let next = if page1.len() > 0 {
                start.insert(key, transactions[page1.last()].id@)
            } else {
                start
            };
            let both = match second {
                Some(b) => Some((first + b) as usize),
                None => None,
            };
            page1 + listing_page(keys, cursor_bound(next, key), second) == listing_page(
                keys,
                cursor_bound(start, key),
                both,
            )
        }),
{
    let ids = transactions.map_values(|t: Transaction| t.id@);
    assert(transaction_keys(transactions) =~= ids.map_values(|id: Seq<char>| id_key(id)));
    let keys = transaction_keys(transactions);
    let page1 = listing_page(keys, cursor_bound(start, transactions_cursor_key()), Some(first));
    lemma_page_contents(keys, cursor_bound(start, transactions_cursor_key()), Some(first));
    if page1.len() > 0 {
        assert(0 <= page1.last() < keys.len());
        assert(ids[page1.last()] == transactions[page1.last()].id@);
    }
    lemma_cursor_pages_continue(ids, start, transactions_cursor_key(), first, second);
}

/// Paging through the blocks: when the blocks' ids stand for distinct
/// numbers, the page `list_blocks` returns for `first`, followed by the page
/// it returns for `second` from the cursor the first call returned, is the
/// page it returns for `first + second` (or all remaining blocks, when the
/// second call has no limit).
pub proof fn lemma_block_pages_continue(
    blocks: Seq<BlockData>,
    start: Map<Seq<char>, Seq<char>>,
    first: usize,
    second: Option<usize>,
)
    requires
        block_keys(blocks).no_duplicates(),
        second matches Some(b) ==> first + b <= usize::MAX,
    ensures
        ({
            let keys = block_keys(blocks);
            let key = blocks_cursor_key();
            let page1 = listing_page(keys, cursor_bound(start, key), Some(first));
            let next = if page1.len() > 0 {
                start.insert(key, blocks[page1.last()].block_id@)
            } else {
                start
            };
            let both = match second {
                Some(b) => Some((first + b) as usize),
                None => None,
            };
            page1 + listing_page(keys, cursor_bound(next, key), second) == listing_page(
                keys,
                cursor_bound(start, key),
                both,
            )
        }),
{
    let ids = blocks.map_values(|b: BlockData| b.block_id@);
    assert(block_keys(blocks) =~= ids.map_values(|id: Seq<char>| id_key(id)));
    let keys = block_keys(blocks);
    let page1 = listing_page(keys, cursor_bound(start, blocks_cursor_key()), Some(first));
    lemma_page_contents(keys, cursor_bound(start, blocks_cursor_key()), Some(first));
    if page1.len() > 0 {
        assert(0 <= page1.last() < keys.len());
        assert(ids[page1.last()] == blocks[page1.last()].block_id@);
    }
    lemma_cursor_pages_continue(ids, start, blocks_cursor_key(), first, second);
}

/// A listed transaction carries the stored transaction's id, timestamps,
/// amount, receiver and sender unchanged, with the validated status.
pub proof fn lemma_transaction_item_fields(t: Transaction)
    ensures
        transaction_item(t).transaction_id == t.id,
        transaction_item(t).age_ts == t.age_ts,
        transaction_item(t).creation_td == t.creation_td,
        transaction_item(t).amount == t.amount,
        transaction_item(t).to == t.to,
        transaction_item(t).from == t.from,
        transaction_item(t).status == BlockStatus::Validated,
{
}

/// A listed block carries the stored block's id, timestamps and hash
/// unchanged, the number of its transactions, and the validated status.
pub proof fn lemma_block_item_fields(b: BlockData)
    ensures
        block_item(b).block_id == b.block_id,
        block_item(b).age_ts == b.age_ts,
        block_item(b).transactions_count == b.txn_ids.len(),
        block_item(b).creation_td == b.creation_td,
        block_item(b).status == BlockStatus::Validated,
        block_item(b).block_hash == b.block_hash,
{
}

/// A found transaction is answered with its own fields, unchanged.
pub proof fn lemma_transaction_response_fields(t: Transaction)
    ensures
        transaction_response(t).transaction_id == t.id,
        transaction_response(t).block_id == t.block_id,
        transaction_response(t).age_ts == t.age_ts,
        transaction_response(t).creation_td == t.creation_td,
        transaction_response(t).amount == t.amount,
        transaction_response(t).to == t.to,
        transaction_response(t).from == t.from,
        transaction_response(t).status == BlockStatus::Validated,
{
}

/// A found block is answered with its own fields, the number of its
/// transactions, and a gas cost of 32453.
pub proof fn lemma_block_response_fields(b: BlockData)
    ensures
        block_response(b).block_id == b.block_id,
        block_response(b).age_ts == b.age_ts,
        block_response(b).transactions_count == b.txn_ids.len(),
        block_response(b).creation_td == b.creation_td,
        block_response(b).status == BlockStatus::Validated,
        block_response(b).block_hash == b.block_hash,
        block_response(b).gas_cost == 32453,
{
}

/// The ordering key of an id that is a decimal number is that number.
pub proof fn lemma_id_key_is_the_number(id: Seq<char>, value: u128)
    requires
        spec_parse_u128(id) == Some(value),
    ensures
        id_key(id) == value,
{
}

/// The ordering keys of the records are the keys of their ids, position by
/// position.
pub proof fn lemma_record_keys(transactions: Seq<Transaction>, blocks: Seq<BlockData>)
    ensures
        transaction_keys(transactions).len() == transactions.len(),
        forall|i: int|
            0 <= i < transactions.len() ==> #[trigger] transaction_keys(transactions)[i] == id_key(
                transactions[i].id@,
            ),
        block_keys(blocks).len() == blocks.len(),
        forall|i: int|
            0 <= i < blocks.len() ==> #[trigger] block_keys(blocks)[i] == id_key(blocks[i].block_id@),
{
}

/// The bound a cursor sets is the key of the id it records under the key,
/// and there is none when it records nothing there.
pub proof fn lemma_cursor_bound(cursor: Map<Seq<char>, Seq<char>>, key: Seq<char>)
    ensures
        cursor.contains_key(key) ==> cursor_bound(cursor, key) == Some(id_key(cursor[key])),
        !cursor.contains_key(key) ==> cursor_bound(cursor, key) is None,
{
}

} // verus!
