//! The decisions of a trace-generation run: whether a run may start, what it
//! does next (fetch a batch of transactions, hand a batch's trace to the
//! provers, or finish), and what it stores when it finishes.
//!
//! The caller performs each step (the store, the pool of pending transactions
//! and the provers are outside this library) and asks for the next one.

use vstd::prelude::*;

use crate::models::{Transaction, TransactionRequest};
use crate::service::BlockService;
use crate::trace::{
    batch_rows, batches_joined, build_proof_request, lemma_batches_rebuild_rows, FieldElement, SendProofRequest, Table, TraceTable,
    TRACE_1_ROWS_PER_TRANSACTION, TRACE_2_ROWS_PER_TRANSACTION, TRACE_3_ROWS_PER_TRANSACTION,
    TRACE_4_ROWS_PER_TRANSACTION,
};

verus! {

/// The address of the prover that distributes traces.
pub const MAIN_PROVER_HOST: &'static str = "http://13.234.157.247:8080";

/// The url to which batch traces are sent.
pub fn distribute_trace_url() -> (url: String)
    ensures
        url@ == MAIN_PROVER_HOST@ + "/proof/distribute_trace"@,
{
    let mut url = String::from_str(MAIN_PROVER_HOST);
    url.append("/proof/distribute_trace");
    url
}

impl BlockService {
    /// Whether a trace-generation run starts, given the run flag (read under
    /// its lock): it starts only when no run is under way, and then the flag
    /// is set. The caller starts the run when this returns `true`.
    pub fn generate_trace(running: &mut bool) -> (started: bool)
        ensures
            started == !*old(running),
            *final(running),
    {
        if *running {
            return false;
        }
        *running = true;
        true
    }
}

/// The sum of the amounts of the transactions.
pub open spec fn amounts_sum(txns: Seq<TransactionRequest>) -> int
    decreases txns.len(),
{
    if txns.len() == 0 {
        0
    } else {
        amounts_sum(txns.drop_last()) + txns.last().amount
    }
}

/// A pending transaction as stored in block `block_id` under the new id `id`.
pub open spec fn stored_transaction(
    txn: TransactionRequest,
    id: String,
    block_id: String,
    age_ts: u64,
    creation_td: u128,
) -> Transaction {
    Transaction {
        id,
        block_id,
        age_ts,
        creation_td,
        amount: txn.amount,
        to: txn.to,
        from: txn.from,
    }
}

/// A stored transaction keeps the pending transaction's receiver, sender and
/// amount, and takes its new id, its block and the block's timestamps.
pub proof fn lemma_stored_transaction_fields(
    txn: TransactionRequest,
    id: String,
    block_id: String,
    age_ts: u64,
    creation_td: u128,
)
    ensures
        stored_transaction(txn, id, block_id, age_ts, creation_td).to == txn.to,
        stored_transaction(txn, id, block_id, age_ts, creation_td).from == txn.from,
        stored_transaction(txn, id, block_id, age_ts, creation_td).amount == txn.amount,
        stored_transaction(txn, id, block_id, age_ts, creation_td).id == id,
        stored_transaction(txn, id, block_id, age_ts, creation_td).block_id == block_id,
        stored_transaction(txn, id, block_id, age_ts, creation_td).age_ts == age_ts,
        stored_transaction(txn, id, block_id, age_ts, creation_td).creation_td == creation_td,
{
}

/// The block's amount adds up: no transactions sum to 0, one sums to its
/// amount, and the sum of two lists laid end to end is the sum of their sums.
pub proof fn lemma_amounts_sum_adds(a: Seq<TransactionRequest>, b: Seq<TransactionRequest>)
    ensures
        amounts_sum(Seq::<TransactionRequest>::empty()) == 0,
        a.len() == 1 ==> amounts_sum(a) == a[0].amount,
        amounts_sum(a + b) == amounts_sum(a) + amounts_sum(b),
    decreases b.len(),
{
    if a.len() == 1 {
        assert(a.drop_last() =~= Seq::<TransactionRequest>::empty());
        assert(amounts_sum(a.drop_last()) == 0);
        assert(a.last() == a[0]);
    }
    if b.len() == 0 {
        assert(a + b =~= a);
    } else {
        lemma_amounts_sum_adds(a, b.drop_last());
        assert((a + b).drop_last() =~= a + b.drop_last());
        assert((a + b).last() == b.last());
    }
}

proof fn lemma_amounts_sum_prefix(txns: Seq<TransactionRequest>, i: int)
    requires
        0 <= i <= txns.len(),
    ensures
        amounts_sum(txns.take(i)) <= amounts_sum(txns),
        0 <= amounts_sum(txns.take(i)),
    decreases txns.len() - i,
{
    if i < txns.len() {
        lemma_amounts_sum_prefix(txns, i + 1);
        assert(txns.take(i + 1).drop_last() =~= txns.take(i));
        lemma_amounts_sum_nonneg(txns.take(i));
    } else {
        assert(txns.take(i) =~= txns);
        lemma_amounts_sum_nonneg(txns);
    }
}

proof fn lemma_amounts_sum_nonneg(txns: Seq<TransactionRequest>)
    ensures
        0 <= amounts_sum(txns),
    decreases txns.len(),
{
    if txns.len() > 0 {
        lemma_amounts_sum_nonneg(txns.drop_last());
    }
}

/// What a finished run records of the transactions it put into the block:
/// their ids in order, the sum of their amounts, and each transaction as
/// stored in block `block_id`, under the new id given for it, with the
/// block's timestamps.
pub fn block_transactions(
    txns: Vec<TransactionRequest>,
    new_ids: Vec<String>,
    block_id: &String,
    age_ts: u64,
    creation_td: u128,
) -> (res: (Vec<String>, u128, Vec<Transaction>))
    requires
        new_ids.len() == txns.len(),
        amounts_sum(txns@) <= u128::MAX,
    ensures
        res.0@ == txns@.map_values(|t: TransactionRequest| t.id),
        res.1 == amounts_sum(txns@),
        res.2@.len() == txns.len(),
        forall|i: int|
            0 <= i < txns.len() ==> #[trigger] res.2@[i] == stored_transaction(
                txns@[i],
                new_ids@[i],
                *block_id,
                age_ts,
                creation_td,
            ),
{
    let mut txn_ids: Vec<String> = Vec::new();
    let mut amount: u128 = 0;
    let mut transactions: Vec<Transaction> = Vec::new();
    for i in 0..txns.len()
        invariant
            new_ids.len() == txns.len(),
            amounts_sum(txns@) <= u128::MAX,
            txn_ids@ == txns@.take(i as int).map_values(|t: TransactionRequest| t.id),
            amount == amounts_sum(txns@.take(i as int)),
            transactions@.len() == i,
            forall|k: int|
                0 <= k < i ==> #[trigger] transactions@[k] == stored_transaction(
                    txns@[k],
                    new_ids@[k],
                    *block_id,
                    age_ts,
                    creation_td,
                ),
    {
        let txn = &txns[i];
        proof {
            assert(txns@.take(i + 1).drop_last() =~= txns@.take(i as int));
            lemma_amounts_sum_prefix(txns@, i + 1);
        }
        txn_ids.push(txn.id.clone());
        amount = amount + txn.amount;
        transactions.push(
            Transaction {
                to: txn.to.clone(),
                from: txn.from.clone(),
                amount: txn.amount,
                id: new_ids[i].clone(),
                age_ts: age_ts,
                creation_td: creation_td,
                block_id: block_id.clone(),
            },
        );
        assert(txn_ids@ =~= txns@.take(i + 1).map_values(|t: TransactionRequest| t.id));
    }
    assert(txns@.take(txns.len() as int) =~= txns@);
    (txn_ids, amount, transactions)
}

/// The block trace has the rows of batch `index` of `batch_size`
/// transactions in each of its four tables.
pub open spec fn batch_fits(trace: TraceTable, index: int, batch_size: int) -> bool {
    &&& (index + 1) * batch_size * TRACE_1_ROWS_PER_TRANSACTION <= trace.trace_1.rows().len()
    &&& (index + 1) * batch_size * TRACE_2_ROWS_PER_TRANSACTION <= trace.trace_2.rows().len()
    &&& (index + 1) * batch_size * TRACE_3_ROWS_PER_TRANSACTION <= trace.trace_3.rows().len()
    &&& (index + 1) * batch_size * TRACE_4_ROWS_PER_TRANSACTION <= trace.trace_4.rows().len()
}

/// The second table of a batch holds the cells of the proof's public inputs:
/// column 4 of the first transaction's last row and column 28 of the last row.
pub open spec fn public_inputs_present(rows: Seq<Seq<FieldElement>>, rows_per_transaction: int) -> bool {
    &&& 1 <= rows_per_transaction <= rows.len()
    &&& 4 < rows[rows_per_transaction - 1].len()
    &&& 28 < rows.last().len()
}

/// Batch `index` can be handed to the provers: the block trace has its rows
/// and they hold the public inputs.
pub open spec fn batch_ready(
    trace: TraceTable,
    index: int,
    batch_size: int,
    rows_per_transaction: int,
) -> bool {
    &&& batch_fits(trace, index, batch_size)
    &&& public_inputs_present(
        batch_rows(trace.trace_2.rows(), index, batch_size * TRACE_2_ROWS_PER_TRANSACTION),
        rows_per_transaction,
    )
}

/// The request that hands batch `index` of the block trace to the provers:
/// the batch's rows of each table and the public inputs read from them.
pub open spec fn is_batch_request(
    request: SendProofRequest,
    trace: TraceTable,
    block_id: String,
    index: int,
    batch_size: int,
    rows_per_transaction: int,
) -> bool {
    let rows_2 = batch_rows(trace.trace_2.rows(), index, batch_size * TRACE_2_ROWS_PER_TRANSACTION);
    &&& request.trace_id == index
    &&& request.block_id == block_id
    &&& request.trace.trace_1.rows() == batch_rows(
        trace.trace_1.rows(),
        index,
        batch_size * TRACE_1_ROWS_PER_TRANSACTION,
    )
    &&& request.trace.trace_2.rows() == rows_2
    &&& request.trace.trace_3.rows() == batch_rows(
        trace.trace_3.rows(),
        index,
        batch_size * TRACE_3_ROWS_PER_TRANSACTION,
    )
    &&& request.trace.trace_4.rows() == batch_rows(
        trace.trace_4.rows(),
        index,
        batch_size * TRACE_4_ROWS_PER_TRANSACTION,
    )
    &&& request.public_inputs@ == seq![rows_2[rows_per_transaction - 1][4], rows_2.last()[28]]
}

/// The rows of one table that the request for batch `index` carries are the
/// batch's own rows of the block trace: rows `index * per_batch` up to
/// `(index + 1) * per_batch`.
proof fn lemma_batch_rows_window<A>(rows: Seq<A>, index: int, batch_size: int, per_transaction: int)
    requires
        0 <= index,
        0 <= batch_size,
        0 <= per_transaction,
        (index + 1) * batch_size * per_transaction <= rows.len(),
    ensures
        0 <= index * batch_size * per_transaction,
        index * batch_size * per_transaction + batch_size * per_transaction == (index + 1)
            * batch_size * per_transaction,
        batch_rows(rows, index, batch_size * per_transaction) == rows.subrange(
            index * batch_size * per_transaction,
            (index + 1) * batch_size * per_transaction,
        ),
{
    assert(index * (batch_size * per_transaction) == index * batch_size * per_transaction)
        by (nonlinear_arith);
    assert(index * batch_size * per_transaction + batch_size * per_transaction == (index + 1)
        * batch_size * per_transaction) by (nonlinear_arith);
    assert(0 <= index * batch_size * per_transaction) by (nonlinear_arith)
        requires
            0 <= index,
            0 <= batch_size,
            0 <= per_transaction,
    ;
}

/// What the request for batch `index` holds, read off the block trace: its
/// id and block, from each table the rows `index * batch_size * R` up to
/// `(index + 1) * batch_size * R` (`R` that table's rows per transaction),
/// and as public inputs column 4 of the last row of the batch's first
/// transaction and column 28 of the batch's last row, both in the second
/// table.
pub proof fn lemma_batch_request_contents(
    request: SendProofRequest,
    trace: TraceTable,
    block_id: String,
    index: int,
    batch_size: int,
    rows_per_transaction: int,
)
    requires
        is_batch_request(request, trace, block_id, index, batch_size, rows_per_transaction),
        0 <= index,
        0 <= batch_size,
        (index + 1) * batch_size * 128 <= trace.trace_1.rows().len(),
        (index + 1) * batch_size * 256 <= trace.trace_2.rows().len(),
        (index + 1) * batch_size * 16 <= trace.trace_3.rows().len(),
        (index + 1) * batch_size * 256 <= trace.trace_4.rows().len(),
        1 <= rows_per_transaction <= batch_size * 256,
    ensures
        request.trace_id == index,
        request.block_id == block_id,
        request.trace.trace_1.rows() == trace.trace_1.rows().subrange(
            index * batch_size * 128,
            (index + 1) * batch_size * 128,
        ),
        request.trace.trace_2.rows() == trace.trace_2.rows().subrange(
            index * batch_size * 256,
            (index + 1) * batch_size * 256,
        ),
        request.trace.trace_3.rows() == trace.trace_3.rows().subrange(
            index * batch_size * 16,
            (index + 1) * batch_size * 16,
        ),
        request.trace.trace_4.rows() == trace.trace_4.rows().subrange(
            index * batch_size * 256,
            (index + 1) * batch_size * 256,
        ),
        request.public_inputs@.len() == 2,
        request.public_inputs@[0] == trace.trace_2.rows()[index * batch_size * 256
            + rows_per_transaction - 1][4],
        request.public_inputs@[1] == trace.trace_2.rows()[(index + 1) * batch_size * 256 - 1][28],
{
    lemma_batch_rows_window(trace.trace_1.rows(), index, batch_size, 128);
    lemma_batch_rows_window(trace.trace_2.rows(), index, batch_size, 256);
    lemma_batch_rows_window(trace.trace_3.rows(), index, batch_size, 16);
    lemma_batch_rows_window(trace.trace_4.rows(), index, batch_size, 256);
}

/// A batch can be handed over exactly when the block trace has its rows in
/// every table, its first transaction's last row of the second table has a
/// column 4, and its last row of the second table has a column 28.
pub proof fn lemma_batch_ready_iff(
    trace: TraceTable,
    index: int,
    batch_size: int,
    rows_per_transaction: int,
)
    requires
        0 <= index,
        0 <= batch_size,
    ensures
        batch_ready(trace, index, batch_size, rows_per_transaction) <==> {
            &&& (index + 1) * batch_size * 128 <= trace.trace_1.rows().len()
            &&& (index + 1) * batch_size * 256 <= trace.trace_2.rows().len()
            &&& (index + 1) * batch_size * 16 <= trace.trace_3.rows().len()
            &&& (index + 1) * batch_size * 256 <= trace.trace_4.rows().len()
            &&& 1 <= rows_per_transaction <= batch_size * 256
            &&& 4 < trace.trace_2.rows()[index * batch_size * 256 + rows_per_transaction - 1].len()
            &&& 28 < trace.trace_2.rows()[(index + 1) * batch_size * 256 - 1].len()
        },
{
    if (index + 1) * batch_size * 256 <= trace.trace_2.rows().len() {
        lemma_batch_rows_window(trace.trace_2.rows(), index, batch_size, 256);
    }
}

/// The rows of a list of parts, laid end to end.
pub open spec fn joined_rows<A>(parts: Seq<Seq<A>>) -> Seq<A>
    decreases parts.len(),
{
    if parts.len() == 0 {
        Seq::empty()
    } else {
        joined_rows(parts.drop_last()) + parts.last()
    }
}

proof fn lemma_joined_batches<A>(parts: Seq<Seq<A>>, rows: Seq<A>, per_batch: int)
    requires
        forall|t: int| 0 <= t < parts.len() ==> #[trigger] parts[t] == batch_rows(rows, t, per_batch),
    ensures
        joined_rows(parts) == batches_joined(rows, parts.len(), per_batch),
    decreases parts.len(),
{
    if parts.len() > 0 {
        let init = parts.drop_last();
        assert forall|t: int| 0 <= t < init.len() implies #[trigger] init[t] == batch_rows(
            rows,
            t,
            per_batch,
        ) by {
            assert(init[t] == parts[t]);
        }
        lemma_joined_batches(init, rows, per_batch);
        assert(parts.last() == parts[parts.len() - 1]);
    }
}

/// A whole run hands over the whole block trace, each row once and in order:
/// when the `n` requests sent are those for batches `0` to `n - 1`, their
/// tables laid end to end are, table by table, the first
/// `n * batch_size * R` rows of the block trace.
pub proof fn lemma_run_sends_block_trace(
    requests: Seq<SendProofRequest>,
    trace: TraceTable,
    block_id: String,
    batch_size: nat,
    rows_per_transaction: int,
)
    requires
        forall|t: int|
            0 <= t < requests.len() ==> is_batch_request(
                #[trigger] requests[t],
                trace,
                block_id,
                t,
                batch_size as int,
                rows_per_transaction,
            ),
        requests.len() * batch_size * 128 <= trace.trace_1.rows().len(),
        requests.len() * batch_size * 256 <= trace.trace_2.rows().len(),
        requests.len() * batch_size * 16 <= trace.trace_3.rows().len(),
        requests.len() * batch_size * 256 <= trace.trace_4.rows().len(),
    ensures
        joined_rows(requests.map_values(|r: SendProofRequest| r.trace.trace_1.rows()))
            == trace.trace_1.rows().take((requests.len() * batch_size * 128) as int),
        joined_rows(requests.map_values(|r: SendProofRequest| r.trace.trace_2.rows()))
            == trace.trace_2.rows().take((requests.len() * batch_size * 256) as int),
        joined_rows(requests.map_values(|r: SendProofRequest| r.trace.trace_3.rows()))
            == trace.trace_3.rows().take((requests.len() * batch_size * 16) as int),
        joined_rows(requests.map_values(|r: SendProofRequest| r.trace.trace_4.rows()))
            == trace.trace_4.rows().take((requests.len() * batch_size * 256) as int),
{
    let n = requests.len();
    let p1 = requests.map_values(|r: SendProofRequest| r.trace.trace_1.rows());
    let p2 = requests.map_values(|r: SendProofRequest| r.trace.trace_2.rows());
    let p3 = requests.map_values(|r: SendProofRequest| r.trace.trace_3.rows());
    let p4 = requests.map_values(|r: SendProofRequest| r.trace.trace_4.rows());
    assert forall|t: int| 0 <= t < n implies #[trigger] p1[t] == batch_rows(
        trace.trace_1.rows(),
        t,
        (batch_size * 128) as int,
    ) by {
        assert(is_batch_request(requests[t], trace, block_id, t, batch_size as int, rows_per_transaction));
    }
    assert forall|t: int| 0 <= t < n implies #[trigger] p2[t] == batch_rows(
        trace.trace_2.rows(),
        t,
        (batch_size * 256) as int,
    ) by {
        assert(is_batch_request(requests[t], trace, block_id, t, batch_size as int, rows_per_transaction));
    }
    assert forall|t: int| 0 <= t < n implies #[trigger] p3[t] == batch_rows(
        trace.trace_3.rows(),
        t,
        (batch_size * 16) as int,
    ) by {
        assert(is_batch_request(requests[t], trace, block_id, t, batch_size as int, rows_per_transaction));
    }
    assert forall|t: int| 0 <= t < n implies #[trigger] p4[t] == batch_rows(
        trace.trace_4.rows(),
        t,
        (batch_size * 256) as int,
    ) by {
        assert(is_batch_request(requests[t], trace, block_id, t, batch_size as int, rows_per_transaction));
    }
    lemma_joined_batches(p1, trace.trace_1.rows(), (batch_size * 128) as int);
    lemma_joined_batches(p2, trace.trace_2.rows(), (batch_size * 256) as int);
    lemma_joined_batches(p3, trace.trace_3.rows(), (batch_size * 16) as int);
    lemma_joined_batches(p4, trace.trace_4.rows(), (batch_size * 256) as int);
    assert(n * batch_size * 128 == n * (batch_size * 128)) by (nonlinear_arith);
    assert(n * batch_size * 256 == n * (batch_size * 256)) by (nonlinear_arith);
    assert(n * batch_size * 16 == n * (batch_size * 16)) by (nonlinear_arith);
    lemma_batches_rebuild_rows(trace.trace_1.rows(), n, batch_size * 128);
    lemma_batches_rebuild_rows(trace.trace_2.rows(), n, batch_size * 256);
    lemma_batches_rebuild_rows(trace.trace_3.rows(), n, batch_size * 16);
    lemma_batches_rebuild_rows(trace.trace_4.rows(), n, batch_size * 256);
}

/// What a run does next, as far as its position decides it.
pub enum Scheduled {
    /// Fetch the transactions of the next batch.
    Fetch,
    /// Hand batch `index` to the provers.
    Send(nat),
    /// Nothing is left: finish.
    Done,
}

/// The step a run of `num_batches` batches takes when it is at batch
/// `next_batch`, having fetched that batch's transactions or not.
pub open spec fn scheduled(num_batches: nat, next_batch: nat, fetched: bool) -> Scheduled {
    if next_batch < num_batches {
        if !fetched {
            Scheduled::Fetch
        } else {
            Scheduled::Send(next_batch)
        }
    } else {
        Scheduled::Done
    }
}

/// Where a run is after its step: after a fetch, the batch is fetched; after
/// a send, the run is at the next batch; a finished run stays where it is.
pub open spec fn advanced(num_batches: nat, next_batch: nat, fetched: bool) -> (nat, bool) {
    if next_batch < num_batches {
        if !fetched {
            (next_batch, true)
        } else {
            (next_batch + 1, false)
        }
    } else {
        (next_batch, fetched)
    }
}

/// Where a fresh run of `num_batches` batches is after `calls` steps.
pub open spec fn state_after(num_batches: nat, calls: nat) -> (nat, bool)
    decreases calls,
{
    if calls == 0 {
        (0, false)
    } else {
        let prev = state_after(num_batches, (calls - 1) as nat);
        advanced(num_batches, prev.0, prev.1)
    }
}

/// The schedule of a run: a fresh run of `num_batches` batches fetches
/// batch `t`'s transactions at step `2t` and hands batch `t` to the provers
/// at step `2t + 1`, for every batch in order, and from step
/// `2 * num_batches` on it is done.
pub proof fn lemma_run_schedule(num_batches: nat, calls: nat)
    ensures
        state_after(num_batches, calls) == if calls <= 2 * num_batches {
            ((calls / 2) as nat, calls % 2 == 1)
        } else {
            (num_batches, false)
        },
        calls < 2 * num_batches && calls % 2 == 0 ==> scheduled(
            num_batches,
            state_after(num_batches, calls).0,
            state_after(num_batches, calls).1,
        ) == Scheduled::Fetch,
        calls < 2 * num_batches && calls % 2 == 1 ==> scheduled(
            num_batches,
            state_after(num_batches, calls).0,
            state_after(num_batches, calls).1,
        ) == Scheduled::Send((calls / 2) as nat),
        calls >= 2 * num_batches ==> scheduled(
            num_batches,
            state_after(num_batches, calls).0,
            state_after(num_batches, calls).1,
        ) == Scheduled::Done,
    decreases calls,
{
    if calls > 0 {
        lemma_run_schedule(num_batches, (calls - 1) as nat);
    }
}

/// Whether `(index + 1) * batch_size * per_transaction` rows fit in `len`.
fn rows_cover(len: usize, index: usize, batch_size: usize, per_transaction: usize) -> (covered: bool)
    requires
        per_transaction > 0,
    ensures
        covered == ((index + 1) * batch_size * per_transaction <= len),
{
    if index == usize::MAX {
        assert((index + 1) * batch_size * per_transaction >= (index + 1) * batch_size) by (nonlinear_arith)
            requires
                per_transaction > 0,
                batch_size >= 0,
        ;
        if batch_size == 0 {
            assert((index + 1) * batch_size * per_transaction == 0) by (nonlinear_arith)
                requires
                    batch_size == 0,
            ;
            return true;
        }
        assert((index + 1) * batch_size >= index + 1) by (nonlinear_arith)
            requires
                batch_size >= 1,
        ;
        return false;
    }
    let count = index + 1;
    match count.checked_mul(batch_size) {
        Some(transactions) => match transactions.checked_mul(per_transaction) {
            Some(rows) => rows <= len,
            None => false,
        },
        None => {
            assert(count * batch_size * per_transaction >= count * batch_size) by (nonlinear_arith)
                requires
                    per_transaction > 0,
                    count * batch_size >= 0,
            ;
            false
        },
    }
}

/// Whether the rows of a batch's second table hold the public inputs.
fn public_inputs_available(table: &Table, rows_per_transaction: usize) -> (available: bool)
    ensures
        available == public_inputs_present(table.rows(), rows_per_transaction as int),
{
    let n = table.num_of_rows();
    if rows_per_transaction < 1 || rows_per_transaction > n {
        return false;
    }
    4 < table.data[rows_per_transaction - 1].len() && 28 < table.data[n - 1].len()
}

/// What a trace-generation run does next.
pub enum TraceStep {
    /// Take `count` transactions from the pool of pending transactions.
    FetchBatch { count: usize },
    /// Send this request to the provers.
    Distribute { request: SendProofRequest },
    /// Every batch was handed over: store the block's transactions and
    /// release the run flag.
    Finish,
    /// The block trace lacks the rows or the public-input cells of the batch
    /// to be sent; the run cannot go on.
    Fail,
}

/// A trace-generation run: the block's trace is cut into batches of
/// `batch_size` transactions, and each batch is fetched from the pool and
/// then handed to the provers, in order.
pub struct TraceRun {
    pub block_id: String,
    pub trace: TraceTable,
    pub batch_size: usize,
    pub num_batches: usize,
    pub rows_per_transaction: usize,
    pub next_batch: usize,
    pub fetched: bool,
}

impl TraceRun {
    /// A fresh run over a block of `block_size` transactions: as many whole
    /// batches of `batch_size` as fit.
    pub fn start(
        block_id: String,
        trace: TraceTable,
        block_size: usize,
        batch_size: usize,
        rows_per_transaction: usize,
    ) -> (run: TraceRun)
        requires
            batch_size > 0,
        ensures
            run.block_id == block_id,
            run.trace == trace,
            run.batch_size == batch_size,
            run.num_batches == block_size / batch_size,
            run.rows_per_transaction == rows_per_transaction,
            run.next_batch == 0,
            !run.fetched,
    {
        TraceRun {
            block_id,
            trace,
            batch_size,
            num_batches: block_size / batch_size,
            rows_per_transaction,
            next_batch: 0,
            fetched: false,
        }
    }

    /// The run's next step, and its advance past it.
    pub fn next_step(&mut self) -> (step: TraceStep)
        ensures
            final(self).block_id == old(self).block_id,
            final(self).trace == old(self).trace,
            final(self).batch_size == old(self).batch_size,
            final(self).num_batches == old(self).num_batches,
            final(self).rows_per_transaction == old(self).rows_per_transaction,
            (final(self).next_batch as nat, final(self).fetched) == advanced(
                old(self).num_batches as nat,
                old(self).next_batch as nat,
                old(self).fetched,
            ),
            match scheduled(
                old(self).num_batches as nat,
                old(self).next_batch as nat,
                old(self).fetched,
            ) {
                Scheduled::Fetch => step == TraceStep::FetchBatch { count: old(self).batch_size },
                Scheduled::Send(index) => if batch_ready(
                    old(self).trace,
                    index as int,
                    old(self).batch_size as int,
                    old(self).rows_per_transaction as int,
                ) {
                    step matches TraceStep::Distribute { request } && is_batch_request(
                        request,
                        old(self).trace,
                        old(self).block_id,
                        index as int,
                        old(self).batch_size as int,
                        old(self).rows_per_transaction as int,
                    )
                } else {
                    step is Fail
                },
                Scheduled::Done => step is Finish,
            },
    {
        if self.next_batch >= self.num_batches {
            return TraceStep::Finish;
        }
        if !self.fetched {
            self.fetched = true;
            return TraceStep::FetchBatch { count: self.batch_size };
        }
        let index = self.next_batch;
        self.next_batch = self.next_batch + 1;
        self.fetched = false;
        let fits = rows_cover(
            self.trace.trace_1.num_of_rows(),
            index,
            self.batch_size,
            TRACE_1_ROWS_PER_TRANSACTION,
        ) && rows_cover(
            self.trace.trace_2.num_of_rows(),
            index,
            self.batch_size,
            TRACE_2_ROWS_PER_TRANSACTION,
        ) && rows_cover(
            self.trace.trace_3.num_of_rows(),
            index,
            self.batch_size,
            TRACE_3_ROWS_PER_TRANSACTION,
        ) && rows_cover(
            self.trace.trace_4.num_of_rows(),
            index,
            self.batch_size,
            TRACE_4_ROWS_PER_TRANSACTION,
        );
        if !fits {
            return TraceStep::Fail;
        }
        let batch = self.trace.batch(index, self.batch_size);
        if !public_inputs_available(&batch.trace_2, self.rows_per_transaction) {
            return TraceStep::Fail;
        }
        let request = build_proof_request(
            index,
            self.block_id.clone(),
            batch,
            self.rows_per_transaction,
        );
        TraceStep::Distribute { request }
    }
}

} // verus!
