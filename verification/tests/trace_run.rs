use sequencer_block::http::HttpRequest;
use sequencer_block::models::TransactionRequest;
use sequencer_block::sequencer::{block_transactions, distribute_trace_url, TraceRun, TraceStep};
use sequencer_block::service::BlockService;
use sequencer_block::trace::{FieldElement, TraceTable};

#[test]
fn a_run_starts_only_when_none_is_running() {
    let mut running = false;
    assert!(BlockService::generate_trace(&mut running));
    assert!(running);
    assert!(!BlockService::generate_trace(&mut running));
    assert!(running);
}

#[test]
fn a_run_fetches_and_sends_each_batch_in_order() {
    let trace = TraceTable::zeros(4);
    let mut run = TraceRun::start("12".to_string(), trace, 5, 2, 256);
    assert_eq!(run.num_batches, 2);
    let mut log = Vec::new();
    loop {
        match run.next_step() {
            TraceStep::FetchBatch { count } => log.push(format!("fetch {}", count)),
            TraceStep::Distribute { request } => {
                assert_eq!(request.block_id, "12");
                assert_eq!(request.trace.trace_1.num_of_rows(), 256);
                assert_eq!(request.trace.trace_2.num_of_rows(), 512);
                assert_eq!(request.trace.trace_3.num_of_rows(), 32);
                assert_eq!(request.trace.trace_4.num_of_rows(), 512);
                assert_eq!(request.public_inputs, vec![FieldElement::zero(); 2]);
                log.push(format!("send {}", request.trace_id));
            }
            TraceStep::Finish => break,
            TraceStep::Fail => panic!("unexpected failure"),
        }
    }
    assert_eq!(log, vec!["fetch 2", "send 0", "fetch 2", "send 1"]);
    assert!(matches!(run.next_step(), TraceStep::Finish));
}

#[test]
fn a_run_fails_when_the_trace_is_too_short() {
    let trace = TraceTable::zeros(1);
    let mut run = TraceRun::start("1".to_string(), trace, 4, 2, 256);
    assert!(matches!(run.next_step(), TraceStep::FetchBatch { count: 2 }));
    assert!(matches!(run.next_step(), TraceStep::Fail));
}

#[test]
fn a_run_fails_without_the_public_input_cells() {
    let trace = TraceTable::zeros(1);
    let mut run = TraceRun::start("1".to_string(), trace, 1, 1, 300);
    assert!(matches!(run.next_step(), TraceStep::FetchBatch { count: 1 }));
    assert!(matches!(run.next_step(), TraceStep::Fail));
}

#[test]
fn an_empty_block_finishes_at_once() {
    let mut run = TraceRun::start("1".to_string(), TraceTable::zeros(0), 1, 2, 256);
    assert_eq!(run.num_batches, 0);
    assert!(matches!(run.next_step(), TraceStep::Finish));
}

#[test]
fn finished_block_records_its_transactions() {
    let txns = vec![
        TransactionRequest { id: "p1".to_string(), to: "0x1".to_string(), from: "0x2".to_string(), amount: 5 },
        TransactionRequest { id: "p2".to_string(), to: "0x3".to_string(), from: "0x4".to_string(), amount: 7 },
    ];
    let (ids, amount, stored) =
        block_transactions(txns, vec!["40".to_string(), "41".to_string()], &"9".to_string(), 100, 3);
    assert_eq!(ids, vec!["p1", "p2"]);
    assert_eq!(amount, 12);
    assert_eq!(stored.len(), 2);
    assert_eq!(stored[1].id, "41");
    assert_eq!(stored[1].block_id, "9");
    assert_eq!(stored[1].to, "0x3");
    assert_eq!(stored[1].from, "0x4");
    assert_eq!(stored[1].amount, 7);
    assert_eq!(stored[1].age_ts, 100);
    assert_eq!(stored[1].creation_td, 3);
}

#[test]
fn no_transactions_record_nothing() {
    let (ids, amount, stored) = block_transactions(Vec::new(), Vec::new(), &"9".to_string(), 1, 1);
    assert!(ids.is_empty());
    assert_eq!(amount, 0);
    assert!(stored.is_empty());
}

#[test]
fn traces_go_to_the_main_prover() {
    assert_eq!(distribute_trace_url(), "http://13.234.157.247:8080/proof/distribute_trace");
}

#[test]
fn success_statuses_pass() {
    assert!(HttpRequest::check_status(&"http://x".to_string(), 200).is_ok());
    assert!(HttpRequest::check_status(&"http://x".to_string(), 299).is_ok());
}

#[test]
fn failure_statuses_give_an_error() {
    let err = HttpRequest::check_status(&"http://x/y".to_string(), 503).unwrap_err();
    assert_eq!(err.display_msg, "Error");
    assert_eq!(err.error_code, 503);
    assert_eq!(err.log_msg, "Error while calling http://x/y | Status Code : 503");
    assert!(HttpRequest::check_status(&"u".to_string(), 199).is_err());
    assert!(HttpRequest::check_status(&"u".to_string(), 300).is_err());
}
