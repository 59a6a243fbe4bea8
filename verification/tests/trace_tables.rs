use sequencer_block::trace::{build_proof_request, FieldElement, Table, TraceTable};

fn element(last: u8) -> FieldElement {
    let mut bytes = [0u8; 32];
    bytes[31] = last;
    FieldElement { bytes }
}

fn hex_of(last: u8) -> String {
    format!("{}{:02x}", "0".repeat(62), last)
}

fn numbered(rows: usize, cols: usize) -> Table {
    Table::new(
        (0..rows)
            .map(|r| (0..cols).map(|c| element((r * cols + c) as u8)).collect())
            .collect(),
    )
}

#[test]
fn reads_big_endian_hex() {
    let text = "0102030405060708090a0b0c0d0e0f101112131415161718191A1B1C1D1E1F20";
    let f = FieldElement::from_be_hex(text).unwrap();
    let expected: Vec<u8> = (1..=32).collect();
    assert_eq!(f.bytes.to_vec(), expected);
}

#[test]
fn rejects_malformed_hex() {
    assert_eq!(FieldElement::from_be_hex(""), None);
    assert_eq!(FieldElement::from_be_hex(&"0".repeat(63)), None);
    assert_eq!(FieldElement::from_be_hex(&"0".repeat(65)), None);
    assert_eq!(FieldElement::from_be_hex(&format!("{}g", "0".repeat(63))), None);
}

#[test]
fn zero_is_all_zero_bytes() {
    assert_eq!(FieldElement::zero().bytes, [0u8; 32]);
    assert_eq!(FieldElement::from_be_hex(&"0".repeat(64)), Some(FieldElement::zero()));
}

#[test]
fn zero_tables_have_the_trace_shapes() {
    let trace = TraceTable::zeros(2);
    assert_eq!(trace.trace_1.num_of_rows(), 256);
    assert_eq!(trace.trace_2.num_of_rows(), 512);
    assert_eq!(trace.trace_3.num_of_rows(), 32);
    assert_eq!(trace.trace_4.num_of_rows(), 512);
    assert_eq!(trace.trace_1.data[0].len(), 2);
    assert_eq!(trace.trace_2.data[511].len(), 32);
    assert_eq!(trace.trace_3.data[3].len(), 4);
    assert_eq!(trace.trace_4.data[7].len(), 31);
    assert_eq!(trace.trace_2.cell_at(5, 30), FieldElement::zero());
}

#[test]
fn update_row_replaces_one_row() {
    let mut table = Table::zeros(3, 2);
    table.update_row_at(1, &vec![element(5), element(6), element(7)]);
    assert_eq!(table.data[1], vec![element(5), element(6), element(7)]);
    assert_eq!(table.data[0], vec![FieldElement::zero(); 2]);
    assert_eq!(table.cell_at(1, 2), element(7));
}

#[test]
fn batch_takes_consecutive_rows() {
    let table = numbered(6, 2);
    let batch = table.batch(1, 2);
    assert_eq!(batch.num_of_rows(), 2);
    assert_eq!(batch.data[0], table.data[2]);
    assert_eq!(batch.data[1], table.data[3]);
}

#[test]
fn batches_rebuild_the_table() {
    let table = numbered(6, 3);
    let mut joined = Vec::new();
    for index in 0..3 {
        joined.extend(table.batch(index, 2).data);
    }
    assert_eq!(joined, table.data);
}

#[test]
fn trace_batch_cuts_each_table_by_its_rows_per_transaction() {
    let full = TraceTable::new(numbered(256, 2), numbered(512, 2), numbered(32, 2), numbered(512, 2));
    let batch = full.batch(1, 1);
    assert_eq!(batch.trace_1.data, full.trace_1.data[128..256].to_vec());
    assert_eq!(batch.trace_2.data, full.trace_2.data[256..512].to_vec());
    assert_eq!(batch.trace_3.data, full.trace_3.data[16..32].to_vec());
    assert_eq!(batch.trace_4.data, full.trace_4.data[256..512].to_vec());
}

#[test]
fn proof_request_reads_its_public_inputs() {
    let mut trace_2 = Table::zeros(6, 32);
    let mut row = vec![FieldElement::zero(); 32];
    row[4] = element(44);
    trace_2.update_row_at(2, &row);
    let mut last = vec![FieldElement::zero(); 32];
    last[28] = element(28);
    trace_2.update_row_at(5, &last);
    let trace = TraceTable::new(Table::zeros(1, 2), trace_2, Table::zeros(1, 4), Table::zeros(1, 31));
    let request = build_proof_request(3, "block-9".to_string(), trace, 3);
    assert_eq!(request.trace_id, 3);
    assert_eq!(request.block_id, "block-9");
    assert_eq!(request.public_inputs, vec![element(44), element(28)]);
    assert_eq!(request.trace.trace_2.num_of_rows(), 6);
}

#[test]
fn csv_rows_fill_the_table_after_the_header() {
    let mut table = Table::zeros(3, 2);
    let data = format!("a,b\n{},{}\n{},{}\n", hex_of(1), hex_of(2), hex_of(3), hex_of(4));
    assert!(table.load_csv(data.as_bytes()));
    assert_eq!(table.data[0], vec![element(1), element(2)]);
    assert_eq!(table.data[1], vec![element(3), element(4)]);
    assert_eq!(table.data[2], vec![FieldElement::zero(); 2]);
}

#[test]
fn csv_rows_beyond_the_table_are_ignored() {
    let mut table = Table::zeros(1, 1);
    let data = format!("h\n{}\n{}\nnot-hex\n", hex_of(9), hex_of(8));
    assert!(table.load_csv(data.as_bytes()));
    assert_eq!(table.num_of_rows(), 1);
    assert_eq!(table.data[0], vec![element(9)]);
}

#[test]
fn csv_with_a_bad_record_leaves_the_table() {
    let mut table = Table::zeros(2, 2);
    let uneven = format!("a,b\n{}\n", hex_of(1));
    assert!(!table.load_csv(uneven.as_bytes()));
    let bad_hex = format!("a,b\n{},zz\n", hex_of(1));
    assert!(!table.load_csv(bad_hex.as_bytes()));
    assert_eq!(table.data, Table::zeros(2, 2).data);
}

#[test]
fn empty_csv_changes_nothing() {
    let mut table = Table::zeros(2, 2);
    assert!(table.load_csv(b""));
    assert!(table.load_csv(b"header,only\n"));
    assert_eq!(table.data, Table::zeros(2, 2).data);
}
