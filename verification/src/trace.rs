//! Execution-trace tables: field elements, tables of rows of them, the four
//! tables of a trace, their loading from CSV text, and the cutting of a
//! block's trace into the traces of its batches.

use vstd::prelude::*;

verus! {

/// The value of a hexadecimal digit (either case).
pub open spec fn hex_digit_value(c: char) -> Option<u8> {
    if '0' <= c && c <= '9' {
        Some(((c as int) - ('0' as int)) as u8)
    } else if 'a' <= c && c <= 'f' {
        Some(((c as int) - ('a' as int) + 10) as u8)
    } else if 'A' <= c && c <= 'F' {
        Some(((c as int) - ('A' as int) + 10) as u8)
    } else {
        None
    }
}

/// The text of a field element: exactly 64 hexadecimal digits.
pub open spec fn is_field_hex(s: Seq<char>) -> bool {
    &&& s.len() == 64
    &&& forall|i: int| 0 <= i < s.len() ==> (#[trigger] hex_digit_value(s[i])) is Some
}

/// The bytes, most significant first, that 64 hexadecimal digits spell.
pub open spec fn hex_bytes(s: Seq<char>) -> Seq<u8> {
    Seq::new(
        32,
        |i: int|
            (hex_digit_value(s[2 * i])->0 * 16 + hex_digit_value(s[2 * i + 1])->0) as u8,
    )
}

/// The lowercase hexadecimal digit of a value below 16.
pub open spec fn hex_char(d: int) -> char {
    if d < 10 {
        (('0' as int) + d) as char
    } else {
        (('a' as int) + d - 10) as char
    }
}

/// Bytes written in hexadecimal, most significant nibble first.
pub open spec fn hex_text(bytes: Seq<u8>) -> Seq<char> {
    Seq::new(
        2 * bytes.len(),
        |i: int|
            if i % 2 == 0 {
                hex_char((bytes[i / 2] / 16) as int)
            } else {
                hex_char((bytes[i / 2] % 16) as int)
            },
    )
}

proof fn lemma_hex_char_value(d: int)
    requires
        0 <= d < 16,
    ensures
        hex_digit_value(hex_char(d)) == Some(d as u8),
{
}

/// Reading is big-endian and inverts writing: 32 bytes written in
/// hexadecimal, most significant first, read back as the same bytes.
pub proof fn lemma_hex_round_trip(bytes: Seq<u8>)
    requires
        bytes.len() == 32,
    ensures
        is_field_hex(hex_text(bytes)),
        hex_bytes(hex_text(bytes)) == bytes,
{
    let t = hex_text(bytes);
    assert forall|i: int| 0 <= i < t.len() implies (#[trigger] hex_digit_value(t[i])) is Some by {
        if i % 2 == 0 {
            lemma_hex_char_value((bytes[i / 2] / 16) as int);
        } else {
            lemma_hex_char_value((bytes[i / 2] % 16) as int);
        }
    }
    assert forall|i: int| 0 <= i < 32 implies #[trigger] hex_bytes(t)[i] == bytes[i] by {
        assert((2 * i) % 2 == 0 && (2 * i) / 2 == i);
        assert((2 * i + 1) % 2 == 1 && (2 * i + 1) / 2 == i);
        lemma_hex_char_value((bytes[i] / 16) as int);
        lemma_hex_char_value((bytes[i] % 16) as int);
        assert(t[2 * i] == hex_char((bytes[i] / 16) as int));
        assert(t[2 * i + 1] == hex_char((bytes[i] % 16) as int));
    }
    assert(hex_bytes(t) =~= bytes);
}

/// An element of the prime field of the proof system, held as its 256-bit
/// value in big-endian bytes.
#[derive(Clone, Copy, Debug, PartialEq, Eq)]
pub struct FieldElement {
    pub bytes: [u8; 32],
}

impl View for FieldElement {
    type V = Seq<u8>;

    open spec fn view(&self) -> Seq<u8> {
        self.bytes@
    }
}

fn hex_value(c: char) -> (v: Option<u8>)
    ensures
        v == hex_digit_value(c),
{
    if '0' <= c && c <= '9' {
        Some(((c as u32) - ('0' as u32)) as u8)
    } else if 'a' <= c && c <= 'f' {
        Some(((c as u32) - ('a' as u32) + 10) as u8)
    } else if 'A' <= c && c <= 'F' {
        Some(((c as u32) - ('A' as u32) + 10) as u8)
    } else {
        None
    }
}

impl FieldElement {
    /// The zero element.
    pub fn zero() -> (z: FieldElement)
        ensures
            z@ == Seq::new(32, |i: int| 0u8),
    {
        let z = FieldElement { bytes: [0u8; 32] };
        assert(z@ =~= Seq::new(32, |i: int| 0u8));
        z
    }

    /// The element that 64 hexadecimal digits (most significant first)
    /// spell; `None` for any other text.
    pub fn from_be_hex(hex: &str) -> (res: Option<FieldElement>)
        ensures
            res is Some <==> is_field_hex(hex@),
            res matches Some(f) ==> f@ == hex_bytes(hex@),
    {
        let n = hex.unicode_len();
        if n != 64 {
            return None;
        }
        let mut bytes = [0u8; 32];
        let mut i: usize = 0;
        while i < 32
            invariant
                n == hex@.len(),
                n == 64,
                i <= 32,
                bytes@.len() == 32,
                forall|k: int| 0 <= k < 2 * i ==> (#[trigger] hex_digit_value(hex@[k])) is Some,
                forall|k: int| 0 <= k < i ==> #[trigger] bytes@[k] == hex_bytes(hex@)[k],
            decreases 32 - i,
        {
            let high = hex_value(hex.get_char(2 * i));
            let low = hex_value(hex.get_char(2 * i + 1));
            match (high, low) {
                (Some(h), Some(l)) => {
                    assert(h < 16 && l < 16);
                    bytes[i] = h * 16 + l;
                },
                _ => {
                    return None;
                },
            }
            i = i + 1;
        }
        let f = FieldElement { bytes };
        assert(f@ =~= hex_bytes(hex@));
        Some(f)
    }
}

/// A copy of a row of cells.
fn copy_row(row: &Vec<FieldElement>) -> (copy: Vec<FieldElement>)
    ensures
        copy@ == row@,
{
    let mut copy: Vec<FieldElement> = Vec::new();
    for k in 0..row.len()
        invariant
            copy@ == row@.take(k as int),
    {
        copy.push(row[k]);
        assert(copy@ =~= row@.take(k + 1));
    }
    assert(row@.take(row.len() as int) =~= row@);
    copy
}

/// The zero element.
pub open spec fn is_zero(f: FieldElement) -> bool {
    f@ == Seq::new(32, |i: int| 0u8)
}

/// A row of `cols` zero cells.
pub open spec fn is_zero_row(row: Seq<FieldElement>, cols: nat) -> bool {
    &&& row.len() == cols
    &&& forall|c: int| 0 <= c < cols ==> is_zero(#[trigger] row[c])
}

/// A row of `cols` zero cells.
fn zero_row(cols: usize) -> (row: Vec<FieldElement>)
    ensures
        is_zero_row(row@, cols as nat),
{
    let mut row: Vec<FieldElement> = Vec::new();
    for k in 0..cols
        invariant
            is_zero_row(row@, k as nat),
    {
        row.push(FieldElement::zero());
    }
    row
}

/// A table of field elements, row by row.
pub struct Table {
    pub data: Vec<Vec<FieldElement>>,
}

impl Table {
    /// The rows of the table.
    pub open spec fn rows(&self) -> Seq<Seq<FieldElement>> {
        self.data@.map_values(|r: Vec<FieldElement>| r@)
    }

    /// A table holding `data`.
    pub fn new(data: Vec<Vec<FieldElement>>) -> (table: Table)
        ensures
            table.data == data,
    {
        Table { data }
    }

    /// A table of `rows` rows of `cols` zero cells.
    pub fn zeros(rows: usize, cols: usize) -> (table: Table)
        ensures
            table.rows().len() == rows,
            forall|r: int| 0 <= r < rows ==> is_zero_row(#[trigger] table.rows()[r], cols as nat),
    {
        let mut data: Vec<Vec<FieldElement>> = Vec::new();
        for k in 0..rows
            invariant
                data@.len() == k,
                forall|r: int| 0 <= r < k ==> is_zero_row(#[trigger] data@[r]@, cols as nat),
        {
            data.push(zero_row(cols));
        }
        Table { data }
    }

    /// The number of rows.
    pub fn num_of_rows(&self) -> (n: usize)
        ensures
            n == self.rows().len(),
    {
        self.data.len()
    }

    /// Replaces row `index` with a copy of `row`.
    pub fn update_row_at(&mut self, index: usize, row: &Vec<FieldElement>)
        requires
            index < old(self).rows().len(),
        ensures
            final(self).rows() == old(self).rows().update(index as int, row@),
    {
        let copy = copy_row(row);
        self.data.set(index, copy);
        assert(self.rows() =~= old(self).rows().update(index as int, row@));
    }

    /// The cell in row `row`, column `col`.
    pub fn cell_at(&self, row: usize, col: usize) -> (cell: FieldElement)
        requires
            row < self.rows().len(),
            col < self.rows()[row as int].len(),
        ensures
            cell == self.rows()[row as int][col as int],
    {
        self.data[row][col]
    }
}

/// The cells of a row read from the fields of a CSV record: one cell per
/// field, each the element that the field's hexadecimal text spells.
pub open spec fn row_of_fields(row: Seq<FieldElement>, fields: Seq<Seq<char>>) -> bool {
    &&& row.len() == fields.len()
    &&& forall|c: int| 0 <= c < fields.len() ==> (#[trigger] row[c])@ == hex_bytes(fields[c])
}

/// The first `n` records were read without error and every field of theirs is
/// the text of a field element.
pub open spec fn records_readable(records: Seq<Option<Seq<Seq<char>>>>, n: int) -> bool {
    forall|r: int|
        0 <= r < n ==> {
            &&& (#[trigger] records[r]) is Some
            &&& forall|c: int|
                0 <= c < records[r]->0.len() ==> is_field_hex(#[trigger] records[r]->0[c])
        }
}

/// How many records fill a table of `rows` rows: one per row, as long as
/// there are records.
pub open spec fn filled_rows(records_len: int, rows: int) -> int {
    if records_len < rows {
        records_len
    } else {
        rows
    }
}

/// The table after its first rows are filled from the records: row `r` for
/// `r` below `n` holds the cells of record `r`, the other rows are unchanged.
pub open spec fn filled_from(
    after: Seq<Seq<FieldElement>>,
    before: Seq<Seq<FieldElement>>,
    records: Seq<Option<Seq<Seq<char>>>>,
    n: int,
) -> bool {
    &&& after.len() == before.len()
    &&& forall|r: int| 0 <= r < n ==> row_of_fields(#[trigger] after[r], records[r]->0)
    &&& forall|r: int| n <= r < before.len() ==> #[trigger] after[r] == before[r]
}

/// What a fill leaves in the table, cell by cell: for each of the first
/// `n` rows, one cell per field of record `r`, each the bytes its hexadecimal
/// text spells; the other rows as they were; as many rows as before.
pub proof fn lemma_filled_cells(
    after: Seq<Seq<FieldElement>>,
    before: Seq<Seq<FieldElement>>,
    records: Seq<Option<Seq<Seq<char>>>>,
    n: int,
)
    requires
        filled_from(after, before, records, n),
    ensures
        after.len() == before.len(),
        forall|r: int| 0 <= r < n ==> (#[trigger] after[r]).len() == records[r]->0.len(),
        forall|r: int, c: int|
            0 <= r < n && 0 <= c < records[r]->0.len() ==> (#[trigger] after[r][c])@ == hex_bytes(
                records[r]->0[c],
            ),
        forall|r: int| n <= r < before.len() ==> #[trigger] after[r] == before[r],
{
    assert forall|r: int, c: int|
        0 <= r < n && 0 <= c < records[r]->0.len() implies (#[trigger] after[r][c])@ == hex_bytes(
        records[r]->0[c],
    ) by {
        assert(row_of_fields(after[r], records[r]->0));
    }
}

/// The records of CSV text as the `csv` crate's reader with its default
/// settings yields them: the first line is a header and is not a record; each
/// record is its fields' texts, or nothing when the record could not be read
/// (its field count differs from the first line's, or it is not UTF-8).
pub uninterp spec fn csv_records(data: Seq<u8>) -> Seq<Option<Seq<Seq<char>>>>;

/// Reads CSV text with `csv::Reader::from_reader` and collects what its
/// `records` iterator yields, each record's fields as strings and each error
/// as `None`. The contract claims only that the result is `csv_records` of
/// the bytes: the same bytes give the same records.
#[verifier::external_body]
fn read_csv_records(data: &[u8]) -> (records: Vec<Option<Vec<String>>>)
    ensures
        records.deep_view() == csv_records(data@),
{
    let mut reader = csv::Reader::from_reader(data);
    reader.records().map(
        |record| record.ok().map(|fields| fields.iter().map(|f| f.to_string()).collect()),
    ).collect()
}

/// The cells that the fields of a record spell, or `None` when a field is
/// not the text of a field element.
fn parse_fields(fields: &Vec<String>) -> (row: Option<Vec<FieldElement>>)
    ensures
        row is Some <==> forall|c: int| 0 <= c < fields.len() ==> is_field_hex(#[trigger] fields.deep_view()[c]),
        row matches Some(cells) ==> row_of_fields(cells@, fields.deep_view()),
{
    let mut cells: Vec<FieldElement> = Vec::new();
    for c in 0..fields.len()
        invariant
            cells@.len() == c,
            forall|k: int| 0 <= k < c ==> is_field_hex(#[trigger] fields.deep_view()[k]),
            forall|k: int| 0 <= k < c ==> (#[trigger] cells@[k])@ == hex_bytes(fields.deep_view()[k]),
    {
        assert(fields.deep_view()[c as int] == fields@[c as int]@);
        match FieldElement::from_be_hex(fields[c].as_str()) {
            Some(cell) => {
                cells.push(cell);
            },
            None => {
                return None;
            },
        }
    }
    Some(cells)
}

impl Table {
    /// Fills the table's rows, from the first, with the cells of the records,
    /// one record per row, until the rows or the records run out. Returns
    /// `false`, and leaves the table as it was, when one of those records
    /// could not be read or holds a field that is not the text of a field
    /// element.
    pub fn load_records(&mut self, records: &Vec<Option<Vec<String>>>) -> (loaded: bool)
        ensures
            ({
                let n = filled_rows(records.len() as int, old(self).rows().len() as int);
                &&& loaded == records_readable(records.deep_view(), n)
                &&& loaded ==> filled_from(final(self).rows(), old(self).rows(), records.deep_view(), n)
                &&& !loaded ==> final(self).rows() == old(self).rows()
            }),
    {
        let n = if records.len() < self.data.len() {
            records.len()
        } else {
            self.data.len()
        };
        let ghost dv = records.deep_view();
        let mut parsed: Vec<Vec<FieldElement>> = Vec::new();
        for r in 0..n
            invariant
                n <= records.len(),
                n == filled_rows(records.len() as int, old(self).rows().len() as int),
                self.rows() == old(self).rows(),
                dv == records.deep_view(),
                parsed@.len() == r,
                records_readable(dv, r as int),
                forall|q: int| 0 <= q < r ==> row_of_fields(#[trigger] parsed@[q]@, dv[q]->0),
        {
            assert(dv[r as int] == records@[r as int].deep_view());
            match &records[r] {
                Some(fields) => {
                    assert(dv[r as int]->0 == fields.deep_view());
                    match parse_fields(fields) {
                        Some(cells) => {
                            parsed.push(cells);
                            assert forall|q: int| 0 <= q < r + 1 implies {
                                &&& (#[trigger] dv[q]) is Some
                                &&& forall|c: int|
                                    0 <= c < dv[q]->0.len() ==> is_field_hex(#[trigger] dv[q]->0[c])
                            } by {}
                        },
                        None => {
                            assert(!records_readable(dv, n as int)) by {
                                let c = choose|c: int|
                                    0 <= c < fields.len() && !is_field_hex(
                                        #[trigger] fields.deep_view()[c],
                                    );
                                assert(!is_field_hex(dv[r as int]->0[c]));
                            }
                            return false;
                        },
                    }
                },
                None => {
                    assert(dv[r as int] is None);
                    return false;
                },
            }
        }
        let ghost before = self.rows();
        for r in 0..n
            invariant
                n <= parsed@.len(),
                n <= before.len(),
                self.rows().len() == before.len(),
                forall|q: int| 0 <= q < r ==> #[trigger] self.rows()[q] == parsed@[q]@,
                forall|q: int| r <= q < before.len() ==> #[trigger] self.rows()[q] == before[q],
        {
            let ghost prev = self.rows();
            self.update_row_at(r, &parsed[r]);
            assert(self.rows() == prev.update(r as int, parsed@[r as int]@));
        }
        true
    }

    /// Fills the table's rows from CSV text as `load_records` does from the
    /// records that the `csv` crate's reader reads from it.
    pub fn load_csv(&mut self, data: &[u8]) -> (loaded: bool)
        ensures
            ({
                let records = csv_records(data@);
                let n = filled_rows(records.len() as int, old(self).rows().len() as int);
                &&& loaded == records_readable(records, n)
                &&& loaded ==> filled_from(final(self).rows(), old(self).rows(), records, n)
                &&& !loaded ==> final(self).rows() == old(self).rows()
            }),
    {
        let records = read_csv_records(data);
        self.load_records(&records)
    }
}

/// Rows per transaction of the first trace table.
pub const TRACE_1_ROWS_PER_TRANSACTION: usize = 128;
/// Columns of the first trace table.
pub const TRACE_1_COLUMNS: usize = 2;
/// Rows per transaction of the second trace table.
pub const TRACE_2_ROWS_PER_TRANSACTION: usize = 256;
/// Columns of the second trace table.
pub const TRACE_2_COLUMNS: usize = 32;
/// Rows per transaction of the third trace table.
pub const TRACE_3_ROWS_PER_TRANSACTION: usize = 16;
/// Columns of the third trace table.
pub const TRACE_3_COLUMNS: usize = 4;
/// Rows per transaction of the fourth trace table.
pub const TRACE_4_ROWS_PER_TRANSACTION: usize = 256;
/// Columns of the fourth trace table.
pub const TRACE_4_COLUMNS: usize = 31;

/// The four tables of an execution trace.
pub struct TraceTable {
    pub trace_1: Table,
    pub trace_2: Table,
    pub trace_3: Table,
    pub trace_4: Table,
}

/// The rows of batch `index` when each batch covers `per_batch` consecutive
/// rows.
pub open spec fn batch_rows<A>(rows: Seq<A>, index: int, per_batch: int) -> Seq<A> {
    rows.subrange(index * per_batch, index * per_batch + per_batch)
}

/// The rows of the first `count` batches, laid end to end.
pub open spec fn batches_joined<A>(rows: Seq<A>, count: nat, per_batch: int) -> Seq<A>
    decreases count,
{
    if count == 0 {
        Seq::empty()
    } else {
        batches_joined(rows, (count - 1) as nat, per_batch) + batch_rows(
            rows,
            count - 1,
            per_batch,
        )
    }
}

/// Cutting into batches loses and repeats nothing: the first `count`
/// batches of `per_batch` rows, laid end to end, are the first
/// `count * per_batch` rows.
pub proof fn lemma_batches_rebuild_rows<A>(rows: Seq<A>, count: nat, per_batch: nat)
    requires
        count * per_batch <= rows.len(),
    ensures
        batches_joined(rows, count, per_batch as int) == rows.take((count * per_batch) as int),
    decreases count,
{
    if count == 0 {
        assert(count * per_batch == 0) by (nonlinear_arith)
            requires
                count == 0,
        ;
        assert(rows.take(0) =~= Seq::<A>::empty());
    } else {
        let k = (count - 1) as nat;
        assert(k * per_batch + per_batch == count * per_batch) by (nonlinear_arith)
            requires
                k == count - 1,
        ;
        assert(k * per_batch <= count * per_batch) by (nonlinear_arith)
            requires
                k == count - 1,
        ;
        lemma_batches_rebuild_rows(rows, k, per_batch);
        assert(rows.take((count * per_batch) as int) =~= rows.take((k * per_batch) as int) + batch_rows(
            rows,
            k as int,
            per_batch as int,
        ));
    }
}

impl Table {
    /// The table of batch `index`: the `per_batch` rows of this table that
    /// start at row `index * per_batch`.
    pub fn batch(&self, index: usize, per_batch: usize) -> (table: Table)
        requires
            (index + 1) * per_batch <= self.rows().len(),
        ensures
            table.rows() == batch_rows(self.rows(), index as int, per_batch as int),
    {
        let total = self.data.len();
        proof {
            assert(index * per_batch + per_batch == (index + 1) * per_batch) by (nonlinear_arith);
        }
        let offset = index * per_batch;
        let mut data: Vec<Vec<FieldElement>> = Vec::new();
        for i in 0..per_batch
            invariant
                offset == index * per_batch,
                total == self.rows().len(),
                offset + per_batch <= self.rows().len(),
                data@.map_values(|r: Vec<FieldElement>| r@) == self.rows().subrange(
                    offset as int,
                    offset + i,
                ),
        {
            let ghost prev = data@;
            let row = copy_row(&self.data[i + offset]);
            data.push(row);
            assert(data@.map_values(|r: Vec<FieldElement>| r@) =~= prev.map_values(
                |r: Vec<FieldElement>| r@,
            ).push(self.rows()[offset + i]));
            assert(data@.map_values(|r: Vec<FieldElement>| r@) =~= self.rows().subrange(
                offset as int,
                offset + i + 1,
            ));
        }
        Table { data }
    }
}

/// The number of rows of a table of `per_transaction` rows per transaction
/// for `transactions` transactions.
pub open spec fn table_rows(transactions: int, per_transaction: int) -> int {
    transactions * per_transaction
}

impl TraceTable {
    /// The trace made of the four tables.
    pub fn new(trace_1: Table, trace_2: Table, trace_3: Table, trace_4: Table) -> (trace: TraceTable)
        ensures
            trace.trace_1 == trace_1,
            trace.trace_2 == trace_2,
            trace.trace_3 == trace_3,
            trace.trace_4 == trace_4,
    {
        TraceTable { trace_1, trace_2, trace_3, trace_4 }
    }

    /// The all-zero trace of `transactions` transactions: each table has its
    /// rows per transaction times `transactions` rows of its column count.
    pub fn zeros(transactions: usize) -> (trace: TraceTable)
        requires
            transactions * 256 <= usize::MAX,
        ensures
            trace.trace_1.rows().len() == transactions * TRACE_1_ROWS_PER_TRANSACTION,
            trace.trace_2.rows().len() == transactions * TRACE_2_ROWS_PER_TRANSACTION,
            trace.trace_3.rows().len() == transactions * TRACE_3_ROWS_PER_TRANSACTION,
            trace.trace_4.rows().len() == transactions * TRACE_4_ROWS_PER_TRANSACTION,
            forall|r: int|
                0 <= r < trace.trace_1.rows().len() ==> is_zero_row(
                    #[trigger] trace.trace_1.rows()[r],
                    TRACE_1_COLUMNS as nat,
                ),
            forall|r: int|
                0 <= r < trace.trace_2.rows().len() ==> is_zero_row(
                    #[trigger] trace.trace_2.rows()[r],
                    TRACE_2_COLUMNS as nat,
                ),
            forall|r: int|
                0 <= r < trace.trace_3.rows().len() ==> is_zero_row(
                    #[trigger] trace.trace_3.rows()[r],
                    TRACE_3_COLUMNS as nat,
                ),
            forall|r: int|
                0 <= r < trace.trace_4.rows().len() ==> is_zero_row(
                    #[trigger] trace.trace_4.rows()[r],
                    TRACE_4_COLUMNS as nat,
                ),
    {
        TraceTable {
            trace_1: Table::zeros(transactions * TRACE_1_ROWS_PER_TRANSACTION, TRACE_1_COLUMNS),
            trace_2: Table::zeros(transactions * TRACE_2_ROWS_PER_TRANSACTION, TRACE_2_COLUMNS),
            trace_3: Table::zeros(transactions * TRACE_3_ROWS_PER_TRANSACTION, TRACE_3_COLUMNS),
            trace_4: Table::zeros(transactions * TRACE_4_ROWS_PER_TRANSACTION, TRACE_4_COLUMNS),
        }
    }

    /// The trace of batch `index` of `batch_size` transactions: from each
    /// table, the rows of that batch's transactions.
    pub fn batch(&self, index: usize, batch_size: usize) -> (trace: TraceTable)
        requires
            (index + 1) * batch_size * TRACE_1_ROWS_PER_TRANSACTION <= self.trace_1.rows().len(),
            (index + 1) * batch_size * TRACE_2_ROWS_PER_TRANSACTION <= self.trace_2.rows().len(),
            (index + 1) * batch_size * TRACE_3_ROWS_PER_TRANSACTION <= self.trace_3.rows().len(),
            (index + 1) * batch_size * TRACE_4_ROWS_PER_TRANSACTION <= self.trace_4.rows().len(),
        ensures
            trace.trace_1.rows() == batch_rows(
                self.trace_1.rows(),
                index as int,
                batch_size * TRACE_1_ROWS_PER_TRANSACTION,
            ),
            trace.trace_2.rows() == batch_rows(
                self.trace_2.rows(),
                index as int,
                batch_size * TRACE_2_ROWS_PER_TRANSACTION,
            ),
            trace.trace_3.rows() == batch_rows(
                self.trace_3.rows(),
                index as int,
                batch_size * TRACE_3_ROWS_PER_TRANSACTION,
            ),
            trace.trace_4.rows() == batch_rows(
                self.trace_4.rows(),
                index as int,
                batch_size * TRACE_4_ROWS_PER_TRANSACTION,
            ),
    {
        let n1 = self.trace_1.num_of_rows();
        let n2 = self.trace_2.num_of_rows();
        let n3 = self.trace_3.num_of_rows();
        let n4 = self.trace_4.num_of_rows();
        proof {
            assert(batch_size * 16 <= (index + 1) * batch_size * 16) by (nonlinear_arith);
            assert(batch_size * 128 <= (index + 1) * batch_size * 128) by (nonlinear_arith);
            assert(batch_size * 256 <= (index + 1) * batch_size * 256) by (nonlinear_arith);
            assert((index + 1) * (batch_size * 16) == (index + 1) * batch_size * 16) by (nonlinear_arith);
            assert((index + 1) * (batch_size * 128) == (index + 1) * batch_size * 128) by (nonlinear_arith);
            assert((index + 1) * (batch_size * 256) == (index + 1) * batch_size * 256) by (nonlinear_arith);
        }
        TraceTable {
            trace_1: self.trace_1.batch(index, batch_size * TRACE_1_ROWS_PER_TRANSACTION),
            trace_2: self.trace_2.batch(index, batch_size * TRACE_2_ROWS_PER_TRANSACTION),
            trace_3: self.trace_3.batch(index, batch_size * TRACE_3_ROWS_PER_TRANSACTION),
            trace_4: self.trace_4.batch(index, batch_size * TRACE_4_ROWS_PER_TRANSACTION),
        }
    }
}

/// The request that hands one batch's trace to the provers.
pub struct SendProofRequest {
    pub trace_id: usize,
    pub block_id: String,
    pub trace: TraceTable,
    pub public_inputs: Vec<FieldElement>,
}

/// The proof request for batch `trace_id` of block `block_id`. Its public
/// inputs are two cells of the second table: column 4 of the last row of the
/// first transaction (`rows_per_transaction` rows per transaction), and
/// column 28 of the table's last row.
pub fn build_proof_request(
    trace_id: usize,
    block_id: String,
    trace: TraceTable,
    rows_per_transaction: usize,
) -> (request: SendProofRequest)
    requires
        1 <= rows_per_transaction <= trace.trace_2.rows().len(),
        4 < trace.trace_2.rows()[rows_per_transaction - 1].len(),
        28 < trace.trace_2.rows().last().len(),
    ensures
        request.trace_id == trace_id,
        request.block_id == block_id,
        request.trace == trace,
        request.public_inputs@ == seq![
            trace.trace_2.rows()[rows_per_transaction - 1][4],
            trace.trace_2.rows().last()[28],
        ],
{
    let first = trace.trace_2.cell_at(rows_per_transaction - 1, 4);
    let last = trace.trace_2.cell_at(trace.trace_2.num_of_rows() - 1, 28);
    let mut public_inputs: Vec<FieldElement> = Vec::new();
    public_inputs.push(first);
    public_inputs.push(last);
    assert(public_inputs@ =~= seq![first, last]);
    SendProofRequest { trace_id, block_id, trace, public_inputs }
}

} // verus!
