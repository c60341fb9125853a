//! Reading a heat matrix from the contents of a file.

use vstd::prelude::*;
use vstd::string::StringExecFns;
use byteorder::ByteOrder;
use crate::error::PipelineError;
use crate::ieee::{bits_cell, cell_bits, cell_of_bits, narrowed, single_from_double};
use crate::matrix::{nonzero_product, HeatmapMatrix};
use crate::number::{number_bits, parse_number};
use crate::text::{eq_ignoring_case, lowered};

verus! {

/// The 32-bit number whose little-endian bytes start at `at`.
pub open spec fn le_u32(bytes: Seq<u8>, at: int) -> int {
    bytes[at] + 0x100 * bytes[at + 1] + 0x1_0000 * bytes[at + 2] + 0x100_0000 * bytes[at + 3]
}

/// `byteorder::LittleEndian::read_u32` on the bytes from `at` on: the
/// first four of them, read as a little-endian number. There must be
/// four.
#[verifier::external_body]
fn read_u32_le(bytes: &[u8], at: usize) -> (r: u32)
    requires
        at + 4 <= bytes@.len(),
    ensures
        r == le_u32(bytes@, at as int),
{
    byteorder::LittleEndian::read_u32(&bytes[at..])
}

/// The number of rows that a binary heat matrix declares.
pub open spec fn binary_rows(bytes: Seq<u8>) -> int {
    le_u32(bytes, 0)
}

/// The number of columns that a binary heat matrix declares.
pub open spec fn binary_cols(bytes: Seq<u8>) -> int {
    le_u32(bytes, 4)
}

/// The number of bytes that a binary heat matrix needs: eight for the two
/// dimensions and four for every sample. Before the dimensions are known,
/// eight.
pub open spec fn binary_needed(bytes: Seq<u8>) -> int {
    if bytes.len() < 8 {
        8
    } else {
        8 + 4 * (binary_rows(bytes) * binary_cols(bytes))
    }
}

/// The cells of a binary heat matrix, row by row: each holds the bit
/// pattern of its number as the file holds it.
pub open spec fn binary_samples(bytes: Seq<u8>) -> Seq<i32> {
    Seq::new(
        (binary_rows(bytes) * binary_cols(bytes)) as nat,
        |i: int| bits_cell(le_u32(bytes, 8 + 4 * i) as u32),
    )
}

/// What is reported for dimensions that no matrix can have.
pub open spec fn oversized_message() -> Seq<char> {
    "Heatmap dimensions are too large"@
}

/// The outcome of reading a binary heat matrix: an `IOError` where the
/// file ends too early, a `FormatError` where no matrix can have the
/// declared dimensions, else the matrix.
pub open spec fn binary_outcome(contents: Seq<u8>, r: Result<HeatmapMatrix, PipelineError>) -> bool {
    if binary_needed(contents) > contents.len() {
        r matches Err(PipelineError::IOError { needed, available }) && needed == binary_needed(
            contents,
        ) && available == contents.len()
    } else if nonzero_product(binary_rows(contents), binary_cols(contents)) > isize::MAX {
        r matches Err(PipelineError::FormatError(message)) && message@ == oversized_message()
    } else {
        r matches Ok(m) && m@.rows == binary_rows(contents) && m@.cols == binary_cols(contents)
            && m@.data == binary_samples(contents)
    }
}

/// Reads a binary heat matrix: two little-endian 32-bit numbers, the rows
/// and the columns, then the samples row by row, each a little-endian
/// single-precision number. Bytes after the last sample are ignored.
pub fn load_binary_heatmap(contents: &[u8]) -> (r: Result<HeatmapMatrix, PipelineError>)
    ensures
        binary_outcome(contents@, r),
{
    let available: usize = contents.len();
    if available < 8 {
        return Err(PipelineError::IOError { needed: 8, available });
    }
    let rows: u32 = read_u32_le(contents, 0);
    let cols: u32 = read_u32_le(contents, 4);
    assert(0 <= rows * cols <= 0xffff_ffff * 0xffff_ffff) by (nonlinear_arith)
        requires
            0 <= rows <= 0xffff_ffff,
            0 <= cols <= 0xffff_ffff,
    ;
    let count: u64 = (rows as u64) * (cols as u64);
    let needed: u128 = 8 + 4 * (count as u128);
    if needed > available as u128 {
        return Err(PipelineError::IOError { needed, available });
    }
    let n: usize = count as usize;
    let mut data: Vec<i32> = Vec::new();
    let mut i: usize = 0;
    while i < n
        invariant
            i <= n,
            8 + 4 * n <= contents@.len(),
            contents@.len() == available,
            data@.len() == i,
            forall|j: int|
                0 <= j < i ==> #[trigger] data@[j] == bits_cell(
                    le_u32(contents@, 8 + 4 * j) as u32,
                ),
        decreases n - i,
    {
        let bits: u32 = read_u32_le(contents, 8 + 4 * i);
        data.push(cell_of_bits(bits));
        i += 1;
    }
    assert(data@ =~= binary_samples(contents@));
    match HeatmapMatrix::from_shape_vec(rows as usize, cols as usize, data) {
        Ok(m) => Ok(m),
        Err(_) => Err(
            PipelineError::FormatError(String::from_str("Heatmap dimensions are too large")),
        ),
    }
}

/// The byte at place `k` of a 32-bit number in little-endian order.
pub open spec fn le_byte(value: u32, k: int) -> u8 {
    if k == 0 {
        (value % 0x100) as u8
    } else if k == 1 {
        ((value / 0x100) % 0x100) as u8
    } else if k == 2 {
        ((value / 0x1_0000) % 0x100) as u8
    } else {
        (value / 0x100_0000) as u8
    }
}

/// A binary heat matrix file: the two dimensions, then the bit patterns of
/// the samples row by row, all in little-endian order.
pub open spec fn binary_file(rows: u32, cols: u32, bits: Seq<u32>) -> Seq<u8> {
    Seq::new(
        8 + 4 * bits.len(),
        |k: int|
            if k < 4 {
                le_byte(rows, k)
            } else if k < 8 {
                le_byte(cols, k - 4)
            } else {
                le_byte(bits[(k - 8) / 4], (k - 8) % 4)
            },
    )
}

/// The four bytes of a number in little-endian order stand for the
/// number.
proof fn lemma_le_bytes(v: u32)
    ensures
        le_byte(v, 0) + 0x100 * le_byte(v, 1) + 0x1_0000 * le_byte(v, 2) + 0x100_0000 * le_byte(
            v,
            3,
        ) == v,
{
}

/// The number at the place `i` of a binary heat matrix file.
proof fn lemma_file_number(rows: u32, cols: u32, bits: Seq<u32>, i: int)
    requires
        0 <= i < bits.len(),
    ensures
        le_u32(binary_file(rows, cols, bits), 8 + 4 * i) == bits[i],
{
    let file = binary_file(rows, cols, bits);
    let v = bits[i];
    let at = 8 + 4 * i;
    assert(file[at] == le_byte(v, 0)) by {
        assert((at - 8) / 4 == i && (at - 8) % 4 == 0);
    }
    assert(file[at + 1] == le_byte(v, 1)) by {
        assert((at + 1 - 8) / 4 == i && (at + 1 - 8) % 4 == 1);
    }
    assert(file[at + 2] == le_byte(v, 2)) by {
        assert((at + 2 - 8) / 4 == i && (at + 2 - 8) % 4 == 2);
    }
    assert(file[at + 3] == le_byte(v, 3)) by {
        assert((at + 3 - 8) / 4 == i && (at + 3 - 8) % 4 == 3);
    }
    lemma_le_bytes(v);
}

/// The dimensions that a binary heat matrix file declares.
proof fn lemma_file_dimensions(rows: u32, cols: u32, bits: Seq<u32>)
    ensures
        le_u32(binary_file(rows, cols, bits), 0) == rows,
        le_u32(binary_file(rows, cols, bits), 4) == cols,
{
    let file = binary_file(rows, cols, bits);
    assert(file[0] == le_byte(rows, 0) && file[1] == le_byte(rows, 1) && file[2] == le_byte(
        rows,
        2,
    ) && file[3] == le_byte(rows, 3));
    assert(file[4] == le_byte(cols, 0) && file[5] == le_byte(cols, 1) && file[6] == le_byte(
        cols,
        2,
    ) && file[7] == le_byte(cols, 3));
    lemma_le_bytes(rows);
    lemma_le_bytes(cols);
}

/// What is written as a binary heat matrix file is read back as it was
/// written: a file of `rows x cols` numbers is complete, declares these
/// dimensions, and gives every cell the bit pattern of the number that was
/// written for it.
pub proof fn lemma_binary_round_trip(rows: u32, cols: u32, bits: Seq<u32>)
    requires
        bits.len() == rows * cols,
    ensures
        binary_needed(binary_file(rows, cols, bits)) == binary_file(rows, cols, bits).len(),
        binary_rows(binary_file(rows, cols, bits)) == rows,
        binary_cols(binary_file(rows, cols, bits)) == cols,
        binary_samples(binary_file(rows, cols, bits)).len() == bits.len(),
        forall|i: int|
            0 <= i < bits.len() ==> cell_bits(
                #[trigger] binary_samples(binary_file(rows, cols, bits))[i],
            ) == bits[i],
{
    let file = binary_file(rows, cols, bits);
    lemma_file_dimensions(rows, cols, bits);
    assert forall|i: int| 0 <= i < bits.len() implies cell_bits(
        #[trigger] binary_samples(file)[i],
    ) == bits[i] by {
        lemma_file_number(rows, cols, bits, i);
        crate::ieee::lemma_cell_holds_bits(bits[i]);
    }
}

/// `serde_json::Error`, the error of `from_slice`. Nothing is known of its
/// contents.
#[verifier::external_type_specification]
#[verifier::external_body]
pub struct ExJsonError(serde_json::Error);

/// One row of the `data` array of a JSON document, as far as a heat
/// matrix depends on it: `None` where the row is no array; else, for each
/// of its values, the bit pattern of the double-precision number that it
/// is, or `None` where it is no number.
pub type JsonRow = Option<Vec<Option<u64>>>;

/// What a `JsonRow` is.
pub type JsonRowView = Option<Seq<Option<u64>>>;

/// What `serde_json` makes of a text and a key: `None` where the text is
/// no JSON document; else `Some(None)` where the document has no array
/// under the key, and `Some(Some(rows))` with the rows of that array.
pub uninterp spec fn json_data(contents: Seq<u8>, key: Seq<char>) -> Option<
    Option<Seq<JsonRowView>>,
>;

/// The key under which a JSON heat matrix file holds its rows.
pub open spec fn data_key() -> Seq<char> {
    "data"@
}

/// `serde_json::from_slice` to a `serde_json::Value`, then `Value::get`
/// with the given key, `Value::as_array` on what is found and on each of
/// its elements, and `Value::as_f64` on each element of those. Fails where
/// `from_slice` does.
#[verifier::external_body]
fn parse_json_data(contents: &[u8], key: &str) -> (r: Result<
    Option<Vec<JsonRow>>,
    serde_json::Error,
>)
    ensures
        match r {
            Ok(data) => json_data(contents@, key@) == Some(data.deep_view()),
            Err(_) => json_data(contents@, key@) is None,
        },
{
    let document: serde_json::Value = serde_json::from_slice(contents)?;
    Ok(
        document.get(key).and_then(|data| data.as_array()).map(
            |rows|
                rows.iter().map(
                    |row|
                        row.as_array().map(
                            |cells|
                                cells.iter().map(|cell| cell.as_f64().map(|x| x.to_bits())).collect(),
                        ),
                ).collect(),
        ),
    )
}

/// What can be wrong with the rows of a JSON heat matrix.
#[derive(Debug, Clone, Copy, PartialEq, Eq, Structural)]
pub enum JsonProblem {
    /// A row is no array.
    NotArrays,
    /// A value in a row is no number.
    NotNumeric,
}

/// What is wrong with one row, if anything.
pub open spec fn row_problem(row: JsonRowView) -> Option<JsonProblem> {
    match row {
        None => Some(JsonProblem::NotArrays),
        Some(cells) => if forall|j: int| 0 <= j < cells.len() ==> (#[trigger] cells[j]) is Some {
            None
        } else {
            Some(JsonProblem::NotNumeric)
        },
    }
}

/// What is wrong with the first row with which something is wrong.
pub open spec fn rows_problem(rows: Seq<JsonRowView>) -> Option<JsonProblem>
    decreases rows.len(),
{
    if rows.len() == 0 {
        None
    } else {
        match rows_problem(rows.drop_last()) {
            Some(problem) => Some(problem),
            None => row_problem(rows.last()),
        }
    }
}

/// The cells of one row: each holds the bit pattern of the
/// single-precision number nearest to its number.
pub open spec fn row_samples(row: JsonRowView) -> Seq<i32> {
    match row {
        None => Seq::empty(),
        Some(cells) => Seq::new(
            cells.len(),
            |j: int|
                match cells[j] {
                    Some(bits) => bits_cell(narrowed(bits)),
                    None => 0i32,
                },
        ),
    }
}

/// The samples of all rows, one row after the other.
pub open spec fn rows_samples(rows: Seq<JsonRowView>) -> Seq<i32>
    decreases rows.len(),
{
    if rows.len() == 0 {
        Seq::empty()
    } else {
        rows_samples(rows.drop_last()) + row_samples(rows.last())
    }
}

/// The number of columns of a JSON heat matrix: the length of its first
/// row.
pub open spec fn rows_cols(rows: Seq<JsonRowView>) -> int {
    if rows.len() == 0 {
        0
    } else {
        match rows[0] {
            Some(cells) => cells.len() as int,
            None => 0,
        }
    }
}

/// What is reported for a document without an array under `data`.
pub open spec fn missing_data_message() -> Seq<char> {
    "JSON must contain 'data' field with array of arrays"@
}

/// What is reported for a row that is no array.
pub open spec fn not_arrays_message() -> Seq<char> {
    "JSON data must be array of arrays"@
}

/// What is reported for a value that is no number.
pub open spec fn not_numeric_message() -> Seq<char> {
    "JSON data must contain numeric values"@
}

/// What is reported for rows that do not fill a matrix.
pub open spec fn ragged_message() -> Seq<char> {
    "JSON rows do not fill a matrix of the first row's length"@
}

/// The outcome of building a heat matrix from the `data` of a document.
pub open spec fn json_heatmap_outcome(
    data: Option<Seq<JsonRowView>>,
    r: Result<HeatmapMatrix, PipelineError>,
) -> bool {
    match data {
        None => r matches Err(PipelineError::FormatError(message)) && message@
            == missing_data_message(),
        Some(rows) => match rows_problem(rows) {
            Some(JsonProblem::NotArrays) => r matches Err(PipelineError::FormatError(message))
                && message@ == not_arrays_message(),
            Some(JsonProblem::NotNumeric) => r matches Err(PipelineError::FormatError(message))
                && message@ == not_numeric_message(),
            None => if rows.len() * rows_cols(rows) == rows_samples(rows).len()
                && nonzero_product(rows.len() as int, rows_cols(rows)) <= isize::MAX {
                r matches Ok(m) && m@.rows == rows.len() && m@.cols == rows_cols(rows) && m@.data
                    == rows_samples(rows)
            } else {
                r matches Err(PipelineError::FormatError(message)) && message@ == ragged_message()
            },
        },
    }
}

/// Builds a heat matrix from the `data` of a JSON document. The first row
/// gives the number of columns; later rows may be longer or shorter, as
/// long as all values together fill the matrix.
pub fn heatmap_from_json_data(data: Option<Vec<JsonRow>>) -> (r: Result<
    HeatmapMatrix,
    PipelineError,
>)
    ensures
        json_heatmap_outcome(data.deep_view(), r),
{
    let rows: &Vec<JsonRow> = match &data {
        Some(rows) => rows,
        None => {
            return Err(
                PipelineError::FormatError(
                    String::from_str("JSON must contain 'data' field with array of arrays"),
                ),
            );
        },
    };
    let ghost view = rows.deep_view();
    assert(data.deep_view() == Some(view));
    let mut flat: Vec<i32> = Vec::new();
    let mut cols: usize = 0;
    let mut i: usize = 0;
    while i < rows.len()
        invariant
            i <= rows.len(),
            data.deep_view() == Some(view),
            view == rows.deep_view(),
            view.len() == rows.len(),
            rows_problem(view.subrange(0, i as int)) is None,
            flat@ == rows_samples(view.subrange(0, i as int)),
            cols == rows_cols(view.subrange(0, i as int)),
        decreases rows.len() - i,
    {
        let ghost prefix = view.subrange(0, i as int + 1);
        proof {
            assert(prefix.drop_last() =~= view.subrange(0, i as int));
            assert(prefix.last() == view[i as int]);
            assert(view[i as int] == rows[i as int].deep_view());
            if i > 0 {
                assert(prefix[0] == view.subrange(0, i as int)[0]);
            }
        }
        match &rows[i] {
            None => {
                proof {
                    assert(view[i as int] is None);
                    assert(row_problem(prefix.last()) == Some(JsonProblem::NotArrays));
                    assert(rows_problem(prefix) == Some(JsonProblem::NotArrays));
                    lemma_rows_problem_prefix(view, i as int + 1);
                }
                return Err(
                    PipelineError::FormatError(
                        String::from_str("JSON data must be array of arrays"),
                    ),
                );
            },
            Some(cells) => {
                let ghost cells_view = cells.deep_view();
                assert(view[i as int] == Some(cells_view));
                if i == 0 {
                    cols = cells.len();
                }
                let ghost before = flat@;
                let mut j: usize = 0;
                while j < cells.len()
                    invariant
                        j <= cells.len(),
                        data.deep_view() == Some(view),
                        cells_view == cells.deep_view(),
                        cells_view.len() == cells.len(),
                        view == rows.deep_view(),
                        view.len() == rows.len(),
                        i < rows.len(),
                        view[i as int] == Some(cells_view),
                        prefix == view.subrange(0, i as int + 1),
                        rows_problem(prefix.drop_last()) is None,
                        prefix.last() == view[i as int],
                        forall|k: int| 0 <= k < j ==> (#[trigger] cells_view[k]) is Some,
                        flat@.len() == before.len() + j,
                        forall|k: int| 0 <= k < before.len() ==> flat@[k] == before[k],
                        forall|k: int|
                            0 <= k < j ==> flat@[before.len() + k] == row_samples(
                                Some(cells_view),
                            )[k],
                    decreases cells.len() - j,
                {
                    assert(cells_view[j as int] == cells[j as int].deep_view());
                    match cells[j] {
                        None => {
                            proof {
                                assert(cells_view[j as int] is None);
                                assert(row_problem(prefix.last()) == Some(
                                    JsonProblem::NotNumeric,
                                ));
                                assert(rows_problem(prefix) == Some(JsonProblem::NotNumeric));
                                lemma_rows_problem_prefix(view, i as int + 1);
                            }
                            return Err(
                                PipelineError::FormatError(
                                    String::from_str("JSON data must contain numeric values"),
                                ),
                            );
                        },
                        Some(bits) => {
                            flat.push(cell_of_bits(single_from_double(bits)));
                        },
                    }
                    j += 1;
                }
                assert(flat@ =~= before + row_samples(Some(cells_view)));
            },
        }
        i += 1;
    }
    assert(view.subrange(0, i as int) =~= view);
    let rows_count: usize = rows.len();
    match HeatmapMatrix::from_shape_vec(rows_count, cols, flat) {
        Ok(m) => Ok(m),
        Err(_) => Err(
            PipelineError::FormatError(
                String::from_str("JSON rows do not fill a matrix of the first row's length"),
            ),
        ),
    }
}

/// A problem among the first rows is the problem of all rows.
proof fn lemma_rows_problem_prefix(rows: Seq<JsonRowView>, n: int)
    requires
        0 <= n <= rows.len(),
        rows_problem(rows.subrange(0, n)) is Some,
    ensures
        rows_problem(rows) == rows_problem(rows.subrange(0, n)),
    decreases rows.len() - n,
{
    if n < rows.len() {
        let next = rows.subrange(0, n + 1);
        assert(next.drop_last() =~= rows.subrange(0, n));
        lemma_rows_problem_prefix(rows, n + 1);
    } else {
        assert(rows.subrange(0, n) =~= rows);
    }
}

/// What is reported for a text that is no JSON document.
pub open spec fn invalid_json_message() -> Seq<char> {
    "Heatmap file is not valid JSON"@
}

/// Reads a JSON heat matrix: a document with the key `data`, under it an
/// array of rows, each an array of numbers.
pub fn load_json_heatmap(contents: &[u8]) -> (r: Result<HeatmapMatrix, PipelineError>)
    ensures
        match json_data(contents@, data_key()) {
            None => r matches Err(PipelineError::FormatError(message)) && message@
                == invalid_json_message(),
            Some(data) => json_heatmap_outcome(data, r),
        },
{
    match parse_json_data(contents, "data") {
        Ok(data) => heatmap_from_json_data(data),
        Err(_) => Err(
            PipelineError::FormatError(String::from_str("Heatmap file is not valid JSON")),
        ),
    }
}

/// `csv::Error`, the error of a record that cannot be read. Nothing is
/// known of its contents.
#[verifier::external_type_specification]
#[verifier::external_body]
pub struct ExCsvError(csv::Error);

/// What the `csv` crate makes of a text, read with or without a header
/// line: its records, each with its fields; `None` where the text is no
/// CSV.
pub uninterp spec fn csv_records(contents: Seq<u8>, has_headers: bool) -> Option<
    Seq<Seq<Seq<char>>>,
>;

/// A `csv::Reader` made by `csv::ReaderBuilder::from_reader` on the
/// bytes, with `csv::ReaderBuilder::has_headers` set as given, and all
/// that its `records` yields. Fails with the first error among them.
#[verifier::external_body]
fn read_csv_records(contents: &[u8], has_headers: bool) -> (r: Result<
    Vec<Vec<String>>,
    csv::Error,
>)
    ensures
        match r {
            Ok(records) => csv_records(contents@, has_headers) == Some(records.deep_view()),
            Err(_) => csv_records(contents@, has_headers) is None,
        },
{
    let mut reader = csv::ReaderBuilder::new().has_headers(has_headers).from_reader(contents);
    reader.records().map(
        |record| record.map(|fields| fields.iter().map(String::from).collect()),
    ).collect()
}

/// What is reported for a text that is no CSV.
pub open spec fn invalid_csv_message() -> Seq<char> {
    "Heatmap file is not valid CSV"@
}

/// The text of the first field of a record that is no number.
pub open spec fn record_problem(record: Seq<Seq<char>>) -> Option<Seq<char>>
    decreases record.len(),
{
    if record.len() == 0 {
        None
    } else {
        match record_problem(record.drop_last()) {
            Some(text) => Some(text),
            None => if number_bits(record.last()) is None {
                Some(record.last())
            } else {
                None
            },
        }
    }
}

/// The text of the first field of the first record that is no number.
pub open spec fn records_problem(records: Seq<Seq<Seq<char>>>) -> Option<Seq<char>>
    decreases records.len(),
{
    if records.len() == 0 {
        None
    } else {
        match records_problem(records.drop_last()) {
            Some(text) => Some(text),
            None => record_problem(records.last()),
        }
    }
}

/// The cells of one record: each holds the bit pattern of the
/// single-precision number nearest to the number of its field.
pub open spec fn record_samples(record: Seq<Seq<char>>) -> Seq<i32> {
    Seq::new(
        record.len(),
        |j: int|
            match number_bits(record[j]) {
                Some(bits) => bits_cell(bits as u32),
                None => 0i32,
            },
    )
}

/// The samples of all records, one record after the other.
pub open spec fn records_samples(records: Seq<Seq<Seq<char>>>) -> Seq<i32>
    decreases records.len(),
{
    if records.len() == 0 {
        Seq::empty()
    } else {
        records_samples(records.drop_last()) + record_samples(records.last())
    }
}

/// The number of columns of a CSV heat matrix: the length of its first
/// record.
pub open spec fn records_cols(records: Seq<Seq<Seq<char>>>) -> int {
    if records.len() == 0 {
        0
    } else {
        records[0].len() as int
    }
}

/// What is reported for a field that is no number.
pub open spec fn not_a_number_message(text: Seq<char>) -> Seq<char> {
    "Could not parse '"@ + text + "' as number"@
}

/// What is reported for a file without a field.
pub open spec fn empty_csv_message() -> Seq<char> {
    "CSV file is empty"@
}

/// What is reported for records that do not fill a matrix.
pub open spec fn ragged_csv_message() -> Seq<char> {
    "CSV records do not fill a matrix of the first record's length"@
}

/// The outcome of building a heat matrix from the records of a CSV file.
pub open spec fn csv_heatmap_outcome(
    records: Seq<Seq<Seq<char>>>,
    r: Result<HeatmapMatrix, PipelineError>,
) -> bool {
    match records_problem(records) {
        Some(text) => r matches Err(PipelineError::FormatError(message)) && message@
            == not_a_number_message(text),
        None => if records_samples(records).len() == 0 {
            r matches Err(PipelineError::FormatError(message)) && message@ == empty_csv_message()
        } else if records.len() * records_cols(records) == records_samples(records).len()
            && nonzero_product(records.len() as int, records_cols(records)) <= isize::MAX {
            r matches Ok(m) && m@.rows == records.len() && m@.cols == records_cols(records)
                && m@.data == records_samples(records)
        } else {
            r matches Err(PipelineError::FormatError(message)) && message@ == ragged_csv_message()
        },
    }
}

/// A problem among the first records is the problem of all records.
proof fn lemma_records_problem_prefix(records: Seq<Seq<Seq<char>>>, n: int)
    requires
        0 <= n <= records.len(),
        records_problem(records.subrange(0, n)) is Some,
    ensures
        records_problem(records) == records_problem(records.subrange(0, n)),
    decreases records.len() - n,
{
    if n < records.len() {
        let next = records.subrange(0, n + 1);
        assert(next.drop_last() =~= records.subrange(0, n));
        lemma_records_problem_prefix(records, n + 1);
    } else {
        assert(records.subrange(0, n) =~= records);
    }
}

/// A problem among the first fields is the problem of the record.
proof fn lemma_record_problem_prefix(record: Seq<Seq<char>>, n: int)
    requires
        0 <= n <= record.len(),
        record_problem(record.subrange(0, n)) is Some,
    ensures
        record_problem(record) == record_problem(record.subrange(0, n)),
    decreases record.len() - n,
{
    if n < record.len() {
        let next = record.subrange(0, n + 1);
        assert(next.drop_last() =~= record.subrange(0, n));
        lemma_record_problem_prefix(record, n + 1);
    } else {
        assert(record.subrange(0, n) =~= record);
    }
}

/// Builds a heat matrix from the records of a CSV file. Every record is a
/// row and every field a decimal number; the first record gives the number
/// of columns.
pub fn heatmap_from_csv_records(records: &Vec<Vec<String>>) -> (r: Result<
    HeatmapMatrix,
    PipelineError,
>)
    ensures
        csv_heatmap_outcome(records.deep_view(), r),
{
    let ghost view = records.deep_view();
    let mut flat: Vec<i32> = Vec::new();
    let mut cols: usize = 0;
    let mut i: usize = 0;
    while i < records.len()
        invariant
            i <= records.len(),
            view == records.deep_view(),
            view.len() == records.len(),
            records_problem(view.subrange(0, i as int)) is None,
            flat@ == records_samples(view.subrange(0, i as int)),
            cols == records_cols(view.subrange(0, i as int)),
        decreases records.len() - i,
    {
        let ghost prefix = view.subrange(0, i as int + 1);
        let record: &Vec<String> = &records[i];
        let ghost fields = record.deep_view();
        proof {
            assert(prefix.drop_last() =~= view.subrange(0, i as int));
            assert(prefix.last() == view[i as int]);
            assert(view[i as int] == fields);
            if i > 0 {
                assert(prefix[0] == view.subrange(0, i as int)[0]);
            }
        }
        if i == 0 {
            cols = record.len();
        }
        let ghost before = flat@;
        let mut j: usize = 0;
        while j < record.len()
            invariant
                j <= record.len(),
                i < records.len(),
                view == records.deep_view(),
                fields == record.deep_view(),
                fields.len() == record.len(),
                view[i as int] == fields,
                prefix == view.subrange(0, i as int + 1),
                records_problem(prefix.drop_last()) is None,
                prefix.last() == fields,
                record_problem(fields.subrange(0, j as int)) is None,
                flat@.len() == before.len() + j,
                forall|k: int| 0 <= k < before.len() ==> flat@[k] == before[k],
                forall|k: int| 0 <= k < j ==> flat@[before.len() + k] == record_samples(fields)[k],
            decreases record.len() - j,
        {
            let ghost seen = fields.subrange(0, j as int + 1);
            proof {
                assert(seen.drop_last() =~= fields.subrange(0, j as int));
                assert(seen.last() == fields[j as int]);
                assert(fields[j as int] == record[j as int]@);
            }
            match parse_number(record[j].as_str()) {
                None => {
                    proof {
                        assert(record_problem(seen) == Some(fields[j as int]));
                        lemma_record_problem_prefix(fields, j as int + 1);
                        assert(records_problem(prefix) == Some(fields[j as int]));
                        lemma_records_problem_prefix(view, i as int + 1);
                    }
                    let message = String::from_str("Could not parse '").concat(
                        record[j].as_str(),
                    ).concat("' as number");
                    return Err(PipelineError::FormatError(message));
                },
                Some(bits) => {
                    flat.push(cell_of_bits(bits));
                },
            }
            j += 1;
        }
        proof {
            assert(fields.subrange(0, j as int) =~= fields);
            assert(flat@ =~= before + record_samples(fields));
        }
        i += 1;
    }
    assert(view.subrange(0, i as int) =~= view);
    if flat.len() == 0 {
        return Err(PipelineError::FormatError(String::from_str("CSV file is empty")));
    }
    match HeatmapMatrix::from_shape_vec(records.len(), cols, flat) {
        Ok(m) => Ok(m),
        Err(_) => Err(
            PipelineError::FormatError(
                String::from_str("CSV records do not fill a matrix of the first record's length"),
            ),
        ),
    }
}

/// Reads a CSV heat matrix: records without a header line, every record a
/// row of decimal numbers.
pub fn load_csv_heatmap(contents: &[u8]) -> (r: Result<HeatmapMatrix, PipelineError>)
    ensures
        match csv_records(contents@, false) {
            None => r matches Err(PipelineError::FormatError(message)) && message@
                == invalid_csv_message(),
            Some(records) => csv_heatmap_outcome(records, r),
        },
{
    match read_csv_records(contents, false) {
        Ok(records) => heatmap_from_csv_records(&records),
        Err(_) => Err(
            PipelineError::FormatError(String::from_str("Heatmap file is not valid CSV")),
        ),
    }
}

/// What is reported for a file name without an extension.
pub open spec fn no_extension_message() -> Seq<char> {
    "Could not determine file extension"@
}

/// What is reported for the format that is known but not read yet.
pub open spec fn npy_message() -> Seq<char> {
    "NPY format support coming soon! Please use .json, .csv, or .bin format for now."@
}

/// What is reported for an extension that stands for no format.
pub open spec fn unsupported_extension_message(extension: Seq<char>) -> Seq<char> {
    "Unsupported heatmap file format: "@ + extension + ". Supported: .json, .csv, .bin"@
}

/// The formats of heat matrix files that are read.
#[derive(Debug, Clone, Copy, PartialEq, Eq, Structural)]
pub enum HeatmapFormat {
    Json,
    Csv,
    Binary,
}

/// The format that an extension stands for, whatever the case of its
/// letters, or what is reported where it stands for none.
pub open spec fn format_of(extension: Option<Seq<char>>) -> Result<HeatmapFormat, Seq<char>> {
    match extension {
        None => Err(no_extension_message()),
        Some(ext) => if lowered(ext) == lowered("npy"@) {
            Err(npy_message())
        } else if lowered(ext) == lowered("json"@) {
            Ok(HeatmapFormat::Json)
        } else if lowered(ext) == lowered("csv"@) {
            Ok(HeatmapFormat::Csv)
        } else if lowered(ext) == lowered("bin"@) {
            Ok(HeatmapFormat::Binary)
        } else {
            Err(unsupported_extension_message(ext))
        },
    }
}

/// Finds the format of a heat matrix file from the extension of its name
/// alone. `extension` is `None` where the name has none.
pub fn heatmap_format(extension: Option<&str>) -> (r: Result<HeatmapFormat, PipelineError>)
    ensures
        match format_of(text_of(extension)) {
            Ok(format) => r == Ok::<HeatmapFormat, PipelineError>(format),
            Err(text) => r matches Err(PipelineError::FormatError(message)) && message@ == text,
        },
{
    let ext: &str = match extension {
        Some(ext) => ext,
        None => {
            return Err(
                PipelineError::FormatError(
                    String::from_str("Could not determine file extension"),
                ),
            );
        },
    };
    if eq_ignoring_case(ext, "npy") {
        Err(
            PipelineError::FormatError(
                String::from_str(
                    "NPY format support coming soon! Please use .json, .csv, or .bin format for now.",
                ),
            ),
        )
    } else if eq_ignoring_case(ext, "json") {
        Ok(HeatmapFormat::Json)
    } else if eq_ignoring_case(ext, "csv") {
        Ok(HeatmapFormat::Csv)
    } else if eq_ignoring_case(ext, "bin") {
        Ok(HeatmapFormat::Binary)
    } else {
        let message = String::from_str("Unsupported heatmap file format: ").concat(ext).concat(
            ". Supported: .json, .csv, .bin",
        );
        Err(PipelineError::FormatError(message))
    }
}

/// The outcome of reading a heat matrix file of a format.
pub open spec fn format_outcome(
    format: HeatmapFormat,
    contents: Seq<u8>,
    r: Result<HeatmapMatrix, PipelineError>,
) -> bool {
    match format {
        HeatmapFormat::Json => match json_data(contents, data_key()) {
            None => r matches Err(PipelineError::FormatError(message)) && message@
                == invalid_json_message(),
            Some(data) => json_heatmap_outcome(data, r),
        },
        HeatmapFormat::Csv => match csv_records(contents, false) {
            None => r matches Err(PipelineError::FormatError(message)) && message@
                == invalid_csv_message(),
            Some(records) => csv_heatmap_outcome(records, r),
        },
        HeatmapFormat::Binary => binary_outcome(contents, r),
    }
}

/// Reads a heat matrix file of the given format.
pub fn load_heatmap_as(format: HeatmapFormat, contents: &[u8]) -> (r: Result<
    HeatmapMatrix,
    PipelineError,
>)
    ensures
        format_outcome(format, contents@, r),
{
    match format {
        HeatmapFormat::Json => load_json_heatmap(contents),
        HeatmapFormat::Csv => load_csv_heatmap(contents),
        HeatmapFormat::Binary => load_binary_heatmap(contents),
    }
}

/// The outcome of reading a heat matrix file with the given extension:
/// the error of the extension, where it stands for no format, else the
/// outcome of reading the format.
pub open spec fn load_outcome(
    extension: Option<Seq<char>>,
    contents: Seq<u8>,
    r: Result<HeatmapMatrix, PipelineError>,
) -> bool {
    match format_of(extension) {
        Err(text) => r matches Err(PipelineError::FormatError(message)) && message@ == text,
        Ok(format) => format_outcome(format, contents, r),
    }
}

/// What an optional text is.
pub open spec fn text_of(text: Option<&str>) -> Option<Seq<char>> {
    match text {
        Some(t) => Some(t@),
        None => None,
    }
}

/// Reads a heat matrix file of the format that the extension of its name
/// stands for. `extension` is `None` where the name has none.
pub fn load_heatmap_data(extension: Option<&str>, contents: &[u8]) -> (r: Result<
    HeatmapMatrix,
    PipelineError,
>)
    ensures
        load_outcome(text_of(extension), contents@, r),
{
    match heatmap_format(extension) {
        Ok(format) => load_heatmap_as(format, contents),
        Err(e) => Err(e),
    }
}

} // verus!
