//! Running a query over a file's bytes.
//!
//! The first row is the header; every later row is a data row. A data row
//! is decoded as UTF-8 before it is read — a row that does not decode
//! stops the query with an error — and its fields are the comma-separated
//! pieces of the decoded text. The entry point [`run_query`] dispatches on
//! the query shape: `COUNT(*)` alone counts rows without parsing them,
//! `*` alone reproduces the input bytes, and every other query scans the
//! rows against the condition, aggregating or projecting.

use vstd::prelude::*;

use crate::aggregates::Accumulator;
use crate::command::{agg_kind_of, resolve_target, AggKind, ParsedCommand, ResolvedColumn};
use crate::condition::{cond_opt_eval, field_or_empty};
use crate::csv_reader::{rows_of, CsvReader, NEWLINE};
use crate::fields::header_names;
use crate::numeric::{num_of, num_text, parse_num, push_num, Num};
use crate::seqtools::{count_elem, lemma_count_elem_pos, split_elem};
use crate::text::{dec_str, decode_strict, push_decimal, split_str};
use crate::QueryError;
use vstd::string::StrSliceExecFns;
use vstd::string::StringExecFns;
use vstd::utf8::{decode_utf8, encode_utf8, valid_utf8};

verus! {

/// The rows after the header.
pub open spec fn data_rows(data: Seq<u8>) -> Seq<Seq<u8>> {
    rows_of(data).drop_first()
}

/// The header names of the data: those of its first row.
pub open spec fn headers_of(data: Seq<u8>) -> Seq<Seq<char>> {
    header_names(rows_of(data)[0])
}

/// Whether every data row is valid UTF-8; a query that reads rows
/// succeeds exactly on such data.
pub open spec fn all_rows_ok(data: Seq<u8>) -> bool {
    forall|i: int| 0 <= i < data_rows(data).len() ==> valid_utf8(#[trigger] data_rows(data)[i])
}

/// The fields of a data row: the comma-separated pieces of its decoded
/// text.
pub open spec fn row_fields(row: Seq<u8>) -> Seq<Seq<char>> {
    split_elem(decode_utf8(row), ',')
}

/// How many of `rows` satisfy the condition.
pub open spec fn matching_count(
    rows: Seq<Seq<u8>>,
    cond: Option<Seq<char>>,
    headers: Seq<Seq<char>>,
) -> nat
    decreases rows.len(),
{
    if rows.len() == 0 {
        0
    } else {
        matching_count(rows.drop_last(), cond, headers) + (if cond_opt_eval(
            cond,
            headers,
            row_fields(rows.last()),
        ) {
            1nat
        } else {
            0nat
        })
    }
}

/// What `COUNT(*)` reports: the newline count, corrected upward when the
/// data does not end with a newline, minus one for the header.
pub open spec fn count_star_spec(data: Seq<u8>) -> int {
    count_elem(data, NEWLINE) + (if data.last() == NEWLINE {
        0int
    } else {
        1int
    }) - 1
}

/// `COUNT(*)` equals the number of data rows, with or without a trailing
/// newline: appending one to data that lacks it changes nothing.
pub proof fn lemma_count_star_is_row_count(data: Seq<u8>)
    requires
        data.len() > 0,
    ensures
        count_star_spec(data) == data_rows(data).len(),
        data.last() != NEWLINE ==> count_star_spec(data.push(NEWLINE)) == count_star_spec(data),
{
    crate::csv_reader::lemma_rows_of_count(data);
    crate::csv_reader::lemma_rows_of_nonempty(data);
    if data.last() != NEWLINE {
        crate::csv_reader::lemma_rows_of_trailing_newline(data);
        crate::csv_reader::lemma_rows_of_count(data.push(NEWLINE));
    }
}

/// Counts the data rows without parsing them, by counting newline bytes.
pub fn count_star(data: &[u8]) -> (r: usize)
    requires
        data@.len() > 0,
    ensures
        r == count_star_spec(data@),
        r == data_rows(data@).len(),
{
    let len = data.len();
    let newlines = crate::csv_reader::count_byte_occurrences(data, NEWLINE);
    proof {
        lemma_count_star_is_row_count(data@);
        crate::csv_reader::lemma_rows_of_len_le(data@);
    }
    let last = *vstd::slice::slice_index_get(data, len - 1);
    if last == NEWLINE {
        proof {
            lemma_count_elem_pos(data@, NEWLINE, len - 1);
        }
        newlines - 1
    } else {
        newlines
    }
}

/// Reproduces the data bytes exactly: what `SELECT *` without a condition
/// writes.
pub fn select_star(data: &[u8]) -> (r: Vec<u8>)
    ensures
        r@ == data@,
{
    vstd::slice::slice_to_vec(data)
}

/// The decoded fields of one data row; fails when the row is not valid
/// UTF-8.
fn decode_row_fields(row: &[u8]) -> (r: Result<Vec<String>, QueryError>)
    ensures
        match r {
            Ok(fields) => valid_utf8(row@) && fields.deep_view() == row_fields(row@),
            Err(e) => e == QueryError::Utf8Decode && !valid_utf8(row@),
        },
{
    match decode_strict(row) {
        None => Err(QueryError::Utf8Decode),
        Some(s) => Ok(split_str(s, ',')),
    }
}

/// Borrows each string of `v` as a string slice.
fn as_str_refs<'a>(v: &'a Vec<String>) -> (r: Vec<&'a str>)
    ensures
        r.deep_view() == v.deep_view(),
{
    let mut r: Vec<&'a str> = Vec::new();
    let mut i: usize = 0;
    while i < v.len()
        invariant
            i <= v@.len(),
            r.deep_view() == v.deep_view().take(i as int),
        decreases v@.len() - i,
    {
        let ghost pre = r.deep_view();
        r.push(v[i].as_str());
        proof {
            assert(r.deep_view() =~~= pre.push(v.deep_view()[i as int]));
            assert(v.deep_view().take(i + 1) =~~= v.deep_view().take(i as int).push(
                v.deep_view()[i as int],
            ));
        }
        i = i + 1;
    }
    proof {
        assert(v.deep_view().take(v@.len() as int) =~~= v.deep_view());
    }
    r
}

/// Counts the data rows that satisfy `condition`.
pub fn count_with_condition(data: &[u8], condition: &str) -> (r: Result<usize, QueryError>)
    requires
        data@.len() > 0,
    ensures
        match r {
            Ok(n) => all_rows_ok(data@) && n == matching_count(
                data_rows(data@),
                Some(condition@),
                headers_of(data@),
            ),
            Err(e) => e == QueryError::Utf8Decode && !all_rows_ok(data@),
        },
{
    let reader = CsvReader::new(data);
    let mut line_iter = reader.lines();
    proof {
        crate::csv_reader::lemma_rows_of_nonempty(data@);
    }
    let headers = match crate::fields::get_headers(&mut line_iter) {
        Ok(h) => h,
        Err(_) => {
            proof {
                assert(false);
            }
            return Err(QueryError::Utf8Decode);
        },
    };
    let ghost rows = data_rows(data@);
    let ghost hdr = headers_of(data@);
    let data_len = data.len();
    let mut count: usize = 0;
    let ghost mut k: int = 0;
    proof {
        crate::csv_reader::lemma_rows_of_len_le(data@);
        assert(rows_of(data@).drop_first() =~= rows_of(data@).skip(1));
        assert(rows.skip(0) =~= rows);
        assert(rows.take(0) =~= Seq::<Seq<u8>>::empty());
    }
    loop
        invariant_except_break
            line_iter.wf(),
            line_iter.data_view() == data@,
            data@.len() > 0,
            0 <= k <= rows.len(),
            rows == data_rows(data@),
            hdr == headers_of(data@),
            headers.deep_view() == hdr,
            rows.len() <= data@.len(),
            data@.len() == data_len,
            line_iter.remaining() == rows.skip(k),
            count == matching_count(rows.take(k), Some(condition@), hdr),
            count <= k,
            forall|i: int| 0 <= i < k ==> valid_utf8(#[trigger] rows[i]),
        ensures
            all_rows_ok(data@),
            count == matching_count(rows, Some(condition@), hdr),
        decreases rows.len() - k,
    {
        let row = match line_iter.next() {
            None => {
                proof {
                    assert(rows.take(k) =~= rows);
                }
                break ;
            },
            Some(row) => row,
        };
        proof {
            assert(row@ == rows[k]);
            assert(rows.skip(k).drop_first() =~= rows.skip(k + 1));
        }
        let fields = match decode_row_fields(row) {
            Ok(fields) => fields,
            Err(e) => {
                return Err(e);
            },
        };
        let refs = as_str_refs(&fields);
        let hs = headers.as_slice();
        let rs = refs.as_slice();
        proof {
            assert(hs.deep_view() =~~= headers.deep_view());
            assert(rs.deep_view() =~~= refs.deep_view());
        }
        if crate::condition::eval_condition_text(condition, hs, rs) {
            count = count + 1;
        }
        proof {
            assert(rows.take(k + 1).drop_last() =~= rows.take(k));
            assert(rows.take(k + 1).last() == rows[k]);
        }
        proof {
            k = k + 1;
        }
    }
    Ok(count)
}

/// `items` joined with commas.
pub open spec fn joined(items: Seq<Seq<char>>) -> Seq<char>
    decreases items.len(),
{
    if items.len() == 0 {
        Seq::empty()
    } else if items.len() == 1 {
        items[0]
    } else {
        joined(items.drop_last()) + seq![','] + items.last()
    }
}

/// Appends `items` joined with commas to `out`.
fn push_joined(out: &mut String, items: &Vec<String>)
    ensures
        final(out)@ == old(out)@ + joined(items.deep_view()),
{
    let ghost base = out@;
    let n = items.len();
    let mut i: usize = 0;
    proof {
        reveal_strlit(",");
        assert(base + joined(items.deep_view().take(0)) =~= base);
    }
    while i < n
        invariant
            i <= n,
            n == items@.len(),
            out@ == base + joined(items.deep_view().take(i as int)),
        decreases n - i,
    {
        proof {
            reveal_strlit(",");
        }
        if i > 0 {
            out.append(",");
        }
        out.append(items[i].as_str());
        proof {
            let dv = items.deep_view();
            assert(dv.take(i + 1).drop_last() =~= dv.take(i as int));
            assert(dv.take(i + 1).last() == dv[i as int]);
            if i == 0 {
                assert(out@ =~= base + joined(dv.take(1)));
            } else {
                assert(out@ =~= base + joined(dv.take(i + 1)));
            }
        }
        i = i + 1;
    }
    proof {
        assert(items.deep_view().take(n as int) =~= items.deep_view());
    }
}

/// The matching rows' text: each row that satisfies the condition,
/// verbatim, with a newline after it.
pub open spec fn sel_rows_text(
    rows: Seq<Seq<u8>>,
    cond: Seq<char>,
    headers: Seq<Seq<char>>,
) -> Seq<char>
    decreases rows.len(),
{
    if rows.len() == 0 {
        Seq::empty()
    } else {
        sel_rows_text(rows.drop_last(), cond, headers) + (if crate::condition::cond_eval(
            cond,
            headers,
            row_fields(rows.last()),
        ) {
            decode_utf8(rows.last()) + seq!['\n']
        } else {
            Seq::<char>::empty()
        })
    }
}

/// What `SELECT *` with a condition writes: the header names joined with
/// commas, then every matching row verbatim.
pub open spec fn select_star_where_text(data: Seq<u8>, cond: Seq<char>) -> Seq<char> {
    joined(headers_of(data)) + seq!['\n'] + sel_rows_text(
        data_rows(data),
        cond,
        headers_of(data),
    )
}

/// Writes the header line and every data row that satisfies `condition`,
/// verbatim.
pub fn select_star_where(data: &[u8], condition: &str) -> (r: Result<String, QueryError>)
    requires
        data@.len() > 0,
    ensures
        match r {
            Ok(out) => all_rows_ok(data@) && out@ == select_star_where_text(data@, condition@),
            Err(e) => e == QueryError::Utf8Decode && !all_rows_ok(data@),
        },
{
    let reader = CsvReader::new(data);
    let mut line_iter = reader.lines();
    proof {
        crate::csv_reader::lemma_rows_of_nonempty(data@);
    }
    let headers = match crate::fields::get_headers(&mut line_iter) {
        Ok(h) => h,
        Err(_) => {
            proof {
                assert(false);
            }
            return Err(QueryError::Utf8Decode);
        },
    };
    let mut out = String::new();
    push_joined(&mut out, &headers);
    proof {
        reveal_strlit("\n");
    }
    out.append("\n");
    let ghost rows = data_rows(data@);
    let ghost hdr = headers_of(data@);
    let ghost head_part = joined(hdr) + seq!['\n'];
    let data_len = data.len();
    let ghost mut k: int = 0;
    proof {
        crate::csv_reader::lemma_rows_of_len_le(data@);
        assert(rows_of(data@).drop_first() =~= rows_of(data@).skip(1));
        assert(rows.skip(0) =~= rows);
        assert(rows.take(0) =~= Seq::<Seq<u8>>::empty());
        assert(out@ =~= head_part + sel_rows_text(rows.take(0), condition@, hdr));
    }
    loop
        invariant_except_break
            line_iter.wf(),
            line_iter.data_view() == data@,
            data@.len() > 0,
            0 <= k <= rows.len(),
            rows == data_rows(data@),
            hdr == headers_of(data@),
            headers.deep_view() == hdr,
            rows.len() <= data@.len(),
            data@.len() == data_len,
            head_part == joined(hdr) + seq!['\n'],
            line_iter.remaining() == rows.skip(k),
            out@ == head_part + sel_rows_text(rows.take(k), condition@, hdr),
            forall|i: int| 0 <= i < k ==> valid_utf8(#[trigger] rows[i]),
        ensures
            all_rows_ok(data@),
            out@ == head_part + sel_rows_text(rows, condition@, hdr),
        decreases rows.len() - k,
    {
        let row = match line_iter.next() {
            None => {
                proof {
                    assert(rows.take(k) =~= rows);
                }
                break ;
            },
            Some(row) => row,
        };
        proof {
            assert(row@ == rows[k]);
            assert(rows.skip(k).drop_first() =~= rows.skip(k + 1));
        }
        let s = match decode_strict(row) {
            None => {
                return Err(QueryError::Utf8Decode);
            },
            Some(s) => s,
        };
        let fields = split_str(s, ',');
        let refs = as_str_refs(&fields);
        let hs = headers.as_slice();
        let rs = refs.as_slice();
        proof {
            assert(hs.deep_view() =~~= headers.deep_view());
            assert(rs.deep_view() =~~= refs.deep_view());
        }
        let ghost matched = crate::condition::cond_eval(condition@, hdr, row_fields(rows[k]));
        proof {
            assert(rs.deep_view() =~~= row_fields(rows[k]));
        }
        let ghost pre = out@;
        if crate::condition::eval_condition_text(condition, hs, rs) {
            out.append(s);
            proof {
                reveal_strlit("\n");
            }
            out.append("\n");
            proof {
                assert(out@ =~= pre + (decode_utf8(rows[k]) + seq!['\n']));
            }
        } else {
            proof {
                assert(out@ =~= pre + Seq::<char>::empty());
            }
        }
        proof {
            assert(rows.take(k + 1).drop_last() =~= rows.take(k));
            assert(rows.take(k + 1).last() == rows[k]);
            assert(sel_rows_text(rows.take(k + 1), condition@, hdr) == sel_rows_text(
                rows.take(k),
                condition@,
                hdr,
            ) + (if matched {
                decode_utf8(rows[k]) + seq!['\n']
            } else {
                Seq::<char>::empty()
            }));
            assert(out@ =~= head_part + sel_rows_text(rows.take(k + 1), condition@, hdr));
            k = k + 1;
        }
    }
    proof {
        assert(out@ =~= select_star_where_text(data@, condition@));
    }
    Ok(out)
}

/// The values a column's accumulator sees: for each row that satisfies the
/// condition, the value of the field at `t`, when it parses as a number.
pub open spec fn col_values(
    rows: Seq<Seq<u8>>,
    cond: Option<Seq<char>>,
    headers: Seq<Seq<char>>,
    t: int,
) -> Seq<int>
    decreases rows.len(),
{
    if rows.len() == 0 {
        Seq::empty()
    } else {
        let rest = col_values(rows.drop_last(), cond, headers, t);
        if cond_opt_eval(cond, headers, row_fields(rows.last())) {
            match num_of(field_or_empty(row_fields(rows.last()), t)) {
                None => rest,
                Some(v) => rest.push(v),
            }
        } else {
            rest
        }
    }
}

/// The result an aggregate column yields over the whole scan: `None`
/// (printed `NaN`) for a plain column, and the folded accumulator's
/// projection for an aggregate call — over no values at all when its
/// target matches no header.
pub open spec fn col_result(
    data: Seq<u8>,
    cond: Option<Seq<char>>,
    headers: Seq<Seq<char>>,
    col: Seq<char>,
) -> Option<int> {
    match agg_kind_of(col) {
        None => None,
        Some(kind) => match resolve_target(col, headers) {
            None => Accumulator::init(kind).result_spec(),
            Some(t) => Accumulator::folded(
                Accumulator::init(kind),
                col_values(data_rows(data), cond, headers, t),
            ).result_spec(),
        },
    }
}

/// The rendered result of each column, in column order.
pub open spec fn values_texts(
    data: Seq<u8>,
    cols: Seq<Seq<char>>,
    cond: Option<Seq<char>>,
) -> Seq<Seq<char>> {
    Seq::new(cols.len(), |j: int| num_text(col_result(data, cond, headers_of(data), cols[j])))
}

/// What an aggregate query writes: the column texts verbatim on one line,
/// their results on the next.
pub open spec fn aggregate_text(
    data: Seq<u8>,
    cols: Seq<Seq<char>>,
    cond: Option<Seq<char>>,
) -> Seq<char> {
    joined(cols) + seq!['\n'] + joined(values_texts(data, cols, cond)) + seq!['\n']
}

/// Whether an aggregate column's accumulator is what folding the values
/// seen so far yields.
pub open spec fn slot_state(
    acc: Accumulator,
    slot: ResolvedColumn,
    rows: Seq<Seq<u8>>,
    cond: Option<Seq<char>>,
    headers: Seq<Seq<char>>,
) -> bool {
    match slot.kind {
        None => true,
        Some(kind) => match slot.target {
            None => acc == Accumulator::init(kind),
            Some(t) => acc == Accumulator::folded(
                Accumulator::init(kind),
                col_values(rows, cond, headers, t as int),
            ),
        },
    }
}

/// Aggregates over no matching rows see no values at all.
pub proof fn lemma_no_match_no_values(
    rows: Seq<Seq<u8>>,
    cond: Option<Seq<char>>,
    headers: Seq<Seq<char>>,
    t: int,
)
    requires
        forall|i: int|
            0 <= i < rows.len() ==> !cond_opt_eval(cond, headers, row_fields(#[trigger] rows[i])),
    ensures
        col_values(rows, cond, headers, t) == Seq::<int>::empty(),
    decreases rows.len(),
{
    if rows.len() > 0 {
        lemma_no_match_no_values(rows.drop_last(), cond, headers, t);
    }
}

/// Over data where no row satisfies the condition, an aggregate call
/// reports its empty result: `NaN` for `MIN`, `MAX` and `AVG`, zero for
/// `SUM` and `COUNT`.
pub proof fn lemma_aggregate_over_no_matches(
    data: Seq<u8>,
    cond: Option<Seq<char>>,
    col: Seq<char>,
    kind: AggKind,
)
    requires
        agg_kind_of(col) == Some(kind),
        forall|i: int|
            0 <= i < data_rows(data).len() ==> !cond_opt_eval(
                cond,
                headers_of(data),
                row_fields(#[trigger] data_rows(data)[i]),
            ),
    ensures
        (kind == AggKind::Min || kind == AggKind::Max || kind == AggKind::Avg) ==> col_result(
            data,
            cond,
            headers_of(data),
            col,
        ) is None,
        (kind == AggKind::Sum || kind == AggKind::Count) ==> col_result(
            data,
            cond,
            headers_of(data),
            col,
        ) == Some(0int),
{
    crate::aggregates::lemma_zero_applied_results(kind);
    match resolve_target(col, headers_of(data)) {
        None => {},
        Some(t) => {
            lemma_no_match_no_values(data_rows(data), cond, headers_of(data), t);
        },
    }
}

/// Runs an aggregate query: resolves each column against the headers,
/// folds every matching row's parsed fields into the columns' own
/// accumulators, and renders the labels and results.
pub fn run_aggregate_query(data: &[u8], command: &ParsedCommand) -> (r: Result<String, QueryError>)
    requires
        data@.len() > 0,
    ensures
        match r {
            Ok(out) => all_rows_ok(data@) && out@ == aggregate_text(
                data@,
                command.columns.deep_view(),
                command.condition_view(),
            ),
            Err(e) => e == QueryError::Utf8Decode && !all_rows_ok(data@),
        },
{
    let reader = CsvReader::new(data);
    let mut line_iter = reader.lines();
    proof {
        crate::csv_reader::lemma_rows_of_nonempty(data@);
    }
    let headers = match crate::fields::get_headers(&mut line_iter) {
        Ok(h) => h,
        Err(_) => {
            proof {
                assert(false);
            }
            return Err(QueryError::Utf8Decode);
        },
    };
    let ghost rows = data_rows(data@);
    let ghost hdr = headers_of(data@);
    let ghost cond = command.condition_view();
    let ghost cols = command.columns.deep_view();
    let ncols = command.columns.len();

    // Two-phase resolution: bind every column text to its kind and its
    // header index once, before the scan.
    let mut slots: Vec<ResolvedColumn> = Vec::new();
    let mut accs: Vec<Accumulator> = Vec::new();
    let mut j: usize = 0;
    while j < ncols
        invariant
            j <= ncols,
            ncols == cols.len(),
            cols == command.columns.deep_view(),
            headers.deep_view() == hdr,
            slots@.len() == j,
            accs@.len() == j,
            forall|i: int|
                0 <= i < j ==> (#[trigger] slots@[i]).resolves(cols[i], hdr),
            forall|i: int|
                0 <= i < j ==> slot_state(
                    #[trigger] accs@[i],
                    slots@[i],
                    Seq::<Seq<u8>>::empty(),
                    cond,
                    hdr,
                ) && accs@[i].wf(),
        decreases ncols - j,
    {
        let slot = crate::command::resolve_column(&command.columns[j], &headers);
        let acc = match slot.kind {
            Some(kind) => Accumulator::new(kind),
            None => Accumulator::new(AggKind::Count),
        };
        slots.push(slot);
        accs.push(acc);
        j = j + 1;
    }

    let data_len = data.len();
    let ghost mut k: int = 0;
    proof {
        crate::csv_reader::lemma_rows_of_len_le(data@);
        assert(rows_of(data@).drop_first() =~= rows_of(data@).skip(1));
        assert(rows.skip(0) =~= rows);
        assert(rows.take(0) =~= Seq::<Seq<u8>>::empty());
    }
    loop
        invariant_except_break
            line_iter.wf(),
            line_iter.data_view() == data@,
            data@.len() > 0,
            0 <= k <= rows.len(),
            rows == data_rows(data@),
            hdr == headers_of(data@),
            headers.deep_view() == hdr,
            cond == command.condition_view(),
            cols == command.columns.deep_view(),
            rows.len() <= data@.len(),
            data@.len() == data_len,
            line_iter.remaining() == rows.skip(k),
            ncols == cols.len(),
            slots@.len() == cols.len(),
            accs@.len() == cols.len(),
            forall|i: int|
                0 <= i < cols.len() ==> (#[trigger] slots@[i]).resolves(cols[i], hdr),
            forall|i: int|
                0 <= i < cols.len() ==> slot_state(
                    #[trigger] accs@[i],
                    slots@[i],
                    rows.take(k),
                    cond,
                    hdr,
                ) && accs@[i].wf(),
            forall|i: int| 0 <= i < k ==> valid_utf8(#[trigger] rows[i]),
        ensures
            all_rows_ok(data@),
            slots@.len() == cols.len(),
            accs@.len() == cols.len(),
            forall|i: int|
                0 <= i < cols.len() ==> (#[trigger] slots@[i]).resolves(cols[i], hdr),
            forall|i: int|
                0 <= i < cols.len() ==> slot_state(#[trigger] accs@[i], slots@[i], rows, cond, hdr)
                    && accs@[i].wf(),
        decreases rows.len() - k,
    {
        let row = match line_iter.next() {
            None => {
                proof {
                    assert(rows.take(k) =~= rows);
                }
                break ;
            },
            Some(row) => row,
        };
        proof {
            assert(row@ == rows[k]);
            assert(rows.skip(k).drop_first() =~= rows.skip(k + 1));
        }
        let fields = match decode_row_fields(row) {
            Ok(fields) => fields,
            Err(e) => {
                return Err(e);
            },
        };
        let refs = as_str_refs(&fields);
        let hs = headers.as_slice();
        let rs = refs.as_slice();
        proof {
            assert(hs.deep_view() =~~= headers.deep_view());
            assert(rs.deep_view() =~~= row_fields(rows[k]));
        }
        let ghost matched = cond_opt_eval(cond, hdr, row_fields(rows[k]));
        let is_match = match &command.condition {
            None => true,
            Some(c) => crate::condition::eval_condition_text(c.as_str(), hs, rs),
        };
        proof {
            assert(is_match == matched);
            assert(rows.take(k + 1).drop_last() =~= rows.take(k));
            assert(rows.take(k + 1).last() == rows[k]);
        }
        if is_match {
            let mut j: usize = 0;
            while j < ncols
                invariant
                    j <= ncols,
                    ncols == cols.len(),
                    slots@.len() == cols.len(),
                    accs@.len() == cols.len(),
                    0 <= k < rows.len(),
                    rows.take(k + 1).drop_last() == rows.take(k),
                    rows.take(k + 1).last() == rows[k],
                    cond_opt_eval(cond, hdr, row_fields(rows[k])),
                    fields.deep_view() == row_fields(rows[k]),
                    forall|i: int|
                        0 <= i < cols.len() ==> (#[trigger] slots@[i]).resolves(cols[i], hdr),
                    forall|i: int|
                        0 <= i < j ==> slot_state(
                            #[trigger] accs@[i],
                            slots@[i],
                            rows.take(k + 1),
                            cond,
                            hdr,
                        ) && accs@[i].wf(),
                    forall|i: int|
                        j <= i < cols.len() ==> slot_state(
                            #[trigger] accs@[i],
                            slots@[i],
                            rows.take(k),
                            cond,
                            hdr,
                        ) && accs@[i].wf(),
                decreases ncols - j,
            {
                let slot = slots[j];
                match (slot.kind, slot.target) {
                    (Some(_), Some(t)) => {
                        let fv: &str = if t < fields.len() {
                            fields[t].as_str()
                        } else {
                            ""
                        };
                        proof {
                            reveal_strlit("");
                            assert(fv@ == field_or_empty(row_fields(rows[k]), t as int));
                        }
                        let v = parse_num(fv);
                        match v {
                            Num::Fin(u) => {
                                let ghost vs = col_values(rows.take(k), cond, hdr, t as int);
                                let mut a = accs[j];
                                a.apply(u);
                                accs.set(j, a);
                                proof {
                                    assert(vs.push(u as int).drop_last() =~= vs);
                                    assert(col_values(rows.take(k + 1), cond, hdr, t as int)
                                        == vs.push(u as int));
                                }
                            },
                            Num::NaN => {
                                proof {
                                    assert(col_values(rows.take(k + 1), cond, hdr, t as int)
                                        == col_values(rows.take(k), cond, hdr, t as int));
                                }
                            },
                        }
                    },
                    _ => {},
                }
                proof {
                    assert forall|i: int|
                        j + 1 <= i < cols.len() implies slot_state(
                        #[trigger] accs@[i],
                        slots@[i],
                        rows.take(k),
                        cond,
                        hdr,
                    ) && accs@[i].wf() by {}
                }
                j = j + 1;
            }
        } else {
            proof {
                assert forall|i: int|
                    0 <= i < cols.len() implies slot_state(
                    #[trigger] accs@[i],
                    slots@[i],
                    rows.take(k + 1),
                    cond,
                    hdr,
                ) by {
                    match (slots@[i].kind, slots@[i].target) {
                        (Some(_), Some(t)) => {
                            assert(col_values(rows.take(k + 1), cond, hdr, t as int) == col_values(
                                rows.take(k),
                                cond,
                                hdr,
                                t as int,
                            ));
                        },
                        _ => {},
                    }
                }
            }
        }
        proof {
            k = k + 1;
        }
    }

    // Project the results and render both lines.
    let header_count = headers.len();
    let mut values: Vec<Num> = Vec::new();
    let mut j: usize = 0;
    while j < ncols
        invariant
            j <= ncols,
            ncols == cols.len(),
            rows == data_rows(data@),
            hdr == headers_of(data@),
            hdr.len() == header_count,
            cond == command.condition_view(),
            cols == command.columns.deep_view(),
            slots@.len() == cols.len(),
            accs@.len() == cols.len(),
            forall|i: int|
                0 <= i < cols.len() ==> (#[trigger] slots@[i]).resolves(cols[i], hdr),
            forall|i: int|
                0 <= i < cols.len() ==> slot_state(#[trigger] accs@[i], slots@[i], rows, cond, hdr)
                    && accs@[i].wf(),
            values@.len() == j,
            forall|i: int|
                0 <= i < j ==> (#[trigger] values@[i])@ == col_result(data@, cond, hdr, cols[i])
                    && values@[i].wf(),
        decreases ncols - j,
    {
        let slot = slots[j];
        let v = match slot.kind {
            None => Num::NaN,
            Some(_) => accs[j].result(),
        };
        proof {
            match slot.kind {
                None => {},
                Some(kind) => {
                    match resolve_target(cols[j as int], hdr) {
                        None => {},
                        Some(t) => {
                            if cols[j as int] == "COUNT(*)"@ {
                            } else {
                                crate::seqtools::lemma_find_elem(
                                    hdr,
                                    crate::command::agg_target_of(cols[j as int]),
                                );
                            }
                            assert((t as usize) as int == t);
                        },
                    }
                },
            }
            assert(v@ == col_result(data@, cond, hdr, cols[j as int]));
        }
        values.push(v);
        j = j + 1;
    }
    let mut out = String::new();
    push_joined(&mut out, &command.columns);
    proof {
        reveal_strlit("\n");
    }
    out.append("\n");
    let ghost vt = values_texts(data@, cols, cond);
    let ghost mid = joined(cols) + seq!['\n'];
    proof {
        assert(out@ =~= mid + joined(vt.take(0)));
    }
    let mut i: usize = 0;
    while i < ncols
        invariant
            i <= ncols,
            ncols == cols.len(),
            vt == values_texts(data@, cols, cond),
            vt.len() == cols.len(),
            values@.len() == cols.len(),
            forall|x: int|
                0 <= x < cols.len() ==> (#[trigger] values@[x])@ == col_result(
                    data@,
                    cond,
                    hdr,
                    cols[x],
                ) && values@[x].wf(),
            hdr == headers_of(data@),
            cond == command.condition_view(),
            cols == command.columns.deep_view(),
            out@ == mid + joined(vt.take(i as int)),
        decreases ncols - i,
    {
        proof {
            reveal_strlit(",");
        }
        if i > 0 {
            out.append(",");
        }
        let v = values[i];
        push_num(&mut out, &v);
        proof {
            assert(vt.take(i + 1).drop_last() =~= vt.take(i as int));
            assert(vt.take(i + 1).last() == vt[i as int]);
            assert(vt[i as int] == num_text(values@[i as int]@));
            if i == 0 {
                assert(out@ =~= mid + joined(vt.take(1)));
            } else {
                assert(out@ =~= mid + joined(vt.take(i + 1)));
            }
        }
        i = i + 1;
    }
    proof {
        reveal_strlit("\n");
    }
    out.append("\n");
    proof {
        assert(vt.take(ncols as int) =~= vt);
        assert(out@ =~= aggregate_text(data@, cols, cond));
    }
    Ok(out)
}

/// The header index each requested column resolves to, in request order;
/// a column matching no header is dropped.
pub open spec fn proj_indices(cols: Seq<Seq<char>>, headers: Seq<Seq<char>>) -> Seq<int>
    decreases cols.len(),
{
    if cols.len() == 0 {
        Seq::empty()
    } else {
        match crate::seqtools::find_elem(headers, cols[0]) {
            None => proj_indices(cols.drop_first(), headers),
            Some(i) => seq![i] + proj_indices(cols.drop_first(), headers),
        }
    }
}

/// The fields a row yields at the given positions, empty where the row is
/// short.
pub open spec fn selected_texts(fields: Seq<Seq<char>>, idxs: Seq<int>) -> Seq<Seq<char>> {
    Seq::new(idxs.len(), |j: int| field_or_empty(fields, idxs[j]))
}

/// The matching rows' projected text: for each row that satisfies the
/// condition, the selected fields joined with commas and a newline.
pub open spec fn proj_rows_text(
    rows: Seq<Seq<u8>>,
    cond: Option<Seq<char>>,
    headers: Seq<Seq<char>>,
    idxs: Seq<int>,
) -> Seq<char>
    decreases rows.len(),
{
    if rows.len() == 0 {
        Seq::empty()
    } else {
        proj_rows_text(rows.drop_last(), cond, headers, idxs) + (if cond_opt_eval(
            cond,
            headers,
            row_fields(rows.last()),
        ) {
            joined(selected_texts(row_fields(rows.last()), idxs)) + seq!['\n']
        } else {
            Seq::<char>::empty()
        })
    }
}

/// What a column-selection query writes: the requested column texts
/// verbatim, then each matching row's selected fields.
pub open spec fn projection_text(
    data: Seq<u8>,
    cols: Seq<Seq<char>>,
    cond: Option<Seq<char>>,
) -> Seq<char> {
    joined(cols) + seq!['\n'] + proj_rows_text(
        data_rows(data),
        cond,
        headers_of(data),
        proj_indices(cols, headers_of(data)),
    )
}

/// Runs a column-selection query: resolves each requested column to the
/// first header of that name, then writes the selected fields of every
/// row that satisfies the condition.
pub fn run_projection_query(data: &[u8], command: &ParsedCommand) -> (r: Result<
    String,
    QueryError,
>)
    requires
        data@.len() > 0,
    ensures
        match r {
            Ok(out) => all_rows_ok(data@) && out@ == projection_text(
                data@,
                command.columns.deep_view(),
                command.condition_view(),
            ),
            Err(e) => e == QueryError::Utf8Decode && !all_rows_ok(data@),
        },
{
    let reader = CsvReader::new(data);
    let mut line_iter = reader.lines();
    proof {
        crate::csv_reader::lemma_rows_of_nonempty(data@);
    }
    let headers = match crate::fields::get_headers(&mut line_iter) {
        Ok(h) => h,
        Err(_) => {
            proof {
                assert(false);
            }
            return Err(QueryError::Utf8Decode);
        },
    };
    let ghost rows = data_rows(data@);
    let ghost hdr = headers_of(data@);
    let ghost cond = command.condition_view();
    let ghost cols = command.columns.deep_view();
    let ncols = command.columns.len();

    // Resolve the requested columns once.
    let hs0 = headers.as_slice();
    proof {
        assert(hs0.deep_view() =~~= hdr);
    }
    let mut idxs: Vec<usize> = Vec::new();
    let mut j: usize = 0;
    proof {
        assert(cols.skip(0) =~= cols);
        assert(idxs@.map_values(|u: usize| u as int) + proj_indices(cols, hdr) =~= proj_indices(
            cols,
            hdr,
        ));
    }
    while j < ncols
        invariant
            j <= ncols,
            ncols == cols.len(),
            cols == command.columns.deep_view(),
            headers.deep_view() == hdr,
            hs0.deep_view() == hdr,
            proj_indices(cols, hdr) == idxs@.map_values(|u: usize| u as int) + proj_indices(
                cols.skip(j as int),
                hdr,
            ),
            forall|i: int| 0 <= i < idxs@.len() ==> (#[trigger] idxs@[i]) < hdr.len(),
        decreases ncols - j,
    {
        let ghost sfx = cols.skip(j as int);
        proof {
            assert(sfx[0] == cols[j as int]);
            assert(sfx.drop_first() =~= cols.skip(j + 1));
        }
        match crate::condition::find_name(hs0, command.columns[j].as_str()) {
            None => {},
            Some(i) => {
                let ghost pre = idxs@;
                idxs.push(i);
                proof {
                    assert(idxs@.map_values(|u: usize| u as int) =~= pre.map_values(
                        |u: usize| u as int,
                    ).push(i as int));
                    assert(pre.map_values(|u: usize| u as int).push(i as int) + proj_indices(
                        cols.skip(j + 1),
                        hdr,
                    ) =~= pre.map_values(|u: usize| u as int) + (seq![i as int] + proj_indices(
                        cols.skip(j + 1),
                        hdr,
                    )));
                }
            },
        }
        j = j + 1;
    }
    proof {
        assert(cols.skip(ncols as int) =~= Seq::<Seq<char>>::empty());
        assert(idxs@.map_values(|u: usize| u as int) + Seq::<int>::empty()
            =~= idxs@.map_values(|u: usize| u as int));
        assert(proj_indices(cols, hdr) == idxs@.map_values(|u: usize| u as int));
    }
    let ghost gidxs = proj_indices(cols, hdr);

    let mut out = String::new();
    push_joined(&mut out, &command.columns);
    proof {
        reveal_strlit("\n");
    }
    out.append("\n");
    let ghost head_part = joined(cols) + seq!['\n'];
    let data_len = data.len();
    let ghost mut k: int = 0;
    proof {
        crate::csv_reader::lemma_rows_of_len_le(data@);
        assert(rows_of(data@).drop_first() =~= rows_of(data@).skip(1));
        assert(rows.skip(0) =~= rows);
        assert(rows.take(0) =~= Seq::<Seq<u8>>::empty());
        assert(out@ =~= head_part + proj_rows_text(rows.take(0), cond, hdr, gidxs));
    }
    loop
        invariant_except_break
            line_iter.wf(),
            line_iter.data_view() == data@,
            data@.len() > 0,
            0 <= k <= rows.len(),
            rows == data_rows(data@),
            hdr == headers_of(data@),
            headers.deep_view() == hdr,
            cond == command.condition_view(),
            cols == command.columns.deep_view(),
            rows.len() <= data@.len(),
            data@.len() == data_len,
            line_iter.remaining() == rows.skip(k),
            gidxs == proj_indices(cols, hdr),
            gidxs == idxs@.map_values(|u: usize| u as int),
            out@ == head_part + proj_rows_text(rows.take(k), cond, hdr, gidxs),
            head_part == joined(cols) + seq!['\n'],
            forall|i: int| 0 <= i < k ==> valid_utf8(#[trigger] rows[i]),
        ensures
            all_rows_ok(data@),
            out@ == head_part + proj_rows_text(rows, cond, hdr, gidxs),
        decreases rows.len() - k,
    {
        let row = match line_iter.next() {
            None => {
                proof {
                    assert(rows.take(k) =~= rows);
                }
                break ;
            },
            Some(row) => row,
        };
        proof {
            assert(row@ == rows[k]);
            assert(rows.skip(k).drop_first() =~= rows.skip(k + 1));
        }
        let fields = match decode_row_fields(row) {
            Ok(fields) => fields,
            Err(e) => {
                return Err(e);
            },
        };
        let refs = as_str_refs(&fields);
        let hs = headers.as_slice();
        let rs = refs.as_slice();
        proof {
            assert(hs.deep_view() =~~= headers.deep_view());
            assert(rs.deep_view() =~~= row_fields(rows[k]));
        }
        let ghost matched = cond_opt_eval(cond, hdr, row_fields(rows[k]));
        let is_match = match &command.condition {
            None => true,
            Some(c) => crate::condition::eval_condition_text(c.as_str(), hs, rs),
        };
        let ghost pre = out@;
        if is_match {
            // Gather the selected fields as owned strings, then join them.
            let mut selected: Vec<String> = Vec::new();
            let mut t: usize = 0;
            while t < idxs.len()
                invariant
                    t <= idxs@.len(),
                    gidxs == idxs@.map_values(|u: usize| u as int),
                    fields.deep_view() == row_fields(rows[k]),
                    0 <= k < rows.len(),
                    selected.deep_view() == selected_texts(row_fields(rows[k]), gidxs).take(
                        t as int,
                    ),
                decreases idxs@.len() - t,
            {
                let ix = idxs[t];
                let piece: String = if ix < fields.len() {
                    fields[ix].clone()
                } else {
                    String::new()
                };
                let ghost spre = selected.deep_view();
                proof {
                    assert(gidxs[t as int] == ix as int);
                    assert(piece@ == field_or_empty(row_fields(rows[k]), ix as int));
                }
                selected.push(piece);
                proof {
                    assert(selected.deep_view() =~~= spre.push(piece@));
                    assert(selected_texts(row_fields(rows[k]), gidxs).take(t + 1)
                        =~~= selected_texts(row_fields(rows[k]), gidxs).take(t as int).push(
                        selected_texts(row_fields(rows[k]), gidxs)[t as int],
                    ));
                }
                t = t + 1;
            }
            proof {
                assert(selected.deep_view() =~~= selected_texts(row_fields(rows[k]), gidxs));
            }
            push_joined(&mut out, &selected);
            proof {
                reveal_strlit("\n");
            }
            out.append("\n");
            proof {
                assert(out@ =~= pre + (joined(selected_texts(row_fields(rows[k]), gidxs))
                    + seq!['\n']));
            }
        } else {
            proof {
                assert(out@ =~= pre + Seq::<char>::empty());
            }
        }
        proof {
            assert(rows.take(k + 1).drop_last() =~= rows.take(k));
            assert(rows.take(k + 1).last() == rows[k]);
            assert(proj_rows_text(rows.take(k + 1), cond, hdr, gidxs) == proj_rows_text(
                rows.take(k),
                cond,
                hdr,
                gidxs,
            ) + (if matched {
                joined(selected_texts(row_fields(rows[k]), gidxs)) + seq!['\n']
            } else {
                Seq::<char>::empty()
            }));
            assert(out@ =~= head_part + proj_rows_text(rows.take(k + 1), cond, hdr, gidxs));
            k = k + 1;
        }
    }
    proof {
        assert(out@ =~= projection_text(data@, cols, cond));
    }
    Ok(out)
}

/// Whether any requested column is an aggregate call.
pub open spec fn any_aggregate(cols: Seq<Seq<char>>) -> bool {
    exists|j: int| 0 <= j < cols.len() && agg_kind_of(#[trigger] cols[j]) is Some
}

/// What a query that is neither fast path writes: aggregation when any
/// column is an aggregate call, column selection otherwise.
pub open spec fn complex_text(
    data: Seq<u8>,
    cols: Seq<Seq<char>>,
    cond: Option<Seq<char>>,
) -> Seq<char> {
    if any_aggregate(cols) {
        aggregate_text(data, cols, cond)
    } else {
        projection_text(data, cols, cond)
    }
}

/// Dispatches a query with explicit columns: aggregation when any column
/// is an aggregate call, column selection otherwise.
pub fn handle_complex_query(data: &[u8], command: &ParsedCommand) -> (r: Result<
    String,
    QueryError,
>)
    requires
        data@.len() > 0,
    ensures
        match r {
            Ok(out) => all_rows_ok(data@) && out@ == complex_text(
                data@,
                command.columns.deep_view(),
                command.condition_view(),
            ),
            Err(e) => e == QueryError::Utf8Decode && !all_rows_ok(data@),
        },
{
    let ghost cols = command.columns.deep_view();
    let ncols = command.columns.len();
    let mut is_agg = false;
    let mut j: usize = 0;
    while j < ncols
        invariant
            j <= ncols,
            ncols == cols.len(),
            cols == command.columns.deep_view(),
            is_agg == exists|i: int| 0 <= i < j && agg_kind_of(#[trigger] cols[i]) is Some,
        decreases ncols - j,
    {
        let this_agg = crate::command::is_aggregate_function(command.columns[j].as_str());
        if this_agg {
            is_agg = true;
        }
        proof {
            if is_agg {
                if this_agg {
                    assert(agg_kind_of(cols[j as int]) is Some);
                } else {
                    let wi = choose|i: int|
                        0 <= i < j && agg_kind_of(#[trigger] cols[i]) is Some;
                    assert(0 <= wi < j + 1 && agg_kind_of(cols[wi]) is Some);
                }
                assert(exists|i: int| 0 <= i < j + 1 && agg_kind_of(#[trigger] cols[i]) is Some);
            } else {
                assert forall|i: int|
                    0 <= i < j + 1 implies !(agg_kind_of(#[trigger] cols[i]) is Some) by {}
            }
        }
        j = j + 1;
    }
    if is_agg {
        run_aggregate_query(data, command)
    } else {
        run_projection_query(data, command)
    }
}

/// The text of the `COUNT(*)` fast path: the label line, then the count.
pub open spec fn count_text(n: int) -> Seq<char> {
    seq!['C', 'O', 'U', 'N', 'T', '(', '*', ')', '\n'] + dec_str(n as nat) + seq!['\n']
}

/// What a query writes, as bytes: text output is UTF-8 encoded, and
/// `SELECT *` without a condition reproduces the data bytes themselves.
pub open spec fn run_query_spec(
    data: Seq<u8>,
    cols: Seq<Seq<char>>,
    cond: Option<Seq<char>>,
) -> Seq<u8> {
    if cols.len() == 1 && cols[0] == seq!['C', 'O', 'U', 'N', 'T', '(', '*', ')'] {
        match cond {
            Some(c) => encode_utf8(
                count_text(matching_count(data_rows(data), cond, headers_of(data)) as int),
            ),
            None => encode_utf8(count_text(count_star_spec(data))),
        }
    } else if cols.len() == 1 && cols[0] == seq!['*'] {
        match cond {
            Some(c) => encode_utf8(select_star_where_text(data, c)),
            None => data,
        }
    } else {
        encode_utf8(complex_text(data, cols, cond))
    }
}

/// Whether a query shape must decode the data rows; the two fast paths
/// without a condition never do, so they never fail.
pub open spec fn query_needs_decode(cols: Seq<Seq<char>>, cond: Option<Seq<char>>) -> bool {
    !(cols.len() == 1 && cond is None && (cols[0] == seq!['C', 'O', 'U', 'N', 'T', '(', '*', ')']
        || cols[0] == seq!['*']))
}

/// The `COUNT(*)` output for a count of `n`.
fn count_output(n: usize) -> (r: String)
    ensures
        r@ == count_text(n as int),
{
    let mut out = String::new();
    proof {
        reveal_strlit("COUNT(*)");
        reveal_strlit("\n");
    }
    out.append("COUNT(*)");
    out.append("\n");
    push_decimal(&mut out, n as u128);
    out.append("\n");
    proof {
        assert(out@ =~= count_text(n as int));
    }
    out
}

/// Runs one query against the data bytes and yields what it writes.
///
/// A lone `COUNT(*)` without a condition is answered by newline counting,
/// a lone `*` without a condition by the bytes themselves; with a
/// condition those two shapes scan the rows, as every other query does.
/// Scanning queries fail exactly when some data row is not valid UTF-8.
pub fn run_query(data: &[u8], command: &ParsedCommand) -> (r: Result<Vec<u8>, QueryError>)
    requires
        data@.len() > 0,
    ensures
        match r {
            Ok(out) => out@ == run_query_spec(
                data@,
                command.columns.deep_view(),
                command.condition_view(),
            ) && (query_needs_decode(command.columns.deep_view(), command.condition_view())
                ==> all_rows_ok(data@)),
            Err(e) => e == QueryError::Utf8Decode && query_needs_decode(
                command.columns.deep_view(),
                command.condition_view(),
            ) && !all_rows_ok(data@),
        },
{
    let ghost cols = command.columns.deep_view();
    let ghost cond = command.condition_view();
    proof {
        reveal_strlit("COUNT(*)");
        reveal_strlit("*");
        assert("COUNT(*)"@ =~= seq!['C', 'O', 'U', 'N', 'T', '(', '*', ')']);
        assert("*"@ =~= seq!['*']);
    }
    if command.columns.len() == 1 {
        let c0 = &command.columns[0];
        if crate::text::str_eq(c0.as_str(), "COUNT(*)") {
            proof {
                assert(cols[0] =~= seq!['C', 'O', 'U', 'N', 'T', '(', '*', ')']);
            }
            let n = match &command.condition {
                None => count_star(data),
                Some(c) => match count_with_condition(data, c.as_str()) {
                    Ok(n) => n,
                    Err(e) => {
                        return Err(e);
                    },
                },
            };
            let out = count_output(n);
            return Ok(out.as_str().as_bytes_vec());
        }
        if crate::text::str_eq(c0.as_str(), "*") {
            proof {
                assert(cols[0] =~= seq!['*']);
                assert(!(cols[0] == seq!['C', 'O', 'U', 'N', 'T', '(', '*', ')']));
            }
            match &command.condition {
                None => {
                    return Ok(select_star(data));
                },
                Some(c) => match select_star_where(data, c.as_str()) {
                    Ok(out) => {
                        return Ok(out.as_str().as_bytes_vec());
                    },
                    Err(e) => {
                        return Err(e);
                    },
                },
            }
        }
        proof {
            assert(!(cols[0] == seq!['C', 'O', 'U', 'N', 'T', '(', '*', ')']));
            assert(!(cols[0] == seq!['*']));
        }
    }
    match handle_complex_query(data, command) {
        Ok(out) => Ok(out.as_str().as_bytes_vec()),
        Err(e) => Err(e),
    }
}

} // verus!
