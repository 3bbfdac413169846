use csvq::command::ParsedCommand;
use csvq::executor::run_query;
use csvq::QueryError;

fn cmd(columns: &[&str], file: &str, condition: Option<&str>) -> ParsedCommand {
    ParsedCommand {
        columns: columns.iter().map(|c| c.to_string()).collect(),
        data_file: file.to_string(),
        condition: condition.map(|c| c.to_string()),
    }
}

fn run(data: &str, columns: &[&str], condition: Option<&str>) -> Result<String, QueryError> {
    let command = cmd(columns, "data.csv", condition);
    run_query(data.as_bytes(), &command).map(|out| String::from_utf8(out).unwrap())
}

#[test]
fn sum_skips_empty_amount() {
    let data = "id,amount\n1,10\n2,20\n3,\n";
    assert_eq!(run(data, &["SUM(amount)"], None).unwrap(), "SUM(amount)\n30\n");
}

#[test]
fn projection_with_condition() {
    let data = "id,amount\n1,10\n2,20\n3,\n";
    assert_eq!(run(data, &["id"], Some("amount > 15")).unwrap(), "id\n2\n");
}

#[test]
fn count_star_counts_data_rows() {
    let data = "id,amount\n1,10\n2,20\n3,\n";
    assert_eq!(run(data, &["COUNT(*)"], None).unwrap(), "COUNT(*)\n3\n");
}

#[test]
fn count_star_ignores_trailing_newline() {
    let with_newline = "h\na\nb\n";
    let without_newline = "h\na\nb";
    assert_eq!(run(with_newline, &["COUNT(*)"], None).unwrap(), "COUNT(*)\n2\n");
    assert_eq!(run(without_newline, &["COUNT(*)"], None).unwrap(), "COUNT(*)\n2\n");
}

#[test]
fn select_star_reproduces_bytes() {
    let data = "id,amount\n1,10\n2,20\n3,\n";
    let command = cmd(&["*"], "data.csv", None);
    let out = run_query(data.as_bytes(), &command).unwrap();
    assert_eq!(out, data.as_bytes());
}

#[test]
fn select_star_on_messy_bytes_is_identity() {
    let data = b"h\r\nx,\xc3\xa9\ny";
    let command = cmd(&["*"], "data.csv", None);
    let out = run_query(data, &command).unwrap();
    assert_eq!(out, data);
}

#[test]
fn aggregates_over_zero_matching_rows() {
    let data = "x\n1\n2\n";
    let cols = &["MIN(x)", "MAX(x)", "AVG(x)", "SUM(x)", "COUNT(x)"];
    assert_eq!(
        run(data, cols, Some("x < 0")).unwrap(),
        "MIN(x),MAX(x),AVG(x),SUM(x),COUNT(x)\nNaN,NaN,NaN,0,0\n"
    );
}

#[test]
fn all_aggregates_over_matching_rows() {
    let data = "x\n1\n4\n2\n";
    let cols = &["MIN(x)", "MAX(x)", "AVG(x)", "SUM(x)", "COUNT(x)"];
    assert_eq!(
        run(data, cols, None).unwrap(),
        "MIN(x),MAX(x),AVG(x),SUM(x),COUNT(x)\n1,4,2.333333333,7,3\n"
    );
}

#[test]
fn average_prints_fraction_without_trailing_zeros() {
    let data = "v\n1\n2\n";
    assert_eq!(run(data, &["AVG(v)"], None).unwrap(), "AVG(v)\n1.5\n");
}

#[test]
fn sum_of_negative_values() {
    let data = "v\n-5\n2\n";
    assert_eq!(run(data, &["SUM(v)"], None).unwrap(), "SUM(v)\n-3\n");
}

#[test]
fn count_star_with_condition() {
    let data = "id,amount\n1,10\n2,20\n3,30\n";
    assert_eq!(run(data, &["COUNT(*)"], Some("amount >= 20")).unwrap(), "COUNT(*)\n2\n");
}

#[test]
fn select_star_with_condition_prints_matching_rows() {
    let data = "id,amount\n1,10\n2,20\n";
    assert_eq!(
        run(data, &["*"], Some("amount > 15")).unwrap(),
        "id,amount\n2,20\n"
    );
}

#[test]
fn plain_column_mixed_with_aggregate_reads_nan() {
    let data = "id,amount\n1,10\n2,20\n";
    assert_eq!(
        run(data, &["id", "SUM(amount)"], None).unwrap(),
        "id,SUM(amount)\nNaN,30\n"
    );
}

#[test]
fn count_star_rebinds_to_first_header_in_aggregate_path() {
    // In a multi-column query COUNT(*) is fed by the first column, so a
    // row whose first field does not parse as a number is not counted.
    let data = "id,amount\n1,10\nx,20\n";
    assert_eq!(
        run(data, &["COUNT(*)", "SUM(amount)"], None).unwrap(),
        "COUNT(*),SUM(amount)\n1,30\n"
    );
}

#[test]
fn unknown_aggregate_target_yields_empty_result() {
    let data = "id\n1\n";
    assert_eq!(run(data, &["SUM(zzz)"], None).unwrap(), "SUM(zzz)\n0\n");
    assert_eq!(run(data, &["MIN(zzz)"], None).unwrap(), "MIN(zzz)\nNaN\n");
}

#[test]
fn projection_drops_unmatched_columns() {
    let data = "id,amount\n1,10\n";
    assert_eq!(run(data, &["id", "zzz"], None).unwrap(), "id,zzz\n1\n");
}

#[test]
fn projection_missing_field_reads_empty() {
    let data = "a,b\n1\n";
    assert_eq!(run(data, &["a", "b"], None).unwrap(), "a,b\n1,\n");
}

#[test]
fn header_names_are_trimmed() {
    let data = " id , amount \n1,20\n";
    assert_eq!(run(data, &["id"], Some("amount > 15")).unwrap(), "id\n1\n");
}

#[test]
fn invalid_utf8_row_stops_the_query() {
    let mut data: Vec<u8> = b"a\n".to_vec();
    data.extend_from_slice(&[0xff, 0xfe]);
    data.push(b'\n');
    let command = cmd(&["a"], "data.csv", None);
    assert_eq!(run_query(&data, &command), Err(QueryError::Utf8Decode));
}

#[test]
fn invalid_utf8_row_stops_count_with_condition() {
    let mut data: Vec<u8> = b"a\n1\n".to_vec();
    data.extend_from_slice(&[0x80]);
    let command = cmd(&["COUNT(*)"], "data.csv", Some("a > 0"));
    assert_eq!(run_query(&data, &command), Err(QueryError::Utf8Decode));
}

#[test]
fn crlf_rows_keep_the_carriage_return() {
    // The segmenter does not strip a carriage return before the newline:
    // the header name is trimmed of it, but the data field keeps it, so
    // the field text fails numeric parse and only `!=` holds of it.
    let data = "v\r\n10\r\n";
    assert_eq!(run(data, &["COUNT(*)"], None).unwrap(), "COUNT(*)\n1\n");
    assert_eq!(run(data, &["COUNT(*)"], Some("v > 0")).unwrap(), "COUNT(*)\n0\n");
    assert_eq!(run(data, &["v"], Some("v != 0")).unwrap(), "v\n10\r\n");
}

#[test]
fn duplicate_headers_resolve_to_first() {
    let data = "x,x\n1,2\n";
    assert_eq!(run(data, &["COUNT(*)"], Some("x = 1")).unwrap(), "COUNT(*)\n1\n");
    assert_eq!(run(data, &["COUNT(*)"], Some("x = 2")).unwrap(), "COUNT(*)\n0\n");
}

#[test]
fn equal_values_with_different_spellings_match() {
    let data = "v\n10.50\n";
    assert_eq!(run(data, &["COUNT(*)"], Some("v = 10.5")).unwrap(), "COUNT(*)\n1\n");
    assert_eq!(run(data, &["COUNT(*)"], Some("v == 10.5")).unwrap(), "COUNT(*)\n1\n");
}

#[test]
fn fractional_results_keep_their_sign() {
    let data = "v\n-0.5\n";
    assert_eq!(run(data, &["SUM(v)"], None).unwrap(), "SUM(v)\n-0.5\n");
}

#[test]
fn leading_zeros_do_not_change_a_value() {
    let data = "v\n007\n";
    assert_eq!(run(data, &["COUNT(*)"], Some("v = 7")).unwrap(), "COUNT(*)\n1\n");
    assert_eq!(run(data, &["SUM(v)"], None).unwrap(), "SUM(v)\n7\n");
}

#[test]
fn fraction_padding_keeps_inner_zeros() {
    let data = "v\n1.002\n2.008\n";
    assert_eq!(run(data, &["SUM(v)"], None).unwrap(), "SUM(v)\n3.01\n");
}
