use csvq::aggregates::{Accumulator, Aggregates, Count};
use csvq::command::{is_aggregate_function, AggKind, ParsedCommand};
use csvq::condition::{check_condition, evaluate_condition, extract_required_headers};
use csvq::csv_reader::{count_byte_occurrences, CsvReader};
use csvq::executor::{count_star, count_with_condition, select_star};
use csvq::fields::{extract_field, extract_fields, get_headers};
use csvq::numeric::Num;
use csvq::parser::parse_query;

fn strings(v: &[&str]) -> Vec<String> {
    v.iter().map(|s| s.to_string()).collect()
}

fn cmd_with_condition(condition: &str) -> ParsedCommand {
    ParsedCommand {
        columns: Vec::new(),
        data_file: "data.csv".to_string(),
        condition: Some(condition.to_string()),
    }
}

#[test]
fn unparsable_field_compares_like_nan() {
    let headers = strings(&["v"]);
    let record = ["abc"];
    assert!(evaluate_condition("v != 5", &headers, &record));
    assert!(!evaluate_condition("v < 5", &headers, &record));
    assert!(!evaluate_condition("v > 5", &headers, &record));
    assert!(!evaluate_condition("v <= 5", &headers, &record));
    assert!(!evaluate_condition("v >= 5", &headers, &record));
    assert!(!evaluate_condition("v = 5", &headers, &record));
    assert!(!evaluate_condition("v == 5", &headers, &record));
}

#[test]
fn and_binds_tighter_than_or() {
    let headers = strings(&["a", "b", "c"]);
    let cond = cmd_with_condition("a < 1 OR b > 2 AND c == 3");
    // a-branch true, and-branch false.
    assert!(check_condition(&cond, &headers, &["0", "0", "0"]));
    // a-branch false, both legs of the and-branch true.
    assert!(check_condition(&cond, &headers, &["5", "3", "3"]));
    // a-branch false, second leg of the and-branch false.
    assert!(!check_condition(&cond, &headers, &["5", "3", "4"]));
    // a-branch false, first leg of the and-branch false.
    assert!(!check_condition(&cond, &headers, &["5", "1", "3"]));
    // both branches true.
    assert!(check_condition(&cond, &headers, &["0", "3", "3"]));
}

#[test]
fn missing_condition_accepts_every_row() {
    let cond = ParsedCommand {
        columns: Vec::new(),
        data_file: "data.csv".to_string(),
        condition: None,
    };
    assert!(check_condition(&cond, &strings(&["a"]), &["1"]));
}

#[test]
fn quoted_strings_compare_exactly() {
    let headers = strings(&["name"]);
    assert!(evaluate_condition("name = 'Alice Smith'", &headers, &["Alice Smith"]));
    assert!(!evaluate_condition("name = 'Alice Smith'", &headers, &["Alice"]));
    assert!(evaluate_condition("name != 'Bob'", &headers, &["Alice"]));
    // Relational operators are unsupported in string mode.
    assert!(!evaluate_condition("name < 'Bob'", &headers, &["Alice"]));
}

#[test]
fn quoted_value_may_hold_connective_words() {
    let headers = strings(&["name"]);
    let cond = cmd_with_condition("name = 'A OR B'");
    assert!(check_condition(&cond, &headers, &["A OR B"]));
    assert!(!check_condition(&cond, &headers, &["A"]));
}

#[test]
fn malformed_atoms_evaluate_false() {
    let headers = strings(&["a"]);
    assert!(!evaluate_condition("a <", &headers, &["1"]));
    assert!(!evaluate_condition("a ~ 1", &headers, &["1"]));
    assert!(!evaluate_condition("", &headers, &["1"]));
    assert!(!evaluate_condition("zzz = 1", &headers, &["1"]));
}

#[test]
fn unknown_column_in_or_clause() {
    let headers = strings(&["a"]);
    let cond = cmd_with_condition("zzz = 1 OR a = 1");
    assert!(check_condition(&cond, &headers, &["1"]));
    let cond = cmd_with_condition("zzz = 1 AND a = 1");
    assert!(!check_condition(&cond, &headers, &["1"]));
}

#[test]
fn parse_query_splits_columns_and_file() {
    let (columns, file) = parse_query("SELECT a, b FROM data.csv");
    // The keywords are removed textually, so the comma stays glued to its
    // column word.
    assert_eq!(columns, strings(&["a,", "b"]));
    assert_eq!(file, "data.csv");
}

#[test]
fn parse_query_single_column() {
    let (columns, file) = parse_query("SELECT v FROM d.csv");
    assert_eq!(columns, strings(&["v"]));
    assert_eq!(file, "d.csv");
}

#[test]
fn aggregate_function_names() {
    assert!(is_aggregate_function("COUNT(*)"));
    assert!(is_aggregate_function("SUM(amount)"));
    assert!(is_aggregate_function("AVG(x)"));
    assert!(is_aggregate_function("MIN(x)"));
    assert!(is_aggregate_function("MAX(x)"));
    assert!(is_aggregate_function("COUNT(x)"));
    assert!(!is_aggregate_function("amount"));
    assert!(!is_aggregate_function("sum(amount)"));
    assert!(!is_aggregate_function("*"));
}

#[test]
fn accumulators_fold_and_project() {
    let mut min = Accumulator::new(AggKind::Min);
    let mut max = Accumulator::new(AggKind::Max);
    let mut sum = Accumulator::new(AggKind::Sum);
    let mut avg = Accumulator::new(AggKind::Avg);
    let mut count = Accumulator::new(AggKind::Count);
    let billion: i128 = 1_000_000_000;
    for v in [3 * billion, -2 * billion, 5 * billion] {
        min.apply(v);
        max.apply(v);
        sum.apply(v);
        avg.apply(v);
        count.apply(v);
    }
    assert!(matches!(min.result(), Num::Fin(u) if u == -2 * billion));
    assert!(matches!(max.result(), Num::Fin(u) if u == 5 * billion));
    assert!(matches!(sum.result(), Num::Fin(u) if u == 6 * billion));
    assert!(matches!(avg.result(), Num::Fin(u) if u == 2 * billion));
    assert!(matches!(count.result(), Num::Fin(u) if u == 3 * billion));
}

#[test]
fn fresh_accumulators_report_empty_results() {
    assert!(matches!(Accumulator::new(AggKind::Min).result(), Num::NaN));
    assert!(matches!(Accumulator::new(AggKind::Max).result(), Num::NaN));
    assert!(matches!(Accumulator::new(AggKind::Avg).result(), Num::NaN));
    assert!(matches!(Accumulator::new(AggKind::Sum).result(), Num::Fin(0)));
    assert!(matches!(Accumulator::new(AggKind::Count).result(), Num::Fin(0)));
    assert_eq!(Count::new().count, 0);
}

#[test]
fn registry_replaces_entries_and_reports_nan_for_strangers() {
    let mut aggs = Aggregates::new();
    let mut sum = Accumulator::new(AggKind::Sum);
    sum.apply(7_000_000_000);
    aggs.add_function("SUM(x)".to_string(), Accumulator::new(AggKind::Sum));
    aggs.add_function("SUM(x)".to_string(), sum);
    let results = aggs.results(&strings(&["SUM(x)", "other"]));
    assert!(matches!(results[0], Num::Fin(u) if u == 7_000_000_000));
    assert!(matches!(results[1], Num::NaN));
}

#[test]
fn line_iterator_yields_rows_without_their_newlines() {
    let data = b"a,b\n1,2\n3";
    let reader = CsvReader::new(data);
    let mut it = reader.lines();
    assert_eq!(it.next(), Some(&b"a,b"[..]));
    assert_eq!(it.next(), Some(&b"1,2"[..]));
    assert_eq!(it.next(), Some(&b"3"[..]));
    assert_eq!(it.next(), None);
}

#[test]
fn get_headers_trims_and_splits() {
    let data = b" id , amount \n1,2\n";
    let reader = CsvReader::new(data);
    let mut it = reader.lines();
    let headers = get_headers(&mut it).unwrap();
    assert_eq!(headers, strings(&["id", "amount"]));
    assert_eq!(it.next(), Some(&b"1,2"[..]));
}

#[test]
fn get_headers_fails_on_exhausted_input() {
    let data = b"only\n";
    let reader = CsvReader::new(data);
    let mut it = reader.lines();
    let _ = it.next();
    assert!(get_headers(&mut it).is_err());
}

#[test]
fn extract_field_finds_the_aligned_field() {
    let headers = strings(&["a", "b"]);
    assert_eq!(extract_field(b"1,2", &headers, "b"), Some("2"));
    assert_eq!(extract_field(b"1,2", &headers, "a"), Some("1"));
    assert_eq!(extract_field(b"1,2", &headers, "zzz"), None);
    // A matched position the row does not reach resolves to empty text.
    assert_eq!(extract_field(b"1", &headers, "b"), Some(""));
}

#[test]
fn extract_fields_keeps_request_order() {
    let headers = strings(&["a", "b", "c"]);
    let required = strings(&["c", "a"]);
    assert_eq!(extract_fields(b"1,2,3", &headers, &required), vec!["3", "1"]);
    let required = strings(&["zzz", "b"]);
    assert_eq!(extract_fields(b"1,2,3", &headers, &required), vec!["2"]);
    // Matched positions past the row's end read as empty strings.
    let required = strings(&["b", "a"]);
    assert_eq!(extract_fields(b"1", &headers, &required), vec!["", "1"]);
}

#[test]
fn required_headers_come_from_condition_words() {
    let headers = strings(&["a", "b", "c"]);
    assert_eq!(
        extract_required_headers(&headers, "a < 1 OR c == 3"),
        strings(&["a", "c"])
    );
    // Connectives and number-or-operator words never name a column.
    assert_eq!(extract_required_headers(&headers, "1 < 2 AND OR"), Vec::<String>::new());
}

#[test]
fn count_helpers_agree_with_row_structure() {
    assert_eq!(count_byte_occurrences(b"a\nb\nc", b'\n'), 2);
    assert_eq!(count_star(b"h\n1\n2\n"), 2);
    assert_eq!(count_star(b"h\n1\n2"), 2);
    assert_eq!(count_star(b"h"), 0);
    assert_eq!(count_with_condition(b"v\n1\n5\n", "v > 2"), Ok(1));
}

#[test]
fn select_star_copies_bytes() {
    assert_eq!(select_star(b"x,y\n1,2\n"), b"x,y\n1,2\n".to_vec());
}

#[test]
fn invalid_utf8_header_decodes_leniently() {
    let mut data: Vec<u8> = vec![0xff];
    data.extend_from_slice(b"\n1\n");
    let reader = CsvReader::new(&data);
    let mut it = reader.lines();
    let headers = get_headers(&mut it).unwrap();
    assert_eq!(headers, strings(&["\u{FFFD}"]));
}
