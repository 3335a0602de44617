use tracetool::import::{
    build_create_statement, build_insert_statement, column_type_to_sql, headers_match, parse_cell,
    parse_integer, parse_timestamp, timestamp_from_parts, CellError, CellValue, ColumnDescriptor,
    ColumnType, TableDescriptor, TimestampError,
};

fn column(csv_name: &'static str, column_name: &'static str, column_type: ColumnType) -> ColumnDescriptor {
    ColumnDescriptor { csv_name, column_name, column_type }
}

fn table() -> TableDescriptor {
    TableDescriptor {
        file_name: "cost/ItemViewExecutor.execute.csv",
        table_name: "item_view_executor_execute",
        timestamp_column_name: "timestamp",
        columns: vec![
            column("wallclock time (ns)", "wallclock_time_ns", ColumnType::Integer),
            column("view id", "view_id", ColumnType::OptionalInteger),
            column("extra criterion", "extra_criterion", ColumnType::Boolean),
            column("user name", "user_name", ColumnType::Text),
            column("query", "query", ColumnType::ExternalText),
        ],
    }
}

#[test]
fn test_parse_timestamp() {
    assert_eq!(
        parse_timestamp("20210825122527.278673700").unwrap(),
        1629894327278673700
    );

    // Test lower boundary for each component of the timestamp
    assert_eq!(
        parse_timestamp("16780101000000.000000000").unwrap(),
        -9214560000000000000
    );

    // Test upper boundary for each component of the timestamp
    assert_eq!(
        parse_timestamp("22611231235959.999999999").unwrap(),
        9214646399999999999
    );

    // Test boundary for the whole timestamp
    assert_eq!(parse_timestamp("19700101000000.000000000").unwrap(), 0);

    // Test leap second (where the second part is 60). This is nonsensical for unix timestamps
    // but chrono still parses it and apparently adds 1 second to the timestamp.
    assert_eq!(
        parse_timestamp("20150630185960.000000000").unwrap(),
        1435690800000000000
    );

    // Test timestamps before Unix epoch
    assert_eq!(
        parse_timestamp("19691231235959.000000000").unwrap(),
        -1000000000
    );

    // Test invalid length
    assert!(parse_timestamp("19700101000000.00000000").is_err());

    // Test invalid format (non-numeric characters)
    assert!(parse_timestamp("1970a101000000.000000000").is_err());

    // Test invalid nanoseconds format (non-numeric characters)
    assert!(parse_timestamp("19700101000000.a00000000").is_err());
}

#[test]
fn timestamp_with_milliseconds() {
    assert_eq!(parse_timestamp("20230317170814.424"), Ok(1679072894424000000));
    assert_eq!(parse_timestamp("19700101000001.001"), Ok(1_001_000_000));
    assert_eq!(parse_timestamp("19700101000000,+07"), Ok(7_000_000));
}

#[test]
fn timestamp_errors() {
    assert_eq!(parse_timestamp(""), Err(TimestampError::InvalidLength));
    assert_eq!(parse_timestamp("19700101000000.00000000"), Err(TimestampError::InvalidLength));
    assert_eq!(parse_timestamp("19700101000000.0000000\u{e9}"), Err(TimestampError::NotAscii));
    assert_eq!(parse_timestamp("1970a101000000.000000000"), Err(TimestampError::InvalidDateTime));
    assert_eq!(parse_timestamp("19701301000000.000000000"), Err(TimestampError::InvalidDateTime));
    assert_eq!(parse_timestamp("19700101000000.a00000000"), Err(TimestampError::InvalidFraction));
    assert_eq!(parse_timestamp("19700101000000.-00"), Err(TimestampError::InvalidFraction));
    assert_eq!(parse_timestamp("19700101000000.  1"), Err(TimestampError::InvalidFraction));
    assert_eq!(parse_timestamp("16770101000000.000000000"), Err(TimestampError::OutOfRange));
    assert_eq!(parse_timestamp("22620411234716.854775807"), Ok(i64::MAX));
    assert_eq!(parse_timestamp("22620411234716.854775808"), Err(TimestampError::OutOfRange));
}

#[test]
fn timestamp_is_put_together_from_its_parts() {
    assert_eq!(timestamp_from_parts(Some(Some(5_000_000_000)), Some(12), false), Ok(5_000_000_012));
    assert_eq!(timestamp_from_parts(Some(Some(5_000_000_000)), Some(12), true), Ok(5_012_000_000));
    assert_eq!(timestamp_from_parts(Some(Some(-1_000_000_000)), Some(0), false), Ok(-1_000_000_000));
    assert_eq!(timestamp_from_parts(None, Some(12), true), Err(TimestampError::InvalidDateTime));
    assert_eq!(timestamp_from_parts(None, None, true), Err(TimestampError::InvalidDateTime));
    assert_eq!(timestamp_from_parts(Some(None), None, true), Err(TimestampError::InvalidFraction));
    assert_eq!(timestamp_from_parts(Some(None), Some(1), true), Err(TimestampError::OutOfRange));
    assert_eq!(
        timestamp_from_parts(Some(Some(i64::MAX)), Some(1), false),
        Err(TimestampError::OutOfRange)
    );
    assert_eq!(timestamp_from_parts(Some(Some(i64::MAX)), Some(0), false), Ok(i64::MAX));
}

#[test]
fn column_types_have_their_sql() {
    let t = table();
    let sql: Vec<&str> = t.columns.iter().map(column_type_to_sql).collect();
    assert_eq!(
        sql,
        vec!["INTEGER NOT NULL", "INTEGER", "INTEGER NOT NULL", "TEXT NOT NULL", "INTEGER NOT NULL"]
    );
}

#[test]
fn headers_of_a_file_are_held_against_the_table() {
    let t = table();
    let good: Vec<String> = [
        "timestamp",
        "wallclock time (ns)",
        "view id",
        "extra criterion",
        "user name",
        "query",
    ]
    .iter()
    .map(|s| s.to_string())
    .collect();
    assert!(headers_match(&good, &t));
    assert!(!headers_match(&Vec::new(), &t));
    assert!(!headers_match(&good[..5].to_vec(), &t));
    let mut renamed = good.clone();
    renamed[0] = "start".to_string();
    assert!(!headers_match(&renamed, &t));
    let mut swapped = good.clone();
    swapped.swap(2, 3);
    assert!(!headers_match(&swapped, &t));
    let mut longer = good.clone();
    longer.push("more".to_string());
    assert!(!headers_match(&longer, &t));
    let mut accented = good.clone();
    accented[4] = "user n\u{e4}me".to_string();
    assert!(!headers_match(&accented, &t));
}

#[test]
fn integers_are_read_with_an_optional_sign() {
    assert_eq!(parse_integer("0"), Some(0));
    assert_eq!(parse_integer("42"), Some(42));
    assert_eq!(parse_integer("+42"), Some(42));
    assert_eq!(parse_integer("-42"), Some(-42));
    assert_eq!(parse_integer("0000000000000000000000000000017"), Some(17));
    assert_eq!(parse_integer("9223372036854775807"), Some(i64::MAX));
    assert_eq!(parse_integer("9223372036854775808"), None);
    assert_eq!(parse_integer("-9223372036854775808"), Some(i64::MIN));
    assert_eq!(parse_integer("-9223372036854775809"), None);
    assert_eq!(parse_integer("99999999999999999999999"), None);
    assert_eq!(parse_integer(""), None);
    assert_eq!(parse_integer("-"), None);
    assert_eq!(parse_integer("+"), None);
    assert_eq!(parse_integer("--1"), None);
    assert_eq!(parse_integer(" 1"), None);
    assert_eq!(parse_integer("1 "), None);
    assert_eq!(parse_integer("1_000"), None);
    assert_eq!(parse_integer("12a"), None);
    assert_eq!(parse_integer("\u{661}"), None);
}

#[test]
fn cells_are_read_by_the_type_of_their_column() {
    assert_eq!(parse_cell(ColumnType::Boolean, "true"), Ok(CellValue::Integer(1)));
    assert_eq!(parse_cell(ColumnType::Boolean, "false"), Ok(CellValue::Integer(0)));
    assert_eq!(parse_cell(ColumnType::Boolean, "True"), Err(CellError::InvalidBoolean));
    assert_eq!(parse_cell(ColumnType::Boolean, ""), Err(CellError::InvalidBoolean));
    assert_eq!(parse_cell(ColumnType::Integer, "-7"), Ok(CellValue::Integer(-7)));
    assert_eq!(parse_cell(ColumnType::Integer, ""), Err(CellError::InvalidInteger));
    assert_eq!(parse_cell(ColumnType::Integer, "7.5"), Err(CellError::InvalidInteger));
    assert_eq!(parse_cell(ColumnType::OptionalInteger, ""), Ok(CellValue::Null));
    assert_eq!(parse_cell(ColumnType::OptionalInteger, "12"), Ok(CellValue::Integer(12)));
    assert_eq!(parse_cell(ColumnType::OptionalInteger, "x"), Err(CellError::InvalidInteger));
    assert_eq!(parse_cell(ColumnType::Text, "a b"), Ok(CellValue::Text("a b".to_string())));
    assert_eq!(parse_cell(ColumnType::Text, ""), Ok(CellValue::Text(String::new())));
    assert_eq!(
        parse_cell(ColumnType::ExternalText, "select 1"),
        Ok(CellValue::Text("select 1".to_string()))
    );
}

#[test]
fn statements_name_every_column() {
    let t = table();
    assert_eq!(
        build_insert_statement(&t),
        "INSERT INTO item_view_executor_execute (timestamp, ordinal, wallclock_time_ns, view_id, \
         extra_criterion, user_name, query) VALUES (?, (SELECT COALESCE(MAX(ordinal), -1) + 1 \
         FROM item_view_executor_execute WHERE timestamp = ?), ?, ?, ?, ?, ?)"
    );
    assert_eq!(
        build_create_statement(&t),
        "CREATE TABLE IF NOT EXISTS item_view_executor_execute (timestamp INTEGER NOT NULL, \
         ordinal INTEGER NOT NULL, wallclock_time_ns INTEGER NOT NULL, view_id INTEGER, \
         extra_criterion INTEGER NOT NULL, user_name TEXT NOT NULL, query INTEGER NOT NULL, \
         PRIMARY KEY (timestamp, ordinal))"
    );
    let bare = TableDescriptor {
        file_name: "f.csv",
        table_name: "t",
        timestamp_column_name: "start",
        columns: Vec::new(),
    };
    assert_eq!(
        build_insert_statement(&bare),
        "INSERT INTO t (timestamp, ordinal) VALUES (?, (SELECT COALESCE(MAX(ordinal), -1) + 1 \
         FROM t WHERE timestamp = ?))"
    );
    assert_eq!(
        build_create_statement(&bare),
        "CREATE TABLE IF NOT EXISTS t (timestamp INTEGER NOT NULL, ordinal INTEGER NOT NULL, \
         PRIMARY KEY (timestamp, ordinal))"
    );
}
