//! The rules of the import of trace files: the columns of a table, the
//! values of their cells, timestamps, and the statements that store them.

use crate::text::{
    all_in_class, ascii_bytes, chars_of, decimal, decimal_value, in_class, lemma_decimal_bound,
    lemma_span_end, pow10, same_text, scan, CharClass,
};
use vstd::prelude::*;
use vstd::string::StringSliceAdditionalSpecFns;
use vstd::utf8::is_ascii_chars;

verus! {

/// What the cells of a column hold.
#[derive(Clone, Copy, Debug, PartialEq, Eq)]
pub enum ColumnType {
    Boolean,
    Integer,
    OptionalInteger,
    Text,
    /// Text that is kept once in a table of its own and referred to by its
    /// id.
    ExternalText,
}

/// One column of a trace file and of its table.
#[derive(Clone, Copy, Debug)]
pub struct ColumnDescriptor {
    pub csv_name: &'static str,
    pub column_name: &'static str,
    pub column_type: ColumnType,
}

/// One trace file and its table.
#[derive(Clone, Debug)]
pub struct TableDescriptor {
    pub file_name: &'static str,
    pub table_name: &'static str,
    pub timestamp_column_name: &'static str,
    pub columns: Vec<ColumnDescriptor>,
}

/// The SQL type of the columns of a type.
pub open spec fn sql_type(column_type: ColumnType) -> Seq<char> {
    match column_type {
        ColumnType::Boolean => "INTEGER NOT NULL"@,
        ColumnType::Integer => "INTEGER NOT NULL"@,
        ColumnType::OptionalInteger => "INTEGER"@,
        ColumnType::Text => "TEXT NOT NULL"@,
        ColumnType::ExternalText => "INTEGER NOT NULL"@,
    }
}

/// The SQL type of a column.
pub fn column_type_to_sql(column: &ColumnDescriptor) -> (sql: &'static str)
    ensures
        sql@ == sql_type(column.column_type),
{
    match column.column_type {
        ColumnType::Boolean => "INTEGER NOT NULL",
        ColumnType::Integer => "INTEGER NOT NULL",
        ColumnType::OptionalInteger => "INTEGER",
        ColumnType::Text => "TEXT NOT NULL",
        ColumnType::ExternalText => "INTEGER NOT NULL",
    }
}

/// The header of a trace file is that of the table: the timestamp column
/// and then the columns of the table, under their names in the file.
pub open spec fn header_of(headers: Seq<String>, table: TableDescriptor) -> bool {
    &&& headers.len() == table.columns@.len() + 1
    &&& headers[0]@ == table.timestamp_column_name@
    &&& forall|i: int|
        0 <= i < table.columns@.len() ==> (#[trigger] headers[i + 1])@
            == table.columns@[i].csv_name@
}

/// Whether a trace file with these headers belongs to the table.
pub fn headers_match(headers: &Vec<String>, table: &TableDescriptor) -> (r: bool)
    ensures
        r == header_of(headers@, *table),
{
    if headers.len() == 0 || headers.len() - 1 != table.columns.len() {
        return false;
    }
    if !same_text(headers[0].as_str(), table.timestamp_column_name) {
        return false;
    }
    let mut i: usize = 0;
    while i < table.columns.len()
        invariant
            i <= table.columns@.len(),
            headers@.len() == table.columns@.len() + 1,
            forall|k: int|
                0 <= k < i ==> (#[trigger] headers@[k + 1])@ == table.columns@[k].csv_name@,
        decreases table.columns@.len() - i,
    {
        if !same_text(headers[i + 1].as_str(), table.columns[i].csv_name) {
            return false;
        }
        i += 1;
    }
    true
}

/// What a cell of a table holds.
#[derive(Clone, Debug, PartialEq, Eq)]
pub enum CellValue {
    Null,
    Integer(i64),
    Text(String),
}

/// Why a text is no cell of a column.
#[derive(Clone, Copy, Debug, PartialEq, Eq)]
pub enum CellError {
    /// Neither `true` nor `false`.
    InvalidBoolean,
    /// No decimal integer of 64 bits.
    InvalidInteger,
}

/// The integer that `text` stands for: decimal digits behind an optional
/// sign, with a value that fits in 64 bits.
pub open spec fn integer_of(text: Seq<char>) -> Option<i64> {
    let signed = text.len() > 0 && (text[0] == '-' || text[0] == '+');
    let digits = if signed {
        text.subrange(1, text.len() as int)
    } else {
        text
    };
    let value = if text.len() > 0 && text[0] == '-' {
        -decimal(digits)
    } else {
        decimal(digits)
    };
    if digits.len() > 0 && all_in_class(digits, CharClass::Digit, 0, digits.len() as int)
        && i64::MIN <= value <= i64::MAX {
        Some(value as i64)
    } else {
        None
    }
}

/// Reads a decimal integer.
pub fn parse_integer(text: &str) -> (r: Option<i64>)
    ensures
        r == integer_of(text@),
{
    let ghost signed = text@.len() > 0 && (text@[0] == '-' || text@[0] == '+');
    let ghost digits = if signed {
        text@.subrange(1, text@.len() as int)
    } else {
        text@
    };
    let bytes = match ascii_bytes(text) {
        Some(bytes) => bytes,
        None => {
            proof {
                if digits.len() > 0 && all_in_class(
                    digits,
                    CharClass::Digit,
                    0,
                    digits.len() as int,
                ) {
                    assert forall|i: int| 0 <= i < text@.len() implies '\0' <= #[trigger] text@[i]
                        <= '\u{7f}' by {
                        if signed {
                            if i > 0 {
                                assert(in_class(CharClass::Digit, digits[i - 1]));
                            }
                        } else {
                            assert(in_class(CharClass::Digit, digits[i]));
                        }
                    }
                }
            }
            return None;
        },
    };
    let n = bytes.len();
    if n == 0 {
        return None;
    }
    proof {
        assert(text@[0] == bytes@[0] as char);
    }
    let negative = bytes[0] == 45;
    let start: usize = if bytes[0] == 45 || bytes[0] == 43 {
        1
    } else {
        0
    };
    proof {
        assert(digits =~= chars_of(bytes@).subrange(start as int, n as int));
        lemma_span_end(chars_of(bytes@), CharClass::Digit, start as int);
    }
    let end = scan(bytes, CharClass::Digit, start);
    if start == n || end != n {
        proof {
            if start < n {
                assert(!in_class(CharClass::Digit, chars_of(bytes@)[end as int]));
                assert(digits[end - start] == chars_of(bytes@)[end as int]);
            }
        }
        return None;
    }
    proof {
        assert forall|i: int| 0 <= i < digits.len() implies in_class(
            CharClass::Digit,
            #[trigger] digits[i],
        ) by {
            assert(digits[i] == chars_of(bytes@)[start + i]);
        }
    }
    let magnitude = match decimal_value(bytes, start, n) {
        Some(magnitude) => magnitude,
        None => {
            return None;
        },
    };
    if negative {
        if magnitude > 9223372036854775808 {
            None
        } else if magnitude == 9223372036854775808 {
            Some(i64::MIN)
        } else {
            Some(-(magnitude as i64))
        }
    } else {
        if magnitude > 9223372036854775807 {
            None
        } else {
            Some(magnitude as i64)
        }
    }
}

/// The value of the cell that `text` gives in a column of `column_type`:
/// `true` and `false` are 1 and 0, an optional integer without text is
/// null, and text stays as it is.
pub open spec fn is_cell(column_type: ColumnType, text: Seq<char>, r: Result<
    CellValue,
    CellError,
>) -> bool {
    match column_type {
        ColumnType::Boolean => {
            if text == "true"@ {
                r == Ok::<CellValue, CellError>(CellValue::Integer(1))
            } else if text == "false"@ {
                r == Ok::<CellValue, CellError>(CellValue::Integer(0))
            } else {
                r == Err::<CellValue, CellError>(CellError::InvalidBoolean)
            }
        },
        ColumnType::Integer => match integer_of(text) {
            Some(v) => r == Ok::<CellValue, CellError>(CellValue::Integer(v)),
            None => r == Err::<CellValue, CellError>(CellError::InvalidInteger),
        },
        ColumnType::OptionalInteger => {
            if text.len() == 0 {
                r == Ok::<CellValue, CellError>(CellValue::Null)
            } else {
                match integer_of(text) {
                    Some(v) => r == Ok::<CellValue, CellError>(CellValue::Integer(v)),
                    None => r == Err::<CellValue, CellError>(CellError::InvalidInteger),
                }
            }
        },
        ColumnType::Text | ColumnType::ExternalText => {
            r matches Ok(CellValue::Text(s)) && s@ == text
        },
    }
}

/// Reads the cell of a column from the text of the trace file.
pub fn parse_cell(column_type: ColumnType, csv_value: &str) -> (r: Result<CellValue, CellError>)
    ensures
        is_cell(column_type, csv_value@, r),
{
    match column_type {
        ColumnType::Boolean => {
            if same_text(csv_value, "true") {
                Ok(CellValue::Integer(1))
            } else if same_text(csv_value, "false") {
                Ok(CellValue::Integer(0))
            } else {
                Err(CellError::InvalidBoolean)
            }
        },
        ColumnType::Integer => match parse_integer(csv_value) {
            Some(v) => Ok(CellValue::Integer(v)),
            None => Err(CellError::InvalidInteger),
        },
        ColumnType::OptionalInteger => {
            if csv_value.unicode_len() == 0 {
                Ok(CellValue::Null)
            } else {
                match parse_integer(csv_value) {
                    Some(v) => Ok(CellValue::Integer(v)),
                    None => Err(CellError::InvalidInteger),
                }
            }
        },
        ColumnType::Text => Ok(CellValue::Text(String::from_str(csv_value))),
        ColumnType::ExternalText => Ok(CellValue::Text(String::from_str(csv_value))),
    }
}

/// Why a text is no timestamp of a trace file.
#[derive(Clone, Copy, Debug, PartialEq, Eq)]
pub enum TimestampError {
    /// The text has neither 18 nor 24 bytes.
    InvalidLength,
    /// The text holds a character that is not ASCII.
    NotAscii,
    /// The first 14 characters are no date and time.
    InvalidDateTime,
    /// The fraction of the second is no number.
    InvalidFraction,
    /// The instant does not fit in 64 bits of nanoseconds.
    OutOfRange,
}

/// The nanoseconds from the Unix epoch to the UTC date and time that
/// `chrono` reads from `text` in the format `%Y%m%d%H%M%S`; `None` where
/// `chrono` finds no date and time in `text`, `Some(None)` where the
/// nanoseconds do not fit in 64 bits.
pub uninterp spec fn compact_utc_nanoseconds(text: Seq<char>) -> Option<Option<i64>>;

#[verifier::external_type_specification]
#[verifier::external_body]
pub struct ExParseError(chrono::ParseError);

/// Calls `chrono::NaiveDateTime::parse_from_str` with the format
/// `%Y%m%d%H%M%S` and, on the date and time it returns, taken as UTC,
/// `chrono::DateTime::timestamp_nanos_opt`. The contract only says that the
/// result depends on the text alone, and that an error of `chrono` is the
/// case that `compact_utc_nanoseconds` names `None`.
#[verifier::external_body]
fn chrono_compact_nanoseconds(text: &str) -> (r: Result<Option<i64>, chrono::ParseError>)
    ensures
        match r {
            Ok(nanoseconds) => compact_utc_nanoseconds(text@) == Some(nanoseconds),
            Err(_) => compact_utc_nanoseconds(text@) is None,
        },
{
    match chrono::NaiveDateTime::parse_from_str(text, "%Y%m%d%H%M%S") {
        Ok(datetime) => Ok(datetime.and_utc().timestamp_nanos_opt()),
        Err(e) => Err(e),
    }
}

/// The number that the fraction of a second stands for: decimal digits
/// behind an optional plus sign.
pub open spec fn fraction_of(text: Seq<char>) -> Option<int> {
    let digits = if text.len() > 0 && text[0] == '+' {
        text.subrange(1, text.len() as int)
    } else {
        text
    };
    if digits.len() > 0 && all_in_class(digits, CharClass::Digit, 0, digits.len() as int) {
        Some(decimal(digits))
    } else {
        None
    }
}

/// The timestamp that a date and time and a fraction of a second give:
/// `datetime` is what `compact_utc_nanoseconds` names, `fraction` counts
/// milliseconds if `millis` and nanoseconds if not.
pub open spec fn timestamp_of_parts(
    datetime: Option<Option<i64>>,
    fraction: Option<int>,
    millis: bool,
) -> Result<i64, TimestampError> {
    match datetime {
        None => Err(TimestampError::InvalidDateTime),
        Some(whole) => match fraction {
            None => Err(TimestampError::InvalidFraction),
            Some(fraction) => {
                let nanoseconds = if millis {
                    fraction * 1_000_000
                } else {
                    fraction
                };
                match whole {
                    None => Err(TimestampError::OutOfRange),
                    Some(whole) => if whole + nanoseconds > i64::MAX {
                        Err(TimestampError::OutOfRange)
                    } else {
                        Ok((whole + nanoseconds) as i64)
                    },
                }
            },
        },
    }
}

/// The timestamp for a date and time that was read and a fraction that was
/// read.
pub fn timestamp_from_parts(datetime: Option<Option<i64>>, fraction: Option<u64>, millis: bool) -> (r:
    Result<i64, TimestampError>)
    requires
        fraction matches Some(f) ==> f <= 999_999_999,
    ensures
        r == timestamp_of_parts(
            datetime,
            match fraction {
                Some(f) => Some(f as int),
                None => None,
            },
            millis,
        ),
{
    let whole = match datetime {
        Some(whole) => whole,
        None => {
            return Err(TimestampError::InvalidDateTime);
        },
    };
    let fraction = match fraction {
        Some(fraction) => fraction,
        None => {
            return Err(TimestampError::InvalidFraction);
        },
    };
    let nanoseconds: i64 = if millis {
        (fraction * 1_000_000) as i64
    } else {
        fraction as i64
    };
    let whole = match whole {
        Some(whole) => whole,
        None => {
            return Err(TimestampError::OutOfRange);
        },
    };
    match whole.checked_add(nanoseconds) {
        Some(timestamp) => Ok(timestamp),
        None => Err(TimestampError::OutOfRange),
    }
}

/// The timestamp that a text of a trace file stands for, in nanoseconds
/// from the Unix epoch: a date and time of 14 digits, one character, and
/// the milliseconds in 3 digits or the nanoseconds in 9.
pub open spec fn parsed_timestamp(csv_value: &str) -> Result<i64, TimestampError> {
    let text = csv_value@;
    let bytes = csv_value.spec_bytes().len();
    if bytes != 18 && bytes != 24 {
        Err(TimestampError::InvalidLength)
    } else if !is_ascii_chars(text) {
        Err(TimestampError::NotAscii)
    } else {
        timestamp_of_parts(
            compact_utc_nanoseconds(text.subrange(0, 14)),
            fraction_of(text.subrange(15, text.len() as int)),
            bytes == 18,
        )
    }
}

/// Reads a timestamp such as `20210825122527.278673700` or
/// `20230317170814.424`.
pub fn parse_timestamp(csv_value: &str) -> (r: Result<i64, TimestampError>)
    ensures
        r == parsed_timestamp(csv_value),
{
    let len = csv_value.as_bytes().len();
    if !(len == 18 || len == 24) {
        return Err(TimestampError::InvalidLength);
    }
    let bytes = match ascii_bytes(csv_value) {
        Some(bytes) => bytes,
        None => {
            return Err(TimestampError::NotAscii);
        },
    };
    proof {
        vstd::string::is_ascii_spec_bytes(csv_value);
    }
    let datetime = match chrono_compact_nanoseconds(csv_value.substring_ascii(0, 14)) {
        Ok(nanoseconds) => Some(nanoseconds),
        Err(_) => None,
    };
    let ghost part = csv_value@.subrange(15, len as int);
    let ghost digits = if part[0] == '+' {
        part.subrange(1, part.len() as int)
    } else {
        part
    };
    proof {
        assert(part[0] == bytes@[15] as char);
    }
    let start: usize = if bytes[15] == 43 {
        16
    } else {
        15
    };
    proof {
        assert(digits =~= chars_of(bytes@).subrange(start as int, len as int));
        lemma_span_end(chars_of(bytes@), CharClass::Digit, start as int);
    }
    let end = scan(bytes, CharClass::Digit, start);
    let fraction = if end != len {
        proof {
            assert(!in_class(CharClass::Digit, chars_of(bytes@)[end as int]));
            assert(digits[end - start] == chars_of(bytes@)[end as int]);
        }
        None
    } else {
        proof {
            assert forall|i: int| 0 <= i < digits.len() implies in_class(
                CharClass::Digit,
                #[trigger] digits[i],
            ) by {
                assert(digits[i] == chars_of(bytes@)[start + i]);
            }
            lemma_decimal_bound(digits);
            reveal_with_fuel(pow10, 10);
            assert(pow10(digits.len()) <= 1_000_000_000);
        }
        decimal_value(bytes, start, len)
    };
    timestamp_from_parts(datetime, fraction, len == 18)
}

/// The names of the columns, each behind a comma.
pub open spec fn column_list(columns: Seq<ColumnDescriptor>) -> Seq<char>
    decreases columns.len(),
{
    if columns.len() == 0 {
        Seq::empty()
    } else {
        column_list(columns.drop_last()) + ", "@ + columns.last().column_name@
    }
}

/// One placeholder for every column, each behind a comma.
pub open spec fn placeholder_list(n: nat) -> Seq<char>
    decreases n,
{
    if n == 0 {
        Seq::empty()
    } else {
        placeholder_list((n - 1) as nat) + ", ?"@
    }
}

/// The columns with their SQL types, each behind a comma.
pub open spec fn column_definitions(columns: Seq<ColumnDescriptor>) -> Seq<char>
    decreases columns.len(),
{
    if columns.len() == 0 {
        Seq::empty()
    } else {
        column_definitions(columns.drop_last()) + ", "@ + columns.last().column_name@ + " "@
            + sql_type(columns.last().column_type)
    }
}

/// The statement that stores one row of the table. The row gets the next
/// free ordinal among the rows with its timestamp.
pub open spec fn insert_statement(table: TableDescriptor) -> Seq<char> {
    "INSERT INTO "@ + table.table_name@ + " (timestamp, ordinal"@ + column_list(table.columns@)
        + ") VALUES (?, (SELECT COALESCE(MAX(ordinal), -1) + 1 FROM "@ + table.table_name@
        + " WHERE timestamp = ?)"@ + placeholder_list(table.columns@.len()) + ")"@
}

/// The statement that creates the table.
pub open spec fn create_statement(table: TableDescriptor) -> Seq<char> {
    "CREATE TABLE IF NOT EXISTS "@ + table.table_name@ + " ("@
        + "timestamp INTEGER NOT NULL, ordinal INTEGER NOT NULL"@ + column_definitions(
        table.columns@,
    ) + ", PRIMARY KEY (timestamp, ordinal))"@
}

/// The statement that stores one row of `table`.
pub fn build_insert_statement(table: &TableDescriptor) -> (sql: String)
    ensures
        sql@ == insert_statement(*table),
{
    let mut sql = String::from_str("INSERT INTO ");
    sql.append(table.table_name);
    sql.append(" (timestamp, ordinal");
    let ghost head = sql@;
    let n = table.columns.len();
    let mut i: usize = 0;
    while i < n
        invariant
            i <= n,
            n == table.columns@.len(),
            sql@ == head + column_list(table.columns@.take(i as int)),
        decreases n - i,
    {
        proof {
            assert(table.columns@.take(i + 1).drop_last() =~= table.columns@.take(i as int));
        }
        sql.append(", ");
        sql.append(table.columns[i].column_name);
        i += 1;
    }
    proof {
        assert(table.columns@.take(n as int) =~= table.columns@);
    }
    sql.append(") VALUES (?, (SELECT COALESCE(MAX(ordinal), -1) + 1 FROM ");
    sql.append(table.table_name);
    sql.append(" WHERE timestamp = ?)");
    let ghost middle = sql@;
    let mut j: usize = 0;
    while j < n
        invariant
            j <= n,
            sql@ == middle + placeholder_list(j as nat),
        decreases n - j,
    {
        sql.append(", ?");
        j += 1;
    }
    sql.append(")");
    sql
}

/// The statement that creates `table`.
pub fn build_create_statement(table: &TableDescriptor) -> (sql: String)
    ensures
        sql@ == create_statement(*table),
{
    let mut sql = String::from_str("CREATE TABLE IF NOT EXISTS ");
    sql.append(table.table_name);
    sql.append(" (");
    sql.append("timestamp INTEGER NOT NULL, ordinal INTEGER NOT NULL");
    let ghost head = sql@;
    let n = table.columns.len();
    let mut i: usize = 0;
    while i < n
        invariant
            i <= n,
            n == table.columns@.len(),
            sql@ == head + column_definitions(table.columns@.take(i as int)),
        decreases n - i,
    {
        proof {
            assert(table.columns@.take(i + 1).drop_last() =~= table.columns@.take(i as int));
        }
        sql.append(", ");
        sql.append(table.columns[i].column_name);
        sql.append(" ");
        sql.append(column_type_to_sql(&table.columns[i]));
        i += 1;
    }
    proof {
        assert(table.columns@.take(n as int) =~= table.columns@);
    }
    sql.append(", PRIMARY KEY (timestamp, ordinal))");
    sql
}

/// The name of the table that keeps the texts of an external column.
pub open spec fn external_table(table_name: &str, column: ColumnDescriptor) -> Seq<char> {
    table_name@ + "_"@ + column.column_name@
}

/// The statement that creates the table of an external column: every text
/// once, under its id.
pub open spec fn external_create_statement(table_name: &str, column: ColumnDescriptor) -> Seq<
    char,
> {
    "CREATE TABLE IF NOT EXISTS "@ + external_table(table_name, column)
        + " ( id INTEGER NOT NULL, "@ + column.column_name@
        + " TEXT UNIQUE NOT NULL, PRIMARY KEY (id))"@
}

/// The statement that stores a text of an external column under the next
/// free id, unless the table has it.
pub open spec fn external_insert_statement(table_name: &str, column: ColumnDescriptor) -> Seq<
    char,
> {
    "insert or ignore into "@ + external_table(table_name, column) + " (id, "@
        + column.column_name@ + ") values (coalesce((select max(id)+1 from "@ + external_table(
        table_name,
        column,
    ) + "), 0), ?)"@
}

/// The statement that finds the id of a text of an external column.
pub open spec fn external_select_statement(table_name: &str, column: ColumnDescriptor) -> Seq<
    char,
> {
    "select id from "@ + external_table(table_name, column) + " where "@ + column.column_name@
        + " = ?"@
}

fn append_external_table(sql: &mut String, table_name: &str, column: &ColumnDescriptor)
    ensures
        final(sql)@ == old(sql)@ + external_table(table_name, *column),
{
    sql.append(table_name);
    sql.append("_");
    sql.append(column.column_name);
    proof {
        assert(sql@ =~= old(sql)@ + external_table(table_name, *column));
    }
}

/// The statement that creates the table of the external column `column` of
/// the table `table_name`.
pub fn build_external_create_statement(table_name: &str, column: &ColumnDescriptor) -> (sql: String)
    ensures
        sql@ == external_create_statement(table_name, *column),
{
    let mut sql = String::from_str("CREATE TABLE IF NOT EXISTS ");
    append_external_table(&mut sql, table_name, column);
    sql.append(" ( id INTEGER NOT NULL, ");
    sql.append(column.column_name);
    sql.append(" TEXT UNIQUE NOT NULL, PRIMARY KEY (id))");
    sql
}

/// The statement that stores a text of the external column.
pub fn build_external_insert_statement(table_name: &str, column: &ColumnDescriptor) -> (sql: String)
    ensures
        sql@ == external_insert_statement(table_name, *column),
{
    let mut sql = String::from_str("insert or ignore into ");
    append_external_table(&mut sql, table_name, column);
    sql.append(" (id, ");
    sql.append(column.column_name);
    sql.append(") values (coalesce((select max(id)+1 from ");
    append_external_table(&mut sql, table_name, column);
    sql.append("), 0), ?)");
    sql
}

/// The statement that finds the id of a text of the external column.
pub fn build_external_select_statement(table_name: &str, column: &ColumnDescriptor) -> (sql: String)
    ensures
        sql@ == external_select_statement(table_name, *column),
{
    let mut sql = String::from_str("select id from ");
    append_external_table(&mut sql, table_name, column);
    sql.append(" where ");
    sql.append(column.column_name);
    sql.append(" = ?");
    sql
}

} // verus!
