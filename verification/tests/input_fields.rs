use rsomics_binned_statistic::input::{InputError, column_fields, table_fields};

/// A column read as the program reads it: the fields that `column_fields`
/// finds, each parsed with `fast_float2`.
fn parse_column(buf: &[u8]) -> Result<Vec<f64>, String> {
    match column_fields(buf) {
        Err(e) => Err(format!("{e:?}")),
        Ok(spans) => spans
            .iter()
            .map(|&(s, e)| fast_float2::parse::<f64, _>(&buf[s..e]).map_err(|_| "nan".to_string()))
            .collect(),
    }
}

/// A table read as the program reads it: the rows in order, each field
/// parsed, then the reason reading stopped.
fn parse_table(buf: &[u8]) -> Result<(Vec<f64>, Vec<f64>), String> {
    let t = table_fields(buf);
    let mut x = Vec::new();
    let mut v = Vec::new();
    for &((xs, xe), (vs, ve)) in &t.rows {
        x.push(fast_float2::parse::<f64, _>(&buf[xs..xe]).map_err(|_| "x not a number".to_string())?);
        v.push(fast_float2::parse::<f64, _>(&buf[vs..ve]).map_err(|_| "v not a number".to_string())?);
    }
    match t.stop {
        Some(e) => Err(format!("{e:?}")),
        None => Ok((x, v)),
    }
}

#[test]
fn column_parses() {
    assert_eq!(parse_column(b"1\n2.5\n-3\n").unwrap(), vec![1.0, 2.5, -3.0]);
}

#[test]
fn table_parses_two_columns() {
    let (x, v) = parse_table(b"1\t10\n2\t20\n3\t30\n").unwrap();
    assert_eq!(x, vec![1.0, 2.0, 3.0]);
    assert_eq!(v, vec![10.0, 20.0, 30.0]);
}

#[test]
fn table_skips_blank_lines() {
    let (x, v) = parse_table(b"1 10\n\n2 20\n").unwrap();
    assert_eq!(x, vec![1.0, 2.0]);
    assert_eq!(v, vec![10.0, 20.0]);
}

#[test]
fn table_rejects_single_column() {
    assert!(parse_table(b"1\n2\n").is_err());
}

#[test]
fn column_spans_of_words() {
    assert_eq!(column_fields(b"  12 \t3.5\n\n-4"), Ok(vec![(2, 4), (6, 9), (11, 13)]));
}

#[test]
fn empty_column_has_no_values() {
    assert_eq!(column_fields(b""), Err(InputError::NoValues));
    assert_eq!(column_fields(b" \n\t\r\n"), Err(InputError::NoValues));
}

#[test]
fn table_without_rows() {
    let t = table_fields(b"\n   \n\t\n");
    assert!(t.rows.is_empty());
    assert_eq!(t.stop, Some(InputError::NoRows));
    assert_eq!(table_fields(b"").stop, Some(InputError::NoRows));
}

#[test]
fn table_takes_first_two_fields_and_handles_crlf() {
    let buf = b"1 2 3\r\n4\t5\r\n";
    let t = table_fields(buf);
    assert_eq!(t.stop, None);
    assert_eq!(t.rows, vec![((0, 1), (2, 3)), ((7, 8), (9, 10))]);
}

#[test]
fn table_stops_at_first_single_field_line() {
    let t = table_fields(b"1 2\n3\n4 5\n");
    assert_eq!(t.rows, vec![((0, 1), (2, 3))]);
    assert_eq!(t.stop, Some(InputError::OneColumn));
}

#[test]
fn table_reports_bad_number_before_later_single_field_line() {
    // The row before the single-field line is read (and fails) first.
    assert_eq!(parse_table(b"1 x\n3\n"), Err("v not a number".to_string()));
}

#[test]
fn table_last_line_without_newline() {
    let (x, v) = parse_table(b"1 10\n2 20").unwrap();
    assert_eq!(x, vec![1.0, 2.0]);
    assert_eq!(v, vec![10.0, 20.0]);
}
