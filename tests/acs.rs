use acs_explorer::codes::{
    Estimate, TableCode, TablePrefix, TableRecord, VariableCode, VariableRecord, VariableType,
};
use acs_explorer::grammar::{
    format_table_code, format_variable_code, parse_suffix, parse_table_code, parse_table_id,
    parse_table_query, parse_table_record, parse_variable_code, ParseError, TableIdQuery, Token,
};
use std::cmp::Ordering;

fn table_code(prefix: TablePrefix, id: &str, suffix: Option<&str>) -> TableCode {
    TableCode {
        prefix,
        table_id: id.to_owned(),
        suffix: suffix.map(|s| s.to_owned()),
    }
}

#[test]
fn test_parse_variable_code() {
    let input = "B20005E_045M";
    let expected = VariableCode {
        table_code: TableCode {
            prefix: TablePrefix::B,
            table_id: "20005".to_owned(),
            suffix: Some("E".to_owned()),
        },
        column_id: "045".to_owned(),
        var_type: VariableType::MarginOfError,
    };
    assert_eq!(parse_variable_code(input.as_bytes()), Ok((&b""[..], expected)));
}

#[test]
fn test_parse_table_record() {
    let input = "B24126.  Detailed Occupation for the Full-Time, Year-Round Civilian Employed Female Population 16 Years and Over";
    let expected = TableRecord {
        code: TableCode {
            prefix: TablePrefix::B,
            table_id: "24126".to_owned(),
            suffix: None,
        },
        label: "Detailed Occupation for the Full-Time, Year-Round Civilian Employed Female Population 16 Years and Over".to_owned(),
    };
    assert_eq!(parse_table_record(input.as_bytes()), Ok((&b""[..], expected)));
}

#[test]
fn it_works() {}

#[test]
fn round_trip_table_codes() {
    for code in [
        table_code(TablePrefix::B, "20005", None),
        table_code(TablePrefix::C, "01001", Some("A")),
        table_code(TablePrefix::B, "7", Some("PR")),
    ] {
        let text = format_table_code(&code);
        assert_eq!(parse_table_code(text.as_bytes()), Ok((&b""[..], code)));
    }
}

#[test]
fn round_trip_variable_code() {
    let code = VariableCode {
        table_code: table_code(TablePrefix::C, "24126", Some("B")),
        column_id: "003".to_owned(),
        var_type: VariableType::Value,
    };
    let text = format_variable_code(&code);
    assert_eq!(text, "C24126B_003E");
    assert_eq!(parse_variable_code(text.as_bytes()), Ok((&b""[..], code)));
}

#[test]
fn lower_case_suffix_is_upper_cased() {
    let (rest, code) = parse_table_code(b"B01001a rest").unwrap();
    assert_eq!(code, table_code(TablePrefix::B, "01001", Some("A")));
    assert_eq!(rest, b" rest");
}

#[test]
fn parse_errors_name_the_failing_part() {
    assert_eq!(
        parse_table_code(b"X01001"),
        Err(ParseError { token: Token::Prefix, rest: b"X01001".to_vec() })
    );
    assert_eq!(
        parse_table_code(b""),
        Err(ParseError { token: Token::Prefix, rest: Vec::new() })
    );
    assert_eq!(
        parse_variable_code(b"B_001E"),
        Err(ParseError { token: Token::TableId, rest: b"_001E".to_vec() })
    );
    assert_eq!(
        parse_variable_code(b"B01001-001E"),
        Err(ParseError { token: Token::Separator, rest: b"-001E".to_vec() })
    );
    assert_eq!(
        parse_variable_code(b"B01001_E"),
        Err(ParseError { token: Token::ColumnId, rest: b"E".to_vec() })
    );
    assert_eq!(
        parse_variable_code(b"B01001_001X"),
        Err(ParseError { token: Token::VarType, rest: b"X".to_vec() })
    );
    assert_eq!(
        parse_variable_code(b"B01001_001"),
        Err(ParseError { token: Token::VarType, rest: Vec::new() })
    );
    assert_eq!(
        parse_table_record(b"B01001.Sex by Age"),
        Err(ParseError { token: Token::Spacing, rest: b"Sex by Age".to_vec() })
    );
    assert_eq!(
        parse_table_record(b"B01001 Sex by Age"),
        Err(ParseError { token: Token::Separator, rest: b" Sex by Age".to_vec() })
    );
    assert_eq!(
        parse_table_record(b"B01001. \xff"),
        Err(ParseError { token: Token::Label, rest: vec![0xff] })
    );
}

#[test]
fn table_id_and_suffix_pieces() {
    assert_eq!(parse_table_id(b"20005E"), Ok((&b"E"[..], "20005".to_owned())));
    assert_eq!(
        parse_table_id(b"E"),
        Err(ParseError { token: Token::TableId, rest: b"E".to_vec() })
    );
    assert_eq!(parse_suffix(b"ab_1"), (&b"_1"[..], Some("AB".to_owned())));
    assert_eq!(parse_suffix(b"_1"), (&b"_1"[..], None));
}

#[test]
fn table_query_accepts_lower_case_prefix_and_no_prefix() {
    assert_eq!(
        parse_table_query(b"c24126a").map(|(_, q)| q),
        Ok(TableIdQuery {
            prefix: Some(TablePrefix::C),
            table_id: "24126".to_owned(),
            suffix: Some("A".to_owned()),
        })
    );
    assert_eq!(
        parse_table_query(b"24126").map(|(_, q)| q),
        Ok(TableIdQuery { prefix: None, table_id: "24126".to_owned(), suffix: None })
    );
    assert!(parse_table_query(b"b").is_err());
}

#[test]
fn table_code_order() {
    let b = table_code(TablePrefix::B, "24126", None);
    let ba = table_code(TablePrefix::B, "24126", Some("A"));
    let bb = table_code(TablePrefix::B, "24126", Some("B"));
    let c = table_code(TablePrefix::C, "24126", None);
    let b2 = table_code(TablePrefix::B, "24127", None);
    let c0 = table_code(TablePrefix::C, "01001", None);
    assert_eq!(b.compare(&ba), Ordering::Less);
    assert_eq!(ba.compare(&bb), Ordering::Less);
    assert_eq!(bb.compare(&c), Ordering::Less);
    assert_eq!(c.compare(&b2), Ordering::Less);
    assert_eq!(c0.compare(&b), Ordering::Less);
    assert_eq!(ba.compare(&b), Ordering::Greater);
    assert_eq!(b.compare(&b.clone()), Ordering::Equal);
    assert!(b.same_as(&b.clone()));
    assert!(!b.same_as(&c));
}

#[test]
fn variable_code_order_value_before_margin() {
    let t = table_code(TablePrefix::B, "20005", None);
    let value = VariableCode { table_code: t.clone(), column_id: "001".to_owned(), var_type: VariableType::Value };
    let moe = VariableCode { table_code: t.clone(), column_id: "001".to_owned(), var_type: VariableType::MarginOfError };
    let next = VariableCode { table_code: t, column_id: "002".to_owned(), var_type: VariableType::Value };
    assert_eq!(value.compare(&moe), Ordering::Less);
    assert_eq!(moe.compare(&next), Ordering::Less);
    assert_eq!(next.compare(&value), Ordering::Greater);
}

#[test]
fn text_codes_of_enums() {
    assert_eq!(TablePrefix::B.to_string(), "B");
    assert_eq!(TablePrefix::C.to_string(), "C");
    assert_eq!(VariableType::Value.to_string(), "E");
    assert_eq!(VariableType::MarginOfError.to_string(), "M");
    assert_eq!(TablePrefix::from_code("C"), Some(TablePrefix::C));
    assert_eq!(TablePrefix::from_code("D"), None);
    assert_eq!(VariableType::from_code("M"), Some(VariableType::MarginOfError));
    assert_eq!(VariableType::from_code("EM"), None);
    assert_eq!(Estimate::OneYear.code(), "1yr");
    assert_eq!(Estimate::from_code("5yr"), Some(Estimate::FiveYear));
    assert_eq!(Estimate::from_code("3yr"), None);
    assert_eq!(Estimate::OneYear.url_frag(), "acs1/");
    assert_eq!(Estimate::FiveYear.url_frag(), "acs5/");
    assert_eq!(Estimate::FiveYear.display_name(), "ACS 5-year estimate");
}

#[test]
fn record_duplicates_keep_contents() {
    let r = VariableRecord {
        label: "Total:".to_owned(),
        code: VariableCode {
            table_code: table_code(TablePrefix::B, "01001", None),
            column_id: "001".to_owned(),
            var_type: VariableType::Value,
        },
        year: 2012,
        estimate: Estimate::OneYear,
    };
    assert_eq!(r.duplicate(), r);
}
