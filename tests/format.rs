use acs_explorer::codes::{Estimate, TableCode, TablePrefix, VariableCode, VariableRecord, VariableType};
use acs_explorer::format::{format_describe_table_pretty, format_etl_config, to_camelcase};

fn var(col: &str, label: &str, var_type: VariableType) -> VariableRecord {
    VariableRecord {
        label: label.to_owned(),
        code: VariableCode {
            table_code: TableCode { prefix: TablePrefix::B, table_id: "20005".to_owned(), suffix: None },
            column_id: col.to_owned(),
            var_type,
        },
        year: 2010,
        estimate: Estimate::FiveYear,
    }
}

#[test]
fn camelcase_joins_words() {
    assert_eq!(to_camelcase("hello big  world"), "HelloBigWorld");
    assert_eq!(to_camelcase("  émile\tzola "), "ÉmileZola");
    assert_eq!(to_camelcase(""), "");
}

#[test]
fn pretty_description_indents_levels() {
    let records = vec![
        var("002", "Total:!!Male", VariableType::Value),
        var("001", "Total:", VariableType::Value),
        var("001", "Total:", VariableType::MarginOfError),
    ];
    assert_eq!(
        format_describe_table_pretty(2010, records),
        "\ncode | label\n=====|====================================\n\
         Years: 2009-2009\n\
         Years: 2010-2010\n001  | Total\n002  |     Male\n"
    );
}

#[test]
fn etl_config_lists_value_columns() {
    let records = vec![
        var("001", "Total:", VariableType::Value),
        var("002", "Total:!!Male's", VariableType::Value),
    ];
    assert_eq!(
        format_etl_config(2010, records),
        "name: \"TABLENAME\"\ntag: \"acs\"\nmin_year: 2010\nmax_year: 2010\nacs_table:\n    id: \"B20005\"\n    value_label: \"population\"\n    dimension_labels: [\n        \"DIMENSION\",\n    ]\n    columns:\n        002E: \"Total_Males\"\n\n"
    );
    assert_eq!(format_etl_config(2001, vec![]), "");
}
