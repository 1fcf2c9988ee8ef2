use acs_explorer::catalog::{
    read_fetched, refresh_plan, Catalog, EstimateYears, Listing, StepError, VarEntry,
};
use acs_explorer::codes::{
    Estimate, TableCode, TablePrefix, TableRecord, VariableCode, VariableRecord, VariableType,
};
use acs_explorer::format::{
    format_describe_table_raw, format_est_years, format_table_name, format_table_records,
};
use acs_explorer::grammar::{ParseError, Token};
use acs_explorer::index::{build_index, IndexError, SearchBuilder};
use acs_explorer::versions::{get_table_versions, partition_versions};

fn code(prefix: TablePrefix, id: &str, suffix: Option<&str>) -> TableCode {
    TableCode { prefix, table_id: id.to_owned(), suffix: suffix.map(|s| s.to_owned()) }
}

fn var(col: &str, label: &str, year: u32, estimate: Estimate) -> VariableRecord {
    VariableRecord {
        label: label.to_owned(),
        code: VariableCode {
            table_code: code(TablePrefix::B, "20005", None),
            column_id: col.to_owned(),
            var_type: VariableType::Value,
        },
        year,
        estimate,
    }
}

fn entry(name: &str, label: &str, concept: &str) -> VarEntry {
    VarEntry { name: name.to_owned(), label: label.to_owned(), concept: concept.to_owned() }
}

fn listing(vars: &[(&str, &str, &str)]) -> String {
    let mut text = String::from("{\"variables\": {\"for\": {\"label\": \"geography\", \"concept\": \"\"}");
    for (name, label, concept) in vars {
        text.push_str(&format!(
            ", \"{}\": {{\"label\": \"{}\", \"concept\": \"{}\"}}",
            name, label, concept
        ));
    }
    text.push_str("}}");
    text
}

#[test]
fn identical_years_make_one_version_and_a_new_column_a_second() {
    let mut records = Vec::new();
    for year in [2010u32, 2011] {
        records.push(var("001", "Total:", year, Estimate::FiveYear));
        records.push(var("002", "Total:!!Male", year, Estimate::FiveYear));
    }
    records.push(var("001", "Total:", 2012, Estimate::FiveYear));
    records.push(var("002", "Total:!!Male", 2012, Estimate::FiveYear));
    records.push(var("003", "Total:!!Female", 2012, Estimate::FiveYear));
    let versions = get_table_versions(records, 2010, 2013);
    assert_eq!(versions.len(), 2);
    assert_eq!((versions[0].min_year, versions[0].max_year), (2010, 2011));
    assert_eq!(versions[0].records.len(), 2);
    assert_eq!((versions[1].min_year, versions[1].max_year), (2012, 2013));
    assert_eq!(versions[1].records.len(), 3);
}

#[test]
fn labels_compare_without_case_and_differences_split() {
    let records = vec![
        var("001", "Total:", 2010, Estimate::FiveYear),
        var("001", "TOTAL:", 2011, Estimate::FiveYear),
        var("001", "Total people:", 2012, Estimate::FiveYear),
    ];
    let versions = get_table_versions(records, 2010, 2012);
    assert_eq!(versions.len(), 2);
    assert_eq!((versions[0].min_year, versions[0].max_year), (2010, 2011));
    assert_eq!(versions[1].records[0].label, "Total people:");
}

#[test]
fn an_isolated_gap_year_opens_no_version() {
    let records = vec![
        var("001", "Total:", 2010, Estimate::FiveYear),
        var("001", "Total:", 2012, Estimate::FiveYear),
    ];
    let versions = get_table_versions(records.clone(), 2010, 2012);
    assert_eq!(versions.len(), 1);
    assert_eq!((versions[0].min_year, versions[0].max_year), (2010, 2012));
    assert_eq!(get_table_versions(records, 2010, 2012), versions);
}

#[test]
fn a_table_with_one_year_estimates_only_gets_one_version() {
    let records = vec![var("001", "Total:", 2009, Estimate::OneYear)];
    let versions = get_table_versions(records, 2009, 2009);
    assert_eq!(versions.len(), 1);
    assert_eq!((versions[0].min_year, versions[0].max_year), (2009, 2009));
    assert_eq!(versions[0].records.len(), 1);

    let mut records = Vec::new();
    for year in [2010u32, 2011] {
        records.push(var("001", "Total:", year, Estimate::OneYear));
    }
    records.push(var("001", "Total:", 2012, Estimate::OneYear));
    records.push(var("002", "Total:!!Male", 2012, Estimate::OneYear));
    let versions = get_table_versions(records, 2010, 2013);
    assert_eq!(versions.len(), 2);
    assert_eq!((versions[0].min_year, versions[0].max_year), (2010, 2011));
    assert_eq!((versions[1].min_year, versions[1].max_year), (2012, 2013));
}

#[test]
fn an_empty_first_year_still_opens_a_version() {
    let records = vec![var("001", "Total:", 2011, Estimate::OneYear)];
    let versions = get_table_versions(records, 2010, 2011);
    assert_eq!(versions.len(), 2);
    assert_eq!(versions[0].records.len(), 0);
    assert_eq!((versions[0].min_year, versions[0].max_year), (2010, 2010));
    assert_eq!((versions[1].min_year, versions[1].max_year), (2011, 2011));
}

#[test]
fn partition_compares_the_given_keys() {
    let records = vec![
        var("001", "a", 2010, Estimate::FiveYear),
        var("001", "b", 2011, Estimate::FiveYear),
    ];
    let same = vec!["k".to_owned(), "k".to_owned()];
    assert_eq!(partition_versions(&records, &same, 2010, 2011).len(), 1);
    let differ = vec!["k".to_owned(), "j".to_owned()];
    assert_eq!(partition_versions(&records, &differ, 2010, 2011).len(), 2);
}

#[test]
fn query_by_table_id_finds_one_and_none() {
    let mut catalog = Catalog::new();
    let entries = vec![
        entry("B20005_001E", "Total:", "B20005.  Sex by Work Experience"),
        entry("C20005_001E", "Total:", "C20005.  Sex by Work Experience"),
        entry("for", "geography", ""),
    ];
    assert_eq!(catalog.apply_listing(&entries, 2012, Estimate::OneYear), Ok(2));
    let found = catalog.query_by_table_id(&Some(TablePrefix::B), "20005", &None);
    assert_eq!(
        found,
        vec![TableRecord {
            code: code(TablePrefix::B, "20005", None),
            label: "Sex by Work Experience".to_owned(),
        }]
    );
    assert_eq!(catalog.query_by_table_id(&None, "20005", &None).len(), 2);
    assert!(catalog.query_by_table_id(&Some(TablePrefix::B), "99999", &None).is_empty());
    assert!(catalog.query_by_table_id(&None, "20005", &Some("A".to_owned())).is_empty());
}

#[test]
fn first_table_label_wins_and_years_accumulate() {
    let mut catalog = Catalog::new();
    let first = vec![entry("B01001_001E", "Total:", "B01001.  Sex by Age")];
    let second = vec![entry("B01001_001E", "Total:", "B01001.  Sex And Age")];
    catalog.apply_listing(&first, 2010, Estimate::FiveYear).unwrap();
    catalog.apply_listing(&second, 2011, Estimate::FiveYear).unwrap();
    catalog.apply_listing(&second, 2011, Estimate::OneYear).unwrap();
    assert_eq!(catalog.tables.len(), 1);
    assert_eq!(catalog.tables[0].label, "Sex by Age");
    assert_eq!(catalog.vars.len(), 3);
    let described = catalog.describe_table(TablePrefix::B, "01001", &None);
    assert_eq!(described.len(), 3);
    assert!(catalog.describe_table(TablePrefix::C, "01001", &None).is_empty());
    let years = catalog.query_est_years(TablePrefix::B, "01001", &None);
    assert_eq!(
        years,
        vec![
            EstimateYears { estimate: Estimate::OneYear, years: vec![2011] },
            EstimateYears { estimate: Estimate::FiveYear, years: vec![2010, 2011] },
        ]
    );
    assert_eq!(
        format_est_years(&years),
        "ACS 1-year estimate: [2011]\nACS 5-year estimate: [2010, 2011]\n"
    );
}

#[test]
fn a_failing_entry_leaves_the_catalog_unchanged() {
    let mut catalog = Catalog::new();
    let entries = vec![
        entry("B01001_001E", "Total:", "B01001.  Sex by Age"),
        entry("B01001_002X", "Male", "B01001.  Sex by Age"),
    ];
    assert_eq!(
        catalog.apply_listing(&entries, 2010, Estimate::FiveYear),
        Err(ParseError { token: Token::VarType, rest: b"X".to_vec() })
    );
    assert_eq!(catalog, Catalog::new());
}

#[test]
fn refresh_with_one_failed_fetch_keeps_the_others() {
    let plan = refresh_plan(2011, 2014, &vec![Estimate::FiveYear, Estimate::OneYear]);
    assert_eq!(plan.len(), 6);
    assert_eq!(plan[0], (2011, Estimate::FiveYear));
    assert_eq!(plan[5], (2013, Estimate::OneYear));
    let mut listings = Vec::new();
    let mut failures = Vec::new();
    for (year, est) in plan {
        let fetched = if year == 2012 && est == Estimate::FiveYear {
            Err("connection reset".to_owned())
        } else {
            Ok(listing(&[("B01001_001E", "Total:", "B01001.  Sex by Age")]))
        };
        match read_fetched(year, est, fetched) {
            Ok(l) => listings.push(l),
            Err(e) => failures.push((year, est, e)),
        }
    }
    assert_eq!(
        failures,
        vec![(2012, Estimate::FiveYear, StepError::Fetch("connection reset".to_owned()))]
    );
    let mut catalog = Catalog::new();
    let outcomes = catalog.rebuild(&listings);
    assert_eq!(outcomes, vec![Ok(1); 5]);
    assert_eq!(catalog.vars.len(), 5);
    assert_eq!(catalog.est_years.len(), 5);
    let years = catalog.query_est_years(TablePrefix::B, "01001", &None);
    assert_eq!(years[0].years, vec![2011, 2012, 2013]);
    assert_eq!(years[1].years, vec![2011, 2013]);
}

#[test]
fn undecodable_listing_is_a_decode_failure() {
    assert_eq!(
        read_fetched(2010, Estimate::OneYear, Ok("{not json".to_owned())),
        Err(StepError::Decode)
    );
}

#[test]
fn refreshing_twice_from_the_same_data_gives_the_same_catalog() {
    let text = listing(&[
        ("B01001_001E", "Total:", "B01001.  Sex by Age"),
        ("C01001_001M", "Total:", "C01001.  Sex by Age"),
    ]);
    let listings: Vec<Listing> = vec![read_fetched(2015, Estimate::FiveYear, Ok(text)).unwrap()];
    assert_eq!(listings[0].entries.len(), 3);
    assert_eq!(listings[0].entries[1], entry("B01001_001E", "Total:", "B01001.  Sex by Age"));
    assert_eq!(listings[0].entries[0], entry("for", "geography", ""));
    let mut once = Catalog::new();
    once.rebuild(&listings);
    let mut twice = once.clone();
    twice.rebuild(&listings);
    assert_eq!(twice, once);
    assert_eq!(once.tables.len(), 2);
    assert_eq!(once.vars.len(), 2);
}

#[test]
fn a_listing_that_fails_to_parse_is_left_out() {
    let good = Listing {
        year: 2010,
        estimate: Estimate::FiveYear,
        entries: vec![entry("B01001_001E", "Total:", "B01001.  Sex by Age")],
    };
    let bad = Listing {
        year: 2011,
        estimate: Estimate::FiveYear,
        entries: vec![entry("B01001_001E", "Total:", "Sex by Age")],
    };
    let mut catalog = Catalog::new();
    let outcomes = catalog.rebuild(&vec![good, bad]);
    assert_eq!(outcomes[0], Ok(1));
    assert_eq!(
        outcomes[1],
        Err(ParseError { token: Token::Prefix, rest: b"Sex by Age".to_vec() })
    );
    assert_eq!(catalog.vars.len(), 1);
}

#[test]
fn index_refuses_keys_out_of_order() {
    let ok = build_index(&vec![(b"a".to_vec(), 1), (b"b".to_vec(), 2)]).unwrap();
    assert_eq!(ok.get(b"a"), Some(1));
    assert_eq!(ok.get(b"b"), Some(2));
    assert_eq!(ok.get(b"c"), None);
    assert_eq!(
        build_index(&vec![(b"b".to_vec(), 1), (b"a".to_vec(), 2)]).err(),
        Some(IndexError::OutOfOrder(b"a".to_vec()))
    );
    assert_eq!(
        build_index(&vec![(b"a".to_vec(), 1), (b"a".to_vec(), 2)]).err(),
        Some(IndexError::OutOfOrder(b"a".to_vec()))
    );
    let mut builder = SearchBuilder::new();
    builder.insert(b"m", 3).unwrap();
    assert!(builder.insert(b"l", 4).is_err());
    let search = builder.finish();
    assert_eq!(search.get(b"m"), Some(3));
    assert_eq!(search.get(b"l"), None);
}

#[test]
fn fulltext_search_finds_a_table_by_code() {
    let mut catalog = Catalog::new();
    let entries = vec![
        entry("C24126_001E", "Total:", "C24126.  Occupation"),
        entry("B24126_001E", "Total:", "B24126.  Detailed Occupation"),
    ];
    catalog.apply_listing(&entries, 2015, Estimate::FiveYear).unwrap();
    let pairs = catalog.index_pairs();
    assert_eq!(pairs, vec![(b"B24126".to_vec(), 1), (b"C24126".to_vec(), 0)]);
    let search = catalog.build_search().unwrap();
    let found = catalog.fulltext_search(&search, "b24126");
    assert_eq!(found.len(), 1);
    assert_eq!(found[0].label, "Detailed Occupation");
    assert!(catalog.fulltext_search(&search, "B99999").is_empty());
}

#[test]
fn table_list_and_name_text() {
    let b = TableRecord { code: code(TablePrefix::B, "24126", None), label: "Occupation".to_owned() };
    let c = TableRecord { code: code(TablePrefix::C, "01001", Some("A")), label: "Sex".to_owned() };
    assert_eq!(format_table_name(&b), "B24126 | Occupation\n");
    assert_eq!(
        format_table_records(vec![b, c]),
        "code      | label\n==========|====================\nC01001A | Sex\n\nB24126 | Occupation\n\n"
    );
}

#[test]
fn raw_description_lists_each_version() {
    let records = vec![
        var("002", "Total:!!Male", 2010, Estimate::FiveYear),
        var("001", "Total:", 2010, Estimate::FiveYear),
    ];
    assert_eq!(
        format_describe_table_raw(2010, records.clone()),
        "\nB20005_001E Total:\nB20005_002E Total:!!Male\n\n"
    );
    assert_eq!(format_describe_table_raw(2000, records), "");
}
