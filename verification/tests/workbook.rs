use excel2csv::sheets::{
    CsvConfig, OutputFormat, SheetError, SheetSelector, parse_a1_notation, parse_cell_reference,
    parse_sheet_selector, resolve_sheet_index_from_names,
};

fn names(list: &[&str]) -> Vec<String> {
    list.iter().map(|s| String::from(*s)).collect()
}

#[test]
fn test_parse_a1_notation() {
    assert_eq!(parse_a1_notation("A1").unwrap(), (1, 1));
    assert_eq!(parse_a1_notation("B2").unwrap(), (2, 2));
    assert_eq!(parse_a1_notation("Z1").unwrap(), (26, 1));
    assert_eq!(parse_a1_notation("AA1").unwrap(), (27, 1));
    assert_eq!(parse_a1_notation("AB10").unwrap(), (28, 10));
}

#[test]
fn a1_notation_trims_and_ignores_case() {
    assert_eq!(parse_a1_notation("  c3 ").unwrap(), (3, 3));
    assert_eq!(parse_a1_notation("bc23").unwrap(), (55, 23));
}

#[test]
fn a1_notation_rejects_malformed_references() {
    assert_eq!(parse_a1_notation("12A"), None);
    assert_eq!(parse_a1_notation("A"), None);
    assert_eq!(parse_a1_notation(""), None);
    assert_eq!(parse_a1_notation("A-1"), None);
    assert_eq!(parse_a1_notation("A1B"), None);
}

#[test]
fn delimiters_match_their_format() {
    assert_eq!(OutputFormat::Csv.delimiter(), b',');
    assert_eq!(OutputFormat::Tsv.delimiter(), b'\t');
    assert_eq!(OutputFormat::European.delimiter(), b';');
    assert_eq!(OutputFormat::default(), OutputFormat::Csv);
}

#[test]
fn empty_cells_take_the_configured_stand_in() {
    let config = CsvConfig { format: OutputFormat::Csv, empty_value: String::from("N/A") };
    assert_eq!(config.cell_text(String::new()), "N/A");
    assert_eq!(config.cell_text(String::from("7")), "7");
}

#[test]
fn selectors_read_numerals_as_positions() {
    assert_eq!(parse_sheet_selector("0"), SheetSelector::Index(0));
    assert_eq!(parse_sheet_selector("2"), SheetSelector::Index(2));
    assert_eq!(parse_sheet_selector("+3"), SheetSelector::Index(3));
    assert_eq!(parse_sheet_selector("Sheet1"), SheetSelector::Name(String::from("Sheet1")));
    assert_eq!(parse_sheet_selector(""), SheetSelector::Name(String::new()));
    assert_eq!(
        parse_sheet_selector("99999999999999999999999999"),
        SheetSelector::Name(String::from("99999999999999999999999999"))
    );
}

#[test]
fn resolving_by_index_checks_the_range() {
    let ns = names(&["One", "Two"]);
    assert_eq!(resolve_sheet_index_from_names(&SheetSelector::Index(1), &ns), Ok(1));
    assert_eq!(
        resolve_sheet_index_from_names(&SheetSelector::Index(2), &ns),
        Err(SheetError::SheetIndexOutOfRange { index: 2, count: 2 })
    );
}

#[test]
fn resolving_by_name_finds_the_first_match() {
    let ns = names(&["One", "Two", "Two"]);
    assert_eq!(
        resolve_sheet_index_from_names(&SheetSelector::Name(String::from("Two")), &ns),
        Ok(1)
    );
    assert_eq!(
        resolve_sheet_index_from_names(&SheetSelector::Name(String::from("Three")), &ns),
        Err(SheetError::SheetNotFound {
            name: String::from("Three"),
            available: String::from("One, Two, Two"),
        })
    );
}

#[test]
fn cell_references_pick_their_sheet() {
    let ns = names(&["First", "Second"]);
    assert_eq!(
        parse_cell_reference("Second!B3", &ns),
        Ok((String::from("Second"), 2, 3))
    );
    assert_eq!(parse_cell_reference("B3", &ns), Ok((String::from("First"), 2, 3)));
    assert_eq!(parse_cell_reference("bad!", &ns), Err(SheetError::InvalidReference));
    assert_eq!(
        parse_cell_reference("A1", &[]),
        Err(SheetError::SheetNotFound {
            name: String::from("default"),
            available: String::new(),
        })
    );
}
