use rbx_session::localization::{
    entries_from_records, entries_to_json, entry_from_row, localization_table,
    LocalizationEntryCsv, LocalizationEntryJson, LocalizedValue,
};

fn row(cells: &[&str]) -> Vec<String> {
    cells.iter().map(|cell| (*cell).to_owned()).collect()
}

#[test]
fn a_table_becomes_json() {
    let table = "Key,Source,Context,Example,es\nAck,Ack!,,An exclamation of despair,\u{a1}Ay!\n";
    assert_eq!(
        localization_table(table),
        Some("[{\"key\":\"Ack\",\"context\":\"\",\"example\":\"An exclamation of despair\",\
            \"source\":\"Ack!\",\"values\":{\"es\":\"\u{a1}Ay!\"}}]".to_owned()),
    );
}

#[test]
fn a_table_without_rows_is_an_empty_list() {
    assert_eq!(localization_table("Key,Source,Context,Example,es\n"), Some("[]".to_owned()));
    assert_eq!(localization_table(""), Some("[]".to_owned()));
}

#[test]
fn quoted_cells_are_read_and_escaped() {
    let table = "Key,Source,Context,Example\nk,\"a \"\"b\"\", c\nd\",t\t,back\\slash\n";
    assert_eq!(
        localization_table(table),
        Some("[{\"key\":\"k\",\"context\":\"t\\t\",\"example\":\"back\\\\slash\",\
            \"source\":\"a \\\"b\\\", c\\nd\",\"values\":{}}]".to_owned()),
    );
}

#[test]
fn control_characters_are_escaped() {
    let entry = LocalizationEntryJson {
        key: "\u{1}\u{1f}\u{7f}".to_owned(),
        context: "\u{8}\u{c}\r".to_owned(),
        example: "/".to_owned(),
        source: "\u{1f600}".to_owned(),
        values: Vec::new(),
    };
    assert_eq!(
        entries_to_json(&vec![entry]),
        "[{\"key\":\"\\u0001\\u001f\u{7f}\",\"context\":\"\\b\\f\\r\",\"example\":\"/\",\
            \"source\":\"\u{1f600}\",\"values\":{}}]",
    );
}

#[test]
fn a_missing_column_makes_a_table_malformed() {
    assert_eq!(localization_table("Key,Source,Context\na,b,c\n"), None);
    assert_eq!(localization_table("key,source,context,example\na,b,c,d\n"), None);
}

#[test]
fn rows_of_unequal_length_make_a_table_malformed() {
    assert_eq!(localization_table("Key,Source,Context,Example\na,b,c\n"), None);
}

#[test]
fn a_localized_number_makes_a_table_malformed() {
    assert_eq!(localization_table("Key,Source,Context,Example,es\na,b,c,d,5\n"), None);
    assert_eq!(localization_table("Key,Source,Context,Example,es\na,b,c,d,true\n"), None);
    assert!(localization_table("Key,Source,Context,Example,es\n5,5,5,5,five\n").is_some());
}

#[test]
fn a_row_is_read_by_its_header() {
    let entry = entry_from_row(
        &row(&["es", "Source", "Key", "Example", "Context"]),
        &row(&["hola", "hello", "greet", "x", "y"]),
        &vec![true; 5],
    ).unwrap();
    assert_eq!(entry.key, "greet");
    assert_eq!(entry.source, "hello");
    assert_eq!(entry.example, "x");
    assert_eq!(entry.context, "y");
    assert_eq!(entry.values.len(), 1);
    assert_eq!(entry.values[0].locale, "es");
    assert_eq!(entry.values[0].text, "hola");
}

#[test]
fn a_row_with_a_cell_that_is_no_text_is_refused() {
    let header = row(&["Key", "Source", "Context", "Example", "es"]);
    let cells = row(&["a", "b", "c", "d", "e"]);
    assert!(entry_from_row(&header, &cells, &vec![true, true, true, true, false]).is_none());
    assert!(entry_from_row(&header, &cells, &vec![false, false, false, false, true]).is_some());
}

#[test]
fn the_first_record_is_the_header() {
    let records = vec![row(&["Key", "Source", "Context", "Example"]), row(&["a", "b", "c", "d"])];
    let entries = entries_from_records(&records).unwrap();
    assert_eq!(entries.len(), 1);
    assert_eq!(entries[0].key, "a");
}

#[test]
fn to_json_keeps_every_field() {
    let json = LocalizationEntryCsv {
        key: "k".to_owned(),
        context: "c".to_owned(),
        example: "e".to_owned(),
        source: "s".to_owned(),
        values: vec![LocalizedValue { locale: "es".to_owned(), text: "t".to_owned() }],
    }.to_json();
    assert_eq!(
        entries_to_json(&vec![json]),
        "[{\"key\":\"k\",\"context\":\"c\",\"example\":\"e\",\"source\":\"s\",\"values\":{\"es\":\"t\"}}]",
    );
}
