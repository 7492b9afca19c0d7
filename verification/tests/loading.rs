use names_etl::loader::{parse_record, parse_text, ParsedRow};
use names_etl::record::NameRecord;
use names_etl::store::{Database, LoadError};

fn to_record(row: &ParsedRow) -> NameRecord {
    NameRecord {
        id: row.id,
        name: row.name.clone(),
        total: row.total,
        male_share: row.male_share.parse::<f64>().unwrap().to_bits(),
        female_share: row.female_share.parse::<f64>().unwrap().to_bits(),
        gap: row.gap.parse::<f64>().unwrap().to_bits(),
    }
}

#[test]
fn load_scenario_single_line() {
    let rows = parse_text("9,Jordan,4000,0.50,0.50,0.0\n").unwrap();
    assert_eq!(rows.len(), 1);

    let recs: Vec<NameRecord> = rows.iter().map(to_record).collect();
    let mut db = Database::new();
    let loaded = db.load(recs).unwrap();
    assert_eq!(loaded, 1);

    let stored = db.read();
    assert_eq!(stored.len(), 1);
    assert_eq!(stored[0].id, 9);
    assert_eq!(stored[0].name, "Jordan");
    assert_eq!(stored[0].total, 4000);
    assert_eq!(stored[0].male_share, (0.50f64).to_bits());
    assert_eq!(stored[0].female_share, (0.50f64).to_bits());
    assert_eq!(stored[0].gap, (0.0f64).to_bits());
}

#[test]
fn parse_text_splits_fields_and_rows() {
    let text = "1,Alex,10,0.1,0.9,0.8\n2,\"Kim, Jr\",20,0.2,0.8,0.6\n";
    let rows = parse_text(text).unwrap();
    assert_eq!(rows.len(), 2);
    assert_eq!(rows[0].id, 1);
    assert_eq!(rows[0].name, "Alex");
    assert_eq!(rows[0].total, 10);
    assert_eq!(rows[1].id, 2);
    assert_eq!(rows[1].name, "Kim, Jr");
    assert_eq!(rows[1].gap, "0.6");
}

#[test]
fn text_without_trailing_line_break_parses_too() {
    let rows = parse_text("1,Alex,10,0.1,0.9,0.8").unwrap();
    assert_eq!(rows.len(), 1);
    assert_eq!(rows[0].name, "Alex");
}

#[test]
fn empty_text_parses_to_no_rows() {
    let rows = parse_text("").unwrap();
    assert_eq!(rows.len(), 0);
}

#[test]
fn wrong_field_count_is_a_structure_error() {
    let result = parse_text("1,Alex,10\n");
    assert!(matches!(result, Err(LoadError::Structure { row: 0, fields: 3 })));
}

#[test]
fn uneven_records_are_a_csv_error() {
    let result = parse_text("1,Alex\n1,Alex,10,0.1,0.9,0.8\n");
    assert!(matches!(result, Err(LoadError::Csv { .. })));
}

#[test]
fn bad_id_is_a_field_error() {
    let result = parse_text("x,Alex,10,0.1,0.9,0.8\n");
    assert!(matches!(result, Err(LoadError::Field { row: 0, field: 0 })));
}

#[test]
fn bad_total_is_a_field_error() {
    let result = parse_text("1,Alex,ten,0.1,0.9,0.8\n");
    assert!(matches!(result, Err(LoadError::Field { row: 0, field: 2 })));
}

#[test]
fn bad_share_is_a_field_error() {
    let result = parse_text("1,Alex,10,0.1,half,0.8\n");
    assert!(matches!(result, Err(LoadError::Field { row: 0, field: 4 })));
}

#[test]
fn first_offending_row_is_reported() {
    let result = parse_text("1,Alex,10,0.1,0.9,0.8\n2,Kim,20,0.2,0.8,bad\n");
    assert!(matches!(result, Err(LoadError::Field { row: 1, field: 5 })));
}

#[test]
fn parse_record_accepts_six_good_fields() {
    let fields: Vec<String> =
        vec!["7".to_string(), "Alex".to_string(), "3000".to_string(), "0.45".to_string(),
            "0.55".to_string(), "0.1".to_string()];
    let row = parse_record(&fields, 0).unwrap();
    assert_eq!(row.id, 7);
    assert_eq!(row.name, "Alex");
    assert_eq!(row.total, 3000);
    assert_eq!(row.male_share, "0.45");
}

#[test]
fn duplicate_id_during_load_keeps_earlier_rows() {
    let rows =
        parse_text("1,Alex,10,0.1,0.9,0.8\n2,Kim,20,0.2,0.8,0.6\n1,Again,30,0.3,0.7,0.4\n")
            .unwrap();
    let recs: Vec<NameRecord> = rows.iter().map(to_record).collect();

    let mut db = Database::new();
    let result = db.load(recs);
    assert!(matches!(result, Err(LoadError::Constraint { row: 2, id: 1 })));

    let stored = db.read();
    assert_eq!(stored.len(), 2);
    assert_eq!(stored[0].id, 1);
    assert_eq!(stored[0].name, "Alex");
    assert_eq!(stored[1].id, 2);
}

#[test]
fn load_into_occupied_store_hits_the_existing_key() {
    let mut db = Database::new();
    db.ensure_schema();
    let rows = parse_text("5,Old,1,0.5,0.5,0.0\n").unwrap();
    let recs: Vec<NameRecord> = rows.iter().map(to_record).collect();
    db.load(recs).unwrap();

    let rows = parse_text("5,New,2,0.5,0.5,0.0\n").unwrap();
    let recs: Vec<NameRecord> = rows.iter().map(to_record).collect();
    let result = db.load(recs);
    assert!(matches!(result, Err(LoadError::Constraint { row: 0, id: 5 })));
    assert!(db.read().iter().any(|r| r.id == 5 && r.name == "Old"));
}
