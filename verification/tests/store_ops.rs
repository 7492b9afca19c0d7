use names_etl::record::NameRecord;
use names_etl::store::{Database, StoreError};

fn record(id: i32, name: &str, total: i32, male_share: f64, female_share: f64, gap: f64) -> NameRecord {
    NameRecord {
        id,
        name: name.to_string(),
        total,
        male_share: male_share.to_bits(),
        female_share: female_share.to_bits(),
        gap: gap.to_bits(),
    }
}

fn reset_db() -> Database {
    let mut db = Database::new();
    db.ensure_schema();
    db
}

#[test]
fn test_create() {
    let mut db = reset_db();

    let result = db.create(record(7, "Alex", 3000, 0.45, 0.55, 0.1));
    assert!(result.is_ok(), "Create function failed with {:?}", result);

    let rows = db.read();
    let total = rows
        .iter()
        .find(|r| r.id == 7 && r.name == "Alex")
        .map(|r| r.total)
        .expect("Expected row not found in test_create");
    assert_eq!(total, 3000);
}

#[test]
fn test_read() {
    let mut db = reset_db();
    db.create(record(8, "Taylor", 5000, 0.45, 0.55, 0.1)).unwrap();

    let rows = db.read();
    assert!(rows.iter().any(|r| r.id == 8 && r.name == "Taylor" && r.total == 5000));
}

#[test]
fn test_update() {
    let mut db = reset_db();
    db.create(record(9, "Jordan", 4000, 0.50, 0.50, 0.0)).unwrap();

    let result = db.update(
        9,
        "Jordan Updated",
        4500,
        (0.55f64).to_bits(),
        (0.45f64).to_bits(),
        (0.1f64).to_bits(),
    );
    assert!(result.is_ok(), "Update function failed with {:?}", result);

    let rows = db.read();
    let total = rows
        .iter()
        .find(|r| r.id == 9 && r.name == "Jordan Updated")
        .map(|r| r.total)
        .expect("Expected row not found or update failed in test_update");
    assert_eq!(total, 4500);
}

#[test]
fn test_delete() {
    let mut db = reset_db();
    db.create(record(10, "Chris", 6000, 0.40, 0.60, 0.2)).unwrap();

    let result = db.delete(10);
    assert!(result.is_ok(), "Delete function failed with {:?}", result);

    let count = db.read().iter().filter(|r| r.id == 10).count();
    assert_eq!(count, 0, "Expected no records with id = 10, found {}", count);
}

#[test]
fn round_trip_create_then_read() {
    let mut db = reset_db();
    let rec = record(1, "Sam", 1234, 0.25, 0.75, 0.5);
    db.create(rec.clone()).unwrap();

    let rows = db.read();
    let matching: Vec<&NameRecord> = rows.iter().filter(|r| r.id == 1).collect();
    assert_eq!(matching.len(), 1);
    assert_eq!(*matching[0], rec);
}

#[test]
fn schema_creation_is_idempotent() {
    let mut db = reset_db();
    db.create(record(3, "Kim", 10, 0.5, 0.5, 0.0)).unwrap();
    let before = db.read();

    db.ensure_schema();
    let after = db.read();
    assert_eq!(before, after);

    db.ensure_schema();
    assert_eq!(db.read(), before);
}

#[test]
fn update_of_absent_id_affects_no_row() {
    let mut db = reset_db();
    db.create(record(5, "Ash", 50, 0.5, 0.5, 0.0)).unwrap();

    let affected = db.update(6, "Nobody", 1, 0, 0, 0).unwrap();
    assert_eq!(affected, 0);
    assert!(db.read().iter().any(|r| r.id == 5 && r.name == "Ash" && r.total == 50));
}

#[test]
fn delete_of_absent_id_affects_no_row() {
    let mut db = reset_db();
    let affected = db.delete(42).unwrap();
    assert_eq!(affected, 0);
}

#[test]
fn duplicate_id_is_rejected_and_row_kept() {
    let mut db = reset_db();
    db.create(record(7, "Alex", 3000, 0.45, 0.55, 0.1)).unwrap();

    let result = db.create(record(7, "Impostor", 1, 0.0, 1.0, 1.0));
    assert!(matches!(result, Err(StoreError::Constraint { id: 7 })));

    let rows = db.read();
    assert_eq!(rows.len(), 1);
    assert_eq!(rows[0], record(7, "Alex", 3000, 0.45, 0.55, 0.1));
}

#[test]
fn writes_without_table_are_refused() {
    let mut db = Database::new();
    assert!(matches!(
        db.create(record(1, "Early", 1, 0.5, 0.5, 0.0)),
        Err(StoreError::NoTable)
    ));
    assert!(matches!(db.update(1, "Early", 1, 0, 0, 0), Err(StoreError::NoTable)));
    assert!(matches!(db.delete(1), Err(StoreError::NoTable)));
}

#[test]
fn scenario_create_update_delete() {
    let mut db = reset_db();

    db.create(record(7, "Alex", 3000, 0.45, 0.55, 0.1)).unwrap();
    assert!(db.read().iter().any(|r| *r == record(7, "Alex", 3000, 0.45, 0.55, 0.1)));

    let affected = db
        .update(7, "Alexa", 3100, (0.45f64).to_bits(), (0.55f64).to_bits(), (0.1f64).to_bits())
        .unwrap();
    assert_eq!(affected, 1);
    assert!(db.read().iter().any(|r| r.id == 7 && r.name == "Alexa" && r.total == 3100));

    let affected = db.delete(7).unwrap();
    assert_eq!(affected, 1);
    assert!(!db.read().iter().any(|r| r.id == 7));

    let affected = db.delete(7).unwrap();
    assert_eq!(affected, 0);
}
