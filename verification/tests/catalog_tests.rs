use load_calc::catalog::usable_ahri;
use load_calc::catalog::usable_reading;
use load_calc::catalog::Catalog;
use load_calc::catalog::MachineData;

fn entry(model: &str, code: Option<&str>, ahri: u64) -> MachineData {
    MachineData {
        model_number: model.to_string(),
        machine_code: code.map(|c| c.to_string()),
        ahri: Some(ahri),
        btu_95_min: None,
        btu_lowest_max: None,
        lowest_temp: None,
        btu_5_max: None,
        btu_17_max: None,
        btu_17_rated: None,
        btu_47_max: None,
    }
}

#[test]
fn record_is_found_by_model_number_and_by_machine_code() {
    let catalog = Catalog::from_records(vec![
        entry("KM18H5O", Some("K18"), 1),
        entry("KM24H5O", Some("K24"), 2),
        entry("KM36H5O", None, 3),
    ]);
    assert_eq!(catalog.len(), 3);
    assert_eq!(catalog.get("KM18H5O").unwrap().ahri, Some(1));
    assert_eq!(catalog.get("K18").unwrap().ahri, Some(1));
    assert_eq!(catalog.get("K24").unwrap().model_number, "KM24H5O");
    assert_eq!(catalog.get("KM36H5O").unwrap().ahri, Some(3));
    assert!(catalog.get("XYZ").is_none());
    assert!(catalog.get("").is_none());
    assert!(catalog.get("km18h5o").is_none());
}

#[test]
fn the_record_added_last_answers() {
    let mut catalog = Catalog::new();
    assert!(catalog.get("A").is_none());
    catalog.insert(entry("A", Some("C1"), 1));
    catalog.insert(entry("B", Some("A"), 2));
    catalog.insert(entry("C", Some("C1"), 3));
    assert_eq!(catalog.len(), 3);
    // "A" is the model number of the first and the code of the second.
    assert_eq!(catalog.get("A").unwrap().ahri, Some(2));
    assert_eq!(catalog.get("C1").unwrap().ahri, Some(3));
    assert_eq!(catalog.get("B").unwrap().ahri, Some(2));
    assert_eq!(catalog.get("C").unwrap().ahri, Some(3));
}

#[test]
fn readings_at_or_below_the_sentinel_are_absent() {
    assert_eq!(usable_reading(18_000_000), Some(18_000_000));
    assert_eq!(usable_reading(0), Some(0));
    assert_eq!(usable_reading(-13_000), Some(-13_000));
    assert_eq!(usable_reading(-89_999_999), Some(-89_999_999));
    assert_eq!(usable_reading(-90_000_000), None);
    assert_eq!(usable_reading(-99_999_000), None);
    assert_eq!(usable_reading(i64::MIN), None);
}

#[test]
fn every_reading_above_the_sentinel_is_kept() {
    assert_eq!(usable_reading(2_147_483_647), Some(2_147_483_647));
    assert_eq!(usable_reading(2_147_483_648), Some(2_147_483_648));
    assert_eq!(usable_reading(3_000_000_000), Some(3_000_000_000));
    assert_eq!(usable_reading(i64::MAX), Some(i64::MAX));
}

#[test]
fn certification_number_must_be_positive() {
    assert_eq!(usable_ahri(123456), Some(123456));
    assert_eq!(usable_ahri(1), Some(1));
    assert_eq!(usable_ahri(0), None);
    assert_eq!(usable_ahri(-5), None);
    assert_eq!(usable_ahri(i64::MAX), Some(i64::MAX as u64));
}

#[test]
fn clone_keeps_every_field() {
    let record = MachineData {
        model_number: "KM18H5O".to_string(),
        machine_code: Some("K18H".to_string()),
        ahri: Some(123456),
        btu_95_min: Some(1),
        btu_lowest_max: Some(2),
        lowest_temp: Some(-3),
        btu_5_max: Some(4),
        btu_17_max: Some(5),
        btu_17_rated: Some(6),
        btu_47_max: Some(7),
    };
    let copy = record.clone();
    assert_eq!(copy.model_number, "KM18H5O");
    assert_eq!(copy.machine_code, Some("K18H".to_string()));
    assert_eq!(copy.ahri, Some(123456));
    assert_eq!(copy.btu_95_min, Some(1));
    assert_eq!(copy.btu_lowest_max, Some(2));
    assert_eq!(copy.lowest_temp, Some(-3));
    assert_eq!(copy.btu_5_max, Some(4));
    assert_eq!(copy.btu_17_max, Some(5));
    assert_eq!(copy.btu_17_rated, Some(6));
    assert_eq!(copy.btu_47_max, Some(7));
    let bare = entry("B", None, 9).clone();
    assert_eq!(bare.machine_code, None);
    assert_eq!(bare.btu_95_min, None);
}
