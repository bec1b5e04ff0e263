use load_calc::aggregation::aggregate;
use load_calc::aggregation::ModelQuantity;
use load_calc::catalog::Catalog;
use load_calc::catalog::MachineData;
use load_calc::demand::parse_user_input;
use load_calc::demand::DemandEntry;
use load_calc::report::make_row;
use load_calc::report::perform_calculation;
use load_calc::report::recommend_range;
use load_calc::report::CalculationTotals;
use load_calc::report::summary_lines;
use load_calc::report::Report;
use load_calc::report::SummaryLabel;
use load_calc::report::SummaryLine;
use load_calc::text::chars_of;
use load_calc::text::rank;
use load_calc::text::same_text;
use load_calc::text::Rank;

fn model(model: &str, code: Option<&str>) -> MachineData {
    MachineData {
        model_number: model.to_string(),
        machine_code: code.map(|c| c.to_string()),
        ahri: None,
        btu_95_min: None,
        btu_lowest_max: None,
        lowest_temp: None,
        btu_5_max: None,
        btu_17_max: None,
        btu_17_rated: None,
        btu_47_max: None,
    }
}

fn km18() -> MachineData {
    let mut r = model("KM18H5O", Some("K18H"));
    r.ahri = Some(123456);
    r.btu_95_min = Some(18_000_000);
    r.btu_17_max = Some(15_000_000);
    r.btu_5_max = Some(12_000_000);
    r
}

fn km24() -> MachineData {
    let mut r = model("KM24H5O", Some("K24H"));
    r.btu_95_min = Some(24_000_000);
    r.lowest_temp = Some(-13_000);
    r.btu_lowest_max = Some(16_000_000);
    r.btu_5_max = Some(20_500_000);
    r.btu_17_max = Some(23_000_000);
    r.btu_17_rated = Some(21_000_000);
    r.btu_47_max = Some(27_000_000);
    r
}

fn run(catalog: &Catalog, input: &[&str], design_temp: i64) -> Report {
    let list: Vec<String> = input.iter().map(|s| s.to_string()).collect();
    let demand = parse_user_input(&list).unwrap();
    perform_calculation(&demand, catalog, design_temp).unwrap()
}

fn pairs(entries: &Vec<DemandEntry>) -> Vec<(String, u32)> {
    entries.iter().map(|e| (e.identifier.clone(), e.quantity)).collect()
}

fn models(entries: &Vec<ModelQuantity>) -> Vec<(String, u128)> {
    entries.iter().map(|e| (e.model_number.clone(), e.quantity)).collect()
}

fn zero_totals() -> CalculationTotals {
    CalculationTotals {
        total_btu_95_min: 0,
        total_btu_5_max: 0,
        total_btu_17_max: 0,
        total_btu_17_rated: 0,
        total_btu_design_max: 0,
    }
}

#[test]
fn two_units_of_one_model() {
    let catalog = Catalog::from_records(vec![km18()]);
    let report = run(&catalog, &["KM18H5Ox2"], 17_000);
    assert_eq!(report.rows.len(), 1);
    let row = &report.rows[0];
    assert_eq!(row.model_number, "KM18H5O");
    assert_eq!(row.quantity, 2);
    assert_eq!(row.ahri, Some(123456));
    assert_eq!(row.btu_95_min, 36_000_000);
    assert_eq!(row.btu_design_max, 30_000_000);
    assert_eq!(report.totals.total_btu_95_min, 36_000_000);
    assert_eq!(report.totals.total_btu_5_max, 24_000_000);
    assert_eq!(report.totals.total_btu_17_max, 30_000_000);
    assert_eq!(report.totals.total_btu_17_rated, 0);
    assert_eq!(report.totals.total_btu_design_max, 30_000_000);
    assert!(report.not_found.is_empty());
}

#[test]
fn identifier_without_record_is_listed_and_counts_for_nothing() {
    let catalog = Catalog::from_records(vec![km18(), km24()]);
    // The suffix rule reads nine units of XYZ.
    let report = run(&catalog, &["XYZ9"], 17_000);
    assert!(report.rows.is_empty());
    assert_eq!(pairs(&report.not_found), vec![("XYZ".to_string(), 9)]);
    assert_eq!(report.totals, zero_totals());
    // Without a quantity suffix the identifier is asked for once.
    let report = run(&catalog, &["XYZ"], 17_000);
    assert!(report.rows.is_empty());
    assert_eq!(pairs(&report.not_found), vec![("XYZ".to_string(), 1)]);
    assert_eq!(report.totals, zero_totals());
}

#[test]
fn totals_are_the_sums_over_the_rows() {
    let catalog = Catalog::from_records(vec![km18(), km24()]);
    let report = run(&catalog, &["KM24H5Ox3", "KM18H5Ox2", "nothing", "K24H"], 17_000);
    assert_eq!(report.rows.len(), 2);
    assert_eq!(report.rows[0].model_number, "KM18H5O");
    assert_eq!(report.rows[0].quantity, 2);
    assert_eq!(report.rows[1].model_number, "KM24H5O");
    assert_eq!(report.rows[1].quantity, 4);
    assert_eq!(report.rows[1].btu_95_min, 96_000_000);
    assert_eq!(report.rows[1].btu_5_max, 82_000_000);
    assert_eq!(report.rows[1].btu_17_max, 92_000_000);
    assert_eq!(report.rows[1].btu_17_rated, 84_000_000);
    assert_eq!(report.rows[1].btu_design_max, 92_000_000);
    assert_eq!(report.totals.total_btu_95_min, 2 * 18_000_000 + 4 * 24_000_000);
    assert_eq!(report.totals.total_btu_5_max, 2 * 12_000_000 + 4 * 20_500_000);
    assert_eq!(report.totals.total_btu_17_max, 2 * 15_000_000 + 4 * 23_000_000);
    assert_eq!(report.totals.total_btu_17_rated, 4 * 21_000_000);
    assert_eq!(report.totals.total_btu_design_max, 2 * 15_000_000 + 4 * 23_000_000);
    let mut sum_95 = 0;
    let mut sum_design = 0;
    for row in &report.rows {
        sum_95 += row.btu_95_min;
        sum_design += row.btu_design_max;
    }
    assert_eq!(report.totals.total_btu_95_min, sum_95);
    assert_eq!(report.totals.total_btu_design_max, sum_design);
    assert_eq!(pairs(&report.not_found), vec![("nothing".to_string(), 1)]);
}

#[test]
fn design_temperature_enters_through_interpolation() {
    let catalog = Catalog::from_records(vec![km18(), km24()]);
    let report = run(&catalog, &["K18Hx3", "K24H"], 11_000);
    // KM18H5O: halfway between (5, 12000) and (17, 15000).
    assert_eq!(report.rows[0].btu_design_max, 3 * 13_500_000);
    // KM24H5O: halfway between (5, 20500) and (17, 23000).
    assert_eq!(report.rows[1].btu_design_max, 21_750_000);
    assert_eq!(report.totals.total_btu_design_max, 3 * 13_500_000 + 21_750_000);
    assert_eq!(report.totals.total_btu_17_max, 3 * 15_000_000 + 23_000_000);
}

#[test]
fn absent_capacities_count_as_zero() {
    let catalog = Catalog::from_records(vec![model("BARE", None), km18()]);
    let report = run(&catalog, &["BAREx5", "KM18H5O"], 17_000);
    assert_eq!(report.rows.len(), 2);
    assert_eq!(report.rows[0].model_number, "BARE");
    assert_eq!(report.rows[0].quantity, 5);
    assert_eq!(report.rows[0].ahri, None);
    assert_eq!(report.rows[0].btu_95_min, 0);
    assert_eq!(report.rows[0].btu_design_max, 0);
    assert_eq!(report.totals.total_btu_95_min, 18_000_000);
    assert_eq!(report.totals.total_btu_5_max, 12_000_000);
}

#[test]
fn quantities_reaching_one_model_by_different_identifiers_are_summed() {
    let catalog = Catalog::from_records(vec![km18(), km24()]);
    let list: Vec<String> = ["K18Hx2", "KM18H5Ox3", "K24H", "K18H"].iter().map(|s| s.to_string()).collect();
    let demand = parse_user_input(&list).unwrap();
    let result = aggregate(&demand, &catalog);
    assert_eq!(
        models(&result.resolved),
        vec![("KM18H5O".to_string(), 6), ("KM24H5O".to_string(), 1)]
    );
    assert!(result.not_found.is_empty());
}

#[test]
fn resolved_models_are_sorted_and_unresolved_keep_their_order() {
    let catalog = Catalog::from_records(vec![
        model("Zeta", None),
        model("Alpha", Some("a")),
        model("alpha", None),
        model("Alp", None),
        model("Émile", None),
    ]);
    let list: Vec<String> = ["Zeta", "q-2", "Émilex2", "alpha", "b-1", "a", "Alp", "q-2", "a-0"]
        .iter()
        .map(|s| s.to_string())
        .collect();
    let demand = parse_user_input(&list).unwrap();
    let result = aggregate(&demand, &catalog);
    assert_eq!(
        models(&result.resolved),
        vec![
            ("Alp".to_string(), 1),
            ("Alpha".to_string(), 1),
            ("Zeta".to_string(), 1),
            ("alpha".to_string(), 1),
            ("Émile".to_string(), 2)
        ]
    );
    assert_eq!(
        pairs(&result.not_found),
        vec![("q-2".to_string(), 2), ("b-1".to_string(), 1), ("a-0".to_string(), 1)]
    );
}

#[test]
fn row_is_made_from_the_record_that_the_model_number_finds() {
    // "M1" is the model number of the first record and the code of the second.
    let mut first = model("M1", Some("C1"));
    first.btu_95_min = Some(1_000);
    let mut second = model("X", Some("M1"));
    second.btu_95_min = Some(7_000);
    let catalog = Catalog::from_records(vec![first, second]);
    let report = run(&catalog, &["C1x2"], 17_000);
    assert_eq!(report.rows.len(), 1);
    assert_eq!(report.rows[0].model_number, "X");
    assert_eq!(report.rows[0].quantity, 2);
    assert_eq!(report.rows[0].btu_95_min, 14_000);
    assert_eq!(report.totals.total_btu_95_min, 14_000);
}

#[test]
fn empty_request_gives_an_empty_report() {
    let catalog = Catalog::from_records(vec![km18()]);
    let report = run(&catalog, &[], 17_000);
    assert!(report.rows.is_empty());
    assert!(report.not_found.is_empty());
    assert_eq!(report.totals, zero_totals());
}

#[test]
fn largest_request_of_the_largest_capacities_fits() {
    let mut r = model("BIG", None);
    r.btu_95_min = Some(i32::MAX as i64);
    r.btu_5_max = Some(i32::MIN as i64);
    r.lowest_temp = Some(4_999);
    r.btu_lowest_max = Some(i32::MAX as i64);
    let catalog = Catalog::from_records(vec![r]);
    let report = run(&catalog, &["BIGx4294967295"], i32::MAX as i64);
    assert_eq!(report.totals.total_btu_95_min, 2147483647i128 * 4294967295i128);
    assert_eq!(report.totals.total_btu_5_max, -2147483648i128 * 4294967295i128);
    // One thousandth of a degree apart, the capacities differ by 2^32 - 1.
    let per_unit = 2147483647i128 - (2147483647i128 - 4_999) * 4294967295i128;
    assert_eq!(report.totals.total_btu_design_max, per_unit * 4294967295i128);
}

#[test]
fn recommended_range_divides_by_1_2_and_1_1() {
    let mut totals = zero_totals();
    totals.total_btu_design_max = 66_000_000;
    let range = recommend_range(&totals);
    assert_eq!((range.min, range.mid, range.max), (55_000, 60_000, 66_000));
    totals.total_btu_design_max = 30_000_000;
    let range = recommend_range(&totals);
    assert_eq!((range.min, range.mid, range.max), (25_000, 27_273, 30_000));
    totals.total_btu_design_max = 0;
    let range = recommend_range(&totals);
    assert_eq!((range.min, range.mid, range.max), (0, 0, 0));
}

#[test]
fn recommended_range_is_nearest_to_the_exact_quotient() {
    let mut totals = zero_totals();
    // 600.601 / 1.2 = 500.50083..., 600.601 / 1.1 = 546.0009...
    totals.total_btu_design_max = 600_601;
    let range = recommend_range(&totals);
    assert_eq!((range.min, range.mid, range.max), (501, 546, 601));
    // 600.6 / 1.2 = 500.5 exactly: to the even neighbour.
    totals.total_btu_design_max = 600_600;
    assert_eq!(recommend_range(&totals).min, 500);
    totals.total_btu_design_max = 601_800;
    assert_eq!(recommend_range(&totals).min, 502);
    totals.total_btu_design_max = -600_601;
    let range = recommend_range(&totals);
    assert_eq!((range.min, range.mid, range.max), (-501, -546, -601));
    totals.total_btu_design_max = i128::MAX;
    let range = recommend_range(&totals);
    assert_eq!(range.min, 141784319550391026443072753096570088);
    assert_eq!(range.max, 170141183460469231731687303715884106);
    totals.total_btu_design_max = i128::MIN;
    let range = recommend_range(&totals);
    assert_eq!(range.min, -141784319550391026443072753096570088);
    assert_eq!(range.max, -170141183460469231731687303715884106);
}

#[test]
fn recommended_range_agrees_with_decimal_formatting() {
    let mut totals = zero_totals();
    for total in [600_601i64, 30_000_000, 66_000_000, 15_809_523, 1, 599, 1_199, 123_456_789] {
        totals.total_btu_design_max = total as i128;
        let range = recommend_range(&totals);
        let max = total as f64 / 1000.0;
        assert_eq!(range.min.to_string(), format!("{:.0}", max / 1.2));
        assert_eq!(range.mid.to_string(), format!("{:.0}", max / 1.1));
        assert_eq!(range.max.to_string(), format!("{:.0}", max));
    }
}

#[test]
fn rank_is_the_order_of_strings() {
    let samples = ["", "A", "AB", "Alp", "Alpha", "B", "a", "alpha", "z", "Émile", "é", "日本", "\u{10FFFF}", "~"];
    for a in samples {
        for b in samples {
            let expected = if a < b {
                Rank::Before
            } else if a == b {
                Rank::Same
            } else {
                Rank::After
            };
            assert_eq!(rank(a, b), expected, "{:?} against {:?}", a, b);
            assert_eq!(same_text(a, b), a == b);
        }
    }
}

#[test]
fn chars_of_lists_the_characters() {
    assert_eq!(chars_of(""), vec![]);
    assert_eq!(chars_of("aé日"), vec!['a', 'é', '日']);
}

#[test]
fn summary_lists_the_totals_and_the_design_temperature() {
    let totals = CalculationTotals {
        total_btu_95_min: 36_000_000,
        total_btu_5_max: 24_000_499,
        total_btu_17_max: 30_000_500,
        total_btu_17_rated: 29_999_500,
        total_btu_design_max: -1_501,
    };
    let lines = summary_lines(&totals, 17_500);
    assert_eq!(
        lines,
        vec![
            SummaryLine { label: SummaryLabel::Btu95Min, value: 36_000 },
            SummaryLine { label: SummaryLabel::Btu5Max, value: 24_000 },
            SummaryLine { label: SummaryLabel::Btu17Max, value: 30_000 },
            SummaryLine { label: SummaryLabel::Btu17Rated, value: 30_000 },
            SummaryLine { label: SummaryLabel::BtuDesignMax, value: -2 },
            SummaryLine { label: SummaryLabel::DesignTemp, value: 18 },
        ]
    );
}

#[test]
fn totals_start_at_zero() {
    assert_eq!(CalculationTotals::new(), zero_totals());
    assert_eq!(CalculationTotals::default(), zero_totals());
}

#[test]
fn rows_are_made_from_record_and_quantity() {
    let row = make_row(&km24(), 3, -13_000).unwrap();
    assert_eq!(row.model_number, "KM24H5O");
    assert_eq!(row.quantity, 3);
    assert_eq!(row.ahri, None);
    assert_eq!(row.btu_95_min, 72_000_000);
    assert_eq!(row.btu_5_max, 61_500_000);
    assert_eq!(row.btu_17_max, 69_000_000);
    assert_eq!(row.btu_17_rated, 63_000_000);
    assert_eq!(row.btu_design_max, 48_000_000);
    let none = make_row(&km18(), 0, 17_000).unwrap();
    assert_eq!(none.quantity, 0);
    assert_eq!(none.btu_95_min, 0);
    assert_eq!(none.btu_design_max, 0);
}

#[test]
fn zero_quantity_gives_a_row_of_zeros() {
    let catalog = Catalog::from_records(vec![km18()]);
    let report = run(&catalog, &["KM18H5Ox0"], 17_000);
    assert_eq!(report.rows.len(), 1);
    assert_eq!(report.rows[0].quantity, 0);
    assert_eq!(report.totals, zero_totals());
}

#[test]
fn two_identifiers_of_four_thousand_million_each() {
    let catalog = Catalog::from_records(vec![km18(), km24()]);
    let report = run(&catalog, &["KM18H5Ox4000000000", "KM24H5Ox4000000000"], 17_000);
    assert_eq!(report.rows.len(), 2);
    assert_eq!(report.rows[0].quantity, 4000000000);
    assert_eq!(report.rows[1].quantity, 4000000000);
    assert_eq!(report.totals.total_btu_95_min, 4000000000i128 * (18_000_000 + 24_000_000));
    assert_eq!(report.totals.total_btu_design_max, 4000000000i128 * (15_000_000 + 23_000_000));
}

#[test]
fn quantities_for_one_model_may_exceed_u32_max_together() {
    let catalog = Catalog::from_records(vec![km18()]);
    let report = run(&catalog, &["KM18H5Ox4294967295", "K18Hx4294967295"], 17_000);
    assert_eq!(report.rows.len(), 1);
    assert_eq!(report.rows[0].model_number, "KM18H5O");
    assert_eq!(report.rows[0].quantity, 8589934590);
    assert_eq!(report.rows[0].btu_95_min, 8589934590i128 * 18_000_000);
    assert_eq!(report.totals.total_btu_5_max, 8589934590i128 * 12_000_000);
}

#[test]
fn row_beyond_what_can_be_held_is_not_made() {
    assert!(make_row(&km18(), u128::MAX, 17_000).is_none());
    assert!(make_row(&km18(), 1u128 << 127, 17_000).is_none());
    assert!(make_row(&km18(), 1u128 << 103, 17_000).is_none());
    let fits = make_row(&km18(), 1u128 << 102, 17_000).unwrap();
    assert_eq!(fits.btu_95_min, 18_000_000i128 << 102);
    // Nothing but zeros: any quantity fits.
    let bare = make_row(&model("BARE", None), u128::MAX, 17_000).unwrap();
    assert_eq!(bare.quantity, u128::MAX);
    assert_eq!(bare.btu_design_max, 0);
    // Minus one times 2^127 is the least value that can be held.
    let mut minus = model("MINUS", None);
    minus.btu_95_min = Some(-1);
    let least = make_row(&minus, 1u128 << 127, 17_000).unwrap();
    assert_eq!(least.btu_95_min, i128::MIN);
    assert!(make_row(&minus, (1u128 << 127) + 1, 17_000).is_none());
}

#[test]
fn reading_above_32_bits_counts_in_the_totals() {
    let mut r = model("HUGE", None);
    r.btu_95_min = Some(3_000_000_000);
    r.btu_5_max = Some(i64::MAX);
    r.btu_17_max = Some(5_000_000_000);
    let catalog = Catalog::from_records(vec![r]);
    let report = run(&catalog, &["HUGEx3"], 11_000);
    assert_eq!(report.rows[0].btu_95_min, 9_000_000_000);
    assert_eq!(report.totals.total_btu_95_min, 9_000_000_000);
    assert_eq!(report.totals.total_btu_5_max, 3 * (i64::MAX as i128));
    // Three times the value halfway between (5, 2^63 - 1) and (17, 5000000000),
    // rounded down after the multiplication.
    let threefold = (3 * (i64::MAX as i128 + 5_000_000_000)).div_euclid(2);
    assert_eq!(report.totals.total_btu_design_max, threefold);
    assert_eq!(threefold, 3 * (i64::MAX as i128 + 5_000_000_000).div_euclid(2) + 1);
}

#[test]
fn design_capacity_is_multiplied_before_it_is_rounded() {
    let mut r = model("LINE", None);
    r.btu_5_max = Some(12_000_000);
    r.btu_47_max = Some(20_000_000);
    let catalog = Catalog::from_records(vec![r]);
    // One unit: 15809.523809...
    let report = run(&catalog, &["LINE"], 25_000);
    assert_eq!(report.rows[0].btu_design_max, 15_809_523);
    // A thousand units: 15809523.809..., not a thousand times 15809.523.
    let report = run(&catalog, &["LINEx1000"], 25_000);
    assert_eq!(report.rows[0].btu_design_max, 15_809_523_809);
    assert_eq!(report.totals.total_btu_design_max, 15_809_523_809);
    assert_eq!(summary_lines(&report.totals, 25_000)[4].value, 15_809_524);
    // Forty-two units: exactly 664000.
    let report = run(&catalog, &["LINEx42"], 25_000);
    assert_eq!(report.rows[0].btu_design_max, 664_000_000);
    // Below the range the line falls: -10 degrees gives 9142.857142...
    let report = run(&catalog, &["LINEx7"], -10_000);
    assert_eq!(report.rows[0].btu_design_max, 64_000_000);
    let report = run(&catalog, &["LINEx3"], -10_000);
    assert_eq!(report.rows[0].btu_design_max, 27_428_571);
}
