use load_calc::demand::parse_user_input;
use load_calc::demand::Demand;
use load_calc::token::ParseError;

fn tokens(list: &[&str]) -> Vec<String> {
    list.iter().map(|s| s.to_string()).collect()
}

fn lines(demand: &Demand) -> Vec<(String, u32)> {
    let mut out = Vec::new();
    for i in 0..demand.len() {
        let line = demand.entry(i);
        out.push((line.identifier.clone(), line.quantity));
    }
    out
}

#[test]
fn empty_input_gives_an_empty_request() {
    let demand = parse_user_input(&[]).unwrap();
    assert_eq!(demand.len(), 0);
    assert_eq!(demand.total(), 0);
}

#[test]
fn quantities_of_one_identifier_are_summed() {
    let demand = parse_user_input(&tokens(&["KM18H5Ox2", "KM18H5O3", "KM18H5O"])).unwrap();
    assert_eq!(lines(&demand), vec![("KM18H5O".to_string(), 6)]);
    assert_eq!(demand.quantity_of("KM18H5O"), 6);
    assert_eq!(demand.total(), 6);
}

#[test]
fn lines_stand_in_order_of_first_mention() {
    let demand = parse_user_input(&tokens(&["Bx2", "Ax1", "Bx3", "C"])).unwrap();
    assert_eq!(
        lines(&demand),
        vec![("B".to_string(), 5), ("A".to_string(), 1), ("C".to_string(), 1)]
    );
    assert_eq!(demand.quantity_of("A"), 1);
    assert_eq!(demand.quantity_of("B"), 5);
    assert_eq!(demand.quantity_of("D"), 0);
    assert_eq!(demand.total(), 7);
}

#[test]
fn reading_twice_gives_the_same_request() {
    let input = tokens(&["KM18H5Ox2", "XYZ9", "KM18H5O1", "123", "abc"]);
    let first = parse_user_input(&input).unwrap();
    let second = parse_user_input(&input).unwrap();
    assert_eq!(lines(&first), lines(&second));
    assert_eq!(
        lines(&first),
        vec![
            ("KM18H5O".to_string(), 3),
            ("XYZ".to_string(), 9),
            ("123".to_string(), 1),
            ("abc".to_string(), 1)
        ]
    );
}

#[test]
fn reading_twice_refuses_the_same_token() {
    let input = tokens(&["Ax1", "Bx4294967296", "Cx4294967297"]);
    for _ in 0..2 {
        match parse_user_input(&input) {
            Err(ParseError::InvalidQuantity(t)) => assert_eq!(t, "Bx4294967296"),
            other => panic!("unexpected: {:?}", other.map(|d| lines(&d))),
        }
    }
}

#[test]
fn each_identifier_holds_at_most_u32_max() {
    let fits = parse_user_input(&tokens(&["Ax4294967294", "Bx1", "A"])).unwrap();
    assert_eq!(lines(&fits), vec![("A".to_string(), 4294967295), ("B".to_string(), 1)]);
    assert_eq!(fits.total(), 4294967296);
    match parse_user_input(&tokens(&["Ax4294967295", "Bx0", "Cx1", "Ax0", "A", "Ax1"])) {
        Err(ParseError::InvalidQuantity(t)) => assert_eq!(t, "A"),
        other => panic!("unexpected: {:?}", other.map(|d| lines(&d))),
    }
}

#[test]
fn quantities_of_different_identifiers_do_not_add_up() {
    let demand = parse_user_input(&tokens(&["Ax4000000000", "Bx4000000000"])).unwrap();
    assert_eq!(
        lines(&demand),
        vec![("A".to_string(), 4000000000), ("B".to_string(), 4000000000)]
    );
    assert_eq!(demand.total(), 8000000000);
    let many = parse_user_input(&tokens(&[
        "Ax4294967295",
        "Bx4294967295",
        "Cx4294967295",
        "Dx4294967295",
    ]))
    .unwrap();
    assert_eq!(many.len(), 4);
    assert_eq!(many.total(), 4 * 4294967295u128);
}

#[test]
fn unreadable_quantity_refuses_the_list() {
    match parse_user_input(&tokens(&["Ax1", "Bx\u{663}", "Cx99999999999"])) {
        Err(ParseError::InvalidQuantity(t)) => assert_eq!(t, "Bx\u{663}"),
        other => panic!("unexpected: {:?}", other.map(|d| lines(&d))),
    }
}

#[test]
fn add_sums_or_appends_and_refuses_what_does_not_fit() {
    let mut demand = Demand::new();
    assert!(demand.add("A".to_string(), 2));
    assert!(demand.add("B".to_string(), 3));
    assert!(demand.add("A".to_string(), 4));
    assert_eq!(lines(&demand), vec![("A".to_string(), 6), ("B".to_string(), 3)]);
    assert!(!demand.add("A".to_string(), 4294967290));
    assert!(!demand.add("B".to_string(), 4294967293));
    assert_eq!(lines(&demand), vec![("A".to_string(), 6), ("B".to_string(), 3)]);
    assert!(demand.add("C".to_string(), 4294967295));
    assert!(demand.add("A".to_string(), 4294967289));
    assert_eq!(demand.quantity_of("A"), 4294967295);
    assert_eq!(demand.quantity_of("C"), 4294967295);
    assert_eq!(demand.total(), 2 * 4294967295u128 + 3);
}

#[test]
fn refused_tokens_leave_nothing_behind() {
    // The first token alone is fine; the list as a whole is refused.
    assert!(parse_user_input(&tokens(&["Ax1"])).is_ok());
    assert!(parse_user_input(&tokens(&["Ax1", "Bx99999999999"])).is_err());
}

#[test]
fn identifiers_differ_by_case_and_by_every_character() {
    let demand = parse_user_input(&tokens(&["abc", "ABC", "abc ", "abcx1", "ab"])).unwrap();
    assert_eq!(
        lines(&demand),
        vec![
            ("abc".to_string(), 2),
            ("ABC".to_string(), 1),
            ("abc ".to_string(), 1),
            ("ab".to_string(), 1)
        ]
    );
}
