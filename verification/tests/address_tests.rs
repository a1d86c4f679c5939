use modbus_translator::address::{address_boundaries_check, parse_address};

#[test]
fn test_parse_address() {
    let temp = parse_address("mb_1_176_input_66/10");
    println!("{:?}", temp);
    assert_eq!(vec!["mb_1_176_input_66"], temp);
    let temp = parse_address("math::abs(mb_1_176_holding_2102 - 2) * (mb_1_176_holding_6189 * (1 - math.min(1, math::abs(mb_1_176_holding_6185))) + mb_1_176_holding_6190 * math.min(1, math::abs(mb_1_176_holding_6185))) + (mb_1_176_holding_2102 - 1) * (mb_1_176_holding_6191 * (1 - (1 - math::max(0, mb_1_176_holding_6186 - 1))) + mb_1_176_holding_6192 * (1 - math::max(0, mb_1_176_holding_6186 - 1)))");
    assert_eq!(
        vec![
            "mb_1_176_holding_2102",
            "mb_1_176_holding_6189",
            "mb_1_176_holding_6185",
            "mb_1_176_holding_6190",
            "mb_1_176_holding_6185",
            "mb_1_176_holding_2102",
            "mb_1_176_holding_6191",
            "mb_1_176_holding_6186",
            "mb_1_176_holding_6192",
            "mb_1_176_holding_6186"
        ],
        temp
    );
}

#[test]
fn parse_address_takes_every_prefix() {
    let found = parse_address("input_1 + holding_2 * p_103 - x_5 + mb_7");
    assert_eq!(vec!["input_1", "holding_2", "p_103", "mb_7"], found);
}

#[test]
fn parse_address_skips_runs_with_other_openings() {
    assert_eq!(Vec::<String>::new(), parse_address("math::min(1, 2) + max(10, 20)"));
    assert_eq!(vec!["mb_2"], parse_address("xmb_1 mb_2"));
    assert_eq!(Vec::<String>::new(), parse_address(""));
    assert_eq!(Vec::<String>::new(), parse_address("m"));
}

#[test]
fn parse_address_stops_at_other_characters() {
    assert_eq!(Vec::<String>::new(), parse_address("MB_1"));
    assert_eq!(vec!["mb_1"], parse_address("mb_1A"));
    assert_eq!(vec!["mb_"], parse_address("mb_é"));
    assert_eq!(vec!["in", "ho_3"], parse_address("in(ho_3)"));
}

#[test]
fn parse_address_whole_address() {
    assert_eq!(vec!["mb_1_176_holding_2102"], parse_address("mb_1_176_holding_2102"));
}

#[test]
fn parse_address_joined_list_round_trip() {
    let list = vec!["mb_1", "p_2", "in_3", "holding_44"];
    let mut text = String::new();
    for a in &list {
        text.push_str(a);
        text.push(',');
    }
    assert_eq!(list, parse_address(&text));
}

#[test]
fn parse_address_concatenation() {
    let a = "mb_1 + p_2 ";
    let b = "in_3 * ho_4";
    let mut expected = parse_address(a);
    expected.extend(parse_address(b));
    assert_eq!(expected, parse_address(&format!("{}{}", a, b)));
}

#[test]
fn parse_address_takes_positions_as_byte_offsets() {
    assert_eq!(vec![""], parse_address("é mb_1"));
    assert_eq!(vec!["a"], parse_address("éé a,mb_1"));
    assert_eq!(vec!["mb_1"], parse_address("mb_1 é"));
}

#[test]
fn address_boundaries() {
    assert!(address_boundaries_check("mb_1 + p_2"));
    assert!(address_boundaries_check("é mb_1"));
    assert!(!address_boundaries_check("éé mb_1"));
    assert!(address_boundaries_check(""));
}
