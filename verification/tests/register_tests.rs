use modbus_translator::register::{
    find_reading, formula_inputs, formula_registers, parse_hex, read_register, strip_marker_prefix,
};
use modbus_translator::structs::SensorDatapoint;

fn readings() -> Vec<SensorDatapoint> {
    vec![
        SensorDatapoint { address: 0x41, value: 7 },
        SensorDatapoint { address: 0x42, value: 12 },
        SensorDatapoint { address: 0x41, value: 99 },
        SensorDatapoint { address: 0xab, value: 3 },
        SensorDatapoint { address: 0xffff, value: 32 },
    ]
}

#[test]
fn parse_hex_accepts_what_from_str_radix_accepts() {
    assert_eq!(Some(0x41), parse_hex("0041"));
    assert_eq!(Some(31), parse_hex("+1f"));
    assert_eq!(Some(65535), parse_hex("FFFF"));
    assert_eq!(Some(65535), parse_hex("fFfF"));
    assert_eq!(Some(0), parse_hex("0"));
}

#[test]
fn parse_hex_refuses_the_rest() {
    assert_eq!(None, parse_hex(""));
    assert_eq!(None, parse_hex("+"));
    assert_eq!(None, parse_hex("-1"));
    assert_eq!(None, parse_hex("10000"));
    assert_eq!(None, parse_hex("0x41"));
    assert_eq!(None, parse_hex("4 1"));
}

#[test]
fn strip_marker_prefix_removes_every_leading_marker() {
    let s: String = strip_marker_prefix("0X0X0041").into_iter().collect();
    assert_eq!("0041", s);
    let s: String = strip_marker_prefix("00X41").into_iter().collect();
    assert_eq!("00X41", s);
}

#[test]
fn find_reading_takes_the_first() {
    assert_eq!(Some(7), find_reading(&readings(), 0x41));
    assert_eq!(Some(32), find_reading(&readings(), 0xffff));
    assert_eq!(None, find_reading(&readings(), 0x43));
}

#[test]
fn read_register_values() {
    let data = readings();
    assert_eq!(Some(7), read_register(&data, "0X0041"));
    assert_eq!(Some(12), read_register(&data, "0X0042"));
    assert_eq!(Some(0), read_register(&data, "0X0043"));
    assert_eq!(Some(7), read_register(&data, "0X0X0041"));
    assert_eq!(Some(3), read_register(&data, "0X00ab"));
    assert_eq!(None, read_register(&data, "zz"));
    assert_eq!(None, read_register(&data, "0x0041"));
}

#[test]
fn read_register_without_readings_is_zero() {
    assert_eq!(Some(0), read_register(&Vec::new(), "0X0041"));
    assert_eq!(Some(0), read_register(&Vec::new(), "not a register"));
}

#[test]
fn read_register_round_trip() {
    let data = readings();
    for n in [0u16, 0x41, 0x42, 0xab, 0x1234, 0xffff] {
        let text = format!("0X{:04X}", n);
        let expected = data.iter().find(|d| d.address == n).map(|d| d.value).unwrap_or(0);
        assert_eq!(Some(expected), read_register(&data, &text));
    }
}

#[test]
fn formula_inputs_binds_each_register() {
    let data = readings();
    let inputs = formula_inputs(&data, "0X0041 + 0X0042 * 2").unwrap();
    assert_eq!(vec![("0X0041".to_string(), 7u16), ("0X0042".to_string(), 12u16)], inputs);
}

#[test]
fn formula_inputs_names_in_upper_case() {
    let data = readings();
    let inputs = formula_inputs(&data, "0X00ab * 2").unwrap();
    assert_eq!(vec![("0X00AB".to_string(), 3u16)], inputs);
}

#[test]
fn formula_inputs_without_registers() {
    assert_eq!(Some(vec![]), formula_inputs(&readings(), "1 + 2"));
}

#[test]
fn formula_inputs_refuses_short_windows() {
    assert_eq!(None, formula_inputs(&readings(), "1 + 0X41"));
}

#[test]
fn formula_inputs_refuses_windows_that_split_a_character() {
    assert_eq!(None, formula_inputs(&readings(), "0X000é"));
}

#[test]
fn formula_inputs_refuses_unreadable_registers() {
    assert_eq!(None, formula_inputs(&readings(), "0X00zz + 1"));
    assert_eq!(
        Some(vec![("0X00ZZ".to_string(), 0u16)]),
        formula_inputs(&Vec::new(), "0X00zz + 1")
    );
}

#[test]
fn formula_registers_keep_the_register_text() {
    let data = readings();
    assert_eq!(
        Some(vec![("0X00ab".to_string(), 3u16), ("0X0042".to_string(), 12u16)]),
        formula_registers(&data, "0X00ab * 0X0042")
    );
    assert_eq!(None, formula_registers(&data, "0X00"));
}
