use modbus_translator::mapping::{
    create_mapping, mapping_rows, parse_value_type, rows_from_records, table_from_records,
    try_create_mapping, MappingTable,
};
use modbus_translator::structs::{Mapping, ValueType};

const FILE: &str = "set_temp,0X0041,Simple\nroom_temp,0X0041 + 0X0042,Combined\nflags,0X0043 & 1,Bit\nset_temp,0X0044,Simple\n";

#[test]
fn parse_value_type_names() {
    assert_eq!(Some(ValueType::Simple), parse_value_type("Simple"));
    assert_eq!(Some(ValueType::Combined), parse_value_type("Combined"));
    assert_eq!(Some(ValueType::Bit), parse_value_type("Bit"));
    assert_eq!(None, parse_value_type("simple"));
    assert_eq!(None, parse_value_type(""));
}

#[test]
fn mapping_rows_in_file_order() {
    let rows = mapping_rows(FILE.as_bytes()).unwrap();
    assert_eq!(4, rows.len());
    assert_eq!("set_temp", rows[0].0);
    assert_eq!("0X0041", rows[0].1.address);
    assert_eq!(ValueType::Simple, rows[0].1.mapping_type);
    assert_eq!("room_temp", rows[1].0);
    assert_eq!("0X0041 + 0X0042", rows[1].1.address);
    assert_eq!(ValueType::Combined, rows[1].1.mapping_type);
    assert_eq!(ValueType::Bit, rows[2].1.mapping_type);
    assert_eq!("0X0044", rows[3].1.address);
}

#[test]
fn mapping_rows_refuses_unknown_kinds_and_short_records() {
    assert!(mapping_rows(b"a,0X0001,Simple\nb,0X0002,Float\n").is_none());
    assert!(mapping_rows(b"a,0X0001\n").is_none());
    assert_eq!(0, mapping_rows(b"").unwrap().len());
}

#[test]
fn create_mapping_later_row_wins() {
    let table = create_mapping(FILE.as_bytes());
    assert_eq!(3, table.len());
    let m = table.get("set_temp").unwrap();
    assert_eq!("0X0044", m.address);
    assert_eq!(ValueType::Simple, m.mapping_type);
    assert_eq!("0X0043 & 1", table.get("flags").unwrap().address);
    assert!(table.get("Set_Temp").is_none());
    assert!(table.get("unknown").is_none());
}

#[test]
fn try_create_mapping_results() {
    assert!(try_create_mapping(b"a,0X0001,Simple\nb,0X0002,Float\n").is_none());
    let table = try_create_mapping(b"a,0X0001,Simple\n").unwrap();
    assert_eq!(1, table.len());
    assert_eq!("0X0001", table.get("a").unwrap().address);
}

#[test]
fn table_insert_then_get() {
    let mut table = MappingTable::new();
    assert_eq!(0, table.len());
    table.insert(
        "a".to_string(),
        Mapping { address: "0X0001".to_string(), mapping_type: ValueType::Simple },
    );
    table.insert(
        "b".to_string(),
        Mapping { address: "0X0002".to_string(), mapping_type: ValueType::Bit },
    );
    table.insert(
        "a".to_string(),
        Mapping { address: "0X0003".to_string(), mapping_type: ValueType::Combined },
    );
    assert_eq!(2, table.len());
    let a = table.get("a").unwrap();
    assert_eq!("0X0003", a.address);
    assert_eq!(ValueType::Combined, a.mapping_type);
    assert_eq!("0X0002", table.get("b").unwrap().address);
    let (key, mapping) = table.entry(1);
    assert_eq!("b", key);
    assert_eq!(ValueType::Bit, mapping.mapping_type);
}

fn record(key: &str, address: &str, kind: &str) -> Option<(String, String, String)> {
    Some((key.to_string(), address.to_string(), kind.to_string()))
}

#[test]
fn rows_from_records_results() {
    let records = vec![record("a", "0X0001", "Simple"), record("b", "0X0002 * 2", "Combined")];
    let rows = rows_from_records(&records).unwrap();
    assert_eq!(2, rows.len());
    assert_eq!("b", rows[1].0);
    assert_eq!("0X0002 * 2", rows[1].1.address);
    assert_eq!(ValueType::Combined, rows[1].1.mapping_type);
    assert!(rows_from_records(&vec![record("a", "0X0001", "Simple"), None]).is_none());
    assert!(rows_from_records(&vec![record("a", "0X0001", "Bits")]).is_none());
}

#[test]
fn table_from_records_results() {
    let records = vec![
        record("a", "0X0001", "Simple"),
        record("b", "0X0002", "Bit"),
        record("a", "0X0003", "Simple"),
    ];
    let table = table_from_records(&records).unwrap();
    assert_eq!(2, table.len());
    assert_eq!("0X0003", table.get("a").unwrap().address);
    assert!(table_from_records(&vec![None]).is_none());
}

#[test]
fn mapping_duplicate_keeps_fields() {
    let m = Mapping { address: "0X0001".to_string(), mapping_type: ValueType::Bit };
    let d = m.duplicate();
    assert_eq!(m.address, d.address);
    assert_eq!(m.mapping_type, d.mapping_type);
}
