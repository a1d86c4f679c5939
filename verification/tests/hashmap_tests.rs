use std::collections::HashMap;

use modbus_translator::mapping::MappingTable;
use modbus_translator::structs::{Mapping, ValueType};
use modbus_translator::translator::{resolve_mappings, try_resolve_mappings, Resolution};

#[test]
fn resolve_mappings_reads_a_simple_value() {
    let mut table = MappingTable::new();
    table.insert(
        "test_value".to_owned(),
        Mapping {
            address: "p_103".to_owned(),
            mapping_type: ValueType::Simple,
        },
    );
    let sensor_data: HashMap<String, f32> = [("p_103".to_owned(), 10.0f32)].into_iter().collect();
    let available: Vec<String> = sensor_data.keys().cloned().collect();
    let mut result: HashMap<String, Option<f32>> = HashMap::new();
    for (key, resolution) in resolve_mappings(&table, &available) {
        let value = match resolution {
            Resolution::Reading(address) => sensor_data.get(&address).copied(),
            _ => None,
        };
        result.insert(key, value);
    }
    println!("{:?}", result);
    assert_eq!(result.get("test_value").unwrap().unwrap(), 10.0);
}

#[test]
fn try_resolve_mappings_refuses_formulas_that_cannot_be_sliced() {
    let mut table = MappingTable::new();
    table.insert(
        "v".to_owned(),
        Mapping { address: "é mb_1".to_owned(), mapping_type: ValueType::Bit },
    );
    assert!(try_resolve_mappings(&table, &vec![]).is_some());
    table.insert(
        "w".to_owned(),
        Mapping { address: "éé mb_2".to_owned(), mapping_type: ValueType::Bit },
    );
    assert!(try_resolve_mappings(&table, &vec![]).is_none());
    let ok = try_resolve_mappings(&MappingTable::new(), &vec![]).unwrap();
    assert!(ok.is_empty());
}
