use modbus_translator::expression::{evaluate_bit, names_partial_builtin_exec};
use modbus_translator::mapping::{mapping_rows, MappingTable};
use modbus_translator::structs::{Mapping, SensorDatapoint, SensorReadings, ValueType};
use modbus_translator::translator::{
    db_value, front_end_value, resolve_mapping, try_resolve_mapping, resolve_mappings, target_field, translate, translate_single_field_front_end,
    translate_to_front_end, try_translate, DbValue, Formula, FrontEndValue, Resolution,
};

fn readings() -> SensorReadings {
    SensorReadings {
        data: vec![
            SensorDatapoint { address: 0x41, value: 20 },
            SensorDatapoint { address: 0x42, value: 5 },
            SensorDatapoint { address: 0x43, value: 6 },
        ],
    }
}

fn rows() -> Vec<(String, Mapping)> {
    mapping_rows(
        b"SET_TEMP,0X0041,Simple\nroom_temp,0X0041 + 0X0042,Combined\nflags,0X0043 % 4,Bit\nvalve,0X0050,Simple\n",
    )
    .unwrap()
}

fn names(list: &[&str]) -> Vec<String> {
    list.iter().map(|s| s.to_string()).collect()
}

#[test]
fn translate_gives_each_mapped_field_its_value() {
    let fields = names(&["Set_Temp", "room_temp", "flags", "unmapped", "valve"]);
    let result = translate(&readings(), &fields, &rows());
    assert_eq!(4, result.len());
    assert_eq!("Set_Temp", result[0].0);
    assert!(matches!(result[0].1, DbValue::Simple(20)));
    assert_eq!("room_temp", result[1].0);
    match &result[1].1 {
        DbValue::Combined(f) => {
            assert_eq!("0X0041 + 0X0042", f.expression);
            assert_eq!(vec![("0X0041".to_string(), 20u16), ("0X0042".to_string(), 5u16)], f.bindings);
        }
        _ => panic!("expected a combined value"),
    }
    assert_eq!("flags", result[2].0);
    assert!(matches!(result[2].1, DbValue::Bit(2)));
    assert_eq!("valve", result[3].0);
    assert!(matches!(result[3].1, DbValue::Simple(0)));
}

#[test]
fn translate_without_readings_gives_zero() {
    let empty = SensorReadings { data: vec![] };
    let result = translate(&empty, &names(&["set_temp"]), &rows());
    assert_eq!(1, result.len());
    assert!(matches!(result[0].1, DbValue::Simple(0)));
}

#[test]
fn translate_without_mapped_fields_is_empty() {
    let result = translate(&readings(), &names(&["a", "b"]), &rows());
    assert!(result.is_empty());
}

#[test]
fn try_translate_refuses_unreadable_registers() {
    let bad = mapping_rows(b"t,zz,Simple\n").unwrap();
    assert!(try_translate(&readings(), &names(&["t"]), &bad).is_none());
    assert!(try_translate(&readings(), &names(&["other"]), &bad).unwrap().is_empty());
    let ok = try_translate(&readings(), &names(&["set_temp"]), &rows()).unwrap();
    assert!(matches!(ok[0].1, DbValue::Simple(20)));
    let not_integer = mapping_rows(b"t,0X0041 + 0.5,Bit\n").unwrap();
    assert!(try_translate(&readings(), &names(&["t"]), &not_integer).is_none());
}

#[test]
fn front_end_supports_simple_mappings_only() {
    let fields = names(&["set_temp", "room_temp", "FLAGS", "unmapped"]);
    let result = translate_to_front_end(&fields, &rows());
    assert_eq!(3, result.len());
    assert_eq!("set_temp", result[0].0);
    assert!(matches!(&result[0].1, FrontEndValue::SourceField(a) if a == "0X0041"));
    assert_eq!("room_temp", result[1].0);
    assert!(matches!(result[1].1, FrontEndValue::Unsupported));
    assert_eq!("FLAGS", result[2].0);
    assert!(matches!(result[2].1, FrontEndValue::Unsupported));
}

#[test]
fn database_and_front_end_name_the_same_fields() {
    let fields = names(&["valve", "x", "flags", "Set_temp"]);
    let db = translate(&readings(), &fields, &rows());
    let front = translate_to_front_end(&fields, &rows());
    assert_eq!(db.len(), front.len());
    for (d, f) in db.iter().zip(front.iter()) {
        assert_eq!(d.0, f.0);
        assert_eq!(matches!(d.1, DbValue::Simple(_)), matches!(f.1, FrontEndValue::SourceField(_)));
    }
}

#[test]
fn single_field_target() {
    let rows = rows();
    assert_eq!("0X0042".len(), 6);
    assert_eq!("0X0041", translate_single_field_front_end(&rows, "set_temp"));
    assert_eq!(Some("0X0050".to_string()), target_field(&rows, "valve"));
    assert_eq!(None, target_field(&rows, "SET_TEMP"));
    assert_eq!(None, target_field(&rows, "unknown"));
}

#[test]
fn resolve_simple_and_combined() {
    let available = names(&["p_103", "mb_1", "mb_2"]);
    let simple = Mapping { address: "p_103".to_string(), mapping_type: ValueType::Simple };
    assert!(matches!(resolve_mapping(&simple, &available), Resolution::Reading(a) if a == "p_103"));
    let combined = Mapping { address: "MB_1 + mb_2 * 2".to_string(), mapping_type: ValueType::Combined };
    match resolve_mapping(&combined, &available) {
        Resolution::Combined(e) => {
            assert_eq!("mb_1 + mb_2 * 2", e.expression);
            assert_eq!(
                vec![("mb_1".to_string(), "mb_1".to_string()), ("mb_2".to_string(), "mb_2".to_string())],
                e.inputs
            );
        }
        _ => panic!("expected a combined evaluation"),
    }
    let missing = Mapping { address: "mb_1 + mb_3".to_string(), mapping_type: ValueType::Combined };
    assert!(matches!(resolve_mapping(&missing, &available), Resolution::Unavailable(e) if e == "mb_1 + mb_3"));
}

#[test]
fn resolve_bit_leaves_missing_inputs_unbound() {
    let available = names(&["mb_1"]);
    let bit = Mapping { address: "mb_1 + mb_3".to_string(), mapping_type: ValueType::Bit };
    match resolve_mapping(&bit, &available) {
        Resolution::Bit(e) => {
            assert_eq!("mb_1 + mb_3", e.expression);
            assert_eq!(vec![("mb_1".to_string(), "mb_1".to_string())], e.inputs);
        }
        _ => panic!("expected a bit evaluation"),
    }
}

#[test]
fn resolve_mappings_covers_every_key() {
    let mut table = MappingTable::new();
    table.insert("test_value".to_string(), Mapping { address: "p_103".to_string(), mapping_type: ValueType::Simple });
    table.insert("sum".to_string(), Mapping { address: "p_103 + p_104".to_string(), mapping_type: ValueType::Combined });
    table.insert("test_value".to_string(), Mapping { address: "p_105".to_string(), mapping_type: ValueType::Simple });
    let result = resolve_mappings(&table, &names(&["p_103", "p_105"]));
    assert_eq!(2, result.len());
    assert_eq!("test_value", result[0].0);
    assert!(matches!(&result[0].1, Resolution::Reading(a) if a == "p_105"));
    assert_eq!("sum", result[1].0);
    assert!(matches!(&result[1].1, Resolution::Unavailable(e) if e == "p_103 + p_104"));
}

#[test]
fn evaluate_bit_results() {
    let f = Formula { expression: "0X0001 + 1".to_string(), bindings: vec![("0X0001".to_string(), 5)] };
    assert_eq!(Some(6), evaluate_bit(&f));
    let f = Formula { expression: "0X0001 / 2".to_string(), bindings: vec![("0X0001".to_string(), 7)] };
    assert_eq!(Some(3), evaluate_bit(&f));
    let f = Formula { expression: "0X0001 / 2.0".to_string(), bindings: vec![("0X0001".to_string(), 7)] };
    assert_eq!(None, evaluate_bit(&f));
    let f = Formula { expression: "(1 +".to_string(), bindings: vec![] };
    assert_eq!(None, evaluate_bit(&f));
    let f = Formula { expression: "0X0002 + 1".to_string(), bindings: vec![("0X0001".to_string(), 5)] };
    assert_eq!(None, evaluate_bit(&f));
    let f = Formula {
        expression: "0X0001".to_string(),
        bindings: vec![("0X0001".to_string(), 5), ("0X0001".to_string(), 9)],
    };
    assert_eq!(Some(9), evaluate_bit(&f));
}

#[test]
fn db_value_by_kind() {
    let data = readings().data;
    let simple = Mapping { address: "0X0042".to_string(), mapping_type: ValueType::Simple };
    assert!(matches!(db_value(&data, &simple), Some(DbValue::Simple(5))));
    let bit = Mapping { address: "0X0043 * 2".to_string(), mapping_type: ValueType::Bit };
    assert!(matches!(db_value(&data, &bit), Some(DbValue::Bit(12))));
    let not_integer = Mapping { address: "0X0043 / 4.0".to_string(), mapping_type: ValueType::Bit };
    assert!(db_value(&data, &not_integer).is_none());
    let bad = Mapping { address: "0X00zz".to_string(), mapping_type: ValueType::Combined };
    assert!(db_value(&data, &bad).is_none());
    let short = Mapping { address: "0X4".to_string(), mapping_type: ValueType::Bit };
    assert!(db_value(&data, &short).is_none());
}

#[test]
fn front_end_value_by_kind() {
    let simple = Mapping { address: "p_1".to_string(), mapping_type: ValueType::Simple };
    assert!(matches!(front_end_value(&simple), FrontEndValue::SourceField(a) if a == "p_1"));
    let bit = Mapping { address: "p_1 + 1".to_string(), mapping_type: ValueType::Bit };
    assert!(matches!(front_end_value(&bit), FrontEndValue::Unsupported));
}

#[test]
fn partial_builtins_are_named() {
    assert!(names_partial_builtin_exec("shr(0X0041, 2)"));
    assert!(names_partial_builtin_exec("shl(1, 64)"));
    assert!(names_partial_builtin_exec("math::abs(0X0041 - 9)"));
    assert!(names_partial_builtin_exec("len(str::substring(\"é\", 0, 1))"));
    assert!(!names_partial_builtin_exec("0X0041 % 4 + bitand(0X0042, 1)"));
    assert!(!names_partial_builtin_exec(""));
    assert!(!names_partial_builtin_exec("sh"));
    assert!(!names_partial_builtin_exec("absolute + shl_count + math::abs_x"));
    assert!(names_partial_builtin_exec("sh/**/l(1, 64)"));
    assert!(names_partial_builtin_exec("1 // comment"));
    assert!(names_partial_builtin_exec("\"a\"shl(1, 2)"));
}

#[test]
fn bit_formulas_with_partial_builtins_are_left_to_the_caller() {
    let data = readings().data;
    let shifted = Mapping { address: "shr(0X0043, 1)".to_string(), mapping_type: ValueType::Bit };
    match db_value(&data, &shifted) {
        Some(DbValue::BitFormula(f)) => {
            assert_eq!("shr(0X0043, 1)", f.expression);
            assert_eq!(vec![("0X0043".to_string(), 6u16)], f.bindings);
        }
        _ => panic!("expected a bit formula"),
    }
    let masked = Mapping { address: "bitand(0X0043, 2)".to_string(), mapping_type: ValueType::Bit };
    assert!(matches!(db_value(&data, &masked), Some(DbValue::Bit(2))));
}

#[test]
fn try_resolve_mapping_results() {
    let available = names(&["mb_1"]);
    let bad = Mapping { address: "éé mb_1".to_string(), mapping_type: ValueType::Bit };
    assert!(try_resolve_mapping(&bad, &available).is_none());
    let combined = Mapping { address: "É MB_1".to_string(), mapping_type: ValueType::Combined };
    match try_resolve_mapping(&combined, &available) {
        Some(Resolution::Unavailable(e)) => assert_eq!("é mb_1", e),
        _ => panic!("expected an unavailable input"),
    }
    let simple = Mapping { address: "éé mb_1".to_string(), mapping_type: ValueType::Simple };
    assert!(matches!(try_resolve_mapping(&simple, &available), Some(Resolution::Reading(_))));
}
