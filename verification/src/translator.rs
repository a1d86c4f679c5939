//! The translators: which value each target field receives from the readings
//! under a mapping table.

use vstd::prelude::*;
use crate::address::{
    address_boundaries_check, address_boundaries_ok, address_tokens, parse_address, string_views,
};
use crate::lookup::{lookup_contents, lookup_from_rows, lowered_rows};
use crate::mapping::{lemma_rows_map_distinct, row_views, rows_map, MappingTable, RowView};
use crate::register::{
    binding_views, formula_bindings, formula_inputs, formula_ok, read_register, register_ok,
    register_value,
};
use crate::structs::{HasData, Mapping, SensorDatapoint, ValueType};
use crate::text::{lowercase, text_equals, to_lowercase};
use crate::expression::{
    bindings_map, evaluate_bit, integer_expression_value, names_partial_builtin,
    names_partial_builtin_exec,
};

verus! {

/// The table that a mapping file's rows give: keys lowercased, a later row
/// replacing an earlier one with the same lowercased key.
pub open spec fn file_table(rows: Seq<RowView>) -> Map<Seq<char>, (Seq<char>, ValueType)> {
    rows_map(lowered_rows(rows))
}

/// The fields, in order, whose lowercased name is a key of the table, each
/// with the mapping found under that key.
pub open spec fn mapped_fields(
    table: Map<Seq<char>, (Seq<char>, ValueType)>,
    fields: Seq<Seq<char>>,
) -> Seq<(Seq<char>, (Seq<char>, ValueType))>
    decreases fields.len(),
{
    if fields.len() == 0 {
        Seq::empty()
    } else {
        let init = mapped_fields(table, fields.drop_last());
        let key = lowercase(fields.last());
        if table.contains_key(key) {
            init.push((fields.last(), table[key]))
        } else {
            init
        }
    }
}

/// The fields whose lowercased name is a key of the table, in order.
pub open spec fn fields_with_mapping(
    table: Map<Seq<char>, (Seq<char>, ValueType)>,
    fields: Seq<Seq<char>>,
) -> Seq<Seq<char>> {
    fields.filter(|f: Seq<char>| table.contains_key(lowercase(f)))
}

/// The fields that receive a value are exactly those whose lowercased name
/// is a key of the table, in their order, each with the mapping under that
/// key; the other fields are skipped.
pub proof fn lemma_mapped_fields_filter(
    table: Map<Seq<char>, (Seq<char>, ValueType)>,
    fields: Seq<Seq<char>>,
)
    ensures
        mapped_fields(table, fields).len() == fields_with_mapping(table, fields).len(),
        forall|i: int|
            0 <= i < mapped_fields(table, fields).len() ==> #[trigger] mapped_fields(table, fields)[i]
                == (fields_with_mapping(table, fields)[i], table[lowercase(
                fields_with_mapping(table, fields)[i],
            )]),
    decreases fields.len(),
{
    reveal(Seq::filter);
    if fields.len() > 0 {
        let init = fields.drop_last();
        lemma_mapped_fields_filter(table, init);
        let last = fields.last();
        if table.contains_key(lowercase(last)) {
            assert(fields_with_mapping(table, fields) == fields_with_mapping(table, init).push(last));
        } else {
            assert(fields_with_mapping(table, fields) == fields_with_mapping(table, init));
        }
    } else {
        assert(fields_with_mapping(table, fields) =~= Seq::<Seq<char>>::empty());
    }
}

/// A formula over register readings: an expression and the value bound to
/// each of its variables.
pub struct Formula {
    pub expression: String,
    pub bindings: Vec<(String, u16)>,
}

/// The value that a database field receives.
pub enum DbValue {
    /// A reading, taken as it is.
    Simple(u16),
    /// A formula, to be evaluated over floating-point numbers.
    Combined(Formula),
    /// The integer value of a formula.
    Bit(i64),
    /// A formula over integers that names one of the builtins that panic on
    /// some arguments (`str::substring`, `shl`, `shr`, `math::abs`); it is
    /// left to the caller to evaluate.
    BitFormula(Formula),
}

/// The integer value of the expression `expression` with its registers
/// bound to their readings in `data`, if it has one.
pub open spec fn bit_value(data: Seq<SensorDatapoint>, expression: Seq<char>) -> Option<i64> {
    integer_expression_value(expression, bindings_map(formula_bindings(data, expression)))
}

/// `f` is the formula for the expression `expression` over `data`.
pub open spec fn formula_matches(f: Formula, data: Seq<SensorDatapoint>, expression: Seq<char>) -> bool {
    f.expression@ == expression && binding_views(f.bindings@) == formula_bindings(data, expression)
}

/// `v` is the value that the mapping `m` gives over `data`.
pub open spec fn db_value_matches(
    v: DbValue,
    data: Seq<SensorDatapoint>,
    m: (Seq<char>, ValueType),
) -> bool {
    match v {
        DbValue::Simple(x) => m.1 == ValueType::Simple && x == register_value(data, m.0),
        DbValue::Combined(f) => m.1 == ValueType::Combined && formula_matches(f, data, m.0),
        DbValue::Bit(x) => m.1 == ValueType::Bit && !names_partial_builtin(m.0) && bit_value(
            data,
            m.0,
        ) == Some(x),
        DbValue::BitFormula(f) => m.1 == ValueType::Bit && names_partial_builtin(m.0)
            && formula_matches(f, data, m.0),
    }
}

/// The mapping `m` can be applied to `data`: its register, or every register
/// of its formula, can be read, and a `Bit` formula that the library
/// evaluates has an integer value.
pub open spec fn mapping_ok(data: Seq<SensorDatapoint>, m: (Seq<char>, ValueType)) -> bool {
    match m.1 {
        ValueType::Simple => register_ok(data, m.0),
        ValueType::Combined => formula_ok(data, m.0),
        ValueType::Bit => formula_ok(data, m.0) && (names_partial_builtin(m.0) || bit_value(
            data,
            m.0,
        ) is Some),
    }
}

/// Every mapping that one of the fields receives can be applied to `data`.
pub open spec fn translation_ok(
    table: Map<Seq<char>, (Seq<char>, ValueType)>,
    fields: Seq<Seq<char>>,
    data: Seq<SensorDatapoint>,
) -> bool {
    forall|j: int|
        0 <= j < fields.len() && #[trigger] table.contains_key(lowercase(fields[j])) ==> mapping_ok(
            data,
            table[lowercase(fields[j])],
        )
}

/// `result` pairs each mapped field, in order, with its value over `data`.
pub open spec fn db_values_match(
    result: Seq<(String, DbValue)>,
    mapped: Seq<(Seq<char>, (Seq<char>, ValueType))>,
    data: Seq<SensorDatapoint>,
) -> bool {
    &&& result.len() == mapped.len()
    &&& forall|i: int|
        0 <= i < result.len() ==> (#[trigger] result[i]).0@ == mapped[i].0 && db_value_matches(
            result[i].1,
            data,
            mapped[i].1,
        )
}

/// The value that a mapping gives over the readings; `None` where the
/// mapping cannot be applied.
pub fn db_value(data: &Vec<SensorDatapoint>, m: &Mapping) -> (result: Option<DbValue>)
    ensures
        result is Some <==> mapping_ok(data@, m@),
        result matches Some(v) ==> db_value_matches(v, data@, m@),
{
    match m.mapping_type {
        ValueType::Simple => match read_register(data, m.address.as_str()) {
            Some(v) => Some(DbValue::Simple(v)),
            None => None,
        },
        ValueType::Combined => match formula_inputs(data, m.address.as_str()) {
            Some(b) => Some(DbValue::Combined(Formula { expression: m.address.clone(), bindings: b })),
            None => None,
        },
        ValueType::Bit => match formula_inputs(data, m.address.as_str()) {
            Some(b) => {
                let formula = Formula { expression: m.address.clone(), bindings: b };
                if names_partial_builtin_exec(m.address.as_str()) {
                    Some(DbValue::BitFormula(formula))
                } else {
                    match evaluate_bit(&formula) {
                        Some(v) => Some(DbValue::Bit(v)),
                        None => None,
                    }
                }
            },
            None => None,
        },
    }
}

/// The database values of the target fields. A field whose lowercased name is
/// a key of the mapping rows (keys lowercased, later rows winning) receives a
/// value: for `Simple` the reading at the mapping's register (0 where there is
/// none), for `Combined` the mapping's expression with each `0X` register
/// bound to its reading, and for `Bit` the integer value of that expression
/// (or, where it names a builtin that panics on some arguments, the
/// expression with its bindings). Fields without a mapping receive nothing.
pub fn translate<Y: HasData>(
    sensor_data: &Y,
    field_names: &Vec<String>,
    rows: &Vec<(String, Mapping)>,
) -> (result: Vec<(String, DbValue)>)
    requires
        translation_ok(
            file_table(row_views(rows@)),
            string_views(field_names@),
            sensor_data.spec_data(),
        ),
    ensures
        db_values_match(
            result@,
            mapped_fields(file_table(row_views(rows@)), string_views(field_names@)),
            sensor_data.spec_data(),
        ),
{
    match try_translate(sensor_data, field_names, rows) {
        Some(values) => values,
        None => {
            assert(false);
            Vec::new()
        },
    }
}

/// As `translate`, but `None` where a mapping that a field receives cannot be
/// applied to the readings (a register that cannot be read, or a `Bit`
/// formula without an integer value).
pub fn try_translate<Y: HasData>(
    sensor_data: &Y,
    field_names: &Vec<String>,
    rows: &Vec<(String, Mapping)>,
) -> (result: Option<Vec<(String, DbValue)>>)
    ensures
        result is Some <==> translation_ok(
            file_table(row_views(rows@)),
            string_views(field_names@),
            sensor_data.spec_data(),
        ),
        result matches Some(v) ==> db_values_match(
            v@,
            mapped_fields(file_table(row_views(rows@)), string_views(field_names@)),
            sensor_data.spec_data(),
        ),
{
    let ghost table = file_table(row_views(rows@));
    let ghost fields = string_views(field_names@);
    let lookup = lookup_from_rows(rows);
    let data = sensor_data.data();
    let mut result: Vec<(String, DbValue)> = Vec::new();
    let n = field_names.len();
    let mut i: usize = 0;
    while i < n
        invariant
            n == field_names@.len(),
            fields == string_views(field_names@),
            table == lookup_contents(lookup),
            table == file_table(row_views(rows@)),
            data@ == sensor_data.spec_data(),
            i <= n,
            forall|j: int|
                0 <= j < i && #[trigger] table.contains_key(lowercase(fields[j])) ==> mapping_ok(
                    data@,
                    table[lowercase(fields[j])],
                ),
            db_values_match(result@, mapped_fields(table, fields.take(i as int)), data@),
        decreases n - i,
    {
        let key = to_lowercase(field_names[i].as_str());
        assert(fields.take(i + 1).drop_last() =~= fields.take(i as int));
        assert(fields[i as int] == field_names@[i as int]@);
        match lookup.get(key.as_str()) {
            Some(m) => {
                match db_value(data, m) {
                    Some(v) => {
                        result.push((field_names[i].clone(), v));
                    },
                    None => {
                        assert(table.contains_key(lowercase(fields[i as int])));
                        assert(!mapping_ok(data@, table[lowercase(fields[i as int])]));
                        assert(!translation_ok(table, fields, data@));
                        return None;
                    },
                }
            },
            None => {},
        }
        i = i + 1;
    }
    assert(fields.take(n as int) =~= fields);
    Some(result)
}

/// The value that a front-end field receives.
pub enum FrontEndValue {
    /// The value of the source field with this name (0 where the source has
    /// no such field).
    SourceField(String),
    /// The mapping is a formula, which the front end does not support; the
    /// field receives 0.
    Unsupported,
}

/// `v` is the front-end value that the mapping `m` gives.
pub open spec fn front_end_matches(v: FrontEndValue, m: (Seq<char>, ValueType)) -> bool {
    match v {
        FrontEndValue::SourceField(a) => m.1 == ValueType::Simple && a@ == m.0,
        FrontEndValue::Unsupported => m.1 != ValueType::Simple,
    }
}

/// `result` pairs each mapped field, in order, with its front-end value.
pub open spec fn front_end_values_match(
    result: Seq<(String, FrontEndValue)>,
    mapped: Seq<(Seq<char>, (Seq<char>, ValueType))>,
) -> bool {
    &&& result.len() == mapped.len()
    &&& forall|i: int|
        0 <= i < result.len() ==> (#[trigger] result[i]).0@ == mapped[i].0 && front_end_matches(
            result[i].1,
            mapped[i].1,
        )
}

/// The front-end value that a mapping gives: its address as the source
/// field for a `Simple` mapping, and `Unsupported` for a formula.
pub fn front_end_value(m: &Mapping) -> (result: FrontEndValue)
    ensures
        front_end_matches(result, m@),
{
    match m.mapping_type {
        ValueType::Simple => FrontEndValue::SourceField(m.address.clone()),
        _ => FrontEndValue::Unsupported,
    }
}

/// The front-end values of the target fields. A field whose lowercased name
/// is a key of the mapping rows receives, for a `Simple` mapping, the value of
/// the source field named by the mapping's address, and for a formula the
/// value 0 (formulas are not supported here).
pub fn translate_to_front_end(field_names: &Vec<String>, rows: &Vec<(String, Mapping)>) -> (result:
    Vec<(String, FrontEndValue)>)
    ensures
        front_end_values_match(
            result@,
            mapped_fields(file_table(row_views(rows@)), string_views(field_names@)),
        ),
{
    let ghost table = file_table(row_views(rows@));
    let ghost fields = string_views(field_names@);
    let lookup = lookup_from_rows(rows);
    let mut result: Vec<(String, FrontEndValue)> = Vec::new();
    let n = field_names.len();
    let mut i: usize = 0;
    while i < n
        invariant
            n == field_names@.len(),
            fields == string_views(field_names@),
            table == lookup_contents(lookup),
            i <= n,
            front_end_values_match(result@, mapped_fields(table, fields.take(i as int))),
        decreases n - i,
    {
        let key = to_lowercase(field_names[i].as_str());
        assert(fields.take(i + 1).drop_last() =~= fields.take(i as int));
        assert(fields[i as int] == field_names@[i as int]@);
        match lookup.get(key.as_str()) {
            Some(m) => {
                result.push((field_names[i].clone(), front_end_value(m)));
            },
            None => {},
        }
        i = i + 1;
    }
    assert(fields.take(n as int) =~= fields);
    result
}

/// The name of the target field that a source field's value goes to: the
/// address of the mapping stored under `source_field` itself (the field name
/// is not lowercased here, while the table's keys are).
pub fn translate_single_field_front_end(rows: &Vec<(String, Mapping)>, source_field: &str) -> (result:
    String)
    requires
        file_table(row_views(rows@)).contains_key(source_field@),
    ensures
        result@ == file_table(row_views(rows@))[source_field@].0,
{
    let lookup = lookup_from_rows(rows);
    match lookup.get(source_field) {
        Some(m) => m.address.clone(),
        None => {
            assert(false);
            String::new()
        },
    }
}

/// As `translate_single_field_front_end`, but `None` where no mapping is
/// stored under `source_field`.
pub fn target_field(rows: &Vec<(String, Mapping)>, source_field: &str) -> (result: Option<String>)
    ensures
        result is Some <==> file_table(row_views(rows@)).contains_key(source_field@),
        result matches Some(t) ==> t@ == file_table(row_views(rows@))[source_field@].0,
{
    let lookup = lookup_from_rows(rows);
    if lookup.get(source_field).is_some() {
        Some(translate_single_field_front_end(rows, source_field))
    } else {
        None
    }
}

/// An expression to evaluate, and for each of its inputs the name of the
/// source reading and the variable it is bound to.
pub struct Evaluation {
    pub expression: String,
    pub inputs: Vec<(String, String)>,
}

/// How the value stored under a table key is obtained from named readings.
pub enum Resolution {
    /// The reading with this name, as it is.
    Reading(String),
    /// A `Combined` formula (lowercased) with an input that has no reading:
    /// no value.
    Unavailable(String),
    /// A `Combined` formula, evaluated over floating-point readings.
    Combined(Evaluation),
    /// A `Bit` formula, evaluated over the readings truncated to integers;
    /// inputs without a reading are left unbound.
    Bit(Evaluation),
}

/// Every address has a reading.
pub open spec fn all_available(vars: Seq<Seq<char>>, available: Seq<Seq<char>>) -> bool {
    forall|i: int| 0 <= i < vars.len() ==> available.contains(#[trigger] vars[i])
}

/// Each address paired with its lowercase form.
pub open spec fn input_pairs(vars: Seq<Seq<char>>) -> Seq<(Seq<char>, Seq<char>)> {
    vars.map_values(|v: Seq<char>| (v, lowercase(v)))
}

/// The addresses that have a reading, each paired with its lowercase form.
pub open spec fn available_pairs(vars: Seq<Seq<char>>, available: Seq<Seq<char>>) -> Seq<
    (Seq<char>, Seq<char>),
>
    decreases vars.len(),
{
    if vars.len() == 0 {
        Seq::empty()
    } else {
        let init = available_pairs(vars.drop_last(), available);
        if available.contains(vars.last()) {
            init.push((vars.last(), lowercase(vars.last())))
        } else {
            init
        }
    }
}

/// The views of input pairs held as strings.
pub open spec fn input_views(inputs: Seq<(String, String)>) -> Seq<(Seq<char>, Seq<char>)> {
    inputs.map_values(|p: (String, String)| (p.0@, p.1@))
}

/// `r` is how the mapping `m` is resolved when the readings named in
/// `available` exist. A `Combined` expression is lowercased before its
/// addresses are taken; a `Bit` expression is not.
pub open spec fn resolution_matches(
    r: Resolution,
    m: (Seq<char>, ValueType),
    available: Seq<Seq<char>>,
) -> bool {
    match r {
        Resolution::Reading(a) => m.1 == ValueType::Simple && a@ == m.0,
        Resolution::Unavailable(e) => m.1 == ValueType::Combined && e@ == lowercase(m.0)
            && !all_available(address_tokens(lowercase(m.0)), available),
        Resolution::Combined(e) => m.1 == ValueType::Combined && all_available(
            address_tokens(lowercase(m.0)),
            available,
        ) && e.expression@ == lowercase(m.0) && input_views(e.inputs@) == input_pairs(
            address_tokens(lowercase(m.0)),
        ),
        Resolution::Bit(e) => m.1 == ValueType::Bit && e.expression@ == m.0 && input_views(
            e.inputs@,
        ) == available_pairs(address_tokens(m.0), available),
    }
}

/// Whether `name` is among the available names.
fn is_available(available: &Vec<String>, name: &str) -> (result: bool)
    ensures
        result == string_views(available@).contains(name@),
{
    let n = available.len();
    let mut i: usize = 0;
    while i < n
        invariant
            n == available@.len(),
            i <= n,
            forall|k: int| 0 <= k < i ==> available@[k]@ != name@,
        decreases n - i,
    {
        if text_equals(available[i].as_str(), name) {
            assert(string_views(available@)[i as int] == name@);
            return true;
        }
        i = i + 1;
    }
    assert forall|k: int| 0 <= k < n implies string_views(available@)[k] != name@ by {
        assert(string_views(available@)[k] == available@[k]@);
    }
    false
}

/// The addresses of the mapping's formula can be sliced out of it (for a
/// `Combined` formula, of its lowercase form).
pub open spec fn mapping_resolvable(m: (Seq<char>, ValueType)) -> bool {
    match m.1 {
        ValueType::Simple => true,
        ValueType::Combined => address_boundaries_ok(lowercase(m.0)),
        ValueType::Bit => address_boundaries_ok(m.0),
    }
}

/// How one mapping is resolved over the available readings.
pub fn resolve_mapping(m: &Mapping, available: &Vec<String>) -> (result: Resolution)
    requires
        mapping_resolvable(m@),
    ensures
        resolution_matches(result, m@, string_views(available@)),
{
    let ghost avail = string_views(available@);
    match m.mapping_type {
        ValueType::Simple => Resolution::Reading(m.address.clone()),
        ValueType::Combined => {
            let expression = to_lowercase(m.address.as_str());
            let vars = parse_address(expression.as_str());
            let ghost vs = string_views(vars@);
            let mut inputs: Vec<(String, String)> = Vec::new();
            let n = vars.len();
            let mut i: usize = 0;
            while i < n
                invariant
                    n == vars@.len(),
                    vs == string_views(vars@),
                    vs == address_tokens(lowercase(m@.0)),
                    expression@ == lowercase(m@.0),
                    m.mapping_type == ValueType::Combined,
                    avail == string_views(available@),
                    i <= n,
                    forall|k: int| 0 <= k < i ==> avail.contains(#[trigger] vs[k]),
                    input_views(inputs@) == input_pairs(vs.take(i as int)),
                decreases n - i,
            {
                assert(vs[i as int] == vars@[i as int]@);
                if !is_available(available, vars[i].as_str()) {
                    assert(!all_available(vs, avail));
                    return Resolution::Unavailable(expression);
                }
                let lowered = to_lowercase(vars[i].as_str());
                let ghost before = input_views(inputs@);
                inputs.push((vars[i].clone(), lowered));
                assert(input_views(inputs@) =~= before.push((vs[i as int], lowercase(vs[i as int]))));
                assert(input_pairs(vs.take(i + 1)) =~= input_pairs(vs.take(i as int)).push(
                    (vs[i as int], lowercase(vs[i as int])),
                ));
                i = i + 1;
            }
            assert(vs.take(n as int) =~= vs);
            Resolution::Combined(Evaluation { expression, inputs })
        },
        ValueType::Bit => {
            let vars = parse_address(m.address.as_str());
            let ghost vs = string_views(vars@);
            let mut inputs: Vec<(String, String)> = Vec::new();
            let n = vars.len();
            let mut i: usize = 0;
            while i < n
                invariant
                    n == vars@.len(),
                    vs == string_views(vars@),
                    vs == address_tokens(m@.0),
                    avail == string_views(available@),
                    i <= n,
                    input_views(inputs@) == available_pairs(vs.take(i as int), avail),
                decreases n - i,
            {
                assert(vs[i as int] == vars@[i as int]@);
                assert(vs.take(i + 1).drop_last() =~= vs.take(i as int));
                if is_available(available, vars[i].as_str()) {
                    let lowered = to_lowercase(vars[i].as_str());
                    let ghost before = input_views(inputs@);
                    inputs.push((vars[i].clone(), lowered));
                    assert(input_views(inputs@) =~= before.push((vs[i as int], lowercase(vs[i as int]))));
                }
                i = i + 1;
            }
            assert(vs.take(n as int) =~= vs);
            Resolution::Bit(Evaluation { expression: m.address.clone(), inputs })
        },
    }
}

/// As `resolve_mapping`, but `None` where the addresses of the mapping's
/// formula cannot be sliced out of it (`mapping_resolvable`).
pub fn try_resolve_mapping(m: &Mapping, available: &Vec<String>) -> (result: Option<Resolution>)
    ensures
        result is Some <==> mapping_resolvable(m@),
        result matches Some(r) ==> resolution_matches(r, m@, string_views(available@)),
{
    let ok = match m.mapping_type {
        ValueType::Simple => true,
        ValueType::Combined => {
            let expression = to_lowercase(m.address.as_str());
            address_boundaries_check(expression.as_str())
        },
        ValueType::Bit => address_boundaries_check(m.address.as_str()),
    };
    if ok {
        Some(resolve_mapping(m, available))
    } else {
        None
    }
}

/// Every row of the table can be resolved (`mapping_resolvable`).
pub open spec fn table_resolvable(rows: Seq<RowView>) -> bool {
    forall|i: int| 0 <= i < rows.len() ==> mapping_resolvable(#[trigger] rows[i].1)
}

/// Whether every row of the table can be resolved.
pub fn table_resolvable_check(table: &MappingTable) -> (result: bool)
    ensures
        result == table_resolvable(table.rows()),
{
    let empty: Vec<String> = Vec::new();
    let n = table.len();
    let mut i: usize = 0;
    while i < n
        invariant
            n == table.rows().len(),
            i <= n,
            forall|k: int| 0 <= k < i ==> mapping_resolvable(#[trigger] table.rows()[k].1),
        decreases n - i,
    {
        let (_, m) = table.entry(i);
        if try_resolve_mapping(m, &empty).is_none() {
            assert(table.rows()[i as int].1 == m@);
            assert(!mapping_resolvable(table.rows()[i as int].1));
            return false;
        }
        i = i + 1;
    }
    true
}

/// `result` holds one entry for each key of `table`, each key once, with how
/// the mapping under that key is resolved when the readings named in
/// `available` exist.
pub open spec fn resolutions_cover(
    result: Seq<(String, Resolution)>,
    table: Map<Seq<char>, (Seq<char>, ValueType)>,
    available: Seq<Seq<char>>,
) -> bool {
    &&& forall|k: Seq<char>|
        #[trigger] table.contains_key(k) ==> exists|i: int| 0 <= i < result.len() && #[trigger] result[i].0@ == k
    &&& forall|i: int|
        0 <= i < result.len() ==> table.contains_key(#[trigger] result[i].0@) && resolution_matches(
            result[i].1,
            table[result[i].0@],
            available,
        )
    &&& forall|i: int, j: int|
        0 <= i < j < result.len() ==> #[trigger] result[i].0@ != #[trigger] result[j].0@
}

/// How the value under each key of the table is obtained when the readings
/// named in `available` exist: one entry per table row, in the table's order,
/// so that every key of the table has exactly one entry.
pub fn resolve_mappings(table: &MappingTable, available: &Vec<String>) -> (result: Vec<
    (String, Resolution),
>)
    requires
        table_resolvable(table.rows()),
    ensures
        result@.len() == table.rows().len(),
        forall|i: int|
            0 <= i < result@.len() ==> (#[trigger] result@[i]).0@ == table.rows()[i].0
                && resolution_matches(result@[i].1, table.rows()[i].1, string_views(available@)),
        resolutions_cover(result@, table@, string_views(available@)),
{
    let mut result: Vec<(String, Resolution)> = Vec::new();
    let n = table.len();
    let mut i: usize = 0;
    while i < n
        invariant
            n == table.rows().len(),
            table_resolvable(table.rows()),
            i <= n,
            result@.len() == i,
            forall|k: int|
                0 <= k < i ==> (#[trigger] result@[k]).0@ == table.rows()[k].0 && resolution_matches(
                    result@[k].1,
                    table.rows()[k].1,
                    string_views(available@),
                ),
        decreases n - i,
    {
        let (key, m) = table.entry(i);
        assert(mapping_resolvable(table.rows()[i as int].1));
        let r = resolve_mapping(m, available);
        result.push((key.clone(), r));
        i = i + 1;
    }
    proof {
        let rows = table.rows();
        let avail = string_views(available@);
        use_type_invariant(table);
        lemma_rows_map_distinct(rows);
        assert forall|k: Seq<char>| #[trigger] table@.contains_key(k) implies exists|i: int|
            0 <= i < result@.len() && #[trigger] result@[i].0@ == k by {
            let j = choose|j: int| 0 <= j < rows.len() && rows[j].0 == k;
            assert(result@[j].0@ == rows[j].0);
        }
        assert forall|i: int| 0 <= i < result@.len() implies table@.contains_key(
            #[trigger] result@[i].0@,
        ) && resolution_matches(result@[i].1, table@[result@[i].0@], avail) by {
            assert(result@[i].0@ == rows[i].0);
        }
        assert forall|i: int, j: int| 0 <= i < j < result@.len() implies #[trigger] result@[i].0@
            != #[trigger] result@[j].0@ by {
            assert(result@[i].0@ == rows[i].0);
            assert(result@[j].0@ == rows[j].0);
        }
    }
    result
}

/// As `resolve_mappings`, but `None` where a row of the table cannot be
/// resolved (`table_resolvable`).
pub fn try_resolve_mappings(table: &MappingTable, available: &Vec<String>) -> (result: Option<
    Vec<(String, Resolution)>,
>)
    ensures
        result is Some <==> table_resolvable(table.rows()),
        result matches Some(v) ==> v@.len() == table.rows().len() && (forall|i: int|
            0 <= i < v@.len() ==> (#[trigger] v@[i]).0@ == table.rows()[i].0
                && resolution_matches(v@[i].1, table.rows()[i].1, string_views(available@)))
            && resolutions_cover(v@, table@, string_views(available@)),
{
    if table_resolvable_check(table) {
        Some(resolve_mappings(table, available))
    } else {
        None
    }
}

/// The database values and the front-end values of the same fields under
/// the same table name the same fields in the same order, and a field has a
/// reading in the one exactly when it has a source field in the other.
pub proof fn lemma_translations_agree(
    table: Map<Seq<char>, (Seq<char>, ValueType)>,
    fields: Seq<Seq<char>>,
    data: Seq<SensorDatapoint>,
    db: Seq<(String, DbValue)>,
    front: Seq<(String, FrontEndValue)>,
)
    requires
        db_values_match(db, mapped_fields(table, fields), data),
        front_end_values_match(front, mapped_fields(table, fields)),
    ensures
        db.len() == front.len(),
        forall|i: int| 0 <= i < db.len() ==> (#[trigger] db[i]).0@ == front[i].0@,
        forall|i: int|
            0 <= i < db.len() ==> ((#[trigger] db[i]).1 is Simple <==> front[i].1 is SourceField),
{
    let mapped = mapped_fields(table, fields);
    assert forall|i: int| 0 <= i < db.len() implies ((#[trigger] db[i]).1 is Simple
        <==> front[i].1 is SourceField) by {
        assert(db_value_matches(db[i].1, data, mapped[i].1));
        assert(front_end_matches(front[i].1, mapped[i].1));
    }
    assert forall|i: int| 0 <= i < db.len() implies (#[trigger] db[i]).0@ == front[i].0@ by {
        assert(db[i].0@ == mapped[i].0);
        assert(front[i].0@ == mapped[i].0);
    }
}

} // verus!
