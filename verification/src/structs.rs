//! The data types shared by the translators.

use vstd::prelude::*;

verus! {

/// How the value of a mapped field is obtained from the readings.
#[derive(Clone, Copy, Debug, PartialEq, Eq, Structural)]
pub enum ValueType {
    /// The value is the reading at the mapping's address.
    Simple,
    /// The value is a floating-point expression over several readings.
    Combined,
    /// The value is an expression over several readings taken as integers.
    Bit,
}

/// One row of a mapping table: where a field takes its value from.
#[derive(Debug)]
pub struct Mapping {
    /// A single address (for `Simple`) or an expression over addresses.
    pub address: String,
    pub mapping_type: ValueType,
}

impl View for Mapping {
    type V = (Seq<char>, ValueType);

    open spec fn view(&self) -> (Seq<char>, ValueType) {
        (self.address@, self.mapping_type)
    }
}

impl Mapping {
    /// A copy of this mapping.
    pub fn duplicate(&self) -> (result: Mapping)
        ensures
            result@ == self@,
    {
        Mapping { address: self.address.clone(), mapping_type: self.mapping_type }
    }
}

/// One raw register reading: a 16-bit value at a 16-bit address.
#[derive(Clone, Copy, Debug, Default, PartialEq, Eq, Structural)]
pub struct SensorDatapoint {
    pub address: u16,
    pub value: u16,
}

/// A source of raw register readings.
pub trait HasData {
    /// The readings, in order.
    spec fn spec_data(&self) -> Seq<SensorDatapoint>;

    fn data(&self) -> (result: &Vec<SensorDatapoint>)
        ensures
            result@ == self.spec_data(),
    ;
}

/// A list of register readings, as a source of readings.
pub struct SensorReadings {
    pub data: Vec<SensorDatapoint>,
}

impl HasData for SensorReadings {
    open spec fn spec_data(&self) -> Seq<SensorDatapoint> {
        self.data@
    }

    fn data(&self) -> (result: &Vec<SensorDatapoint>) {
        &self.data
    }
}

/// One register reading as a Modbus device reports it: a 16-bit value at a
/// 16-bit register address.
pub struct ModbusDatapoint {
    pub address: u16,
    pub value: u16,
}

/// Name-based access to the fields of a record.
pub trait TranslatorGetterSetter {
    fn field_names(&self) -> Vec<String>;

    fn insert<T: 'static>(&mut self, field_string: &str, value: T) -> Option<()>;
}

} // verus!
