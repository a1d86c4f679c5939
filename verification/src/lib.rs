//! Translation of raw sensor readings into named database and front-end
//! fields, driven by a mapping table.

pub mod address;
pub mod expression;
pub mod lookup;
pub mod mapping;
pub mod register;
pub mod structs;
pub mod text;
pub mod translator;
