//! Arithmetic on quantities with units.
//!
//! A set of unit definitions is turned into a [`UnitTable`]: which base unit
//! each unit has, and which unit the product or the quotient of two units is.
//! An [`Interpretor`] reads commands such as `x = 3 km / 2 hour` against that
//! table. It decides on the units, keeps the units of the variables, and says
//! in [`Step`]s what is to be computed; the numbers themselves are the
//! caller's, in whatever arithmetic the caller has.

pub mod assoc;
pub mod closure;
pub mod declared;
pub mod definitions;
pub mod derivation;
pub mod error;
pub mod evaluation;
pub mod interpretor;
pub mod meaning;
pub mod operator;
pub mod parser;
pub mod step;
pub mod syntax;
pub mod tables;
pub mod taken;
pub mod text;
pub mod unit_table;
pub mod variables;
pub mod words;

pub use definitions::{UnitDefinition, UnitDefinitions};
pub use error::DefinitionError;
pub use interpretor::{Error, Execution, Interpretor};
pub use operator::Operator;
pub use step::Step;
pub use unit_table::{construct_base_units_map, construct_unit_translation_map, UnitTable};
