//! A small table store's front end: a schema-definition language that admits
//! models into a catalogue, and a row-insertion language checked against it.
pub mod basic_types;
pub mod catalogue;
pub mod ddl;
pub mod dml;
pub mod text;
