//! Translation between the external-program formats of two quantum-chemistry
//! programs: the driver's request and report on one side, the worker's input
//! and output on the other.
//!
//! The driver hands a request to this library's caller and expects a report
//! in fields of fixed width; the worker takes an input of its own and prints
//! a report in free form. [`Calculation::from_ext`] reads the request,
//! [`Calculation::qchem_input`] writes the worker's input, and
//! [`Calculation::translate_qchem`] turns the worker's report into the
//! driver's.
pub mod document;
pub mod driver;
pub mod fields;
pub mod layout;
pub mod number;
pub mod report;
pub mod request;
pub mod text;
pub mod worker;

pub use document::Piece;
pub use driver::EncodingError;
pub use number::Real;
pub use report::{ParsedResult, ReportParseError};
pub use request::{Calculation, RequestFormatError};
