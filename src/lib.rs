//! Lowering of quantum circuits, in their canonical JSON-exchangeable model,
//! into the call-based, basic-block intermediate representation of a quantum
//! execution backend, and reconstruction of circuits from that
//! representation.
//!
//! * [`circuit`] holds the circuit data model.
//! * [`ir`] holds the model of an emitted IR function body.
//! * [`lower`] lowers a circuit into an IR function body.
//! * [`lower_laws`] states and proves what lowering guarantees.
//! * [`reconstruct`] rebuilds a circuit from the calls of an IR function.
//! * [`text`] holds the substring and decimal helpers they share.
pub mod circuit;
pub mod ir;
pub mod lower;
pub mod lower_laws;
pub mod reconstruct;
pub mod text;
