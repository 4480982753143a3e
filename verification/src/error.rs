//! The error kinds the parameter model and its callers report.
use vstd::prelude::*;

verus! {

/// `InvalidArgs` covers every defect detected while parsing, merging or
/// validating parameters; `Api` carries a non-success HTTP status and body
/// back from the transport layer, untouched by the parameter model.
#[derive(Debug)]
pub enum Error {
    InvalidArgs(String),
    Api { status: u16, message: String },
}

} // verus!
