use vstd::prelude::*;

verus! {

/// The error taxonomy of the execution core.
///
/// Every failure of `exec`, of the codec or of a cursor surfaces as one of
/// these; none is silently swallowed and none is retried internally.
#[derive(Clone, Copy, PartialEq, Eq, Structural, Debug)]
pub enum Error {
    /// The backend was unreachable or a connection could not be acquired.
    ConnectionFailure,
    /// The statement could not be rendered to dialect SQL.
    CompileFailure,
    /// A value variant has no encoding as a bind parameter.
    UnsupportedEncoding,
    /// A raw cell cannot be decoded under the requested type.
    UnsupportedDecoding,
    /// The operation variant is not supported by this driver.
    UnsupportedOperation,
    /// An update's optimistic-concurrency precondition matched zero rows.
    PreconditionFailed,
    /// A decoded record's length disagrees with the schema's field count.
    ArityMismatch,
    /// Row contents could not be converted to the target model type.
    ModelDecodeFailure,
}

} // verus!
