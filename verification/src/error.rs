//! The ways in which an operation on the store fails.

use crate::model::Failure;
use crate::schema::{ResolveFailure, SchemaResolutionError};
use vstd::string::StringExecFns;
use vstd::prelude::*;

verus! {

/// Why an operation on the store failed.
#[derive(Debug)]
pub enum ServerError {
    /// The map underneath failed.
    SledError(sled::Error),
    /// The path has no schema node.
    SchemaError(SchemaResolutionError),
    /// A key that must be present is absent.
    KeyNotFound,
    /// A record names a field that the schema does not declare.
    ExtraKeyFound,
    /// A record lacks a declared field, or a value is of the wrong kind.
    SchemaMismatch,
    /// An insert aimed at a scalar.
    NonDocumentInsert,
    /// A stored key or value cannot be read back.
    CorruptKey,
}

impl View for ServerError {
    type V = Failure;

    open spec fn view(&self) -> Failure {
        match self {
            ServerError::SledError(_) => Failure::Storage,
            ServerError::SchemaError(e) => Failure::Schema(e@),
            ServerError::KeyNotFound => Failure::KeyNotFound,
            ServerError::ExtraKeyFound => Failure::ExtraKeyFound,
            ServerError::SchemaMismatch => Failure::SchemaMismatch,
            ServerError::NonDocumentInsert => Failure::NonDocumentInsert,
            ServerError::CorruptKey => Failure::CorruptKey,
        }
    }
}

/// `ToString::to_string` on a `sled::Error`: the words that sled has for
/// the failure. Nothing is claimed of them.
#[verifier::external_body]
fn storage_error_text(e: &sled::Error) -> (text: String) {
    e.to_string()
}

/// The words for each kind of failure but that of the map underneath.
pub open spec fn failure_text(failure: Failure) -> Seq<char> {
    match failure {
        Failure::Storage => "storage error"@,
        Failure::Schema(ResolveFailure::UnknownField(name)) => "unknown field: "@ + name,
        Failure::Schema(ResolveFailure::IllegalRefOnScalar) => {
            "path continues through scalar value"@
        },
        Failure::KeyNotFound => "key not found"@,
        Failure::ExtraKeyFound => "extra key found"@,
        Failure::SchemaMismatch => "schema mismatch"@,
        Failure::NonDocumentInsert => {
            "only documents and collections may be inserted, scalar values"@
        },
        Failure::CorruptKey => "corrupt key"@,
    }
}

/// The words with which the report of a failure of the map underneath
/// begins.
pub open spec fn storage_mark() -> Seq<char> {
    "storage error: "@
}

/// Whether `text` reports a failure of the map underneath.
pub open spec fn reports_storage(text: Seq<char>) -> bool {
    storage_mark().is_prefix_of(text)
}

/// Whether `text` is what the error `e` is reported by: the words of its
/// kind, or, for a failure of the map underneath, words that begin with
/// `storage error: `.
pub open spec fn answers_failure(e: ServerError, text: Seq<char>) -> bool {
    if e is SledError {
        reports_storage(text)
    } else {
        text == failure_text(e@)
    }
}

impl ServerError {
    /// The words for this error: those of its kind, or, where the map
    /// underneath failed, `storage error: ` and the words that the map has
    /// for the failure.
    pub fn to_text(&self) -> (text: String)
        ensures
            answers_failure(*self, text@),
    {
        match self {
            ServerError::SledError(e) => {
                let words = storage_error_text(e);
                let text = String::from_str("storage error: ").concat(words.as_str());
                proof {
                    assert(text@.subrange(0, storage_mark().len() as int) =~= storage_mark());
                }
                text
            },
            ServerError::SchemaError(SchemaResolutionError::UnknownField(name)) => {
                String::from_str("unknown field: ").concat(name.as_str())
            },
            ServerError::SchemaError(SchemaResolutionError::IllegalRefOnScalar) => {
                String::from_str("path continues through scalar value")
            },
            ServerError::KeyNotFound => String::from_str("key not found"),
            ServerError::ExtraKeyFound => String::from_str("extra key found"),
            ServerError::SchemaMismatch => String::from_str("schema mismatch"),
            ServerError::NonDocumentInsert => String::from_str(
                "only documents and collections may be inserted, scalar values",
            ),
            ServerError::CorruptKey => String::from_str("corrupt key"),
        }
    }
}

/// Why a step inside a transaction failed.
pub enum TxError {
    /// The request is refused; the transaction is to be given up.
    Abort(ServerError),
    /// The map underneath failed or asks for another try.
    Store(sled::transaction::UnabortableTransactionError),
}

} // verus!
