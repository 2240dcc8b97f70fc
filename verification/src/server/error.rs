//! What can go wrong in the server.

use vstd::prelude::*;
use vstd::string::StringExecFns;

use crate::error::{DbError, ErrorView};
use crate::gateway::hex::{hex_of, uuid_to_hex};
use crate::security::{SecurityError, SecurityErrorView};
use crate::server::database::Database;
use crate::text::{decimal, decimal_text, join2};

verus! {

/// An error of the server.
#[derive(Debug)]
pub enum ServerError {
    /// An operation on the database failed.
    Database(String),
    /// The store failed.
    Storage(DbError),
    /// A message is not what it should be.
    Protocol(String),
    /// The transport failed.
    Transport(String),
    /// The configuration cannot be used.
    Config(String),
    /// Input or output failed.
    Io(String),
    /// A request was refused.
    Security(SecurityError),
}

/// An error of the server in mathematical terms.
pub ghost enum ServerErrorView {
    /// See [`ServerError::Database`].
    Database(Seq<char>),
    /// See [`ServerError::Storage`].
    Storage(ErrorView),
    /// See [`ServerError::Protocol`].
    Protocol(Seq<char>),
    /// See [`ServerError::Transport`].
    Transport(Seq<char>),
    /// See [`ServerError::Config`].
    Config(Seq<char>),
    /// See [`ServerError::Io`].
    Io(Seq<char>),
    /// See [`ServerError::Security`].
    Security(SecurityErrorView),
}

impl View for ServerError {
    type V = ServerErrorView;

    open spec fn view(&self) -> ServerErrorView {
        match *self {
            ServerError::Database(s) => ServerErrorView::Database(s@),
            ServerError::Storage(e) => ServerErrorView::Storage(e@),
            ServerError::Protocol(s) => ServerErrorView::Protocol(s@),
            ServerError::Transport(s) => ServerErrorView::Transport(s@),
            ServerError::Config(s) => ServerErrorView::Config(s@),
            ServerError::Io(s) => ServerErrorView::Io(s@),
            ServerError::Security(e) => ServerErrorView::Security(e@),
        }
    }
}

/// The database itself failed.
pub open spec fn database_failed(e: ServerErrorView) -> bool {
    e == ServerErrorView::Storage(ErrorView::Storage)
}

/// The text of an error of the store.
pub open spec fn store_error_text(e: ErrorView) -> Seq<char> {
    match e {
        ErrorView::Storage => "storage error"@,
        ErrorView::InvalidKey => "invalid key"@,
        ErrorView::InvalidData(text) => "invalid data: "@ + text,
        ErrorView::TransactionConflict(id, expected, actual) => "transaction conflict on entity "@
            + hex_of(id) + ": expected version "@ + decimal(expected as nat) + ", actual version "@
            + decimal(actual as nat),
    }
}

/// Writes out an error of the store.
pub fn store_error_message(e: &DbError) -> (s: String)
    ensures
        s@ == store_error_text(e@),
{
    match e {
        DbError::Storage(_) => "storage error".to_owned(),
        DbError::InvalidKey => "invalid key".to_owned(),
        DbError::InvalidData(text) => join2("invalid data: ", text.as_str()),
        DbError::TransactionConflict { entity_id, expected, actual } => {
            let mut s: String = "transaction conflict on entity ".to_owned();
            s.append(uuid_to_hex(entity_id).as_str());
            s.append(": expected version ");
            s.append(decimal_text(*expected as u128).as_str());
            s.append(", actual version ");
            s.append(decimal_text(*actual as u128).as_str());
            s
        },
    }
}

/// The text of a security error.
pub open spec fn security_error_text(e: SecurityErrorView) -> Seq<char> {
    match e {
        SecurityErrorView::AuthenticationFailed(s) => "authentication failed: "@ + s,
        SecurityErrorView::PermissionDenied(s) => "permission denied: "@ + s,
        SecurityErrorView::CapabilityNotGranted(s) => "capability not granted: "@ + s,
        SecurityErrorView::RlsViolation(s) => "row-level security violation: "@ + s,
        SecurityErrorView::FieldAccessDenied(entity, field) => "field access denied: "@ + entity
            + "."@ + field,
        SecurityErrorView::InvalidCapabilityFormat(s) => "invalid capability format: "@ + s,
        SecurityErrorView::BudgetExceeded(s) => "budget exceeded: "@ + s,
        SecurityErrorView::InvalidContext(s) => "invalid security context: "@ + s,
        SecurityErrorView::PolicyCompilationError(s) => "policy compilation error: "@ + s,
        SecurityErrorView::AuditError(s) => "audit error: "@ + s,
        SecurityErrorView::Storage(s) => "security storage error: "@ + s,
    }
}

/// Writes out a security error.
pub fn security_error_message(e: &SecurityError) -> (s: String)
    ensures
        s@ == security_error_text(e@),
{
    match e {
        SecurityError::AuthenticationFailed(s) => join2("authentication failed: ", s.as_str()),
        SecurityError::PermissionDenied(s) => join2("permission denied: ", s.as_str()),
        SecurityError::CapabilityNotGranted(s) => join2("capability not granted: ", s.as_str()),
        SecurityError::RlsViolation(s) => join2("row-level security violation: ", s.as_str()),
        SecurityError::FieldAccessDenied { entity, field } => {
            let mut t: String = join2("field access denied: ", entity.as_str());
            t.append(".");
            t.append(field.as_str());
            t
        },
        SecurityError::InvalidCapabilityFormat(s) => join2(
            "invalid capability format: ",
            s.as_str(),
        ),
        SecurityError::BudgetExceeded(s) => join2("budget exceeded: ", s.as_str()),
        SecurityError::InvalidContext(s) => join2("invalid security context: ", s.as_str()),
        SecurityError::PolicyCompilationError(s) => join2(
            "policy compilation error: ",
            s.as_str(),
        ),
        SecurityError::AuditError(s) => join2("audit error: ", s.as_str()),
        SecurityError::Storage(s) => join2("security storage error: ", s.as_str()),
    }
}

/// The text of an error of the server.
pub open spec fn server_error_text(e: ServerErrorView) -> Seq<char> {
    match e {
        ServerErrorView::Database(s) => "database error: "@ + s,
        ServerErrorView::Storage(e) => "storage error: "@ + store_error_text(e),
        ServerErrorView::Protocol(s) => "protocol error: "@ + s,
        ServerErrorView::Transport(s) => "transport error: "@ + s,
        ServerErrorView::Config(s) => "configuration error: "@ + s,
        ServerErrorView::Io(s) => "I/O error: "@ + s,
        ServerErrorView::Security(e) => "security error: "@ + security_error_text(e),
    }
}

/// Writes out an error of the server.
pub fn server_error_message(e: &ServerError) -> (s: String)
    ensures
        s@ == server_error_text(e@),
{
    match e {
        ServerError::Database(s) => join2("database error: ", s.as_str()),
        ServerError::Storage(e) => join2("storage error: ", store_error_message(e).as_str()),
        ServerError::Protocol(s) => join2("protocol error: ", s.as_str()),
        ServerError::Transport(s) => join2("transport error: ", s.as_str()),
        ServerError::Config(s) => join2("configuration error: ", s.as_str()),
        ServerError::Io(s) => join2("I/O error: ", s.as_str()),
        ServerError::Security(e) => join2("security error: ", security_error_message(e).as_str()),
    }
}

} // verus!
