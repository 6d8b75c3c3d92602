//! The request-scoped wrapper around a shared database handle, and the
//! mapping of driver-reported failures into the library's typed error.

use vstd::prelude::*;
use crate::models::MongoError;

verus! {

/// The driver's database handle: a cheap, clonable reference to a shared
/// connection pool owned and synchronized entirely by the driver. Opaque to
/// the library; it is only carried through.
#[verifier::external_type_specification]
#[verifier::external_body]
pub struct ExDatabase(mongodb::Database);

/// The driver's error type. Opaque to the library; only its rendered message
/// is read.
#[verifier::external_type_specification]
#[verifier::external_body]
pub struct ExDriverError(mongodb::error::Error);

/// The transport-level error type of std. Opaque to the library; only its
/// rendered message is read.
#[verifier::external_type_specification]
#[verifier::external_body]
pub struct ExIoError(std::io::Error);

/// Relies on the Display impl of std::io::Error: rendering the error yields
/// its message text.
#[verifier::external_body]
fn io_error_text(e: &std::io::Error) -> String {
    format!("{}", e)
}

/// Relies on mongodb::Database::clone (a derived Clone of an Arc-backed
/// handle): the clone is another reference to the same shared pool.
#[verifier::external_body]
fn clone_database(db: &mongodb::Database) -> mongodb::Database {
    db.clone()
}

/// Relies on the Display impl of mongodb::error::Error: rendering the error
/// yields its message text.
#[verifier::external_body]
fn driver_error_text(e: &mongodb::error::Error) -> String {
    format!("{}", e)
}

/// A request-scoped wrapper around the shared database handle. Handing one
/// out never fails; the handle is merely cloned.
pub struct DatabaseConnection(pub mongodb::Database);

impl DatabaseConnection {
    /// Adapt the shared handle into a request-scoped connection.
    pub fn from_database(db: &mongodb::Database) -> DatabaseConnection {
        DatabaseConnection(clone_database(db))
    }
}

impl MongoError {
    /// Wrap a failure reported by the store into the library's typed error,
    /// carrying the driver's rendered message.
    pub fn from_driver(e: &mongodb::error::Error) -> (r: MongoError)
        ensures
            r is Mongo,
    {
        MongoError::Mongo(driver_error_text(e))
    }

    /// Wrap a transport-level failure into the library's typed error,
    /// carrying its rendered message.
    pub fn from_io(e: &std::io::Error) -> (r: MongoError)
        ensures
            r is Io,
    {
        MongoError::Io(io_error_text(e))
    }
}

} // verus!
