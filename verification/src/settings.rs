//! Configuration of the embedded-file engine.

use vstd::prelude::*;

verus! {

/// Settings of the SQLite-backed engine: the connection URI of its database
/// file. The URI may carry credentials; anything that prints it should
/// redact them first.
pub struct SqliteSettings {
    pub db_uri: String,
}

impl SqliteSettings {
    /// Settings for the given connection URI.
    pub fn new(db_uri: String) -> (r: SqliteSettings)
        ensures
            r.db_uri@ == db_uri@,
    {
        SqliteSettings { db_uri }
    }
}

impl Clone for SqliteSettings {
    fn clone(&self) -> (r: Self)
        ensures
            r.db_uri@ == self.db_uri@,
    {
        SqliteSettings { db_uri: self.db_uri.clone() }
    }
}

} // verus!
