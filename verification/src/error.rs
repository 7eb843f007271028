//! The failures that the engine reports.

use vstd::prelude::*;

verus! {

/// Why an operation failed.
#[derive(Clone, Debug, PartialEq, Eq)]
pub enum Error {
    /// The column families or options given at open do not fit what the
    /// database holds. The text says which.
    ConfigurationError(String),
    /// Another writable handle holds the database's exclusive lock.
    LockHeld,
    /// No database lies at the path.
    PathError,
    /// The call names something that does not exist, or asks for what the
    /// handle or the column family cannot do.
    InvalidArgument,
    /// The storage layer takes no further write.
    IOError,
    /// What the database holds is not consistent.
    CorruptionError,
}

/// The text that begins every report of column families left unopened.
pub open spec fn not_opened_text() -> Seq<char> {
    "Invalid argument: Column families not opened: "@
}

impl Error {
    /// The failure's text.
    pub fn message(&self) -> (s: String)
        ensures
            self matches Error::ConfigurationError(m) ==> s@ == m@,
            self is LockHeld ==> s@ == "IO error: lock held by another handle"@,
            self is PathError ==> s@ == "IO error: No such file or directory"@,
            self is InvalidArgument ==> s@ == "Invalid argument"@,
            self is IOError ==> s@ == "IO error"@,
            self is CorruptionError ==> s@ == "Corruption"@,
    {
        match self {
            Error::ConfigurationError(m) => m.clone(),
            Error::LockHeld => "IO error: lock held by another handle".to_owned(),
            Error::PathError => "IO error: No such file or directory".to_owned(),
            Error::InvalidArgument => "Invalid argument".to_owned(),
            Error::IOError => "IO error".to_owned(),
            Error::CorruptionError => "Corruption".to_owned(),
        }
    }

    /// The report that the column family `name`, which the database holds,
    /// was not named at open.
    pub fn not_opened(name: &str) -> (e: Error)
        ensures
            e matches Error::ConfigurationError(m) && m@ == not_opened_text() + name@,
    {
        let mut m = "Invalid argument: Column families not opened: ".to_owned();
        m.append(name);
        Error::ConfigurationError(m)
    }
}

} // verus!
