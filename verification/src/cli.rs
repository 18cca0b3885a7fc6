//! The command-line surface, as plain data: the application shell parses the
//! arguments and hands them over in these types.

use vstd::prelude::*;

verus! {

/// The parsed command line: one command per invocation.
pub struct CliArgs {
    pub command: Commands,
}

/// Every command the tool offers.
pub enum Commands {
    /// List all records.
    List,
    /// Show a specific record.
    Show(ShowRecordArg),
    /// Add a record.
    Add(AddRecordArg),
    /// Update a record.
    Update(AddRecordArg),
    /// Generate a password.
    Generate(GenerateRecordArg),
}

/// Arguments of the command that shows one record.
pub struct ShowRecordArg {
    pub name: String,
    pub password: String,
}

/// Arguments of the commands that add or update one record.
pub struct AddRecordArg {
    pub name: String,
    pub password: String,
}

/// Arguments of the password-generation command.
pub struct GenerateRecordArg {
    pub length: u16,
}

} // verus!
