//! The failure kinds of the store and of the surrounding tool.
//!
//! Every failure is fatal to one invocation: the caller prints the diagnostic
//! and terminates, so no kind carries recovery data.

use vstd::prelude::*;

verus! {

/// One kind for each way an invocation can fail.
#[derive(Clone, Copy, Debug, PartialEq, Eq, Structural)]
pub enum RenhancdError {
    /// The persisted document exists but is malformed.
    LoadError,
    /// The persisted document could not be written.
    SaveError,
    /// The target of an update or delete is not in the store.
    PathNotFound,
    /// The target of an insert is already in the store.
    DuplicateInsert,
    /// A weight argument is not a valid non-negative integer.
    WeightParseError,
    /// The host configuration or home directory cannot be determined.
    ConfigResolutionError,
    /// A path known to be ranked could not be deleted.
    ReconciliationInconsistency,
}

/// The diagnostic text that belongs to each failure kind.
pub open spec fn message_of(e: RenhancdError) -> Seq<char> {
    match e {
        RenhancdError::LoadError => "There was an error loading the database!"@,
        RenhancdError::SaveError => "Unable to save the database!"@,
        RenhancdError::PathNotFound => "The path cannot be found!"@,
        RenhancdError::DuplicateInsert => "The path was not inserted successfully!"@,
        RenhancdError::WeightParseError => "The weight should be an integer!"@,
        RenhancdError::ConfigResolutionError => "Cannot retrieve the config directory!"@,
        RenhancdError::ReconciliationInconsistency => "Unable to update the database successfully!"@,
    }
}

impl RenhancdError {
    /// The human-readable diagnostic printed before the invocation terminates.
    pub fn message(&self) -> (r: &'static str)
        ensures
            r@ == message_of(*self),
    {
        match self {
            RenhancdError::LoadError => "There was an error loading the database!",
            RenhancdError::SaveError => "Unable to save the database!",
            RenhancdError::PathNotFound => "The path cannot be found!",
            RenhancdError::DuplicateInsert => "The path was not inserted successfully!",
            RenhancdError::WeightParseError => "The weight should be an integer!",
            RenhancdError::ConfigResolutionError => "Cannot retrieve the config directory!",
            RenhancdError::ReconciliationInconsistency => "Unable to update the database successfully!",
        }
    }
}

} // verus!
