//! The ways in which building an image can fail.

use vstd::prelude::*;

verus! {

/// Why no image was produced.
#[derive(Debug)]
pub enum ImageError {
    /// The pattern is not a regular expression that the compiler accepts.
    RegexCompile { reason: String },
    /// The directories need more clusters than a 32-bit cluster number or
    /// sector count can address.
    CapacityExceeded,
    /// A state has a directory of zero bytes, which no cluster chain can hold.
    ZeroSizeState,
    /// A state of the enumeration has no entry in the position table.
    InvalidStateReference,
}

impl ImageError {
    /// A sentence for the user.
    pub fn message(&self) -> (text: String)
        ensures
            self matches ImageError::RegexCompile { reason } ==> text@ == reason@,
            self is CapacityExceeded ==> text@ == "State machine exceeds FAT32 capacity"@,
            self is ZeroSizeState ==> text@ == "Zero size state"@,
            self is InvalidStateReference ==> text@ == "Reference to invalid state"@,
    {
        match self {
            ImageError::RegexCompile { reason } => reason.clone(),
            ImageError::CapacityExceeded => "State machine exceeds FAT32 capacity".to_string(),
            ImageError::ZeroSizeState => "Zero size state".to_string(),
            ImageError::InvalidStateReference => "Reference to invalid state".to_string(),
        }
    }
}

} // verus!
