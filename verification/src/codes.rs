//! The fixed table of result codes shared by every operation of the engine,
//! and the mapping from a code to its wire integer and HTTP status.

use vstd::prelude::*;

verus! {

/// Result code of an engine or service operation.
#[derive(Clone, Copy, PartialEq, Eq, Structural, Debug)]
pub enum Code {
    Success,
    ParamError,
    NotFound,
    AlreadyExists,
    VersionErr,
    PartitionNotLeader,
    FieldTypeErr,
    SpaceNoIndex,
    Timeout,
    EngineStopped,
    EngineFaulted,
    InternalErr,
}

impl Code {
    /// The integer that stands for this code on the wire.
    pub open spec fn spec_wire(self) -> i32 {
        match self {
            Code::Success => 200,
            Code::ParamError => 400,
            Code::NotFound => 404,
            Code::AlreadyExists => 409,
            Code::VersionErr => 410,
            Code::PartitionNotLeader => 421,
            Code::FieldTypeErr => 422,
            Code::SpaceNoIndex => 423,
            Code::Timeout => 424,
            Code::EngineStopped => 425,
            Code::EngineFaulted => 426,
            Code::InternalErr => 500,
        }
    }

    pub fn wire(self) -> (r: i32)
        ensures
            r == self.spec_wire(),
    {
        match self {
            Code::Success => 200,
            Code::ParamError => 400,
            Code::NotFound => 404,
            Code::AlreadyExists => 409,
            Code::VersionErr => 410,
            Code::PartitionNotLeader => 421,
            Code::FieldTypeErr => 422,
            Code::SpaceNoIndex => 423,
            Code::Timeout => 424,
            Code::EngineStopped => 425,
            Code::EngineFaulted => 426,
            Code::InternalErr => 500,
        }
    }

    /// HTTP status derived from the code: validation maps to 400, lookup
    /// misses to 404, conflicts to 409, everything else that failed to 500.
    pub open spec fn spec_http_code(self) -> u16 {
        match self {
            Code::Success => 200,
            Code::ParamError => 400,
            Code::FieldTypeErr => 400,
            Code::VersionErr => 400,
            Code::NotFound => 404,
            Code::AlreadyExists => 409,
            Code::PartitionNotLeader => 502,
            Code::Timeout => 504,
            _ => 500,
        }
    }

    pub fn http_code(self) -> (r: u16)
        ensures
            r == self.spec_http_code(),
    {
        match self {
            Code::Success => 200,
            Code::ParamError => 400,
            Code::FieldTypeErr => 400,
            Code::VersionErr => 400,
            Code::NotFound => 404,
            Code::AlreadyExists => 409,
            Code::PartitionNotLeader => 502,
            Code::Timeout => 504,
            _ => 500,
        }
    }
}

} // verus!
