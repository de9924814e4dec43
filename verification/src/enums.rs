//! Record type and class codes: sixteen-bit values carried as they stand on
//! the wire, with the one code of each kind this crate's callers build.

use vstd::prelude::*;

verus! {

/// A record type code.
#[derive(Clone, Copy, Debug, PartialEq, Eq, Structural)]
pub struct RecordType(pub u16);

impl RecordType {
    /// The host-address record type, code one.
    pub fn host() -> (r: RecordType)
        ensures
            r.0 == 1,
    {
        RecordType(1)
    }
}

impl From<u16> for RecordType {
    fn from(value: u16) -> (r: RecordType) {
        RecordType(value)
    }
}

impl vstd::std_specs::convert::FromSpecImpl<u16> for RecordType {
    open spec fn obeys_from_spec() -> bool {
        true
    }

    open spec fn from_spec(v: u16) -> RecordType {
        RecordType(v)
    }
}

/// A record class code.
#[derive(Clone, Copy, Debug, PartialEq, Eq, Structural)]
pub struct RecordClass(pub u16);

impl RecordClass {
    /// The internet record class, code one.
    pub fn internet() -> (r: RecordClass)
        ensures
            r.0 == 1,
    {
        RecordClass(1)
    }
}

impl From<u16> for RecordClass {
    fn from(value: u16) -> (r: RecordClass) {
        RecordClass(value)
    }
}

impl vstd::std_specs::convert::FromSpecImpl<u16> for RecordClass {
    open spec fn obeys_from_spec() -> bool {
        true
    }

    open spec fn from_spec(v: u16) -> RecordClass {
        RecordClass(v)
    }
}

} // verus!
