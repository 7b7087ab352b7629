use vstd::prelude::*;

verus! {

/// What can go wrong when reading the command line.
#[derive(Clone, Copy, Debug, PartialEq, Eq, Structural)]
pub enum ErrorKind {
    BadPortSpecified,
    BadClusterJoinAddressSpecified,
}

impl ErrorKind {
    /// A description of the error.
    pub fn description(&self) -> (r: &'static str)
        ensures
            *self is BadPortSpecified ==> r@ == "Bad port specified"@,
            *self is BadClusterJoinAddressSpecified ==> r@ == "Bad peer address specified"@,
    {
        match self {
            ErrorKind::BadPortSpecified => "Bad port specified",
            ErrorKind::BadClusterJoinAddressSpecified => "Bad peer address specified",
        }
    }
}

} // verus!
