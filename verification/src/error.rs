//! The failures a document read can produce: a missing key or a value of the
//! wrong shape.  Each carries rendered snapshots captured when it was made,
//! so it stays meaningful after the document changes.

use vstd::prelude::*;
use vstd::string::StringExecFns;

verus! {

/// A failure of a document read.
#[derive(Debug)]
pub enum Error {
    /// The requested key (first field) was absent; the second field is the
    /// rendering of the whole document at the time of the failure.
    NotFound(String, String),
    /// The stored value could not be converted to the requested shape; the
    /// field is the rendering of that value.
    CannotConvert(String),
}

impl Error {
    /// The human-readable description of the failure, naming the offending
    /// key or value together with its snapshot.
    pub fn message(&self) -> (r: String)
        ensures
            self matches Error::NotFound(k, d) ==> r@ == "NotFound: Cannot found key "@ + k@
                + " in "@ + d@,
            self matches Error::CannotConvert(v) ==> r@ == "CannotConvert: Cannot convert value "@
                + v@ + " to desired type"@,
    {
        match self {
            Error::NotFound(k, d) => {
                let mut s = String::from_str("NotFound: Cannot found key ");
                s.append(k.as_str());
                s.append(" in ");
                s.append(d.as_str());
                s
            },
            Error::CannotConvert(v) => {
                let mut s = String::from_str("CannotConvert: Cannot convert value ");
                s.append(v.as_str());
                s.append(" to desired type");
                s
            },
        }
    }
}

} // verus!
