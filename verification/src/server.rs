use vstd::prelude::*;

use crate::event::not_implemented_error;
use crate::event::ErrorDetails;

verus! {

/// A server with no storage backend: every capability method answers its
/// caller with a single not-implemented failure.
#[derive(Debug, Default)]
pub struct MyServer {}

impl MyServer {
    /// The one item an ingestion stream receives per pushed event.
    pub fn push_events(&self) -> (r: ErrorDetails)
        ensures
            r.code == 501,
            r.message@ == "Not Implemented"@,
    {
        not_implemented_error()
    }

    /// The one item a query stream yields before it ends.
    pub fn get_events(&self) -> (r: ErrorDetails)
        ensures
            r.code == 501,
            r.message@ == "Not Implemented"@,
    {
        not_implemented_error()
    }

    /// The one item a watch stream yields before it ends.
    pub fn watch_events(&self) -> (r: ErrorDetails)
        ensures
            r.code == 501,
            r.message@ == "Not Implemented"@,
    {
        not_implemented_error()
    }
}

} // verus!
