use vstd::prelude::*;

use crate::event::not_implemented_error;
use crate::event::ErrorDetails;
use crate::event::Event;
use crate::event::EventsFilter;
use crate::event::Timestamp;
use crate::foreign::utc_now;
use crate::memory_storage::MemoryStorage;
use crate::server::MyServer;

verus! {

/// The capability both backends satisfy: store one event, or retrieve the
/// items of one filtered query. A backend that implements neither answers
/// every call with a single not-implemented failure; these defaults are
/// that abstract backend, and on an unimplemented backend the contracts
/// below pin that refusal exactly.
pub trait EventStorage: Sized {
    /// The backend's internal well-formedness.
    spec fn inv(&self) -> bool;

    /// Whether the backend has a real store behind it. A backend for which
    /// this is false answers every call with the single 501 failure and
    /// changes nothing.
    spec fn implemented(&self) -> bool;

    /// Stores one event, returning its stored form with the `synced` time
    /// stamped by the backend. On an unimplemented backend the call fails
    /// with the not-implemented error, and nothing is stored.
    fn add(&mut self, event: Event) -> (r: Result<Event, ErrorDetails>)
        requires
            old(self).inv(),
        ensures
            final(self).inv(),
            !old(self).implemented() ==> {
                &&& r is Err
                &&& (r->Err_0).code == 501
                &&& (r->Err_0).message@ == "Not Implemented"@
                &&& *final(self) == *old(self)
            },
    {
        Result::Err(not_implemented_error())
    }

    /// The items of one query, in delivery order: the events that match,
    /// or the failures met along the way. An unimplemented backend yields
    /// exactly one not-implemented item.
    fn get(&self, filter: &EventsFilter) -> (r: Vec<Result<Event, ErrorDetails>>)
        requires
            self.inv(),
        ensures
            !self.implemented() ==> {
                &&& r@.len() == 1
                &&& r@[0] is Err
                &&& (r@[0]->Err_0).code == 501
                &&& (r@[0]->Err_0).message@ == "Not Implemented"@
            },
    {
        let mut out: Vec<Result<Event, ErrorDetails>> = Vec::new();
        out.push(Result::Err(not_implemented_error()));
        out
    }
}

impl EventStorage for MemoryStorage {
    open spec fn inv(&self) -> bool {
        self.wf()
    }

    open spec fn implemented(&self) -> bool {
        true
    }

    fn add(&mut self, event: Event) -> (r: Result<Event, ErrorDetails>) {
        let c = utc_now();
        self.add_at(event, Timestamp { seconds: c.seconds, nanos: c.nanos })
    }

    fn get(&self, filter: &EventsFilter) -> (r: Vec<Result<Event, ErrorDetails>>) {
        MemoryStorage::get(self, filter)
    }
}

impl EventStorage for MyServer {
    open spec fn inv(&self) -> bool {
        true
    }

    open spec fn implemented(&self) -> bool {
        false
    }
}

} // verus!
