use vstd::prelude::*;

verus! {

/// A point in time as a (seconds, nanoseconds) pair, mirroring the wire
/// representation of timestamps.
#[derive(Debug, Clone, Copy, PartialEq, Eq, Structural)]
pub struct Timestamp {
    pub seconds: i64,
    pub nanos: i32,
}

/// Mathematical model of a `Timestamp`.
pub struct TimestampV {
    pub seconds: int,
    pub nanos: int,
}

impl View for Timestamp {
    type V = TimestampV;

    open spec fn view(&self) -> TimestampV {
        TimestampV { seconds: self.seconds as int, nanos: self.nanos as int }
    }
}

impl Timestamp {
    /// True when `self` is strictly later than `other`, ordered by seconds
    /// and then by nanoseconds.
    pub fn is_after(&self, other: &Timestamp) -> (r: bool)
        ensures
            r == timestamp_after(self@, other@),
    {
        self.seconds > other.seconds || (self.seconds == other.seconds
            && self.nanos > other.nanos)
    }
}

/// Strict (seconds, nanoseconds) ordering on timestamps.
pub open spec fn timestamp_after(a: TimestampV, b: TimestampV) -> bool {
    a.seconds > b.seconds || (a.seconds == b.seconds && a.nanos > b.nanos)
}

/// The time zone a caller reported for an event: a zone name together with
/// its UTC offset in seconds.
#[derive(Debug, Clone, PartialEq)]
pub struct Timezone {
    pub name: String,
    pub offset: i32,
}

/// Mathematical model of a `Timezone`.
#[verifier::ext_equal]
pub struct TimezoneV {
    pub name: Seq<char>,
    pub offset: int,
}

impl View for Timezone {
    type V = TimezoneV;

    open spec fn view(&self) -> TimezoneV {
        TimezoneV { name: self.name@, offset: self.offset as int }
    }
}

/// The optional payload attached to an event: exactly one of raw bytes, a
/// plain UTF-8 string, or a YAML-formatted string.
#[derive(Debug, Clone, PartialEq)]
pub enum Additional {
    Bytes(Vec<u8>),
    Str(String),
    Yaml(String),
}

/// Mathematical model of an `Additional` payload.
#[verifier::ext_equal]
pub enum AdditionalV {
    Bytes(Seq<u8>),
    Str(Seq<char>),
    Yaml(Seq<char>),
}

impl View for Additional {
    type V = AdditionalV;

    open spec fn view(&self) -> AdditionalV {
        match self {
            Additional::Bytes(b) => AdditionalV::Bytes(b@),
            Additional::Str(s) => AdditionalV::Str(s@),
            Additional::Yaml(s) => AdditionalV::Yaml(s@),
        }
    }
}

/// The unit of storage: a caller-described occurrence, scoped to an account
/// and an application, stamped by the server with a `synced` time on ingestion.
#[derive(Debug, Clone, PartialEq)]
pub struct Event {
    /// Opaque byte identifier; not validated for uniqueness.
    pub uuid: Vec<u8>,
    /// Opaque byte string; primary partition key.
    pub account: Vec<u8>,
    /// Human-readable secondary partition key.
    pub application: String,
    /// Free-text classification field, `type` on the wire.
    pub type_: String,
    /// Free-text classification field.
    pub name: String,
    /// Free-text classification field.
    pub description: String,
    /// Caller-supplied event time.
    pub timestamp: Option<Timestamp>,
    /// The caller's local zone for `timestamp`.
    pub timezone: Option<Timezone>,
    /// Whether `timestamp` is wall-clock time (true) or relative (false).
    pub real_time: bool,
    /// Server-assigned ingestion time; overwritten by every store on `add`.
    pub synced: Option<Timestamp>,
    /// Optional tagged payload.
    pub additional: Option<Additional>,
}

/// Mathematical model of an `Event`.
#[verifier::ext_equal]
pub struct EventV {
    pub uuid: Seq<u8>,
    pub account: Seq<u8>,
    pub application: Seq<char>,
    pub type_: Seq<char>,
    pub name: Seq<char>,
    pub description: Seq<char>,
    pub timestamp: Option<TimestampV>,
    pub timezone: Option<TimezoneV>,
    pub real_time: bool,
    pub synced: Option<TimestampV>,
    pub additional: Option<AdditionalV>,
}

pub open spec fn view_opt_ts(o: Option<Timestamp>) -> Option<TimestampV> {
    match o {
        Option::Some(t) => Option::Some(t@),
        Option::None => Option::None,
    }
}

pub open spec fn view_opt_tz(o: Option<Timezone>) -> Option<TimezoneV> {
    match o {
        Option::Some(t) => Option::Some(t@),
        Option::None => Option::None,
    }
}

pub open spec fn view_opt_add(o: Option<Additional>) -> Option<AdditionalV> {
    match o {
        Option::Some(t) => Option::Some(t@),
        Option::None => Option::None,
    }
}

impl View for Event {
    type V = EventV;

    open spec fn view(&self) -> EventV {
        EventV {
            uuid: self.uuid@,
            account: self.account@,
            application: self.application@,
            type_: self.type_@,
            name: self.name@,
            description: self.description@,
            timestamp: view_opt_ts(self.timestamp),
            timezone: view_opt_tz(self.timezone),
            real_time: self.real_time,
            synced: view_opt_ts(self.synced),
            additional: view_opt_add(self.additional),
        }
    }
}

/// The query predicate of `get`: account and application locate the
/// partition; `type_` and `name` are exact matches when non-empty; `since`
/// is an exclusive lower bound on the `synced` time.
#[derive(Debug, Clone, PartialEq)]
pub struct EventsFilter {
    pub account: Vec<u8>,
    pub application: String,
    pub type_: String,
    pub name: String,
    pub since: Option<Timestamp>,
}

/// Mathematical model of an `EventsFilter`.
#[verifier::ext_equal]
pub struct EventsFilterV {
    pub account: Seq<u8>,
    pub application: Seq<char>,
    pub type_: Seq<char>,
    pub name: Seq<char>,
    pub since: Option<TimestampV>,
}

impl View for EventsFilter {
    type V = EventsFilterV;

    open spec fn view(&self) -> EventsFilterV {
        EventsFilterV {
            account: self.account@,
            application: self.application@,
            type_: self.type_@,
            name: self.name@,
            since: view_opt_ts(self.since),
        }
    }
}

/// Whether an event passes a filter's `type_`, `name` and `since` predicates.
/// An empty `type_` or `name` is a wildcard; `since` is compared against the
/// event's `synced` time and is skipped when the event has none.
pub open spec fn event_matches(f: EventsFilterV, e: EventV) -> bool {
    &&& (f.type_.len() == 0 || e.type_ == f.type_)
    &&& (f.name.len() == 0 || e.name == f.name)
    &&& match (f.since, e.synced) {
        (Option::Some(since), Option::Some(synced)) => timestamp_after(synced, since),
        _ => true,
    }
}

/// Executable form of `event_matches`.
pub fn matches_filter(f: &EventsFilter, e: &Event) -> (r: bool)
    ensures
        r == event_matches(f@, e@),
{
    let mut m: bool = true;
    if !f.type_.as_str().is_empty() {
        m = m && e.type_ == f.type_;
    }
    if !f.name.as_str().is_empty() {
        m = m && e.name == f.name;
    }
    if let Option::Some(since) = &f.since {
        if let Option::Some(synced) = &e.synced {
            m = m && synced.is_after(since);
        }
    }
    m
}

/// A structured failure: a code in the taxonomy (404 not found, 500 internal,
/// 501 not implemented) and a human-readable message.
#[derive(Debug, Clone, PartialEq)]
pub struct ErrorDetails {
    pub code: i32,
    pub message: String,
}

/// The uniform internal failure value: I/O errors, lock failures and
/// malformed stored records all surface as this.
pub fn server_error() -> (r: ErrorDetails)
    ensures
        r.code == 500,
        r.message@ == "Internal server error"@,
{
    ErrorDetails { code: 500, message: String::from_str("Internal server error") }
}

/// The failure every unimplemented capability method reports.
pub fn not_implemented_error() -> (r: ErrorDetails)
    ensures
        r.code == 501,
        r.message@ == "Not Implemented"@,
{
    ErrorDetails { code: 501, message: String::from_str("Not Implemented") }
}

/// The failure of a `get` whose account has no stored events.
pub fn account_not_found() -> (r: ErrorDetails)
    ensures
        r.code == 404,
        r.message@ == "Account not found"@,
{
    ErrorDetails { code: 404, message: String::from_str("Account not found") }
}

/// The failure of a `get` whose application has no stored events under the
/// requested account.
pub fn application_not_found() -> (r: ErrorDetails)
    ensures
        r.code == 404,
        r.message@ == "Application not found"@,
{
    ErrorDetails { code: 404, message: String::from_str("Application not found") }
}

/// The failure of a file-backed `get` whose partition directory is missing.
pub fn no_data_found() -> (r: ErrorDetails)
    ensures
        r.code == 404,
        r.message@ == "No data found (account, application, or credentials are invalid)"@,
{
    ErrorDetails {
        code: 404,
        message: String::from_str("No data found (account, application, or credentials are invalid)"),
    }
}

/// Copies a byte vector.
pub fn copy_bytes(v: &Vec<u8>) -> (r: Vec<u8>)
    ensures
        r@ == v@,
{
    let mut r: Vec<u8> = Vec::new();
    let mut i: usize = 0;
    while i < v.len()
        invariant
            i <= v@.len(),
            r@ == v@.subrange(0, i as int),
        decreases v@.len() - i,
    {
        r.push(v[i]);
        i = i + 1;
    }
    proof {
        assert(r@ =~= v@);
    }
    r
}

impl Additional {
    /// Copies the payload.
    pub fn duplicate(&self) -> (r: Additional)
        ensures
            r@ == self@,
    {
        match self {
            Additional::Bytes(b) => Additional::Bytes(copy_bytes(b)),
            Additional::Str(s) => Additional::Str(s.clone()),
            Additional::Yaml(s) => Additional::Yaml(s.clone()),
        }
    }
}

impl Event {
    /// Copies the event.
    pub fn duplicate(&self) -> (r: Event)
        ensures
            r@ == self@,
    {
        let r = Event {
            uuid: copy_bytes(&self.uuid),
            account: copy_bytes(&self.account),
            application: self.application.clone(),
            type_: self.type_.clone(),
            name: self.name.clone(),
            description: self.description.clone(),
            timestamp: self.timestamp,
            timezone: match &self.timezone {
                Option::Some(z) => Option::Some(Timezone { name: z.name.clone(), offset: z.offset }),
                Option::None => Option::None,
            },
            real_time: self.real_time,
            synced: self.synced,
            additional: match &self.additional {
                Option::Some(a) => Option::Some(a.duplicate()),
                Option::None => Option::None,
            },
        };
        proof {
            assert(r@ =~= self@);
        }
        r
    }

    /// The event as stored: the same fields with `synced` set to `now`.
    pub fn stamped(&self, now: Timestamp) -> (r: Event)
        ensures
            r@ == (EventV { synced: Option::Some(now@), ..self@ }),
    {
        let mut r = self.duplicate();
        r.synced = Option::Some(now);
        proof {
            assert(r@ =~= EventV { synced: Option::Some(now@), ..self@ });
        }
        r
    }
}

} // verus!
