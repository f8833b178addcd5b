use vstd::prelude::*;

use crate::event::account_not_found;
use crate::event::application_not_found;
use crate::event::copy_bytes;
use crate::event::event_matches;
use crate::event::ErrorDetails;
use crate::event::Event;
use crate::event::EventV;
use crate::event::EventsFilter;
use crate::event::EventsFilterV;
use crate::event::matches_filter;
use crate::event::Timestamp;
use crate::event::timestamp_after;
use crate::foreign::utc_now;

verus! {

/// The mathematical model of a store: accounts to applications to the
/// stored events in insertion order.
pub type StoreV = Map<Seq<u8>, Map<Seq<char>, Seq<EventV>>>;

/// The events stored under one account and application, empty when the
/// partition does not exist.
pub open spec fn bucket(m: StoreV, a: Seq<u8>, p: Seq<char>) -> Seq<EventV> {
    if m.contains_key(a) && m[a].contains_key(p) {
        m[a][p]
    } else {
        Seq::empty()
    }
}

/// The application map of one account, empty when the account is absent.
pub open spec fn apps_of(m: StoreV, a: Seq<u8>) -> Map<Seq<char>, Seq<EventV>> {
    if m.contains_key(a) {
        m[a]
    } else {
        Map::empty()
    }
}

/// What storing one event does to the model: appends it to its partition's
/// bucket, creating the partition if absent, and touches nothing else.
pub open spec fn spec_add(m: StoreV, a: Seq<u8>, p: Seq<char>, ev: EventV) -> StoreV {
    m.insert(a, apps_of(m, a).insert(p, bucket(m, a, p).push(ev)))
}

/// The events of a bucket that pass a filter, in bucket order.
pub open spec fn filtered(evs: Seq<EventV>, f: EventsFilterV) -> Seq<EventV>
    decreases evs.len(),
{
    if evs.len() == 0 {
        Seq::empty()
    } else {
        let rest = filtered(evs.drop_last(), f);
        if event_matches(f, evs.last()) {
            rest.push(evs.last())
        } else {
            rest
        }
    }
}

/// Partition isolation: storing an event under one partition leaves every
/// other partition's bucket exactly as it was.
pub proof fn lemma_partition_isolation(
    m: StoreV,
    a: Seq<u8>,
    p: Seq<char>,
    ev: EventV,
    b: Seq<u8>,
    q: Seq<char>,
)
    requires
        a != b || p != q,
    ensures
        bucket(spec_add(m, a, p, ev), b, q) == bucket(m, b, q),
{
    let m2 = spec_add(m, a, p, ev);
    if a == b {
        assert(m2[b] == apps_of(m, a).insert(p, bucket(m, a, p).push(ev)));
    }
}

/// Insertion order: storing an event appends it at the end of its own
/// partition's bucket, so buckets hold events in the order they were
/// added.
pub proof fn lemma_add_appends_to_bucket(m: StoreV, a: Seq<u8>, p: Seq<char>, ev: EventV)
    ensures
        bucket(spec_add(m, a, p, ev), a, p) == bucket(m, a, p).push(ev),
{
}

/// Every event that a filter lets through satisfies the filter.
pub proof fn lemma_filtered_events_match(evs: Seq<EventV>, f: EventsFilterV)
    ensures
        forall|k: int|
            0 <= k < filtered(evs, f).len() ==> event_matches(f, #[trigger] filtered(evs, f)[k]),
    decreases evs.len(),
{
    if evs.len() > 0 {
        lemma_filtered_events_match(evs.drop_last(), f);
        let rest = filtered(evs.drop_last(), f);
        assert forall|k: int|
            0 <= k < filtered(evs, f).len() implies event_matches(f, filtered(evs, f)[k]) by {
            if event_matches(f, evs.last()) {
                assert(filtered(evs, f) == rest.push(evs.last()));
                if k < rest.len() {
                    assert(filtered(evs, f)[k] == rest[k]);
                } else {
                    assert(filtered(evs, f)[k] == evs.last());
                }
            } else {
                assert(filtered(evs, f) == rest);
            }
        }
    }
}

/// A filter with no type, no name and no lower bound lets every event
/// through: retrieval with such a filter yields the whole bucket in
/// insertion order.
pub proof fn lemma_unfiltered_is_bucket(evs: Seq<EventV>, f: EventsFilterV)
    requires
        f.type_.len() == 0,
        f.name.len() == 0,
        f.since is None,
    ensures
        filtered(evs, f) == evs,
    decreases evs.len(),
{
    if evs.len() > 0 {
        lemma_unfiltered_is_bucket(evs.drop_last(), f);
        assert(filtered(evs, f) =~= evs);
    }
}

/// With a lower bound `since = S`, and every stored event carrying a
/// `synced` time, retrieval returns only events whose `synced` strictly
/// exceeds `S` in (seconds, nanoseconds) order.
pub proof fn lemma_since_filter(evs: Seq<EventV>, f: EventsFilterV)
    requires
        f.since is Some,
        forall|k: int| 0 <= k < evs.len() ==> (#[trigger] evs[k].synced) is Some,
    ensures
        forall|k: int|
            0 <= k < filtered(evs, f).len() ==> (#[trigger] filtered(evs, f)[k].synced) is Some
                && timestamp_after(filtered(evs, f)[k].synced->0, f.since->0),
    decreases evs.len(),
{
    if evs.len() > 0 {
        assert(forall|k: int|
            0 <= k < evs.drop_last().len() ==> (#[trigger] evs.drop_last()[k].synced) is Some);
        lemma_since_filter(evs.drop_last(), f);
        let rest = filtered(evs.drop_last(), f);
        assert forall|k: int|
            0 <= k < filtered(evs, f).len() implies (#[trigger] filtered(evs, f)[k].synced)
            is Some && timestamp_after(filtered(evs, f)[k].synced->0, f.since->0) by {
            if event_matches(f, evs.last()) {
                assert(filtered(evs, f) == rest.push(evs.last()));
                if k < rest.len() {
                    assert(filtered(evs, f)[k] == rest[k]);
                } else {
                    assert(filtered(evs, f)[k] == evs.last());
                    assert(evs.last() == evs[evs.len() - 1]);
                    assert(evs[evs.len() - 1].synced is Some);
                }
            } else {
                assert(filtered(evs, f) == rest);
            }
        }
    }
}

/// With a non-empty type filter `T`, retrieval returns only events whose
/// type equals `T`; likewise for a non-empty name filter.
pub proof fn lemma_exact_match_filter(evs: Seq<EventV>, f: EventsFilterV)
    ensures
        f.type_.len() > 0 ==> forall|k: int|
            0 <= k < filtered(evs, f).len() ==> (#[trigger] filtered(evs, f)[k]).type_ == f.type_,
        f.name.len() > 0 ==> forall|k: int|
            0 <= k < filtered(evs, f).len() ==> (#[trigger] filtered(evs, f)[k]).name == f.name,
{
    lemma_filtered_events_match(evs, f);
}

/// One application's stored events.
struct AppEntry {
    application: String,
    events: Vec<Event>,
}

/// One account's applications.
struct AccountEntry {
    account: Vec<u8>,
    apps: Vec<AppEntry>,
}

/// The models of stored events, in storage order.
pub open spec fn events_view(v: Seq<Event>) -> Seq<EventV> {
    v.map_values(|e: Event| e@)
}

spec fn apps_map(s: Seq<AppEntry>) -> Map<Seq<char>, Seq<EventV>>
    decreases s.len(),
{
    if s.len() == 0 {
        Map::empty()
    } else {
        apps_map(s.drop_last()).insert(s.last().application@, events_view(s.last().events@))
    }
}

spec fn accounts_map(s: Seq<AccountEntry>) -> StoreV
    decreases s.len(),
{
    if s.len() == 0 {
        Map::empty()
    } else {
        accounts_map(s.drop_last()).insert(s.last().account@, apps_map(s.last().apps@))
    }
}

spec fn apps_wf(s: Seq<AppEntry>) -> bool {
    &&& forall|i: int, j: int|
        0 <= i < j < s.len() ==> (#[trigger] s[i].application@) != (#[trigger] s[j].application@)
    &&& forall|j: int, k: int|
        0 <= j < s.len() && 0 <= k < s[j].events@.len() ==> (#[trigger] s[j].events@[k]@.synced)
            is Some
}

spec fn accounts_wf(s: Seq<AccountEntry>) -> bool {
    &&& forall|i: int, j: int|
        0 <= i < j < s.len() ==> (#[trigger] s[i].account@) != (#[trigger] s[j].account@)
    &&& forall|i: int| 0 <= i < s.len() ==> apps_wf(#[trigger] s[i].apps@)
}

/// A volatile event store: a nested mapping from account to application to
/// the events appended under them, in insertion order. It vanishes with
/// the process.
pub struct MemoryStorage {
    by_account: Vec<AccountEntry>,
}

impl View for MemoryStorage {
    type V = StoreV;

    closed spec fn view(&self) -> StoreV {
        accounts_map(self.by_account@)
    }
}

/// The entry of `apps_map` at an entry's key is that entry's events.
proof fn lemma_apps_map_get(s: Seq<AppEntry>, i: int)
    requires
        apps_wf(s),
        0 <= i < s.len(),
    ensures
        apps_map(s).contains_key(s[i].application@),
        apps_map(s)[s[i].application@] == events_view(s[i].events@),
    decreases s.len(),
{
    if i < s.len() - 1 {
        assert(apps_wf(s.drop_last()));
        assert(s.drop_last()[i] == s[i]);
        lemma_apps_map_get(s.drop_last(), i);
    }
}

/// A key under no entry of `s` is not in `apps_map(s)`.
proof fn lemma_apps_map_none(s: Seq<AppEntry>, p: Seq<char>)
    requires
        forall|i: int| 0 <= i < s.len() ==> (#[trigger] s[i].application@) != p,
    ensures
        !apps_map(s).contains_key(p),
    decreases s.len(),
{
    if s.len() > 0 {
        assert(forall|i: int|
            0 <= i < s.drop_last().len() ==> (#[trigger] s.drop_last()[i].application@) != p);
        lemma_apps_map_none(s.drop_last(), p);
    }
}

/// Replacing an entry by one with the same key updates only that key.
proof fn lemma_apps_map_update(s: Seq<AppEntry>, i: int, e: AppEntry)
    requires
        apps_wf(s),
        0 <= i < s.len(),
        e.application@ == s[i].application@,
    ensures
        apps_map(s.update(i, e)) == apps_map(s).insert(e.application@, events_view(e.events@)),
    decreases s.len(),
{
    let s2 = s.update(i, e);
    if i == s.len() - 1 {
        assert(s2.drop_last() =~= s.drop_last());
        assert(s2.last() == e);
        assert(apps_map(s2) =~= apps_map(s).insert(e.application@, events_view(e.events@)));
    } else {
        assert(apps_wf(s.drop_last()));
        assert(s.drop_last()[i] == s[i]);
        lemma_apps_map_update(s.drop_last(), i, e);
        assert(s2.drop_last() =~= s.drop_last().update(i, e));
        assert(s2.last() == s.last());
        assert(s.last().application@ != e.application@);
        assert(apps_map(s2) =~= apps_map(s).insert(e.application@, events_view(e.events@)));
    }
}

/// The entry of `accounts_map` at an entry's key is that entry's
/// application map.
proof fn lemma_accounts_map_get(s: Seq<AccountEntry>, i: int)
    requires
        accounts_wf(s),
        0 <= i < s.len(),
    ensures
        accounts_map(s).contains_key(s[i].account@),
        accounts_map(s)[s[i].account@] == apps_map(s[i].apps@),
    decreases s.len(),
{
    if i < s.len() - 1 {
        assert(accounts_wf(s.drop_last()));
        assert(s.drop_last()[i] == s[i]);
        lemma_accounts_map_get(s.drop_last(), i);
    }
}

/// A key under no entry of `s` is not in `accounts_map(s)`.
proof fn lemma_accounts_map_none(s: Seq<AccountEntry>, a: Seq<u8>)
    requires
        forall|i: int| 0 <= i < s.len() ==> (#[trigger] s[i].account@) != a,
    ensures
        !accounts_map(s).contains_key(a),
    decreases s.len(),
{
    if s.len() > 0 {
        assert(forall|i: int|
            0 <= i < s.drop_last().len() ==> (#[trigger] s.drop_last()[i].account@) != a);
        lemma_accounts_map_none(s.drop_last(), a);
    }
}

/// Replacing an entry by one with the same key updates only that key.
proof fn lemma_accounts_map_update(s: Seq<AccountEntry>, i: int, e: AccountEntry)
    requires
        accounts_wf(s),
        0 <= i < s.len(),
        e.account@ == s[i].account@,
    ensures
        accounts_map(s.update(i, e)) == accounts_map(s).insert(e.account@, apps_map(e.apps@)),
    decreases s.len(),
{
    let s2 = s.update(i, e);
    if i == s.len() - 1 {
        assert(s2.drop_last() =~= s.drop_last());
        assert(s2.last() == e);
        assert(accounts_map(s2) =~= accounts_map(s).insert(e.account@, apps_map(e.apps@)));
    } else {
        assert(accounts_wf(s.drop_last()));
        assert(s.drop_last()[i] == s[i]);
        lemma_accounts_map_update(s.drop_last(), i, e);
        assert(s2.drop_last() =~= s.drop_last().update(i, e));
        assert(s2.last() == s.last());
        assert(s.last().account@ != e.account@);
        assert(accounts_map(s2) =~= accounts_map(s).insert(e.account@, apps_map(e.apps@)));
    }
}

/// Compares two byte strings.
fn bytes_eq(a: &Vec<u8>, b: &Vec<u8>) -> (r: bool)
    ensures
        r == (a@ == b@),
{
    if a.len() != b.len() {
        proof {
            assert(a@ != b@);
        }
        return false;
    }
    let mut k: usize = 0;
    while k < a.len()
        invariant
            k <= a@.len(),
            a@.len() == b@.len(),
            forall|t: int| 0 <= t < k ==> a@[t] == b@[t],
        decreases a@.len() - k,
    {
        if a[k] != b[k] {
            return false;
        }
        k = k + 1;
    }
    proof {
        assert(a@ =~= b@);
    }
    true
}

/// Finds the entry of one application.
fn find_app(apps: &Vec<AppEntry>, application: &String) -> (r: Option<usize>)
    ensures
        match r {
            Option::Some(j) => j < apps@.len() && apps@[j as int].application@ == application@,
            Option::None => forall|t: int|
                0 <= t < apps@.len() ==> (#[trigger] apps@[t].application@) != application@,
        },
{
    let mut k: usize = 0;
    while k < apps.len()
        invariant
            k <= apps@.len(),
            forall|t: int| 0 <= t < k ==> (#[trigger] apps@[t].application@) != application@,
        decreases apps@.len() - k,
    {
        if apps[k].application == *application {
            return Option::Some(k);
        }
        k = k + 1;
    }
    Option::None
}

impl MemoryStorage {
    /// Keys are unique at both levels and every stored event carries a
    /// `synced` time.
    pub closed spec fn wf(&self) -> bool {
        accounts_wf(self.by_account@)
    }

    /// An empty store.
    pub fn new() -> (r: MemoryStorage)
        ensures
            r.wf(),
            r@ == StoreV::empty(),
    {
        MemoryStorage { by_account: Vec::new() }
    }

    fn find_account(&self, account: &Vec<u8>) -> (r: Option<usize>)
        ensures
            match r {
                Option::Some(i) => i < self.by_account@.len() && self.by_account@[i as int].account@
                    == account@,
                Option::None => forall|i: int|
                    0 <= i < self.by_account@.len() ==> (#[trigger] self.by_account@[i].account@)
                        != account@,
            },
    {
        let mut k: usize = 0;
        while k < self.by_account.len()
            invariant
                k <= self.by_account@.len(),
                forall|t: int|
                    0 <= t < k ==> (#[trigger] self.by_account@[t].account@) != account@,
            decreases self.by_account@.len() - k,
        {
            if bytes_eq(&self.by_account[k].account, account) {
                return Option::Some(k);
            }
            k = k + 1;
        }
        Option::None
    }

    /// Stores one event, stamping its `synced` time with the given clock
    /// reading. Appends to the partition named by the event's account and
    /// application, creating it if absent; every other partition is
    /// untouched. Returns the stamped event.
    pub fn add_at(&mut self, event: Event, now: Timestamp) -> (r: Result<Event, ErrorDetails>)
        requires
            old(self).wf(),
        ensures
            final(self).wf(),
            r is Ok,
            (r->Ok_0)@ == (EventV { synced: Option::Some(now@), ..event@ }),
            final(self)@ == spec_add(
                old(self)@,
                event@.account,
                event@.application,
                EventV { synced: Option::Some(now@), ..event@ },
            ),
    {
        let stamped = event.stamped(now);
        let stored = stamped.duplicate();
        let ghost sv = stamped@;
        let ghost m0 = self@;
        let ghost acct_key = event@.account;
        let ghost app_key = event@.application;
        match self.find_account(&event.account) {
            Option::None => {
                proof {
                    lemma_accounts_map_none(self.by_account@, acct_key);
                }
                let apps = vec![AppEntry { application: event.application.clone(), events: vec![stored] }];
                let entry = AccountEntry { account: copy_bytes(&event.account), apps };
                let ghost entryv = entry;
                let ghost s0 = self.by_account@;
                self.by_account.push(entry);
                proof {
                    assert(self.by_account@.drop_last() =~= s0);
                    assert(self.by_account@.last() == entryv);
                    assert(entryv.apps@.len() == 1);
                    assert(entryv.apps@.drop_last() =~= Seq::<AppEntry>::empty());
                    assert(entryv.apps@.last().application@ == app_key);
                    assert(events_view(entryv.apps@.last().events@) =~= Seq::<EventV>::empty().push(
                        sv,
                    ));
                    assert(apps_map(Seq::<AppEntry>::empty()) == Map::<Seq<char>, Seq<EventV>>::empty());
                    assert(apps_map(entryv.apps@) == apps_map(entryv.apps@.drop_last()).insert(
                        entryv.apps@.last().application@,
                        events_view(entryv.apps@.last().events@),
                    ));
                    assert(apps_map(entryv.apps@) =~= Map::<Seq<char>, Seq<EventV>>::empty().insert(
                        app_key,
                        events_view(entryv.apps@.last().events@),
                    ));
                    assert(self@ =~= spec_add(m0, acct_key, app_key, sv));
                    assert(accounts_wf(self.by_account@)) by {
                        assert(forall|i: int|
                            0 <= i < s0.len() ==> (#[trigger] s0[i].account@) != acct_key);
                        assert(apps_wf(entryv.apps@));
                    }
                }
                Result::Ok(stamped)
            }
            Option::Some(i) => {
                let ghost s0 = self.by_account@;
                proof {
                    lemma_accounts_map_get(s0, i as int);
                }
                let acct = &mut self.by_account[i];
                let ghost apps0 = acct.apps@;
                let app_idx = find_app(&acct.apps, &event.application);
                match app_idx {
                    Option::None => {
                        proof {
                            lemma_apps_map_none(apps0, app_key);
                        }
                        let newapp = AppEntry {
                            application: event.application.clone(),
                            events: vec![stored],
                        };
                        acct.apps.push(newapp);
                        proof {
                            assert(acct.apps@.drop_last() =~= apps0);
                            assert(events_view(acct.apps@.last().events@) =~= Seq::<
                                EventV,
                            >::empty().push(sv));
                            assert(apps_map(acct.apps@) == apps_map(apps0).insert(
                                app_key,
                                events_view(acct.apps@.last().events@),
                            ));
                            assert(apps_wf(acct.apps@)) by {
                                assert(forall|t: int|
                                    0 <= t < apps0.len() ==> (#[trigger] apps0[t].application@)
                                        != app_key);
                                assert(forall|t: int|
                                    0 <= t < apps0.len() ==> acct.apps@[t] == apps0[t]);
                            }
                        }
                    }
                    Option::Some(j) => {
                        proof {
                            lemma_apps_map_get(apps0, j as int);
                        }
                        let app = &mut acct.apps[j];
                        let ghost evs0 = app.events@;
                        app.events.push(stored);
                        proof {
                            assert(app.events@ =~= evs0.push(stored));
                            assert(events_view(app.events@) =~= events_view(evs0).push(sv));
                            lemma_apps_map_update(apps0, j as int, *final(app));
                            assert(apps_wf(acct.apps@)) by {
                                assert(acct.apps@ =~= apps0.update(j as int, *final(app)));
                            }
                        }
                    }
                }
                proof {
                    lemma_accounts_map_update(s0, i as int, *final(acct));
                    assert(self.by_account@ =~= s0.update(i as int, *final(acct)));
                    assert(self@ =~= spec_add(m0, acct_key, app_key, sv));
                    assert(accounts_wf(self.by_account@));
                }
                Result::Ok(stamped)
            }
        }
    }

    /// Stores one event, stamping its `synced` time from the wall clock.
    /// Always succeeds; the stored event equals the input except for its
    /// `synced` field, which is set to some instant.
    pub fn add(&mut self, event: Event) -> (r: Result<Event, ErrorDetails>)
        requires
            old(self).wf(),
        ensures
            final(self).wf(),
            r is Ok,
            (r->Ok_0)@.synced is Some,
            (r->Ok_0)@ == (EventV { synced: (r->Ok_0)@.synced, ..event@ }),
            final(self)@ == spec_add(old(self)@, event@.account, event@.application, (r->Ok_0)@),
    {
        let c = utc_now();
        let now = Timestamp { seconds: c.seconds, nanos: c.nanos };
        let ghost ev0 = event@;
        let ghost m0 = self@;
        let r = self.add_at(event, now);
        proof {
            assert((r->Ok_0)@ =~= (EventV { synced: (r->Ok_0)@.synced, ..ev0 }));
        }
        r
    }

    /// Retrieves the events of one partition that pass the filter, in
    /// insertion order. An absent account or application yields exactly
    /// one not-found error and no events.
    pub fn get(&self, filter: &EventsFilter) -> (r: Vec<Result<Event, ErrorDetails>>)
        requires
            self.wf(),
        ensures
            !self@.contains_key(filter@.account) ==> r@.len() == 1 && r@[0] is Err && (r@[0]
                ->Err_0).code == 404 && (r@[0]->Err_0).message@ == "Account not found"@,
            self@.contains_key(filter@.account) && !self@[filter@.account].contains_key(
                filter@.application,
            ) ==> r@.len() == 1 && r@[0] is Err && (r@[0]->Err_0).code == 404 && (r@[0]
                ->Err_0).message@ == "Application not found"@,
            self@.contains_key(filter@.account) && self@[filter@.account].contains_key(
                filter@.application,
            ) ==> {
                let want = filtered(bucket(self@, filter@.account, filter@.application), filter@);
                r@.len() == want.len() && forall|k: int|
                    0 <= k < want.len() ==> (#[trigger] r@[k]) is Ok && (r@[k]->Ok_0)@ == want[k]
            },
    {
        match self.find_account(&filter.account) {
            Option::None => {
                proof {
                    lemma_accounts_map_none(self.by_account@, filter@.account);
                }
                let mut out: Vec<Result<Event, ErrorDetails>> = Vec::new();
                out.push(Result::Err(account_not_found()));
                out
            }
            Option::Some(i) => {
                proof {
                    lemma_accounts_map_get(self.by_account@, i as int);
                }
                let acct = &self.by_account[i];
                let app_idx = find_app(&acct.apps, &filter.application);
                match app_idx {
                    Option::None => {
                        proof {
                            lemma_apps_map_none(acct.apps@, filter@.application);
                        }
                        let mut out: Vec<Result<Event, ErrorDetails>> = Vec::new();
                        out.push(Result::Err(application_not_found()));
                        out
                    }
                    Option::Some(j) => {
                        proof {
                            lemma_apps_map_get(acct.apps@, j as int);
                        }
                        let evs = &acct.apps[j].events;
                        let ghost evv = events_view(evs@);
                        let mut out: Vec<Result<Event, ErrorDetails>> = Vec::new();
                        let mut t: usize = 0;
                        while t < evs.len()
                            invariant
                                t <= evs@.len(),
                                evv == events_view(evs@),
                                evv.len() == evs@.len(),
                                forall|u: int| 0 <= u < evs@.len() ==> evv[u] == (#[trigger] evs@[u])@,
                                out@.len() == filtered(evv.take(t as int), filter@).len(),
                                forall|u: int|
                                    0 <= u < out@.len() ==> (#[trigger] out@[u]) is Ok && (out@[u]
                                        ->Ok_0)@ == filtered(evv.take(t as int), filter@)[u],
                            decreases evs@.len() - t,
                        {
                            proof {
                                assert(evv.take(t + 1).drop_last() =~= evv.take(t as int));
                                assert(evv.take(t + 1).last() == evv[t as int]);
                            }
                            if matches_filter(filter, &evs[t]) {
                                out.push(Result::Ok(evs[t].duplicate()));
                            }
                            t = t + 1;
                        }
                        proof {
                            assert(evv.take(evs@.len() as int) =~= evv);
                        }
                        out
                    }
                }
            }
        }
    }
}

impl Default for MemoryStorage {
    /// An empty store.
    fn default() -> (r: MemoryStorage)
        ensures
            r.wf(),
            r@ == StoreV::empty(),
    {
        MemoryStorage::new()
    }
}

} // verus!
