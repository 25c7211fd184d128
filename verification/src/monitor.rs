//! The per-service attempt-tracking engine.
//!
//! A [`Monitor`] binds one [`Service`] to one [`MonitorConfig`]; starting it
//! compiles the two patterns and yields a [`MonitorEngine`], which applies
//! the trigger and address patterns to appended log lines, counts repeated
//! offenses per address, decides when an address crosses the configured
//! threshold (a ban), and purges stale records.
//!
//! The engine's state is modelled as a sequence of [`AttemptRecord`]s, and
//! every transition is stated exactly: [`step_records`] and [`step_ban`] give
//! the effect of one line, [`cleaned_records`] the effect of one cleanup
//! pass.

use vstd::prelude::*;

use crate::pattern::Matcher;
use crate::pattern::regex_accepts;
use crate::pattern::regex_match;
use crate::pattern::regex_first_find;
use crate::service::Service;

verus! {

/// One address's standing: how many offenses so far, and when the last one
/// happened (seconds on the caller's clock).
#[derive(Clone, Copy, Debug)]
pub struct Attempt {
    pub count: u32,
    pub last_attempt: u64,
}

/// One tracked address together with its standing.
pub struct AttemptEntry {
    pub addr: String,
    pub attempt: Attempt,
}

/// The mathematical image of one tracked address.
pub ghost struct AttemptRecord {
    pub addr: Seq<char>,
    pub count: int,
    pub last_attempt: int,
}

/// The image of one entry.
pub open spec fn entry_record(e: AttemptEntry) -> AttemptRecord {
    AttemptRecord {
        addr: e.addr@,
        count: e.attempt.count as int,
        last_attempt: e.attempt.last_attempt as int,
    }
}

/// The image of a whole entry table.
pub open spec fn records_of(s: Seq<AttemptEntry>) -> Seq<AttemptRecord> {
    s.map(|i: int, e: AttemptEntry| entry_record(e))
}

/// Whether some record tracks `addr`.
pub open spec fn has_record(s: Seq<AttemptRecord>, addr: Seq<char>) -> bool {
    exists|i: int| 0 <= i < s.len() && s[i].addr == addr
}

/// The index of the record tracking `addr` (meaningful only when
/// `has_record` holds; under `unique_addrs` it is the unique such index).
pub open spec fn record_index(s: Seq<AttemptRecord>, addr: Seq<char>) -> int {
    choose|i: int| 0 <= i < s.len() && s[i].addr == addr
}

/// The current offense count of `addr`: zero when it is not tracked.
pub open spec fn count_of(s: Seq<AttemptRecord>, addr: Seq<char>) -> int {
    if has_record(s, addr) {
        s[record_index(s, addr)].count
    } else {
        0
    }
}

/// No two records track the same address.
pub open spec fn unique_addrs(s: Seq<AttemptRecord>) -> bool {
    forall|i: int, j: int| 0 <= i < j < s.len() ==> s[i].addr != s[j].addr
}

/// The table with the record of `addr` removed (unchanged when `addr` is
/// not tracked).
pub open spec fn remove_record(s: Seq<AttemptRecord>, addr: Seq<char>) -> Seq<AttemptRecord> {
    if has_record(s, addr) {
        s.remove(record_index(s, addr))
    } else {
        s
    }
}

/// The ban decision for one appended line: if the line matches the trigger
/// pattern and the address pattern extracts an address whose count would
/// reach `max_attempts`, that address is banned.
pub open spec fn step_ban(
    s: Seq<AttemptRecord>,
    trigger: Seq<char>,
    addr_pattern: Seq<char>,
    line: Seq<char>,
    max_attempts: int,
) -> Option<Seq<char>> {
    if !regex_match(trigger, line) {
        None
    } else {
        match regex_first_find(addr_pattern, line) {
            None => None,
            Some(addr) => if count_of(s, addr) + 1 >= max_attempts {
                Some(addr)
            } else {
                None
            },
        }
    }
}

/// The table after one appended line: a non-triggering or unattributable
/// line changes nothing; an offense increments the address's count (starting
/// it at one) and stamps the time; a ban wipes the address's record.
pub open spec fn step_records(
    s: Seq<AttemptRecord>,
    trigger: Seq<char>,
    addr_pattern: Seq<char>,
    line: Seq<char>,
    now: int,
    max_attempts: int,
) -> Seq<AttemptRecord> {
    if !regex_match(trigger, line) {
        s
    } else {
        match regex_first_find(addr_pattern, line) {
            None => s,
            Some(addr) => {
                let c = count_of(s, addr) + 1;
                if c >= max_attempts {
                    remove_record(s, addr)
                } else if has_record(s, addr) {
                    s.update(
                        record_index(s, addr),
                        AttemptRecord { addr: addr, count: c, last_attempt: now },
                    )
                } else {
                    s.push(AttemptRecord { addr: addr, count: 1, last_attempt: now })
                }
            },
        }
    }
}

/// A record young enough to survive a cleanup pass at time `now`.
pub open spec fn fresh_record(r: AttemptRecord, now: int, max_age: int) -> bool {
    now - r.last_attempt < max_age
}

/// The table after one cleanup pass: exactly the records whose age is below
/// `max_age` survive, in order.
pub open spec fn cleaned_records(s: Seq<AttemptRecord>, now: int, max_age: int) -> Seq<
    AttemptRecord,
> {
    s.filter(|r: AttemptRecord| fresh_record(r, now, max_age))
}

/// The policy one monitor runs under.
#[derive(Clone, Debug)]
pub struct MonitorConfig {
    /// Key of the service this monitor watches.
    pub type_: String,
    /// Display identity; defaults to `type_` when absent.
    pub name: Option<String>,
    /// Seconds: both the cleanup cadence and the maximum age of a record.
    pub cleanup_interval: u64,
    /// Offense count at which an address is banned.
    pub max_attempts: u32,
    /// Reserved; not consumed by the engine.
    pub lock_time: Option<u64>,
    /// Reserved; not consumed by the engine.
    pub max_locks: Option<u32>,
}

/// Why a monitor could not start.
#[derive(Debug, PartialEq, Eq, Structural, Clone, Copy)]
pub enum MonitorError {
    /// The service's trigger pattern is not a valid regex.
    InvalidTriggerPattern,
    /// The service's address pattern is not a valid regex.
    InvalidAddressPattern,
}

/// One service bound to one policy, ready to start.
pub struct Monitor {
    /// Resolved display name: the config's `name`, or its `type_`.
    pub name: String,
    pub service: Service,
    pub monitor_config: MonitorConfig,
}

/// The running state of one monitor: compiled patterns and the attempt
/// table. Each engine owns its table outright, so no two monitors can
/// observe or affect each other's counters.
pub struct MonitorEngine {
    /// Resolved display name of the owning monitor.
    pub name: String,
    /// Compiled trigger pattern: a line that matches it is an offense.
    pub trigger: Matcher,
    /// Compiled address pattern: its first match in an offending line is the
    /// offending address.
    pub address: Matcher,
    /// Offense count at which an address is banned.
    pub max_attempts: u32,
    /// Seconds: the maximum age of a record at a cleanup pass.
    pub cleanup_interval: u64,
    /// The attempt table: one entry per currently tracked address.
    pub attempts: Vec<AttemptEntry>,
}

impl MonitorEngine {
    /// The mathematical image of the attempt table.
    pub open spec fn records(self) -> Seq<AttemptRecord> {
        records_of(self.attempts@)
    }

    /// Table invariant: addresses are unique, and every tracked count is at
    /// least one (a record exists only after an offense) and below the
    /// threshold (reaching it wipes the record at once).
    pub open spec fn wf(self) -> bool {
        &&& unique_addrs(self.records())
        &&& forall|i: int|
            0 <= i < self.records().len() ==> 1 <= (#[trigger] self.records()[i]).count
                < self.max_attempts as int
    }

    /// Everything but the attempt table is unchanged.
    pub open spec fn same_policy(self, other: Self) -> bool {
        &&& self.name == other.name
        &&& self.trigger == other.trigger
        &&& self.address == other.address
        &&& self.max_attempts == other.max_attempts
        &&& self.cleanup_interval == other.cleanup_interval
    }

    /// Applies one appended log line.
    ///
    /// If the line does not match the trigger pattern, or matches it but the
    /// address pattern finds nothing, no counter is touched and no ban is
    /// emitted. Otherwise the extracted address's count rises by one (a new
    /// address starts at one) and its timestamp is set to `now`; if the new
    /// count reaches `max_attempts`, the record is wiped and the address is
    /// returned as banned.
    pub fn record_line(&mut self, line: &str, now: u64) -> (ban: Option<String>)
        requires
            old(self).wf(),
        ensures
            final(self).wf(),
            final(self).same_policy(*old(self)),
            final(self).records() == step_records(
                old(self).records(),
                old(self).trigger.pattern_view(),
                old(self).address.pattern_view(),
                line@,
                now as int,
                old(self).max_attempts as int,
            ),
            (match ban {
                Some(a) => step_ban(
                    old(self).records(),
                    old(self).trigger.pattern_view(),
                    old(self).address.pattern_view(),
                    line@,
                    old(self).max_attempts as int,
                ) == Some(a@),
                None => step_ban(
                    old(self).records(),
                    old(self).trigger.pattern_view(),
                    old(self).address.pattern_view(),
                    line@,
                    old(self).max_attempts as int,
                ) is None,
            }),
            !regex_match(old(self).trigger.pattern_view(), line@) ==> final(self).records()
                == old(self).records() && ban is None,
            regex_match(old(self).trigger.pattern_view(), line@) && regex_first_find(
                old(self).address.pattern_view(),
                line@,
            ) is None ==> final(self).records() == old(self).records() && ban is None,
    {
        let ghost s0 = self.records();
        let ghost trig = self.trigger.pattern_view();
        let ghost addrp = self.address.pattern_view();
        let ghost maxi = self.max_attempts as int;

        if !self.trigger.is_match(line) {
            return None;
        }
        let found = self.address.find_first(line);
        let addr = match found {
            None => {
                return None;
            },
            Some(a) => a,
        };

        let n = self.attempts.len();
        let mut i: usize = 0;
        while i < n && !(self.attempts[i].addr == addr)
            invariant
                n == self.attempts.len(),
                i <= n,
                forall|j: int| 0 <= j < i ==> self.attempts@[j].addr@ != addr@,
            decreases n - i,
        {
            i += 1;
        }

        if i < n {
            proof {
                assert(s0[i as int].addr == addr@);
                assert(has_record(s0, addr@));
                let k = record_index(s0, addr@);
                assert(0 <= k < s0.len() && s0[k].addr == addr@);
                assert(k == i as int) by {
                    if k < i as int {
                        assert(s0[k].addr != addr@);
                    } else if k > i as int {
                        assert(s0[i as int].addr != s0[k].addr);
                    }
                }
                assert(count_of(s0, addr@) == self.attempts@[i as int].attempt.count as int);
            }
            let cur = self.attempts[i].attempt.count;
            let newc = cur + 1;
            if newc >= self.max_attempts {
                self.attempts.remove(i);
                proof {
                    assert(self.records() =~= remove_record(s0, addr@));
                    assert(self.records() == step_records(s0, trig, addrp, line@, now as int, maxi));
                }
                Some(addr)
            } else {
                let e = self.attempts.remove(i);
                self.attempts.insert(
                    i,
                    AttemptEntry {
                        addr: e.addr,
                        attempt: Attempt { count: newc, last_attempt: now },
                    },
                );
                proof {
                    let stepped = step_records(s0, trig, addrp, line@, now as int, maxi);
                    assert(self.records() =~= stepped);
                }
                None
            }
        } else {
            proof {
                assert(!has_record(s0, addr@));
                assert(count_of(s0, addr@) == 0);
            }
            if self.max_attempts <= 1 {
                proof {
                    assert(self.records() =~= remove_record(s0, addr@));
                }
                Some(addr)
            } else {
                self.attempts.push(
                    AttemptEntry { addr: addr, attempt: Attempt { count: 1, last_attempt: now } },
                );
                proof {
                    let stepped = step_records(s0, trig, addrp, line@, now as int, maxi);
                    assert(self.records() =~= stepped);
                }
                None
            }
        }
    }

    /// Removes every record whose age at time `now` has reached
    /// `cleanup_interval`; younger records survive unchanged, in order.
    pub fn cleanup(&mut self, now: u64)
        requires
            old(self).wf(),
        ensures
            final(self).wf(),
            final(self).same_policy(*old(self)),
            final(self).records() == cleaned_records(
                old(self).records(),
                now as int,
                old(self).cleanup_interval as int,
            ),
    {
        let ghost rs = self.records();
        let ghost nowi = now as int;
        let ghost agei = self.cleanup_interval as int;
        let max_age = self.cleanup_interval;

        let n = self.attempts.len();
        let mut kept: Vec<AttemptEntry> = Vec::new();
        let mut i: usize = 0;
        proof {
            assert(rs.subrange(0, 0) =~= Seq::<AttemptRecord>::empty());
            lemma_cleaned_empty(nowi, agei);
        }
        while i < n
            invariant
                n == self.attempts.len(),
                i <= n,
                rs == self.records(),
                max_age == self.cleanup_interval,
                records_of(kept@) == cleaned_records(rs.subrange(0, i as int), now as int, max_age as int),
            decreases n - i,
        {
            let e = clone_entry(&self.attempts[i]);
            let keep = if now >= e.attempt.last_attempt {
                now - e.attempt.last_attempt < max_age
            } else {
                true
            };
            proof {
                reveal(Seq::filter);
                let t = rs.subrange(0, i + 1 as int);
                assert(t.drop_last() =~= rs.subrange(0, i as int));
                assert(t.last() == rs[i as int]);
                assert(rs[i as int] == entry_record(self.attempts@[i as int]));
                assert(keep == fresh_record(rs[i as int], now as int, max_age as int));
            }
            if keep {
                kept.push(e);
                proof {
                    assert(records_of(kept@) =~= cleaned_records(
                        rs.subrange(0, i + 1 as int),
                        now as int,
                        max_age as int,
                    ));
                }
            } else {
                proof {
                    assert(records_of(kept@) =~= cleaned_records(
                        rs.subrange(0, i + 1 as int),
                        now as int,
                        max_age as int,
                    ));
                }
            }
            i += 1;
        }
        self.attempts = kept;
        proof {
            assert(rs.subrange(0, n as int) =~= rs);
            lemma_cleaned_props(rs, nowi, agei);
        }
    }
}

/// A copy of one entry, field for field.
fn clone_entry(e: &AttemptEntry) -> (r: AttemptEntry)
    ensures
        r.addr@ == e.addr@,
        r.attempt == e.attempt,
{
    AttemptEntry { addr: e.addr.clone(), attempt: e.attempt }
}

/// A cleanup pass over nothing leaves nothing.
proof fn lemma_cleaned_empty(now: int, max_age: int)
    ensures
        cleaned_records(Seq::<AttemptRecord>::empty(), now, max_age) == Seq::<
            AttemptRecord,
        >::empty(),
{
    reveal(Seq::filter);
}

/// What survives a cleanup pass: only records already in the table, all of
/// them fresh, every fresh one among them, and uniqueness of addresses is
/// preserved.
pub proof fn lemma_cleaned_props(s: Seq<AttemptRecord>, now: int, max_age: int)
    ensures
        forall|i: int|
            0 <= i < cleaned_records(s, now, max_age).len() ==> exists|j: int|
                0 <= j < s.len() && s[j] == #[trigger] cleaned_records(s, now, max_age)[i],
        forall|i: int|
            0 <= i < cleaned_records(s, now, max_age).len() ==> fresh_record(
                #[trigger] cleaned_records(s, now, max_age)[i],
                now,
                max_age,
            ),
        forall|j: int|
            0 <= j < s.len() && #[trigger] fresh_record(s[j], now, max_age) ==> exists|i: int|
                0 <= i < cleaned_records(s, now, max_age).len() && cleaned_records(
                    s,
                    now,
                    max_age,
                )[i] == s[j],
        unique_addrs(s) ==> unique_addrs(cleaned_records(s, now, max_age)),
    decreases s.len(),
{
    reveal(Seq::filter);
    let c = cleaned_records(s, now, max_age);
    if s.len() == 0 {
    } else {
        let dl = s.drop_last();
        lemma_cleaned_props(dl, now, max_age);
        let cdl = cleaned_records(dl, now, max_age);
        assert forall|i: int| 0 <= i < c.len() implies exists|j: int|
            0 <= j < s.len() && s[j] == #[trigger] c[i] by {
            if i < cdl.len() {
                let j = choose|j: int| 0 <= j < dl.len() && dl[j] == cdl[i];
                assert(s[j] == c[i]);
            } else {
                assert(c[i] == s[s.len() - 1]);
            }
        }
        assert forall|j: int|
            0 <= j < s.len() && #[trigger] fresh_record(s[j], now, max_age) implies exists|i: int|
            0 <= i < c.len() && c[i] == s[j] by {
            if j < s.len() - 1 {
                assert(fresh_record(dl[j], now, max_age));
                let i = choose|i: int| 0 <= i < cdl.len() && cdl[i] == dl[j];
                assert(c[i] == s[j]);
            } else {
                assert(c[c.len() - 1] == s[j]);
            }
        }
        if unique_addrs(s) {
            assert(unique_addrs(dl));
            assert forall|i: int, j: int| 0 <= i < j < c.len() implies c[i].addr != c[j].addr by {
                if j < cdl.len() {
                } else {
                    let jj = choose|jj: int| 0 <= jj < dl.len() && dl[jj] == cdl[i];
                    assert(s[jj].addr != s[s.len() - 1].addr);
                }
            }
        }
    }
}

/// Which addresses a cleanup pass keeps: exactly those that were tracked and
/// still fresh, each with its record unchanged.
pub proof fn lemma_cleaned_membership(s: Seq<AttemptRecord>, now: int, max_age: int, a: Seq<char>)
    requires
        unique_addrs(s),
    ensures
        has_record(cleaned_records(s, now, max_age), a) <==> (has_record(s, a) && fresh_record(
            s[record_index(s, a)],
            now,
            max_age,
        )),
        has_record(cleaned_records(s, now, max_age), a) ==> cleaned_records(s, now, max_age)[
            record_index(cleaned_records(s, now, max_age), a)
        ] == s[record_index(s, a)],
{
    lemma_cleaned_props(s, now, max_age);
    let c = cleaned_records(s, now, max_age);
    if has_record(c, a) {
        let i = record_index(c, a);
        assert(0 <= i < c.len() && c[i].addr == a);
        let j = choose|j: int| 0 <= j < s.len() && s[j] == c[i];
        assert(has_record(s, a));
        let k = record_index(s, a);
        assert(0 <= k < s.len() && s[k].addr == a);
        assert(k == j) by {
            if k < j {
                assert(s[k].addr != s[j].addr);
            } else if j < k {
                assert(s[j].addr != s[k].addr);
            }
        }
        assert(fresh_record(s[record_index(s, a)], now, max_age));
    }
    if has_record(s, a) && fresh_record(s[record_index(s, a)], now, max_age) {
        let k = record_index(s, a);
        let i = choose|i: int| 0 <= i < c.len() && c[i] == s[k];
        assert(has_record(c, a));
    }
}

/// An engine answers for a monitor: its patterns are the compilations of the
/// monitor's service patterns, its policy is the monitor's, and its table
/// starts empty.
pub open spec fn engine_for(en: MonitorEngine, m: Monitor) -> bool {
    &&& en.name@ == m.name@
    &&& en.trigger.pattern_view() == m.service.log_trigger@
    &&& en.address.pattern_view() == m.service.log_ip_regex@
    &&& en.max_attempts == m.monitor_config.max_attempts
    &&& en.cleanup_interval == m.monitor_config.cleanup_interval
    &&& en.records().len() == 0
    &&& en.wf()
}

/// Whether a monitor can start: both of its service's patterns compile.
pub open spec fn monitor_startable(m: Monitor) -> bool {
    regex_accepts(m.service.log_trigger@) && regex_accepts(m.service.log_ip_regex@)
}

impl Monitor {
    /// Binds a service to a policy. The monitor's name is the config's
    /// `name`, or its `type_` when no name is given.
    pub fn new(service: Service, monitor_config: MonitorConfig) -> (m: Monitor)
        ensures
            m.name@ == (match monitor_config.name {
                Some(n) => n@,
                None => monitor_config.type_@,
            }),
            m.service == service,
            m.monitor_config == monitor_config,
    {
        let name = match &monitor_config.name {
            Some(n) => n.clone(),
            None => monitor_config.type_.clone(),
        };
        Monitor { name, service, monitor_config }
    }

    /// Compiles the service's two patterns and yields the running engine
    /// with an empty attempt table. Fails exactly when a pattern is not a
    /// valid regex: on the trigger pattern first, else on the address
    /// pattern.
    pub fn start(&self) -> (r: Result<MonitorEngine, MonitorError>)
        ensures
            r is Ok <==> monitor_startable(*self),
            r matches Ok(en) ==> engine_for(en, *self),
            r matches Err(e) ==> {
                &&& (e == MonitorError::InvalidTriggerPattern <==> !regex_accepts(
                    self.service.log_trigger@,
                ))
                &&& (e == MonitorError::InvalidAddressPattern <==> regex_accepts(
                    self.service.log_trigger@,
                ) && !regex_accepts(self.service.log_ip_regex@))
            },
    {
        let trigger = match Matcher::compile(self.service.log_trigger.as_str()) {
            Some(t) => t,
            None => {
                return Err(MonitorError::InvalidTriggerPattern);
            },
        };
        let address = match Matcher::compile(self.service.log_ip_regex.as_str()) {
            Some(a) => a,
            None => {
                return Err(MonitorError::InvalidAddressPattern);
            },
        };
        let engine = MonitorEngine {
            name: self.name.clone(),
            trigger,
            address,
            max_attempts: self.monitor_config.max_attempts,
            cleanup_interval: self.monitor_config.cleanup_interval,
            attempts: Vec::new(),
        };
        Ok(engine)
    }
}

/// Whether some monitor is registered under `name`.
pub open spec fn has_monitor(s: Seq<Monitor>, name: Seq<char>) -> bool {
    exists|i: int| 0 <= i < s.len() && s[i].name@ == name
}

/// The index of the monitor registered under `name` (meaningful only when
/// `has_monitor` holds; under `unique_monitor_names` it is unique).
pub open spec fn monitor_index(s: Seq<Monitor>, name: Seq<char>) -> int {
    choose|i: int| 0 <= i < s.len() && s[i].name@ == name
}

/// No two monitors share a resolved name.
pub open spec fn unique_monitor_names(s: Seq<Monitor>) -> bool {
    forall|i: int, j: int| 0 <= i < j < s.len() ==> s[i].name@ != s[j].name@
}

/// The set of monitors, keyed by resolved name.
pub struct MonitorManager {
    pub monitors: Vec<Monitor>,
}

impl MonitorManager {
    /// Names are unique.
    pub open spec fn wf(self) -> bool {
        unique_monitor_names(self.monitors@)
    }

    /// An empty set of monitors.
    pub fn new() -> (r: MonitorManager)
        ensures
            r.monitors@.len() == 0,
            r.wf(),
    {
        MonitorManager { monitors: Vec::new() }
    }

    /// How many monitors are registered.
    pub fn len(&self) -> (r: usize)
        ensures
            r == self.monitors@.len(),
    {
        self.monitors.len()
    }

    /// Registers a monitor under its resolved name; a later registration
    /// under the same name replaces the earlier one.
    pub fn add_monitor(&mut self, monitor: Monitor)
        requires
            old(self).wf(),
        ensures
            final(self).wf(),
            has_monitor(old(self).monitors@, monitor.name@) ==> final(self).monitors@ == old(
                self,
            ).monitors@.update(monitor_index(old(self).monitors@, monitor.name@), monitor),
            !has_monitor(old(self).monitors@, monitor.name@) ==> final(self).monitors@ == old(
                self,
            ).monitors@.push(monitor),
    {
        let ghost s0 = self.monitors@;
        let n = self.monitors.len();
        let mut i: usize = 0;
        while i < n && !(self.monitors[i].name == monitor.name)
            invariant
                n == self.monitors.len(),
                i <= n,
                forall|j: int| 0 <= j < i ==> self.monitors@[j].name@ != monitor.name@,
            decreases n - i,
        {
            i += 1;
        }
        if i < n {
            proof {
                assert(has_monitor(s0, monitor.name@));
                let k = monitor_index(s0, monitor.name@);
                assert(0 <= k < s0.len() && s0[k].name@ == monitor.name@);
                assert(k == i as int) by {
                    if k < i as int {
                        assert(s0[k].name@ != monitor.name@);
                    } else if k > i as int {
                        assert(s0[i as int].name@ != s0[k].name@);
                    }
                }
            }
            self.monitors.remove(i);
            self.monitors.insert(i, monitor);
            proof {
                assert(self.monitors@ =~= s0.update(
                    monitor_index(s0, self.monitors@[i as int].name@),
                    self.monitors@[i as int],
                ));
            }
        } else {
            proof {
                assert(!has_monitor(s0, monitor.name@));
            }
            self.monitors.push(monitor);
        }
    }

    /// Starts every registered monitor, in registration order. Succeeds with
    /// one engine per monitor exactly when every monitor's patterns compile;
    /// on the first monitor that cannot start, aborts with its error and
    /// starts no further monitor.
    pub fn run_all(&self) -> (r: Result<Vec<MonitorEngine>, MonitorError>)
        ensures
            r is Ok <==> (forall|i: int|
                0 <= i < self.monitors@.len() ==> monitor_startable(#[trigger] self.monitors@[i])),
            r matches Ok(engines) ==> engines@.len() == self.monitors@.len() && (forall|i: int|
                0 <= i < engines@.len() ==> engine_for(
                    #[trigger] engines@[i],
                    self.monitors@[i],
                )),
            r matches Err(e) ==> exists|i: int|
                {
                    &&& 0 <= i < self.monitors@.len()
                    &&& !monitor_startable(#[trigger] self.monitors@[i])
                    &&& forall|j: int| 0 <= j < i ==> monitor_startable(#[trigger] self.monitors@[j])
                    &&& (e == MonitorError::InvalidTriggerPattern <==> !regex_accepts(
                        self.monitors@[i].service.log_trigger@,
                    ))
                },
    {
        let mut engines: Vec<MonitorEngine> = Vec::new();
        let n = self.monitors.len();
        let mut i: usize = 0;
        while i < n
            invariant
                n == self.monitors@.len(),
                i <= n,
                engines@.len() == i,
                forall|j: int| 0 <= j < i ==> monitor_startable(#[trigger] self.monitors@[j]),
                forall|j: int|
                    0 <= j < i ==> engine_for(#[trigger] engines@[j], self.monitors@[j]),
            decreases n - i,
        {
            match self.monitors[i].start() {
                Ok(en) => {
                    engines.push(en);
                },
                Err(e) => {
                    return Err(e);
                },
            }
            i += 1;
        }
        Ok(engines)
    }
}

} // verus!
