//! General laws of the attempt-tracking engine, proved over its mathematical
//! model: how a run of offenses reaches a ban, and how the slate is wiped
//! afterwards.

use vstd::prelude::*;

use crate::monitor::AttemptRecord;
use crate::monitor::has_record;
use crate::monitor::record_index;
use crate::monitor::count_of;
use crate::monitor::unique_addrs;
use crate::monitor::remove_record;
use crate::monitor::step_ban;
use crate::monitor::step_records;
use crate::monitor::cleaned_records;
use crate::monitor::fresh_record;
use crate::monitor::lemma_cleaned_membership;
use crate::pattern::regex_match;
use crate::pattern::regex_first_find;

verus! {

/// The table after the first `k` of the given lines have been applied, at the
/// given times.
pub open spec fn states_after(
    s0: Seq<AttemptRecord>,
    trigger: Seq<char>,
    addr_pattern: Seq<char>,
    lines: Seq<Seq<char>>,
    times: Seq<int>,
    max_attempts: int,
    k: int,
) -> Seq<AttemptRecord>
    decreases k,
{
    if k <= 0 {
        s0
    } else {
        step_records(
            states_after(s0, trigger, addr_pattern, lines, times, max_attempts, k - 1),
            trigger,
            addr_pattern,
            lines[k - 1],
            times[k - 1],
            max_attempts,
        )
    }
}

/// Every one of the lines is an offense attributed to `addr`: it matches the
/// trigger pattern, and the address pattern extracts `addr` from it.
pub open spec fn all_offend(
    lines: Seq<Seq<char>>,
    trigger: Seq<char>,
    addr_pattern: Seq<char>,
    addr: Seq<char>,
) -> bool {
    forall|i: int|
        0 <= i < lines.len() ==> regex_match(trigger, #[trigger] lines[i]) && regex_first_find(
            addr_pattern,
            lines[i],
        ) == Some(addr)
}

/// Pushing a record for an untracked address makes it the one tracked record
/// of that address.
proof fn lemma_count_of_push_fresh(s: Seq<AttemptRecord>, addr: Seq<char>, rec: AttemptRecord)
    requires
        !has_record(s, addr),
        rec.addr == addr,
    ensures
        has_record(s.push(rec), addr),
        record_index(s.push(rec), addr) == s.len(),
        count_of(s.push(rec), addr) == rec.count,
{
    let t = s.push(rec);
    assert(t[s.len() as int].addr == addr);
    assert(has_record(t, addr));
    let i = record_index(t, addr);
    assert(0 <= i < t.len() && t[i].addr == addr);
    assert(i == s.len()) by {
        if i < s.len() {
            assert(s[i].addr != addr);
        }
    }
}

/// Removing an address's record leaves no record of it, when addresses are
/// unique.
proof fn lemma_remove_record_gone(s: Seq<AttemptRecord>, addr: Seq<char>)
    requires
        unique_addrs(s),
    ensures
        !has_record(remove_record(s, addr), addr),
{
    if has_record(s, addr) {
        let k = record_index(s, addr);
        assert(0 <= k < s.len() && s[k].addr == addr);
        let t = s.remove(k);
        assert forall|i: int| 0 <= i < t.len() implies t[i].addr != addr by {
            if i < k {
                assert(t[i] == s[i]);
                assert(s[i].addr != s[k].addr);
            } else {
                assert(t[i] == s[i + 1]);
                assert(s[k].addr != s[i + 1].addr);
            }
        }
    }
}

/// After `k` offenses for an initially untracked address, with `k` below the
/// threshold, the table is the starting table plus one record of that address with
/// count `k` and the time of the `k`-th offense.
proof fn lemma_offense_chain(
    s0: Seq<AttemptRecord>,
    trigger: Seq<char>,
    addr_pattern: Seq<char>,
    lines: Seq<Seq<char>>,
    times: Seq<int>,
    max_attempts: int,
    addr: Seq<char>,
    k: int,
)
    requires
        !has_record(s0, addr),
        all_offend(lines, trigger, addr_pattern, addr),
        1 <= k < max_attempts,
        k <= lines.len(),
        k <= times.len(),
    ensures
        states_after(s0, trigger, addr_pattern, lines, times, max_attempts, k) == s0.push(
            AttemptRecord { addr: addr, count: k, last_attempt: times[k - 1] },
        ),
    decreases k,
{
    assert(regex_match(trigger, lines[k - 1]) && regex_first_find(addr_pattern, lines[k - 1])
        == Some(addr));
    if k == 1 {
        assert(states_after(s0, trigger, addr_pattern, lines, times, max_attempts, 0) == s0);
        assert(count_of(s0, addr) == 0);
        assert(step_records(s0, trigger, addr_pattern, lines[0], times[0], max_attempts)
            == s0.push(AttemptRecord { addr: addr, count: 1, last_attempt: times[0] }));
    } else {
        lemma_offense_chain(s0, trigger, addr_pattern, lines, times, max_attempts, addr, k - 1);
        let prev = AttemptRecord { addr: addr, count: k - 1, last_attempt: times[k - 2] };
        let sk = s0.push(prev);
        lemma_count_of_push_fresh(s0, addr, prev);
        assert(count_of(sk, addr) == k - 1);
        let cur = AttemptRecord { addr: addr, count: k, last_attempt: times[k - 1] };
        assert(sk.update(record_index(sk, addr), cur) =~= s0.push(cur));
    }
}

/// For a run of exactly `max_attempts` offending lines for one address,
/// starting untracked and with no cleanup in between, a ban for that address
/// fires exactly once: after the last line and at none before; and the
/// address's record is wiped, leaving the table as it began.
pub proof fn lemma_ban_fires_exactly_at_threshold(
    s0: Seq<AttemptRecord>,
    trigger: Seq<char>,
    addr_pattern: Seq<char>,
    lines: Seq<Seq<char>>,
    times: Seq<int>,
    max_attempts: int,
    addr: Seq<char>,
)
    requires
        !has_record(s0, addr),
        all_offend(lines, trigger, addr_pattern, addr),
        lines.len() == max_attempts,
        times.len() == max_attempts,
        max_attempts >= 1,
    ensures
        forall|k: int|
            0 <= k < max_attempts - 1 ==> step_ban(
                states_after(s0, trigger, addr_pattern, lines, times, max_attempts, k),
                trigger,
                addr_pattern,
                #[trigger] lines[k],
                max_attempts,
            ) is None,
        step_ban(
            states_after(s0, trigger, addr_pattern, lines, times, max_attempts, max_attempts - 1),
            trigger,
            addr_pattern,
            lines[max_attempts - 1],
            max_attempts,
        ) == Some(addr),
        states_after(s0, trigger, addr_pattern, lines, times, max_attempts, max_attempts) == s0,
        !has_record(
            states_after(s0, trigger, addr_pattern, lines, times, max_attempts, max_attempts),
            addr,
        ),
{
    assert forall|k: int| 0 <= k < max_attempts - 1 implies step_ban(
        states_after(s0, trigger, addr_pattern, lines, times, max_attempts, k),
        trigger,
        addr_pattern,
        #[trigger] lines[k],
        max_attempts,
    ) is None by {
        if k == 0 {
            assert(count_of(s0, addr) == 0);
        } else {
            lemma_offense_chain(s0, trigger, addr_pattern, lines, times, max_attempts, addr, k);
            let rec = AttemptRecord { addr: addr, count: k, last_attempt: times[k - 1] };
            lemma_count_of_push_fresh(s0, addr, rec);
        }
    }
    let s_last = states_after(
        s0,
        trigger,
        addr_pattern,
        lines,
        times,
        max_attempts,
        max_attempts - 1,
    );
    if max_attempts == 1 {
        assert(count_of(s0, addr) == 0);
        assert(remove_record(s0, addr) == s0);
    } else {
        lemma_offense_chain(
            s0,
            trigger,
            addr_pattern,
            lines,
            times,
            max_attempts,
            addr,
            max_attempts - 1,
        );
        let rec = AttemptRecord {
            addr: addr,
            count: max_attempts - 1,
            last_attempt: times[max_attempts - 2],
        };
        lemma_count_of_push_fresh(s0, addr, rec);
        assert(count_of(s_last, addr) == max_attempts - 1);
        assert(record_index(s_last, addr) == s0.len());
        assert(s_last.remove(s0.len() as int) =~= s0);
    }
}

/// After a ban fires for an address, its record is gone, and the next
/// offense attributed to it starts a fresh count of one, not of threshold
/// plus one.
pub proof fn lemma_counter_resets_after_ban(
    s: Seq<AttemptRecord>,
    trigger: Seq<char>,
    addr_pattern: Seq<char>,
    line1: Seq<char>,
    now1: int,
    line2: Seq<char>,
    now2: int,
    max_attempts: int,
    addr: Seq<char>,
)
    requires
        unique_addrs(s),
        regex_match(trigger, line1),
        regex_first_find(addr_pattern, line1) == Some(addr),
        regex_match(trigger, line2),
        regex_first_find(addr_pattern, line2) == Some(addr),
        step_ban(s, trigger, addr_pattern, line1, max_attempts) == Some(addr),
        max_attempts > 1,
    ensures
        !has_record(step_records(s, trigger, addr_pattern, line1, now1, max_attempts), addr),
        count_of(
            step_records(
                step_records(s, trigger, addr_pattern, line1, now1, max_attempts),
                trigger,
                addr_pattern,
                line2,
                now2,
                max_attempts,
            ),
            addr,
        ) == 1,
{
    let s1 = step_records(s, trigger, addr_pattern, line1, now1, max_attempts);
    assert(s1 == remove_record(s, addr));
    lemma_remove_record_gone(s, addr);
    assert(count_of(s1, addr) == 0);
    let rec = AttemptRecord { addr: addr, count: 1, last_attempt: now2 };
    lemma_count_of_push_fresh(s1, addr, rec);
}

/// An address whose record a cleanup pass purged starts afresh: its next
/// offense is counted as one.
pub proof fn lemma_fresh_count_after_cleanup(
    s: Seq<AttemptRecord>,
    now: int,
    max_age: int,
    trigger: Seq<char>,
    addr_pattern: Seq<char>,
    line: Seq<char>,
    time: int,
    max_attempts: int,
    addr: Seq<char>,
)
    requires
        unique_addrs(s),
        has_record(s, addr) ==> !fresh_record(s[record_index(s, addr)], now, max_age),
        regex_match(trigger, line),
        regex_first_find(addr_pattern, line) == Some(addr),
        max_attempts > 1,
    ensures
        !has_record(cleaned_records(s, now, max_age), addr),
        count_of(
            step_records(
                cleaned_records(s, now, max_age),
                trigger,
                addr_pattern,
                line,
                time,
                max_attempts,
            ),
            addr,
        ) == 1,
{
    lemma_cleaned_membership(s, now, max_age, addr);
    let c = cleaned_records(s, now, max_age);
    assert(count_of(c, addr) == 0);
    let rec = AttemptRecord { addr: addr, count: 1, last_attempt: time };
    lemma_count_of_push_fresh(c, addr, rec);
}

} // verus!
