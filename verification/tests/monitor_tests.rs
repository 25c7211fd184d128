use logban::monitor::{Monitor, MonitorConfig, MonitorEngine, MonitorError, MonitorManager};
use logban::service::{Service, ServiceManager};

fn service(trigger: &str, ip_regex: &str) -> Service {
    Service {
        log_file: String::from("/var/log/test.log"),
        log_trigger: String::from(trigger),
        log_ip_regex: String::from(ip_regex),
    }
}

fn config(name: Option<&str>, cleanup_interval: u64, max_attempts: u32) -> MonitorConfig {
    MonitorConfig {
        type_: String::from("testsvc"),
        name: name.map(String::from),
        cleanup_interval,
        max_attempts,
        lock_time: None,
        max_locks: None,
    }
}

fn engine(cleanup_interval: u64, max_attempts: u32) -> MonitorEngine {
    let monitor = Monitor::new(
        service("Failed login from", r"\d+\.\d+\.\d+\.\d+"),
        config(None, cleanup_interval, max_attempts),
    );
    monitor.start().unwrap()
}

#[test]
fn ban_fires_exactly_after_third_offense() {
    let mut en = engine(5, 3);
    assert_eq!(en.record_line("Failed login from 10.0.0.5", 0), None);
    assert_eq!(en.record_line("Failed login from 10.0.0.5", 1), None);
    let ban = en.record_line("Failed login from 10.0.0.5", 2);
    assert_eq!(ban, Some(String::from("10.0.0.5")));
    // The record is wiped immediately after the ban.
    assert_eq!(en.attempts.len(), 0);
}

#[test]
fn counter_resets_after_ban() {
    let mut en = engine(5, 3);
    for t in 0..2 {
        assert_eq!(en.record_line("Failed login from 10.0.0.5", t), None);
    }
    assert!(en.record_line("Failed login from 10.0.0.5", 2).is_some());
    // A fresh offense starts a new count of one, not of four.
    assert_eq!(en.record_line("Failed login from 10.0.0.5", 3), None);
    assert_eq!(en.attempts.len(), 1);
    assert_eq!(en.attempts[0].attempt.count, 1);
}

#[test]
fn counts_rise_per_offense_and_stamp_time() {
    let mut en = engine(10, 5);
    en.record_line("Failed login from 1.1.1.1", 7);
    en.record_line("Failed login from 1.1.1.1", 9);
    assert_eq!(en.attempts.len(), 1);
    assert_eq!(en.attempts[0].addr, "1.1.1.1");
    assert_eq!(en.attempts[0].attempt.count, 2);
    assert_eq!(en.attempts[0].attempt.last_attempt, 9);
}

#[test]
fn non_matching_lines_touch_no_counter() {
    let mut en = engine(5, 3);
    assert_eq!(en.record_line("Successful login from 10.0.0.5", 0), None);
    assert_eq!(en.attempts.len(), 0);
}

#[test]
fn unattributable_offense_is_dropped() {
    let mut en = engine(5, 3);
    // Matches the trigger, but the address pattern finds nothing.
    assert_eq!(en.record_line("Failed login from somewhere", 0), None);
    assert_eq!(en.attempts.len(), 0);
    assert_eq!(en.record_line("Failed login from elsewhere", 1), None);
    assert_eq!(en.attempts.len(), 0);
}

#[test]
fn cleanup_purges_only_stale_records() {
    // One offense at t=0; the interval is 5 seconds.
    let mut en = engine(5, 3);
    en.record_line("Failed login from 1.2.3.4", 0);
    assert_eq!(en.attempts.len(), 1);
    // A cleanup before the interval elapses leaves the record present.
    en.cleanup(4);
    assert_eq!(en.attempts.len(), 1);
    // A cleanup after the interval elapsed removes it.
    en.cleanup(6);
    assert_eq!(en.attempts.len(), 0);
}

#[test]
fn offense_after_cleanup_starts_afresh() {
    let mut en = engine(5, 3);
    en.record_line("Failed login from 1.2.3.4", 0);
    en.record_line("Failed login from 1.2.3.4", 1);
    en.cleanup(60);
    en.record_line("Failed login from 1.2.3.4", 61);
    assert_eq!(en.attempts.len(), 1);
    assert_eq!(en.attempts[0].attempt.count, 1);
}

#[test]
fn cleanup_keeps_record_exactly_at_age_boundary_out() {
    let mut en = engine(5, 3);
    en.record_line("Failed login from 1.2.3.4", 0);
    // Age exactly equal to the interval is stale.
    en.cleanup(5);
    assert_eq!(en.attempts.len(), 0);
}

#[test]
fn two_monitors_never_share_counters() {
    let mut ssh = engine(5, 3);
    let mut ftp = engine(5, 3);
    let line = "Failed login from 9.9.9.9";
    ssh.record_line(line, 0);
    ssh.record_line(line, 1);
    ftp.record_line(line, 1);
    assert_eq!(ssh.attempts[0].attempt.count, 2);
    assert_eq!(ftp.attempts[0].attempt.count, 1);
    // A ban on one monitor leaves the other's counter standing.
    assert!(ssh.record_line(line, 2).is_some());
    assert_eq!(ssh.attempts.len(), 0);
    assert_eq!(ftp.attempts.len(), 1);
    assert_eq!(ftp.attempts[0].attempt.count, 1);
}

#[test]
fn addresses_are_counted_separately() {
    let mut en = engine(5, 3);
    en.record_line("Failed login from 1.1.1.1", 0);
    en.record_line("Failed login from 2.2.2.2", 0);
    en.record_line("Failed login from 1.1.1.1", 1);
    assert_eq!(en.attempts.len(), 2);
    assert_eq!(en.attempts[0].addr, "1.1.1.1");
    assert_eq!(en.attempts[0].attempt.count, 2);
    assert_eq!(en.attempts[1].addr, "2.2.2.2");
    assert_eq!(en.attempts[1].attempt.count, 1);
}

#[test]
fn threshold_of_one_bans_at_once() {
    let mut en = engine(5, 1);
    let ban = en.record_line("Failed login from 8.8.8.8", 0);
    assert_eq!(ban, Some(String::from("8.8.8.8")));
    assert_eq!(en.attempts.len(), 0);
}

#[test]
fn monitor_name_defaults_to_type() {
    let m = Monitor::new(service("x", "y"), config(None, 5, 3));
    assert_eq!(m.name, "testsvc");
}

#[test]
fn monitor_name_prefers_explicit_name() {
    let m = Monitor::new(service("x", "y"), config(Some("ssh-front"), 5, 3));
    assert_eq!(m.name, "ssh-front");
}

#[test]
fn invalid_trigger_pattern_fails_startup() {
    let m = Monitor::new(service("(unclosed", r"\d+"), config(None, 5, 3));
    assert_eq!(m.start().err(), Some(MonitorError::InvalidTriggerPattern));
}

#[test]
fn invalid_address_pattern_fails_startup() {
    let m = Monitor::new(service("Failed", "(unclosed"), config(None, 5, 3));
    assert_eq!(m.start().err(), Some(MonitorError::InvalidAddressPattern));
}

#[test]
fn manager_runs_all_monitors() {
    let mut mgr = MonitorManager::new();
    mgr.add_monitor(Monitor::new(service("a", "b"), config(Some("one"), 5, 3)));
    mgr.add_monitor(Monitor::new(service("c", "d"), config(Some("two"), 7, 2)));
    assert_eq!(mgr.len(), 2);
    let engines = mgr.run_all().unwrap();
    assert_eq!(engines.len(), 2);
    assert_eq!(engines[0].name, "one");
    assert_eq!(engines[1].name, "two");
    assert_eq!(engines[1].max_attempts, 2);
    assert_eq!(engines[1].cleanup_interval, 7);
}

#[test]
fn manager_aborts_on_first_failing_monitor() {
    let mut mgr = MonitorManager::new();
    mgr.add_monitor(Monitor::new(service("fine", "also fine"), config(Some("one"), 5, 3)));
    mgr.add_monitor(Monitor::new(service("(bad", "fine"), config(Some("two"), 5, 3)));
    assert_eq!(mgr.run_all().err(), Some(MonitorError::InvalidTriggerPattern));
}

#[test]
fn add_monitor_replaces_same_name() {
    let mut mgr = MonitorManager::new();
    mgr.add_monitor(Monitor::new(service("a", "b"), config(Some("dup"), 5, 3)));
    mgr.add_monitor(Monitor::new(service("c", "d"), config(Some("dup"), 9, 4)));
    assert_eq!(mgr.len(), 1);
    assert_eq!(mgr.monitors[0].monitor_config.max_attempts, 4);
}

#[test]
fn service_manager_registers_and_looks_up() {
    let mut sm = ServiceManager::new();
    sm.add_service(String::from("sshd"), service("Failed password", r"\d+\.\d+\.\d+\.\d+"));
    let found = sm.get_service("sshd").unwrap();
    assert_eq!(found.log_trigger, "Failed password");
    assert!(sm.get_service("ftpd").is_none());
}

#[test]
fn service_manager_last_registration_wins() {
    let mut sm = ServiceManager::new();
    sm.add_service(String::from("sshd"), service("first", "a"));
    sm.add_service(String::from("sshd"), service("second", "b"));
    assert_eq!(sm.services.len(), 1);
    assert_eq!(sm.services[0].service.log_trigger, "second");
}

#[test]
fn default_config_is_empty() {
    let c = logban::config::Config::default();
    assert_eq!(c.ban_command, "");
    assert!(c.monitors.is_empty());
}

#[test]
fn extracted_address_is_the_first_match() {
    let mut en = engine(5, 1);
    let ban = en.record_line("Failed login from 10.0.0.5 then 10.0.0.6", 0);
    assert_eq!(ban, Some(String::from("10.0.0.5")));
}
