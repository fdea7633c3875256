use loco_tasks::controller::health::check;
use loco_tasks::controller::health::Health;
use loco_tasks::controller::health::PingError;
use loco_tasks::controller::health::PingFailure;
use loco_tasks::controller::health::Probe;

fn refused(what: &str) -> PingError {
    PingError { msg: format!("{} refused", what), detail: format!("Refused({:?})", what) }
}

#[test]
fn database_up_and_no_queue_is_ok() {
    let report = check(Ok(()), None);
    assert_eq!(report.health, Health { ok: true });
    assert!(report.failures.is_empty());
}

#[test]
fn database_down_is_not_ok_and_logged_once() {
    let report = check(Err(refused("db")), None);
    assert_eq!(report.health, Health { ok: false });
    assert_eq!(report.failures, vec![PingFailure { probe: Probe::Database, error: refused("db") }]);
}

#[test]
fn queue_down_is_not_ok() {
    let report = check(Ok(()), Some(Err(refused("queue"))));
    assert_eq!(report.health, Health { ok: false });
    assert_eq!(report.failures, vec![PingFailure { probe: Probe::Queue, error: refused("queue") }]);
}

#[test]
fn database_and_queue_up_is_ok() {
    let report = check(Ok(()), Some(Ok(())));
    assert_eq!(report.health, Health { ok: true });
    assert!(report.failures.is_empty());
}

#[test]
fn database_down_does_not_hide_the_queue() {
    let report = check(Err(refused("db")), Some(Err(refused("queue"))));
    assert_eq!(report.health, Health { ok: false });
    assert_eq!(
        report.failures,
        vec![
            PingFailure { probe: Probe::Database, error: refused("db") },
            PingFailure { probe: Probe::Queue, error: refused("queue") },
        ]
    );
}

#[test]
fn database_down_with_queue_up_is_not_ok() {
    let report = check(Err(refused("db")), Some(Ok(())));
    assert_eq!(report.health, Health { ok: false });
    assert_eq!(report.failures, vec![PingFailure { probe: Probe::Database, error: refused("db") }]);
}

#[test]
fn failed_pings_are_logged_under_their_event() {
    assert_eq!(Probe::Database.event(), "health_db_ping_error");
    assert_eq!(Probe::Queue.event(), "health_redis_ping_error");
}
