//! The health check: the application pings its database and, where one is
//! configured, its queue, and reports whether every ping succeeded.

use vstd::prelude::*;

verus! {

/// The health status of the application.
#[derive(Clone, Copy, Debug, PartialEq, Eq)]
pub struct Health {
    pub ok: bool,
}

/// A dependency that the health check pings.
#[derive(Clone, Copy, Debug, PartialEq, Eq)]
pub enum Probe {
    Database,
    Queue,
}

/// How a ping failed: the error's message and its detailed rendering.
#[derive(Debug, PartialEq, Eq)]
pub struct PingError {
    pub msg: String,
    pub detail: String,
}

/// A failed ping, to be logged at error severity.
#[derive(Debug, PartialEq, Eq)]
pub struct PingFailure {
    pub probe: Probe,
    pub error: PingError,
}

/// The outcome of a health check: the status to answer with, and the
/// failures to log, in the order in which the pings were made.
#[derive(Debug, PartialEq, Eq)]
pub struct Report {
    pub health: Health,
    pub failures: Vec<PingFailure>,
}

/// Every ping that was made succeeded.
pub open spec fn all_ok(db: Result<(), PingError>, queue: Option<Result<(), PingError>>) -> bool {
    db is Ok && (queue is None || queue->Some_0 is Ok)
}

/// The failed pings: that of the database first, then that of the queue.
pub open spec fn failed(db: Result<(), PingError>, queue: Option<Result<(), PingError>>) -> Seq<
    PingFailure,
> {
    let of_db = match db {
        Ok(_) => Seq::<PingFailure>::empty(),
        Err(error) => seq![PingFailure { probe: Probe::Database, error }],
    };
    let of_queue = match queue {
        Some(Err(error)) => seq![PingFailure { probe: Probe::Queue, error }],
        _ => Seq::<PingFailure>::empty(),
    };
    of_db + of_queue
}

impl Probe {
    /// The name of the event under which a failed ping of this dependency
    /// is logged.
    pub fn event(&self) -> (name: &'static str)
        ensures
            name@ == match self {
                Probe::Database => "health_db_ping_error"@,
                Probe::Queue => "health_redis_ping_error"@,
            },
    {
        match self {
            Probe::Database => "health_db_ping_error",
            Probe::Queue => "health_redis_ping_error",
        }
    }
}

/// Judges the application's health from the result of pinging the database
/// and, where a queue is configured, the result of pinging the queue. A
/// failed ping makes the status not ok and is reported; it does not keep the
/// other ping from counting.
pub fn check(db: Result<(), PingError>, queue: Option<Result<(), PingError>>) -> (report: Report)
    ensures
        report.health.ok == all_ok(db, queue),
        report.failures@ == failed(db, queue),
{
    let mut failures: Vec<PingFailure> = Vec::new();
    let mut is_ok = match db {
        Ok(()) => true,
        Err(error) => {
            failures.push(PingFailure { probe: Probe::Database, error });
            false
        },
    };
    if let Some(pinged) = queue {
        if let Err(error) = pinged {
            failures.push(PingFailure { probe: Probe::Queue, error });
            is_ok = false;
        }
    }
    Report { health: Health { ok: is_ok }, failures }
}

} // verus!
