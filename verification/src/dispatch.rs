//! The issue dispatcher: drives idempotent submission of synthesized tickets
//! against a tracker, with a ledger of already-filed ticket names standing for
//! the marker files of the iteration directory. Filing is at-most-once per
//! ticket name: a name in the ledger is skipped, a successful creation is
//! recorded, a failure leaves no record, and the run reports the first
//! failure after every ticket has been attempted.

use vstd::prelude::*;
use crate::names::has_str;
use crate::ticket::Ticket;
use crate::tracker::{Error, Issue, Tracker};

verus! {

/// The persisted record of already-filed ticket names for one iteration.
/// Callers load it from the iteration directory's marker files and write one
/// marker per newly filed ticket afterwards.
pub struct Ledger {
    names: Vec<String>,
}

impl Ledger {
    /// The name is recorded as already filed.
    pub closed spec fn has(&self, x: Seq<char>) -> bool {
        has_str(self.names@, x)
    }

    /// An empty ledger: nothing filed yet.
    pub fn new() -> (l: Ledger)
        ensures
            forall|x: Seq<char>| !l.has(x),
    {
        Ledger { names: Vec::new() }
    }

    /// A ledger holding exactly the given names.
    pub fn from_names(names: Vec<String>) -> (l: Ledger)
        ensures
            forall|x: Seq<char>| l.has(x) <==> has_str(names@, x),
    {
        Ledger { names }
    }

    /// Whether `name` is recorded.
    pub fn contains(&self, name: &str) -> (r: bool)
        ensures
            r == self.has(name@),
    {
        crate::names::contains_str(&self.names, name)
    }

    /// Records `name`.
    pub fn record(&mut self, name: String)
        ensures
            forall|x: Seq<char>|
                #![trigger final(self).has(x)]
                final(self).has(x) <==> old(self).has(x) || x == name@,
    {
        let ghost pre = self.names@;
        self.names.push(name);
        proof {
            assert forall|x: Seq<char>|
                has_str(self.names@, x) <==> has_str(pre, x) || x == name@ by {
                if has_str(pre, x) {
                    let t = choose|t: int| 0 <= t < pre.len() && pre[t]@ == x;
                    assert(self.names@[t]@ == x);
                }
                if x == name@ {
                    assert(self.names@[pre.len() as int]@ == x);
                }
                if has_str(self.names@, x) && !has_str(pre, x) {
                    let t = choose|t: int| 0 <= t < self.names@.len() && self.names@[t]@ == x;
                    if t < pre.len() {
                        assert(pre[t]@ == x);
                    }
                }
            }
        }
    }
}

/// The outcome of one ticket within a dispatch run.
pub enum FilingStatus {
    /// The ledger already recorded the ticket's name; the tracker was not
    /// asked again.
    Skipped,
    /// The tracker created the issue; the name is now recorded.
    Filed(Issue),
    /// The tracker failed; nothing was recorded for this ticket.
    Failed(Error),
}

/// The failure a dispatch run reports: the name of the first ticket whose
/// filing failed.
#[derive(Debug)]
pub struct FilingError {
    pub ticket: String,
}

/// `x` is the name of a ticket filed before position `j`.
pub open spec fn filed_before(
    tickets: Seq<Ticket>,
    statuses: Seq<FilingStatus>,
    j: int,
    x: Seq<char>,
) -> bool {
    exists|t: int| 0 <= t < j && (#[trigger] statuses[t]) is Filed && tickets[t].pname@ == x
}

/// The whole contract of `file_tickets`. Every ticket gets a status; a ticket
/// is skipped exactly when its name was filed before this run or earlier in
/// it; the ledger afterwards records exactly the old names plus the filed
/// ones; the run succeeds exactly when nothing failed, and otherwise names
/// the first failed ticket.
pub open spec fn dispatch_ok(
    before: Ledger,
    after: Ledger,
    tickets: Seq<Ticket>,
    statuses: Seq<FilingStatus>,
    outcome: Result<(), FilingError>,
) -> bool {
    &&& statuses.len() == tickets.len()
    &&& forall|j: int|
        0 <= j < tickets.len() ==> ((#[trigger] statuses[j]) is Skipped <==> before.has(
            tickets[j].pname@,
        ) || filed_before(tickets, statuses, j, tickets[j].pname@))
    &&& forall|x: Seq<char>|
        #![trigger after.has(x)]
        after.has(x) <==> before.has(x) || filed_before(
            tickets,
            statuses,
            tickets.len() as int,
            x,
        )
    &&& (outcome is Ok <==> forall|j: int|
        0 <= j < tickets.len() ==> !((#[trigger] statuses[j]) is Failed))
    &&& (outcome matches Err(e) ==> exists|j: int|
        0 <= j < tickets.len() && (#[trigger] statuses[j]) is Failed && e.ticket@
            == tickets[j].pname@ && (forall|t: int| 0 <= t < j ==> !((#[trigger] statuses[t])
            is Failed)))
}

/// Files every ticket, independently and at most once per name: a ticket
/// whose marker name the ledger records is skipped; otherwise the tracker is
/// asked to create the issue, and only a confirmed success is recorded. A
/// failure never stops the remaining tickets, but the run reports the first
/// failure at the end.
pub fn file_tickets<T: Tracker>(tickets: &Vec<Ticket>, ledger: &mut Ledger, tracker: &T) -> (r: (
    Vec<FilingStatus>,
    Result<(), FilingError>,
))
    ensures
        dispatch_ok(*old(ledger), *final(ledger), tickets@, r.0@, r.1),
{
    let mut statuses: Vec<FilingStatus> = Vec::new();
    let mut first_failed: Option<usize> = None;
    let mut j: usize = 0;
    while j < tickets.len()
        invariant
            j <= tickets@.len(),
            statuses@.len() == j,
            forall|t: int|
                0 <= t < j ==> ((#[trigger] statuses@[t]) is Skipped <==> old(ledger).has(
                    tickets@[t].pname@,
                ) || filed_before(tickets@, statuses@, t, tickets@[t].pname@)),
            forall|x: Seq<char>|
                #![trigger ledger.has(x)]
                ledger.has(x) <==> old(ledger).has(x) || filed_before(
                    tickets@,
                    statuses@,
                    j as int,
                    x,
                ),
            match first_failed {
                Some(f) => f < j && statuses@[f as int] is Failed && (forall|t: int|
                    0 <= t < f ==> !((#[trigger] statuses@[t]) is Failed)),
                None => forall|t: int| 0 <= t < j ==> !((#[trigger] statuses@[t]) is Failed),
            },
        decreases tickets@.len() - j,
    {
        let ghost s0 = statuses@;
        let tkt = &tickets[j];
        let status: FilingStatus = if ledger.contains(tkt.name()) {
            FilingStatus::Skipped
        } else {
            match tracker.create_issue(tkt) {
                Ok(issue) => {
                    ledger.record(tkt.file_name());
                    FilingStatus::Filed(issue)
                },
                Err(e) => {
                    if first_failed.is_none() {
                        first_failed = Some(j);
                    }
                    FilingStatus::Failed(e)
                },
            }
        };
        statuses.push(status);
        proof {
            assert(statuses@ =~= s0.push(status));
            assert(forall|t: int| 0 <= t < j ==> statuses@[t] == s0[t]);
            assert forall|t: int, x: Seq<char>|
                0 <= t <= j ==> (filed_before(tickets@, statuses@, t, x) <==> filed_before(
                    tickets@,
                    s0,
                    t,
                    x,
                )) by {}
            assert forall|x: Seq<char>|
                filed_before(tickets@, statuses@, j + 1, x) <==> filed_before(
                    tickets@,
                    statuses@,
                    j as int,
                    x,
                ) || (statuses@[j as int] is Filed && tickets@[j as int].pname@ == x) by {}
        }
        j += 1;
    }
    let outcome: Result<(), FilingError> = match first_failed {
        None => Ok(()),
        Some(f) => Err(FilingError { ticket: tickets[f].file_name() }),
    };
    (statuses, outcome)
}

/// Law: a ticket whose name the run started with recorded is skipped, not
/// resubmitted.
pub proof fn lemma_recorded_ticket_skipped(
    before: Ledger,
    after: Ledger,
    tickets: Seq<Ticket>,
    statuses: Seq<FilingStatus>,
    outcome: Result<(), FilingError>,
    j: int,
)
    requires
        dispatch_ok(before, after, tickets, statuses, outcome),
        0 <= j < tickets.len(),
        before.has(tickets[j].pname@),
    ensures
        statuses[j] is Skipped,
{
}

/// Law: with distinct ticket names, a failed ticket leaves no record while a
/// filed one is recorded, and the run reports failure.
pub proof fn lemma_partial_failure(
    before: Ledger,
    after: Ledger,
    tickets: Seq<Ticket>,
    statuses: Seq<FilingStatus>,
    outcome: Result<(), FilingError>,
    a: int,
    b: int,
)
    requires
        dispatch_ok(before, after, tickets, statuses, outcome),
        forall|x: int, y: int|
            0 <= x < y < tickets.len() ==> tickets[x].pname@ != tickets[y].pname@,
        0 <= a < tickets.len(),
        0 <= b < tickets.len(),
        statuses[a] is Failed,
        statuses[b] is Filed,
        !before.has(tickets[a].pname@),
    ensures
        after.has(tickets[b].pname@),
        !after.has(tickets[a].pname@),
        outcome is Err,
{
    assert(filed_before(tickets, statuses, tickets.len() as int, tickets[b].pname@));
    assert(after.has(tickets[b].pname@));
    if after.has(tickets[a].pname@) {
        let t = choose|t: int|
            0 <= t < tickets.len() && (#[trigger] statuses[t]) is Filed && tickets[t].pname@
                == tickets[a].pname@;
        assert(t == a);
        assert(false);
    }
    if outcome is Ok {
        assert(!(statuses[a] is Failed));
        assert(false);
    }
}

/// Law: an empty ticket collection dispatches as a successful no-op: no
/// statuses, no change to the ledger.
pub proof fn lemma_empty_dispatch_noop(
    before: Ledger,
    after: Ledger,
    tickets: Seq<Ticket>,
    statuses: Seq<FilingStatus>,
    outcome: Result<(), FilingError>,
)
    requires
        dispatch_ok(before, after, tickets, statuses, outcome),
        tickets.len() == 0,
    ensures
        statuses.len() == 0,
        outcome is Ok,
        forall|x: Seq<char>| after.has(x) <==> before.has(x),
{
}

} // verus!
