use std::cell::Cell;

use survey::dispatch::{file_tickets, FilingStatus, Ledger};
use survey::ticket::Ticket;
use survey::tracker::{
    select_tracker, ConfigError, Error, Issue, Null, Tracker, TrackerChoice,
};

fn ticket(name: &str) -> Ticket {
    Ticket {
        iteration: 1,
        pname: name.to_string(),
        branches: vec!["a".to_string()],
        cves: vec!["CVE-1".to_string()],
        maintainers: Vec::new(),
    }
}

/// A tracker that counts creations and fails on configured names.
struct ScriptedTracker {
    calls: Cell<u32>,
    fail_on: Vec<String>,
}

impl ScriptedTracker {
    fn new(fail_on: &[&str]) -> ScriptedTracker {
        ScriptedTracker {
            calls: Cell::new(0),
            fail_on: fail_on.iter().map(|s| s.to_string()).collect(),
        }
    }
}

impl Tracker for ScriptedTracker {
    fn create_issue(&self, tkt: &Ticket) -> Result<Issue, Error> {
        self.calls.set(self.calls.get() + 1);
        if self.fail_on.iter().any(|n| n == tkt.name()) {
            Err(Error::Api {
                status: 403,
                message: "rate limited".to_string(),
            })
        } else {
            Ok(Issue {
                id: 11,
                url: "https://tracker.test/11".to_string(),
                html_url: "https://tracker.test/11".to_string(),
                number: 11,
                title: tkt.name().to_string(),
                body: String::new(),
            })
        }
    }

    fn search(&self) -> Result<Vec<Issue>, Error> {
        Ok(Vec::new())
    }
}

#[test]
fn recorded_ticket_is_skipped_and_not_resubmitted() {
    let tracker = ScriptedTracker::new(&[]);
    let mut ledger = Ledger::from_names(vec!["openssl".to_string()]);
    let tickets = vec![ticket("openssl")];
    let (statuses, outcome) = file_tickets(&tickets, &mut ledger, &tracker);
    assert!(matches!(statuses[0], FilingStatus::Skipped));
    assert_eq!(0, tracker.calls.get());
    assert!(outcome.is_ok());
}

#[test]
fn partial_failure_keeps_other_markers_and_reports_nonzero() {
    let tracker = ScriptedTracker::new(&["apache"]);
    let mut ledger = Ledger::new();
    let tickets = vec![ticket("apache"), ticket("curl")];
    let (statuses, outcome) = file_tickets(&tickets, &mut ledger, &tracker);
    assert!(matches!(statuses[0], FilingStatus::Failed(_)));
    assert!(matches!(statuses[1], FilingStatus::Filed(_)));
    assert!(!ledger.contains("apache"));
    assert!(ledger.contains("curl"));
    let err = outcome.unwrap_err();
    assert_eq!("apache", err.ticket);
    assert_eq!(2, tracker.calls.get());
}

#[test]
fn empty_ticket_collection_is_a_successful_noop() {
    let tracker = ScriptedTracker::new(&[]);
    let mut ledger = Ledger::new();
    let tickets: Vec<Ticket> = Vec::new();
    let (statuses, outcome) = file_tickets(&tickets, &mut ledger, &tracker);
    assert!(statuses.is_empty());
    assert!(outcome.is_ok());
    assert_eq!(0, tracker.calls.get());
}

#[test]
fn successful_run_files_every_ticket_once() {
    let tracker = ScriptedTracker::new(&[]);
    let mut ledger = Ledger::new();
    let tickets = vec![ticket("curl"), ticket("openssl")];
    let (statuses, outcome) = file_tickets(&tickets, &mut ledger, &tracker);
    assert!(outcome.is_ok());
    assert!(statuses
        .iter()
        .all(|s| matches!(s, FilingStatus::Filed(_))));
    assert!(ledger.contains("curl"));
    assert!(ledger.contains("openssl"));
    assert_eq!(2, tracker.calls.get());
    // a rerun with the same ledger submits nothing
    let (statuses, outcome) = file_tickets(&tickets, &mut ledger, &tracker);
    assert!(outcome.is_ok());
    assert!(statuses.iter().all(|s| matches!(s, FilingStatus::Skipped)));
    assert_eq!(2, tracker.calls.get());
}

#[test]
fn dry_run_files_every_ticket_successfully() {
    let null = Null::new();
    let mut ledger = Ledger::new();
    let tickets = vec![ticket("curl"), ticket("openssl")];
    let (statuses, outcome) = file_tickets(&tickets, &mut ledger, &null);
    assert!(outcome.is_ok());
    for (tkt, status) in tickets.iter().zip(statuses.iter()) {
        match status {
            FilingStatus::Filed(issue) => assert_eq!(tkt.name(), issue.title),
            _ => panic!("expected every dry-run ticket to be filed"),
        }
    }
    assert!(ledger.contains("curl"));
    assert!(ledger.contains("openssl"));
}

#[test]
fn null_tracker_is_a_silent_success() {
    let null = Null::new();
    let created = null.create_issue(&ticket("openssl")).unwrap();
    assert_eq!("openssl", created.title);
    assert!(null.search().unwrap().is_empty());
}

#[test]
fn repository_without_credential_fails_fast() {
    match select_tracker(Some("owner/repo".to_string()), None) {
        Err(ConfigError::MissingCredential { repo }) => assert_eq!("owner/repo", repo),
        _ => panic!("expected a fatal configuration error"),
    }
}

#[test]
fn tracker_selection_covers_both_variants() {
    match select_tracker(
        Some("owner/repo".to_string()),
        Some("SECRET-REDACTED".to_string()),
    ) {
        Ok(TrackerChoice::Hosted { repo, token }) => {
            assert_eq!("owner/repo", repo);
            assert_eq!("SECRET-REDACTED", token);
        }
        _ => panic!("expected the hosted tracker"),
    }
    match select_tracker(None, None) {
        Ok(TrackerChoice::Dry) => {}
        _ => panic!("expected the no-op tracker"),
    }
}

#[test]
fn tracker_error_carries_its_message() {
    let err = Error::RateLimit {
        message: "slow down".to_string(),
    };
    assert_eq!("slow down", err.message());
}
