use survey::package::Package;
use survey::scan::{BranchFindings, BranchMaintainers, Finding, PackageMaintainers};
use survey::ticket::{ticket_list, Ticket};

fn finding(raw: &str, cves: &[&str]) -> Finding {
    Finding {
        pkg: Package::from_str(raw).unwrap(),
        cves: cves.iter().map(|c| c.to_string()).collect(),
    }
}

fn branch(name: &str, findings: Vec<Finding>) -> BranchFindings {
    BranchFindings {
        branch: name.to_string(),
        findings,
    }
}

fn set_of(names: &[String]) -> Vec<String> {
    let mut v: Vec<String> = names.to_vec();
    v.sort();
    v
}

fn assert_same_set(expected: &[&str], got: &[String]) {
    let mut want: Vec<String> = expected.iter().map(|s| s.to_string()).collect();
    want.sort();
    assert_eq!(want, set_of(got));
}

#[test]
fn end_to_end_two_branches() {
    let sbb = vec![
        branch("a", vec![finding("openssl-1.0.2d", &["CVE-1"])]),
        branch(
            "b",
            vec![
                finding("openssl-1.0.2d", &["CVE-1"]),
                finding("curl-7.60.0", &["CVE-2"]),
            ],
        ),
    ];
    let tickets = ticket_list(3, sbb, Vec::new());
    assert_eq!(2, tickets.len());
    let curl = &tickets[0];
    assert_eq!("curl", curl.name());
    assert_eq!(3, curl.iteration);
    assert_same_set(&["b"], &curl.branches);
    assert_same_set(&["CVE-2"], &curl.cves);
    let openssl = &tickets[1];
    assert_eq!("openssl", openssl.name());
    assert_eq!(3, openssl.iteration);
    assert_same_set(&["a", "b"], &openssl.branches);
    assert_same_set(&["CVE-1"], &openssl.cves);
}

#[test]
fn branch_order_does_not_change_the_tickets() {
    let forward = vec![
        branch("a", vec![finding("openssl-1.0.2d", &["CVE-1"])]),
        branch(
            "b",
            vec![
                finding("openssl-1.0.2e", &["CVE-3"]),
                finding("curl-7.60.0", &["CVE-2"]),
            ],
        ),
    ];
    let backward = vec![forward[1].clone(), forward[0].clone()];
    let t1 = ticket_list(7, forward, Vec::new());
    let t2 = ticket_list(7, backward, Vec::new());
    assert_eq!(t1.len(), t2.len());
    for (a, b) in t1.iter().zip(t2.iter()) {
        assert_eq!(a.name(), b.name());
        assert_eq!(set_of(&a.branches), set_of(&b.branches));
        assert_eq!(set_of(&a.cves), set_of(&b.cves));
        assert_eq!(set_of(&a.maintainers), set_of(&b.maintainers));
    }
}

#[test]
fn one_ticket_per_package_across_branches() {
    let sbb = vec![
        branch("a", vec![finding("zlib-1.2.11", &["CVE-A"])]),
        branch("b", vec![finding("zlib-1.2.11", &["CVE-B"])]),
        branch("c", vec![finding("gd-2.2.5", &["CVE-C"])]),
    ];
    let tickets = ticket_list(1, sbb, Vec::new());
    assert_eq!(2, tickets.len());
    let gd = &tickets[0];
    assert_eq!("gd", gd.name());
    assert_same_set(&["c"], &gd.branches);
    let zlib = &tickets[1];
    assert_eq!("zlib", zlib.name());
    assert_same_set(&["a", "b"], &zlib.branches);
    assert_same_set(&["CVE-A", "CVE-B"], &zlib.cves);
}

#[test]
fn empty_survey_yields_no_tickets() {
    let tickets: Vec<Ticket> = ticket_list(5, Vec::new(), Vec::new());
    assert!(tickets.is_empty());
    let no_findings = vec![branch("a", Vec::new()), branch("b", Vec::new())];
    assert!(ticket_list(5, no_findings, Vec::new()).is_empty());
}

#[test]
fn maintainers_unioned_per_package_version_and_branch() {
    let sbb = vec![
        branch("a", vec![finding("openssl-1.0.2d", &["CVE-1"])]),
        branch("b", vec![finding("openssl-1.0.2d", &["CVE-1"])]),
    ];
    let mbb = vec![
        BranchMaintainers {
            branch: "a".to_string(),
            packages: vec![PackageMaintainers {
                pkg_name: "openssl-1.0.2d".to_string(),
                maintainers: vec!["alice".to_string()],
            }],
        },
        BranchMaintainers {
            branch: "b".to_string(),
            packages: vec![PackageMaintainers {
                pkg_name: "openssl-1.0.2d".to_string(),
                maintainers: vec!["bob".to_string(), "alice".to_string()],
            }],
        },
    ];
    let tickets = ticket_list(2, sbb.clone(), mbb);
    assert_eq!(1, tickets.len());
    assert_same_set(&["alice", "bob"], &tickets[0].maintainers);
    // maintainer pinging disabled: the caller passes an empty map
    let silent = ticket_list(2, sbb, Vec::new());
    assert!(silent[0].maintainers.is_empty());
}

#[test]
fn ticket_file_name_is_the_base_name() {
    let sbb = vec![branch("a", vec![finding("curl-7.60.0", &["CVE-2"])])];
    let tickets = ticket_list(4, sbb, Vec::new());
    assert_eq!("curl", tickets[0].file_name());
    assert_eq!("curl", tickets[0].name());
}
