//! Per-branch survey data: branch selection, scanner findings and maintainer
//! attribution. The scanner itself is an external program; this module models
//! its output as plain values that the synthesizer reduces.

use vstd::prelude::*;
use vstd::string::StrSliceExecFns;
use crate::package::Package;

verus! {

/// A branch to survey: a label, optionally pinned to a revision. Written
/// `BRANCH` or `BRANCH=REVISION`.
#[derive(Debug, Clone)]
pub struct Branch {
    pub name: String,
    pub rev: Option<String>,
}

/// What `Branch::parse` guarantees: the spec string is split at its first
/// equals sign, or taken whole as the branch label when it has none.
pub open spec fn branch_parsed_from(b: Branch, s: Seq<char>) -> bool {
    match b.rev {
        Some(rev) => {
            let i = b.name@.len() as int;
            &&& i < s.len()
            &&& s[i] == '='
            &&& forall|j: int| 0 <= j < i ==> s[j] != '='
            &&& b.name@ == s.subrange(0, i)
            &&& rev@ == s.subrange(i + 1, s.len() as int)
        },
        None => b.name@ == s && forall|j: int| 0 <= j < s.len() ==> s[j] != '=',
    }
}

impl Branch {
    /// Parses a branch selection string, splitting label and revision at the
    /// first equals sign. Always succeeds; without an equals sign the whole
    /// string is the label and no revision is pinned.
    pub fn parse(s: &str) -> (b: Branch)
        ensures
            branch_parsed_from(b, s@),
    {
        let n = s.unicode_len();
        let mut i: usize = 0;
        while i < n
            invariant
                i <= n,
                n == s@.len(),
                forall|j: int| 0 <= j < i ==> s@[j] != '=',
            decreases n - i,
        {
            let c = s.get_char(i);
            if c == '=' {
                let name = s.substring_char(0, i).to_owned();
                let rev = s.substring_char(i + 1, n).to_owned();
                return Branch { name, rev: Some(rev) };
            }
            i += 1;
        }
        Branch { name: s.to_owned(), rev: None }
    }
}

/// One scanner-reported record: an affected package and the advisory
/// identifiers implicated for it.
#[derive(Debug, Clone)]
pub struct Finding {
    pub pkg: Package,
    pub cves: Vec<String>,
}

/// All findings of one branch, in scan order.
#[derive(Debug, Clone)]
pub struct BranchFindings {
    pub branch: String,
    pub findings: Vec<Finding>,
}

/// Scan results per branch, in the caller-supplied branch order.
pub type ScanByBranch = Vec<BranchFindings>;

/// Maintainer handles of one package (by its full identifier string).
#[derive(Debug, Clone)]
pub struct PackageMaintainers {
    pub pkg_name: String,
    pub maintainers: Vec<String>,
}

/// Maintainer attribution of one branch.
#[derive(Debug, Clone)]
pub struct BranchMaintainers {
    pub branch: String,
    pub packages: Vec<PackageMaintainers>,
}

/// Maintainer attribution per branch. An absent entry means "no maintainer
/// ping for this branch".
pub type MaintByBranch = Vec<BranchMaintainers>;

/// Every finding's package identifier is well formed.
pub open spec fn scan_wf(sbb: Seq<BranchFindings>) -> bool {
    forall|i: int, k: int|
        0 <= i < sbb.len() && 0 <= k < #[trigger] sbb[i].findings@.len()
            ==> (#[trigger] sbb[i].findings@[k]).pkg.wf()
}

} // verus!
