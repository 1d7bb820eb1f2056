//! Ticket synthesis: reduces per-branch survey data for one iteration into a
//! deduplicated, sorted collection of tickets, one per vulnerable package base
//! name, each carrying the union of affected branches, advisories and
//! maintainers across all branches.

use vstd::prelude::*;
use crate::names::{
    distinct_strs, has_str, insert_sorted_unique, lemma_lex_irrefl, lemma_sorted_same_members_equal,
    lex_lt, push_unique, sorted_strs, str_eq, strs,
};
use crate::scan::{BranchFindings, BranchMaintainers, MaintByBranch, ScanByBranch, scan_wf};

verus! {

/// The unit of output: one actionable vulnerability report for one package
/// base name within one iteration, merged across branches.
#[derive(Debug, Clone)]
pub struct Ticket {
    pub iteration: u32,
    pub pname: String,
    pub branches: Vec<String>,
    pub cves: Vec<String>,
    pub maintainers: Vec<String>,
}

impl Ticket {
    /// The ticket's identifying name: the package base name.
    pub fn name(&self) -> (r: &str)
        ensures
            r@ == self.pname@,
    {
        self.pname.as_str()
    }

    /// The marker file name under the iteration directory.
    pub fn file_name(&self) -> (r: String)
        ensures
            r@ == self.pname@,
    {
        self.pname.clone()
    }
}

/// The finding at `(i, k)` exists and reports a package with base name `base`.
pub open spec fn finding_matches(
    sbb: Seq<BranchFindings>,
    i: int,
    k: int,
    base: Seq<char>,
) -> bool {
    &&& 0 <= i < sbb.len()
    &&& 0 <= k < sbb[i].findings@.len()
    &&& sbb[i].findings@[k].pkg.pname_spec() == base
}

/// Some branch reports a finding for `base`.
pub open spec fn base_present(sbb: Seq<BranchFindings>, base: Seq<char>) -> bool {
    exists|i: int, k: int| finding_matches(sbb, i, k, base)
}

/// The finding at `(i, k)` lists advisory `c`.
pub open spec fn finding_has_cve(sbb: Seq<BranchFindings>, i: int, k: int, c: Seq<char>) -> bool {
    has_str(sbb[i].findings@[k].cves@, c)
}

/// Branch `b` reports some finding for `base`.
pub open spec fn is_branch_of(sbb: Seq<BranchFindings>, base: Seq<char>, b: Seq<char>) -> bool {
    exists|i: int, k: int| #[trigger] finding_matches(sbb, i, k, base) && sbb[i].branch@ == b
}

/// Advisory `c` is implicated for `base` on some branch.
pub open spec fn is_cve_of(sbb: Seq<BranchFindings>, base: Seq<char>, c: Seq<char>) -> bool {
    exists|i: int, k: int| #[trigger] finding_matches(sbb, i, k, base) && finding_has_cve(
        sbb,
        i,
        k,
        c,
    )
}

/// The maintainer map lists entry `(q, w)` for package `full` on `branch`.
pub open spec fn maint_entry(
    mbb: Seq<BranchMaintainers>,
    q: int,
    w: int,
    branch: Seq<char>,
    full: Seq<char>,
) -> bool {
    &&& 0 <= q < mbb.len()
    &&& mbb[q].branch@ == branch
    &&& 0 <= w < mbb[q].packages@.len()
    &&& mbb[q].packages@[w].pkg_name@ == full
}

/// Entry `(q, w)` of the maintainer map lists handle `m`.
pub open spec fn entry_has_maint(
    mbb: Seq<BranchMaintainers>,
    q: int,
    w: int,
    m: Seq<char>,
) -> bool {
    has_str(mbb[q].packages@[w].maintainers@, m)
}

/// `m` maintains package `full` on `branch`, according to the maintainer map.
pub open spec fn is_maint_for(
    mbb: Seq<BranchMaintainers>,
    branch: Seq<char>,
    full: Seq<char>,
    m: Seq<char>,
) -> bool {
    exists|q: int, w: int| #[trigger] maint_entry(mbb, q, w, branch, full) && entry_has_maint(
        mbb,
        q,
        w,
        m,
    )
}

/// `m` maintains, on some branch that reports a finding for `base`, the exact
/// package version that finding names.
pub open spec fn is_maint_of(
    sbb: Seq<BranchFindings>,
    mbb: Seq<BranchMaintainers>,
    base: Seq<char>,
    m: Seq<char>,
) -> bool {
    exists|i: int, k: int| #[trigger] finding_matches(sbb, i, k, base) && is_maint_for(
        mbb,
        sbb[i].branch@,
        sbb[i].findings@[k].pkg.full_spec(),
        m,
    )
}

/// The set of branches on which `base` is vulnerable.
pub open spec fn branch_set(sbb: Seq<BranchFindings>, base: Seq<char>) -> Set<Seq<char>> {
    Set::new(|b: Seq<char>| is_branch_of(sbb, base, b))
}

/// The union of advisories implicated for `base` across branches.
pub open spec fn cve_set(sbb: Seq<BranchFindings>, base: Seq<char>) -> Set<Seq<char>> {
    Set::new(|c: Seq<char>| is_cve_of(sbb, base, c))
}

/// The union of maintainer handles for `base` across branches.
pub open spec fn maint_set(
    sbb: Seq<BranchFindings>,
    mbb: Seq<BranchMaintainers>,
    base: Seq<char>,
) -> Set<Seq<char>> {
    Set::new(|m: Seq<char>| is_maint_of(sbb, mbb, base, m))
}

/// One correct ticket: its name is reported by some branch, and its fields are
/// exactly the merged sets the survey data determines for that name.
pub open spec fn ticket_ok(
    iteration: u32,
    sbb: Seq<BranchFindings>,
    mbb: Seq<BranchMaintainers>,
    t: Ticket,
) -> bool {
    &&& t.iteration == iteration
    &&& base_present(sbb, t.pname@)
    &&& distinct_strs(t.branches@)
    &&& strs(t.branches@) == branch_set(sbb, t.pname@)
    &&& distinct_strs(t.cves@)
    &&& strs(t.cves@) == cve_set(sbb, t.pname@)
    &&& distinct_strs(t.maintainers@)
    &&& strs(t.maintainers@) == maint_set(sbb, mbb, t.pname@)
}

/// The whole contract of `ticket_list`: every ticket is correct, the output is
/// strictly sorted by base name (hence duplicate-free), and every reported
/// base name has a ticket.
pub open spec fn synth_ok(
    iteration: u32,
    sbb: Seq<BranchFindings>,
    mbb: Seq<BranchMaintainers>,
    out: Seq<Ticket>,
) -> bool {
    &&& forall|x: int| 0 <= x < out.len() ==> ticket_ok(iteration, sbb, mbb, #[trigger] out[x])
    &&& forall|x: int, y: int|
        0 <= x < y < out.len() ==> lex_lt(out[x].pname@, out[y].pname@)
    &&& forall|base: Seq<char>|
        #[trigger] base_present(sbb, base) ==> exists|x: int|
            0 <= x < out.len() && out[x].pname@ == base
}

/// `(ii, kk)` comes before position `(i, k)` in branch-major scan order.
pub open spec fn scanned_before(ii: int, kk: int, i: int, k: int) -> bool {
    ii < i || (ii == i && kk < k)
}

/// `base_present`, restricted to findings before `(i, k)`.
pub open spec fn present_pre(
    sbb: Seq<BranchFindings>,
    base: Seq<char>,
    i: int,
    k: int,
) -> bool {
    exists|ii: int, kk: int|
        #[trigger] finding_matches(sbb, ii, kk, base) && scanned_before(ii, kk, i, k)
}

/// `is_branch_of`, restricted to findings before `(i, k)`.
pub open spec fn branch_pre(
    sbb: Seq<BranchFindings>,
    base: Seq<char>,
    i: int,
    k: int,
    b: Seq<char>,
) -> bool {
    exists|ii: int, kk: int|
        #[trigger] finding_matches(sbb, ii, kk, base) && scanned_before(ii, kk, i, k)
            && sbb[ii].branch@ == b
}

/// `is_cve_of`, restricted to findings before `(i, k)`.
pub open spec fn cve_pre(
    sbb: Seq<BranchFindings>,
    base: Seq<char>,
    i: int,
    k: int,
    c: Seq<char>,
) -> bool {
    exists|ii: int, kk: int|
        #[trigger] finding_matches(sbb, ii, kk, base) && scanned_before(ii, kk, i, k)
            && finding_has_cve(sbb, ii, kk, c)
}

/// `is_maint_of`, restricted to findings before `(i, k)`.
pub open spec fn maint_pre(
    sbb: Seq<BranchFindings>,
    mbb: Seq<BranchMaintainers>,
    base: Seq<char>,
    i: int,
    k: int,
    m: Seq<char>,
) -> bool {
    exists|ii: int, kk: int|
        #[trigger] finding_matches(sbb, ii, kk, base) && scanned_before(ii, kk, i, k)
            && is_maint_for(mbb, sbb[ii].branch@, sbb[ii].findings@[kk].pkg.full_spec(), m)
}

/// Stepping past finding `(i, k)` adds exactly that finding's contribution.
proof fn lemma_prefix_step(
    sbb: Seq<BranchFindings>,
    mbb: Seq<BranchMaintainers>,
    base: Seq<char>,
    i: int,
    k: int,
)
    requires
        0 <= i < sbb.len(),
        0 <= k < sbb[i].findings@.len(),
    ensures
        present_pre(sbb, base, i, k + 1) <==> present_pre(sbb, base, i, k) || finding_matches(
            sbb,
            i,
            k,
            base,
        ),
        forall|b: Seq<char>|
            branch_pre(sbb, base, i, k + 1, b) <==> branch_pre(sbb, base, i, k, b) || (
            finding_matches(sbb, i, k, base) && sbb[i].branch@ == b),
        forall|c: Seq<char>|
            cve_pre(sbb, base, i, k + 1, c) <==> cve_pre(sbb, base, i, k, c) || (finding_matches(
                sbb,
                i,
                k,
                base,
            ) && finding_has_cve(sbb, i, k, c)),
        forall|m: Seq<char>|
            maint_pre(sbb, mbb, base, i, k + 1, m) <==> maint_pre(sbb, mbb, base, i, k, m) || (
            finding_matches(sbb, i, k, base) && is_maint_for(
                mbb,
                sbb[i].branch@,
                sbb[i].findings@[k].pkg.full_spec(),
                m,
            )),
{
    assert forall|ii: int, kk: int|
        scanned_before(ii, kk, i, k + 1) <==> scanned_before(ii, kk, i, k) || (ii == i && kk
            == k) by {}
}

/// Position `(i+1, 0)` sees the same findings as `(i, len(i))`.
proof fn lemma_prefix_next_branch(
    sbb: Seq<BranchFindings>,
    mbb: Seq<BranchMaintainers>,
    base: Seq<char>,
    i: int,
)
    requires
        0 <= i < sbb.len(),
    ensures
        present_pre(sbb, base, i + 1, 0) <==> present_pre(
            sbb,
            base,
            i,
            sbb[i].findings@.len() as int,
        ),
        forall|b: Seq<char>|
            branch_pre(sbb, base, i + 1, 0, b) <==> branch_pre(
                sbb,
                base,
                i,
                sbb[i].findings@.len() as int,
                b,
            ),
        forall|c: Seq<char>|
            cve_pre(sbb, base, i + 1, 0, c) <==> cve_pre(
                sbb,
                base,
                i,
                sbb[i].findings@.len() as int,
                c,
            ),
        forall|m: Seq<char>|
            maint_pre(sbb, mbb, base, i + 1, 0, m) <==> maint_pre(
                sbb,
                mbb,
                base,
                i,
                sbb[i].findings@.len() as int,
                m,
            ),
{
    let n = sbb[i].findings@.len() as int;
    assert forall|ii: int, kk: int|
        finding_matches(sbb, ii, kk, base) implies (scanned_before(ii, kk, i + 1, 0)
        <==> scanned_before(ii, kk, i, n)) by {}
}

/// Position `(len, 0)` sees every finding.
proof fn lemma_prefix_finish(
    sbb: Seq<BranchFindings>,
    mbb: Seq<BranchMaintainers>,
    base: Seq<char>,
)
    ensures
        present_pre(sbb, base, sbb.len() as int, 0) <==> base_present(sbb, base),
        forall|b: Seq<char>|
            branch_pre(sbb, base, sbb.len() as int, 0, b) <==> is_branch_of(sbb, base, b),
        forall|c: Seq<char>|
            cve_pre(sbb, base, sbb.len() as int, 0, c) <==> is_cve_of(sbb, base, c),
        forall|m: Seq<char>|
            maint_pre(sbb, mbb, base, sbb.len() as int, 0, m) <==> is_maint_of(sbb, mbb, base, m),
{
    let n = sbb.len() as int;
    assert forall|ii: int, kk: int|
        finding_matches(sbb, ii, kk, base) implies scanned_before(ii, kk, n, 0) by {}
}

/// Adds every name of `xs` to `v`, deduplicating.
fn push_all(v: &mut Vec<String>, xs: &Vec<String>)
    requires
        distinct_strs(old(v)@),
    ensures
        distinct_strs(final(v)@),
        forall|y: Seq<char>|
            #![trigger has_str(final(v)@, y)]
            #![trigger has_str(old(v)@, y)]
            #![trigger has_str(xs@, y)]
            has_str(final(v)@, y) <==> has_str(old(v)@, y) || has_str(xs@, y),
{
    let ghost pre = v@;
    let mut j: usize = 0;
    while j < xs.len()
        invariant
            j <= xs@.len(),
            distinct_strs(v@),
            forall|y: Seq<char>|
                has_str(v@, y) <==> has_str(pre, y) || has_str(xs@.subrange(0, j as int), y),
        decreases xs@.len() - j,
    {
        let ghost prevv = v@;
        proof {
            assert(forall|y: Seq<char>|
                has_str(prevv, y) <==> has_str(pre, y) || has_str(
                    xs@.subrange(0, j as int),
                    y,
                ));
        }
        push_unique(v, xs[j].as_str());
        proof {
            let sub = xs@.subrange(0, j as int);
            let sub1 = xs@.subrange(0, j + 1);
            assert(sub1 =~= sub.push(xs@[j as int]));
            assert forall|y: Seq<char>|
                has_str(v@, y) <==> has_str(pre, y) || has_str(sub1, y) by {
                if has_str(v@, y) && !has_str(pre, y) {
                    if has_str(prevv, y) {
                        assert(has_str(sub, y));
                        let t = choose|t: int| 0 <= t < sub.len() && sub[t]@ == y;
                        assert(sub1[t]@ == y);
                        assert(has_str(sub1, y));
                    } else {
                        assert(y == xs@[j as int]@);
                        assert(sub1[j as int]@ == y);
                        assert(has_str(sub1, y));
                    }
                }
                if has_str(sub1, y) {
                    let t = choose|t: int| 0 <= t < sub1.len() && sub1[t]@ == y;
                    if t < j {
                        assert(sub[t]@ == y);
                        assert(has_str(sub, y));
                        assert(has_str(prevv, y));
                    } else {
                        assert(y == xs@[j as int]@);
                    }
                    assert(has_str(v@, y));
                }
                if has_str(pre, y) {
                    assert(has_str(prevv, y));
                    assert(has_str(v@, y));
                }
            }
        }
        j += 1;
    }
    proof {
        assert(xs@.subrange(0, xs@.len() as int) =~= xs@);
    }
}

/// `is_maint_for`, restricted to map entries before `(q, w)`.
pub open spec fn maint_for_pre(
    mbb: Seq<BranchMaintainers>,
    branch: Seq<char>,
    full: Seq<char>,
    q: int,
    w: int,
    m: Seq<char>,
) -> bool {
    exists|qq: int, ww: int|
        #[trigger] maint_entry(mbb, qq, ww, branch, full) && entry_has_maint(mbb, qq, ww, m)
            && scanned_before(qq, ww, q, w)
}

/// Stepping past map entry `(q, w)` adds exactly that entry's handles.
proof fn lemma_maint_pre_step(
    mbb: Seq<BranchMaintainers>,
    branch: Seq<char>,
    full: Seq<char>,
    q: int,
    w: int,
)
    requires
        0 <= q < mbb.len(),
        0 <= w < mbb[q].packages@.len(),
    ensures
        forall|m: Seq<char>|
            maint_for_pre(mbb, branch, full, q, w + 1, m) <==> maint_for_pre(
                mbb,
                branch,
                full,
                q,
                w,
                m,
            ) || (maint_entry(mbb, q, w, branch, full) && entry_has_maint(mbb, q, w, m)),
{
    assert forall|qq: int, ww: int|
        scanned_before(qq, ww, q, w + 1) <==> scanned_before(qq, ww, q, w) || (qq == q && ww
            == w) by {}
}

/// Map position `(q+1, 0)` sees the same entries as `(q, len(q))`.
proof fn lemma_maint_pre_next(
    mbb: Seq<BranchMaintainers>,
    branch: Seq<char>,
    full: Seq<char>,
    q: int,
)
    requires
        0 <= q < mbb.len(),
    ensures
        forall|m: Seq<char>|
            maint_for_pre(mbb, branch, full, q + 1, 0, m) <==> maint_for_pre(
                mbb,
                branch,
                full,
                q,
                mbb[q].packages@.len() as int,
                m,
            ),
{
    let n = mbb[q].packages@.len() as int;
    assert forall|qq: int, ww: int|
        maint_entry(mbb, qq, ww, branch, full) implies (scanned_before(qq, ww, q + 1, 0)
        <==> scanned_before(qq, ww, q, n)) by {}
}

/// A map entry for another branch contributes nothing.
proof fn lemma_maint_pre_skip(
    mbb: Seq<BranchMaintainers>,
    branch: Seq<char>,
    full: Seq<char>,
    q: int,
)
    requires
        0 <= q < mbb.len(),
        mbb[q].branch@ != branch,
    ensures
        forall|m: Seq<char>|
            maint_for_pre(mbb, branch, full, q + 1, 0, m) <==> maint_for_pre(
                mbb,
                branch,
                full,
                q,
                0,
                m,
            ),
{
    assert forall|qq: int, ww: int|
        maint_entry(mbb, qq, ww, branch, full) implies (scanned_before(qq, ww, q + 1, 0)
        <==> scanned_before(qq, ww, q, 0)) by {
        if qq == q {
            assert(mbb[qq].branch@ == branch);
        }
    }
}

/// Map position `(len, 0)` sees every entry.
proof fn lemma_maint_pre_finish(mbb: Seq<BranchMaintainers>, branch: Seq<char>, full: Seq<char>)
    ensures
        forall|m: Seq<char>|
            maint_for_pre(mbb, branch, full, mbb.len() as int, 0, m) <==> is_maint_for(
                mbb,
                branch,
                full,
                m,
            ),
{
    assert forall|qq: int, ww: int|
        maint_entry(mbb, qq, ww, branch, full) implies scanned_before(
            qq,
            ww,
            mbb.len() as int,
            0,
        ) by {}
}

/// Adds to `v` every maintainer handle that the maintainer map lists for
/// package `full` on `branch`.
fn collect_maints(v: &mut Vec<String>, mbb: &MaintByBranch, branch: &str, full: &str)
    requires
        distinct_strs(old(v)@),
    ensures
        distinct_strs(final(v)@),
        forall|m: Seq<char>|
            has_str(final(v)@, m) <==> has_str(old(v)@, m) || is_maint_for(
                mbb@,
                branch@,
                full@,
                m,
            ),
{
    let ghost pre = v@;
    let mut q: usize = 0;
    while q < mbb.len()
        invariant
            q <= mbb@.len(),
            distinct_strs(v@),
            forall|m: Seq<char>|
                #![trigger has_str(v@, m)]
                has_str(v@, m) <==> has_str(pre, m) || maint_for_pre(
                    mbb@,
                    branch@,
                    full@,
                    q as int,
                    0,
                    m,
                ),
        decreases mbb@.len() - q,
    {
        if str_eq(mbb[q].branch.as_str(), branch) {
            let mut w: usize = 0;
            while w < mbb[q].packages.len()
                invariant
                    q < mbb@.len(),
                    mbb@[q as int].branch@ == branch@,
                    w <= mbb@[q as int].packages@.len(),
                    distinct_strs(v@),
                    forall|m: Seq<char>|
                        #![trigger has_str(v@, m)]
                        has_str(v@, m) <==> has_str(pre, m) || maint_for_pre(
                            mbb@,
                            branch@,
                            full@,
                            q as int,
                            w as int,
                            m,
                        ),
                decreases mbb@[q as int].packages@.len() - w,
            {
                if str_eq(mbb[q].packages[w].pkg_name.as_str(), full) {
                    let ghost vmid = v@;
                    proof {
                        assert(maint_entry(mbb@, q as int, w as int, branch@, full@));
                        assert(forall|m: Seq<char>|
                            #![trigger has_str(vmid, m)]
                            has_str(vmid, m) <==> has_str(pre, m) || maint_for_pre(
                                mbb@,
                                branch@,
                                full@,
                                q as int,
                                w as int,
                                m,
                            ));
                    }
                    let ms = &mbb[q].packages[w].maintainers;
                    proof {
                        assert(ms@ == mbb@[q as int].packages@[w as int].maintainers@);
                    }
                    push_all(v, ms);
                    proof {
                        lemma_maint_pre_step(mbb@, branch@, full@, q as int, w as int);
                        assert(forall|m: Seq<char>|
                            #![trigger has_str(v@, m)]
                            has_str(v@, m) <==> has_str(vmid, m) || entry_has_maint(
                                mbb@,
                                q as int,
                                w as int,
                                m,
                            ));
                        assert(forall|m: Seq<char>|
                            #![trigger has_str(v@, m)]
                            has_str(v@, m) <==> has_str(pre, m) || maint_for_pre(
                                mbb@,
                                branch@,
                                full@,
                                q as int,
                                w as int + 1,
                                m,
                            ));
                    }
                } else {
                    proof {
                        assert(!maint_entry(mbb@, q as int, w as int, branch@, full@));
                        lemma_maint_pre_step(mbb@, branch@, full@, q as int, w as int);
                    }
                }
                w += 1;
            }
            proof {
                lemma_maint_pre_next(mbb@, branch@, full@, q as int);
            }
        } else {
            proof {
                lemma_maint_pre_skip(mbb@, branch@, full@, q as int);
            }
        }
        q += 1;
    }
    proof {
        lemma_maint_pre_finish(mbb@, branch@, full@);
    }
}

/// Synthesizes the ticket list for one iteration from the per-branch scan
/// results and maintainer attribution: one ticket per reported base name,
/// sorted ascending by base name, each merging branches, advisories and
/// maintainers across every branch that reports the name.
pub fn ticket_list(iteration: u32, sbb: ScanByBranch, mbb: MaintByBranch) -> (out: Vec<Ticket>)
    requires
        scan_wf(sbb@),
    ensures
        synth_ok(iteration, sbb@, mbb@, out@),
{
    // first pass: the sorted, duplicate-free collection of base names
    let mut bases: Vec<String> = Vec::new();
    let mut i: usize = 0;
    while i < sbb.len()
        invariant
            scan_wf(sbb@),
            i <= sbb@.len(),
            sorted_strs(bases@),
            forall|b: Seq<char>| has_str(bases@, b) <==> present_pre(sbb@, b, i as int, 0),
        decreases sbb@.len() - i,
    {
        let mut k: usize = 0;
        while k < sbb[i].findings.len()
            invariant
                scan_wf(sbb@),
                i < sbb@.len(),
                k <= sbb@[i as int].findings@.len(),
                sorted_strs(bases@),
                forall|b: Seq<char>|
                    has_str(bases@, b) <==> present_pre(sbb@, b, i as int, k as int),
            decreases sbb@[i as int].findings@.len() - k,
        {
            let f = &sbb[i].findings[k];
            insert_sorted_unique(&mut bases, f.pkg.pname());
            proof {
                assert forall|b: Seq<char>|
                    has_str(bases@, b) <==> present_pre(sbb@, b, i as int, k + 1) by {
                    lemma_prefix_step(sbb@, mbb@, b, i as int, k as int);
                    assert(finding_matches(sbb@, i as int, k as int, b) <==> b == sbb@[
                        i as int].findings@[k as int].pkg.pname_spec());
                }
            }
            k += 1;
        }
        proof {
            assert forall|b: Seq<char>|
                has_str(bases@, b) <==> present_pre(sbb@, b, i + 1, 0) by {
                lemma_prefix_next_branch(sbb@, mbb@, b, i as int);
            }
        }
        i += 1;
    }
    proof {
        assert forall|b: Seq<char>| has_str(bases@, b) <==> base_present(sbb@, b) by {
            lemma_prefix_finish(sbb@, mbb@, b);
        }
    }
    // second pass: one ticket per base name, merging over the whole survey
    let mut out: Vec<Ticket> = Vec::new();
    let mut x: usize = 0;
    while x < bases.len()
        invariant
            scan_wf(sbb@),
            sorted_strs(bases@),
            forall|b: Seq<char>| has_str(bases@, b) <==> base_present(sbb@, b),
            x <= bases@.len(),
            out@.len() == x,
            forall|t: int| 0 <= t < x ==> (#[trigger] out@[t]).pname@ == bases@[t]@,
            forall|t: int|
                0 <= t < x ==> ticket_ok(iteration, sbb@, mbb@, #[trigger] out@[t]),
        decreases bases@.len() - x,
    {
        let base: String = bases[x].clone();
        let mut branches: Vec<String> = Vec::new();
        let mut cves: Vec<String> = Vec::new();
        let mut maints: Vec<String> = Vec::new();
        let mut i: usize = 0;
        while i < sbb.len()
            invariant
                scan_wf(sbb@),
                base@ == bases@[x as int]@,
                x < bases@.len(),
                i <= sbb@.len(),
                distinct_strs(branches@),
                distinct_strs(cves@),
                distinct_strs(maints@),
                forall|b: Seq<char>|
                    has_str(branches@, b) <==> branch_pre(sbb@, base@, i as int, 0, b),
                forall|c: Seq<char>| has_str(cves@, c) <==> cve_pre(sbb@, base@, i as int, 0, c),
                forall|m: Seq<char>|
                    has_str(maints@, m) <==> maint_pre(sbb@, mbb@, base@, i as int, 0, m),
            decreases sbb@.len() - i,
        {
            let mut k: usize = 0;
            while k < sbb[i].findings.len()
                invariant
                    scan_wf(sbb@),
                    base@ == bases@[x as int]@,
                    x < bases@.len(),
                    i < sbb@.len(),
                    k <= sbb@[i as int].findings@.len(),
                    distinct_strs(branches@),
                    distinct_strs(cves@),
                    distinct_strs(maints@),
                    forall|b: Seq<char>|
                        has_str(branches@, b) <==> branch_pre(sbb@, base@, i as int, k as int, b),
                    forall|c: Seq<char>|
                        has_str(cves@, c) <==> cve_pre(sbb@, base@, i as int, k as int, c),
                    forall|m: Seq<char>|
                        has_str(maints@, m) <==> maint_pre(sbb@, mbb@, base@, i as int, k as int, m),
                decreases sbb@[i as int].findings@.len() - k,
            {
                let matched = str_eq(sbb[i].findings[k].pkg.pname(), base.as_str());
                proof {
                    lemma_prefix_step(sbb@, mbb@, base@, i as int, k as int);
                    assert(finding_matches(sbb@, i as int, k as int, base@) <==> matched);
                }
                if matched {
                    let ghost b0 = branches@;
                    let ghost c0 = cves@;
                    let ghost m0 = maints@;
                    proof {
                        assert(forall|b: Seq<char>|
                            has_str(b0, b) <==> branch_pre(sbb@, base@, i as int, k as int, b));
                        assert(forall|c: Seq<char>|
                            has_str(c0, c) <==> cve_pre(sbb@, base@, i as int, k as int, c));
                        assert(forall|m: Seq<char>|
                            has_str(m0, m) <==> maint_pre(
                                sbb@,
                                mbb@,
                                base@,
                                i as int,
                                k as int,
                                m,
                            ));
                    }
                    let br = sbb[i].branch.as_str();
                    let fc = &sbb[i].findings[k].cves;
                    let fp = sbb[i].findings[k].pkg.as_str();
                    proof {
                        assert(br@ == sbb@[i as int].branch@);
                        assert(fc@ == sbb@[i as int].findings@[k as int].cves@);
                        assert(fp@ == sbb@[i as int].findings@[k as int].pkg.full_spec());
                    }
                    push_unique(&mut branches, br);
                    push_all(&mut cves, fc);
                    collect_maints(&mut maints, &mbb, br, fp);
                    proof {
                        assert(forall|b: Seq<char>|
                            has_str(branches@, b) <==> has_str(b0, b) || b == sbb@[
                                i as int].branch@);
                        assert(forall|c: Seq<char>|
                            has_str(cves@, c) <==> has_str(c0, c) || finding_has_cve(
                                sbb@,
                                i as int,
                                k as int,
                                c,
                            ));
                        assert(forall|m: Seq<char>|
                            has_str(maints@, m) <==> has_str(m0, m) || is_maint_for(
                                mbb@,
                                sbb@[i as int].branch@,
                                sbb@[i as int].findings@[k as int].pkg.full_spec(),
                                m,
                            ));
                    }
                }
                k += 1;
            }
            proof {
                lemma_prefix_next_branch(sbb@, mbb@, base@, i as int);
            }
            i += 1;
        }
        proof {
            lemma_prefix_finish(sbb@, mbb@, base@);
        }
        let t = Ticket { iteration, pname: base, branches, cves, maintainers: maints };
        proof {
            assert(strs(t.branches@) =~= branch_set(sbb@, t.pname@));
            assert(strs(t.cves@) =~= cve_set(sbb@, t.pname@));
            assert(strs(t.maintainers@) =~= maint_set(sbb@, mbb@, t.pname@));
            assert(has_str(bases@, t.pname@));
        }
        out.push(t);
        x += 1;
    }
    proof {
        assert forall|base: Seq<char>| #[trigger]
            base_present(sbb@, base) implies exists|t: int|
            0 <= t < out@.len() && out@[t].pname@ == base by {
            assert(has_str(bases@, base));
            let t = choose|t: int| 0 <= t < bases@.len() && bases@[t]@ == base;
            assert(out@[t].pname@ == base);
        }
    }
    out
}

/// Law: within one synthesis, each reported package base name has exactly one
/// ticket, and that ticket carries exactly the branches, advisories and
/// maintainers the survey data determines for the name.
pub proof fn lemma_one_ticket_per_package(
    iteration: u32,
    sbb: Seq<BranchFindings>,
    mbb: Seq<BranchMaintainers>,
    out: Seq<Ticket>,
    base: Seq<char>,
)
    requires
        synth_ok(iteration, sbb, mbb, out),
        base_present(sbb, base),
    ensures
        exists|x: int| 0 <= x < out.len() && out[x].pname@ == base,
        forall|x: int, y: int|
            0 <= x < out.len() && 0 <= y < out.len() && (#[trigger] out[x]).pname@ == base && (
            #[trigger] out[y]).pname@ == base ==> x == y,
        forall|x: int|
            0 <= x < out.len() && (#[trigger] out[x]).pname@ == base ==> strs(out[x].branches@)
                == branch_set(sbb, base) && strs(out[x].cves@) == cve_set(sbb, base) && strs(
                out[x].maintainers@,
            ) == maint_set(sbb, mbb, base),
{
    assert forall|x: int, y: int|
        0 <= x < out.len() && 0 <= y < out.len() && (#[trigger] out[x]).pname@ == base && (
        #[trigger] out[y]).pname@ == base implies x == y by {
        if x < y {
            lemma_lex_irrefl(base);
        }
        if y < x {
            lemma_lex_irrefl(base);
        }
    }
}

/// One sequence's element reappears in any sequence with the same multiset.
proof fn lemma_elem_transfer(s1: Seq<BranchFindings>, s2: Seq<BranchFindings>, i: int)
    requires
        s1.to_multiset() == s2.to_multiset(),
        0 <= i < s1.len(),
    ensures
        exists|i2: int| 0 <= i2 < s2.len() && s2[i2] == s1[i],
{
    s1.to_multiset_ensures();
    s2.to_multiset_ensures();
    assert(s1.contains(s1[i]));
    assert(s1.to_multiset().count(s1[i]) > 0);
    assert(s2.to_multiset().count(s1[i]) > 0);
    assert(s2.contains(s1[i]));
}

/// Reordering the branch entries preserves every derived predicate.
proof fn lemma_model_transfer(s1: Seq<BranchFindings>, s2: Seq<BranchFindings>)
    requires
        s1.to_multiset() == s2.to_multiset(),
    ensures
        forall|base: Seq<char>| #[trigger] base_present(s1, base) ==> base_present(s2, base),
        forall|base: Seq<char>, b: Seq<char>|
            #[trigger] is_branch_of(s1, base, b) ==> is_branch_of(s2, base, b),
        forall|base: Seq<char>, c: Seq<char>|
            #[trigger] is_cve_of(s1, base, c) ==> is_cve_of(s2, base, c),
        forall|mbb: Seq<BranchMaintainers>, base: Seq<char>, m: Seq<char>|
            #[trigger] is_maint_of(s1, mbb, base, m) ==> is_maint_of(s2, mbb, base, m),
{
    assert forall|base: Seq<char>| #[trigger]
        base_present(s1, base) implies base_present(s2, base) by {
        let (i, k) = choose|i: int, k: int| finding_matches(s1, i, k, base);
        lemma_elem_transfer(s1, s2, i);
        let i2 = choose|i2: int| 0 <= i2 < s2.len() && s2[i2] == s1[i];
        assert(finding_matches(s2, i2, k, base));
    }
    assert forall|base: Seq<char>, b: Seq<char>| #[trigger]
        is_branch_of(s1, base, b) implies is_branch_of(s2, base, b) by {
        let (i, k) = choose|i: int, k: int|
            #[trigger] finding_matches(s1, i, k, base) && s1[i].branch@ == b;
        lemma_elem_transfer(s1, s2, i);
        let i2 = choose|i2: int| 0 <= i2 < s2.len() && s2[i2] == s1[i];
        assert(finding_matches(s2, i2, k, base) && s2[i2].branch@ == b);
    }
    assert forall|base: Seq<char>, c: Seq<char>| #[trigger]
        is_cve_of(s1, base, c) implies is_cve_of(s2, base, c) by {
        let (i, k) = choose|i: int, k: int|
            #[trigger] finding_matches(s1, i, k, base) && finding_has_cve(s1, i, k, c);
        lemma_elem_transfer(s1, s2, i);
        let i2 = choose|i2: int| 0 <= i2 < s2.len() && s2[i2] == s1[i];
        assert(finding_matches(s2, i2, k, base) && finding_has_cve(s2, i2, k, c));
    }
    assert forall|mbb: Seq<BranchMaintainers>, base: Seq<char>, m: Seq<char>| #[trigger]
        is_maint_of(s1, mbb, base, m) implies is_maint_of(s2, mbb, base, m) by {
        let (i, k) = choose|i: int, k: int|
            #[trigger] finding_matches(s1, i, k, base) && is_maint_for(
                mbb,
                s1[i].branch@,
                s1[i].findings@[k].pkg.full_spec(),
                m,
            );
        lemma_elem_transfer(s1, s2, i);
        let i2 = choose|i2: int| 0 <= i2 < s2.len() && s2[i2] == s1[i];
        assert(finding_matches(s2, i2, k, base) && is_maint_for(
            mbb,
            s2[i2].branch@,
            s2[i2].findings@[k].pkg.full_spec(),
            m,
        ));
    }
}

/// Law: synthesis is commutative in branch processing order. Two syntheses of
/// the same survey data, presented in any branch order, produce the same
/// tickets: the same base names in the same sorted order, with the same
/// branch, advisory and maintainer sets.
pub proof fn lemma_synthesis_branch_order_irrelevant(
    iteration: u32,
    s1: Seq<BranchFindings>,
    s2: Seq<BranchFindings>,
    mbb: Seq<BranchMaintainers>,
    o1: Seq<Ticket>,
    o2: Seq<Ticket>,
)
    requires
        s1.to_multiset() == s2.to_multiset(),
        synth_ok(iteration, s1, mbb, o1),
        synth_ok(iteration, s2, mbb, o2),
    ensures
        o1.len() == o2.len(),
        forall|x: int| 0 <= x < o1.len() ==> (#[trigger] o1[x]).pname@ == o2[x].pname@,
        forall|x: int|
            0 <= x < o1.len() ==> strs((#[trigger] o1[x]).branches@) == strs(o2[x].branches@),
        forall|x: int| 0 <= x < o1.len() ==> strs((#[trigger] o1[x]).cves@) == strs(o2[x].cves@),
        forall|x: int|
            0 <= x < o1.len() ==> strs((#[trigger] o1[x]).maintainers@) == strs(
                o2[x].maintainers@,
            ),
{
    lemma_model_transfer(s1, s2);
    lemma_model_transfer(s2, s1);
    let p1 = Seq::new(o1.len(), |x: int| o1[x].pname);
    let p2 = Seq::new(o2.len(), |x: int| o2[x].pname);
    assert(sorted_strs(p1));
    assert(sorted_strs(p2));
    assert forall|y: Seq<char>| has_str(p1, y) <==> has_str(p2, y) by {
        if has_str(p1, y) {
            let x = choose|x: int| 0 <= x < p1.len() && p1[x]@ == y;
            assert(ticket_ok(iteration, s1, mbb, o1[x]));
            assert(base_present(s2, y));
            let x2 = choose|x2: int| 0 <= x2 < o2.len() && o2[x2].pname@ == y;
            assert(p2[x2]@ == y);
        }
        if has_str(p2, y) {
            let x = choose|x: int| 0 <= x < p2.len() && p2[x]@ == y;
            assert(ticket_ok(iteration, s2, mbb, o2[x]));
            assert(base_present(s1, y));
            let x2 = choose|x2: int| 0 <= x2 < o1.len() && o1[x2].pname@ == y;
            assert(p1[x2]@ == y);
        }
    }
    lemma_sorted_same_members_equal(p1, p2);
    assert forall|x: int| 0 <= x < o1.len() implies (#[trigger] o1[x]).pname@ == o2[x].pname@ by {
        assert(p1[x]@ == p2[x]@);
    }
    assert forall|x: int|
        0 <= x < o1.len() implies strs((#[trigger] o1[x]).branches@) == strs(o2[x].branches@)
            && strs(o1[x].cves@) == strs(o2[x].cves@) && strs(o1[x].maintainers@) == strs(
            o2[x].maintainers@,
        ) by {
        let p = o1[x].pname@;
        assert(ticket_ok(iteration, s1, mbb, o1[x]));
        assert(ticket_ok(iteration, s2, mbb, o2[x]));
        assert(branch_set(s1, p) =~= branch_set(s2, p));
        assert(cve_set(s1, p) =~= cve_set(s2, p));
        assert(maint_set(s1, mbb, p) =~= maint_set(s2, mbb, p));
    }
}

/// Law: a survey with no findings on any branch yields zero tickets; this is
/// a legitimate outcome, not an error.
pub proof fn lemma_empty_survey_no_tickets(
    iteration: u32,
    sbb: Seq<BranchFindings>,
    mbb: Seq<BranchMaintainers>,
    out: Seq<Ticket>,
)
    requires
        synth_ok(iteration, sbb, mbb, out),
        forall|i: int| 0 <= i < sbb.len() ==> (#[trigger] sbb[i]).findings@.len() == 0,
    ensures
        out.len() == 0,
{
    if out.len() > 0 {
        assert(ticket_ok(iteration, sbb, mbb, out[0]));
        let (i, k) = choose|i: int, k: int| finding_matches(sbb, i, k, out[0].pname@);
        assert(false);
    }
}

} // verus!
