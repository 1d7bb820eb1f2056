//! Names (plain strings) and collections of names: lexicographic order with
//! its laws, membership, and deduplicating insertion. The ticket synthesizer
//! uses these to produce a deterministic, sorted, duplicate-free output.

use vstd::prelude::*;
use vstd::string::StrSliceExecFns;

verus! {

/// Strict lexicographic order on character sequences, by code point.
pub open spec fn lex_lt(a: Seq<char>, b: Seq<char>) -> bool
    decreases a.len(),
{
    if b.len() == 0 {
        false
    } else if a.len() == 0 {
        true
    } else if a[0] != b[0] {
        (a[0] as u32) < (b[0] as u32)
    } else {
        lex_lt(a.skip(1), b.skip(1))
    }
}

/// Distinct characters have distinct code points.
pub proof fn lemma_char_code_injective(c: char, d: char)
    requires
        c != d,
    ensures
        c as u32 != d as u32,
{
}

/// `lex_lt` is irreflexive.
pub proof fn lemma_lex_irrefl(a: Seq<char>)
    ensures
        !lex_lt(a, a),
    decreases a.len(),
{
    if a.len() > 0 {
        lemma_lex_irrefl(a.skip(1));
    }
}

/// `lex_lt` is total: two sequences are ordered one way or the other, or equal.
pub proof fn lemma_lex_total(a: Seq<char>, b: Seq<char>)
    ensures
        lex_lt(a, b) || lex_lt(b, a) || a == b,
    decreases a.len(),
{
    if a.len() == 0 && b.len() == 0 {
        assert(a =~= b);
    } else if b.len() == 0 {
        assert(lex_lt(b, a));
    } else if a.len() == 0 {
        assert(lex_lt(a, b));
    } else if a[0] != b[0] {
        lemma_char_code_injective(a[0], b[0]);
    } else if a.len() > 0 && b.len() > 0 && a[0] == b[0] {
        lemma_lex_total(a.skip(1), b.skip(1));
        if !lex_lt(a, b) && !lex_lt(b, a) {
            assert(a.skip(1) == b.skip(1));
            assert(a.len() == b.len());
            assert forall|i: int| 0 <= i < a.len() implies a[i] == b[i] by {
                if i >= 1 {
                    assert(a.skip(1)[i - 1] == a[i]);
                    assert(b.skip(1)[i - 1] == b[i]);
                }
            }
            assert(a =~= b);
        }
    }
}

/// `lex_lt` is transitive.
pub proof fn lemma_lex_trans(a: Seq<char>, b: Seq<char>, c: Seq<char>)
    requires
        lex_lt(a, b),
        lex_lt(b, c),
    ensures
        lex_lt(a, c),
    decreases a.len(),
{
    if a.len() == 0 {
    } else {
        if a[0] == b[0] && b[0] == c[0] {
            lemma_lex_trans(a.skip(1), b.skip(1), c.skip(1));
        }
    }
}

/// A common prefix of length `j` does not affect the order of the remainders.
pub proof fn lemma_lex_common_prefix(a: Seq<char>, b: Seq<char>, j: int)
    requires
        0 <= j <= a.len(),
        j <= b.len(),
        forall|t: int| 0 <= t < j ==> a[t] == b[t],
    ensures
        lex_lt(a, b) == lex_lt(a.skip(j), b.skip(j)),
    decreases j,
{
    if j == 0 {
        assert(a.skip(0) =~= a);
        assert(b.skip(0) =~= b);
    } else {
        assert(a[0] == b[0]);
        lemma_lex_common_prefix(a.skip(1), b.skip(1), j - 1);
        assert(a.skip(1).skip(j - 1) =~= a.skip(j));
        assert(b.skip(1).skip(j - 1) =~= b.skip(j));
    }
}

/// Exec comparison: `a` before `b` in lexicographic order.
pub fn str_lt(a: &str, b: &str) -> (r: bool)
    ensures
        r == lex_lt(a@, b@),
{
    let na = a.unicode_len();
    let nb = b.unicode_len();
    let mut j: usize = 0;
    loop
        invariant
            j <= na,
            j <= nb,
            na == a@.len(),
            nb == b@.len(),
            forall|t: int| 0 <= t < j ==> a@[t] == b@[t],
        decreases na - j,
    {
        proof {
            lemma_lex_common_prefix(a@, b@, j as int);
        }
        if j >= nb {
            return false;
        }
        if j >= na {
            return true;
        }
        let ca = a.get_char(j);
        let cb = b.get_char(j);
        if ca != cb {
            return (ca as u32) < (cb as u32);
        }
        j += 1;
    }
}

/// Exec equality of string slices.
pub fn str_eq(a: &str, b: &str) -> (r: bool)
    ensures
        r == (a@ == b@),
{
    let r = !str_lt(a, b) && !str_lt(b, a);
    proof {
        lemma_lex_total(a@, b@);
        lemma_lex_irrefl(a@);
    }
    r
}

/// `x` occurs among the names `s`.
pub open spec fn has_str(s: Seq<String>, x: Seq<char>) -> bool {
    exists|i: int| 0 <= i < s.len() && s[i]@ == x
}

/// The names of `s`, as a set of character sequences.
pub open spec fn strs(s: Seq<String>) -> Set<Seq<char>> {
    Set::new(|x: Seq<char>| has_str(s, x))
}

/// No name occurs twice.
pub open spec fn distinct_strs(s: Seq<String>) -> bool {
    forall|i: int, j: int| 0 <= i < j < s.len() ==> s[i]@ != s[j]@
}

/// The names are strictly sorted (hence also distinct).
pub open spec fn sorted_strs(s: Seq<String>) -> bool {
    forall|i: int, j: int| 0 <= i < j < s.len() ==> lex_lt(s[i]@, s[j]@)
}

/// Membership check on a vector of names.
pub fn contains_str(v: &Vec<String>, x: &str) -> (r: bool)
    ensures
        r == has_str(v@, x@),
{
    let mut i: usize = 0;
    while i < v.len()
        invariant
            i <= v@.len(),
            forall|t: int| 0 <= t < i ==> v@[t]@ != x@,
        decreases v@.len() - i,
    {
        if str_eq(v[i].as_str(), x) {
            return true;
        }
        i += 1;
    }
    false
}

/// Adds `x` unless it is already present; keeps distinctness, and grows the
/// name set by exactly `x`.
pub fn push_unique(v: &mut Vec<String>, x: &str)
    requires
        distinct_strs(old(v)@),
    ensures
        distinct_strs(final(v)@),
        forall|y: Seq<char>| has_str(final(v)@, y) <==> has_str(old(v)@, y) || y == x@,
{
    if !contains_str(v, x) {
        let ghost pre = v@;
        v.push(x.to_owned());
        proof {
            assert(v@[pre.len() as int]@ == x@);
            assert(forall|t: int| 0 <= t < pre.len() ==> v@[t] == pre[t]);
            assert forall|y: Seq<char>|
                has_str(v@, y) <==> has_str(pre, y) || y == x@ by {
                if has_str(pre, y) {
                    let i = choose|i: int| 0 <= i < pre.len() && pre[i]@ == y;
                    assert(v@[i]@ == y);
                }
            }
        }
    }
}

/// Inserts `x` into a strictly sorted vector of names, keeping it sorted;
/// a name already present is left alone.
pub fn insert_sorted_unique(v: &mut Vec<String>, x: &str)
    requires
        sorted_strs(old(v)@),
    ensures
        sorted_strs(final(v)@),
        forall|y: Seq<char>| has_str(final(v)@, y) <==> has_str(old(v)@, y) || y == x@,
{
    let mut j: usize = 0;
    while j < v.len() && str_lt(v[j].as_str(), x)
        invariant
            j <= v@.len(),
            sorted_strs(v@),
            v@ == old(v)@,
            forall|t: int| 0 <= t < j ==> lex_lt(v@[t]@, x@),
        decreases v@.len() - j,
    {
        j += 1;
    }
    if j < v.len() && str_eq(v[j].as_str(), x) {
        proof {
            assert(v@[j as int]@ == x@);
        }
        return;
    }
    let ghost pre = v@;
    v.insert(j, x.to_owned());
    proof {
        assert(v@ =~= pre.insert(j as int, v@[j as int]));
        assert(v@[j as int]@ == x@);
        // every old element keeps a position, shifted past the insertion
        assert(forall|t: int| 0 <= t < j ==> v@[t] == pre[t]);
        assert(forall|t: int| j < t < v@.len() ==> v@[t] == pre[t - 1]);
        // sortedness across the insertion point
        assert forall|t: int| j < t < v@.len() implies lex_lt(x@, v@[t]@) by {
            if j < pre.len() {
                lemma_lex_total(pre[j as int]@, x@);
                if (j as int) < t - 1 {
                    lemma_lex_trans(x@, pre[j as int]@, pre[t - 1]@);
                }
            }
        }
        assert forall|a: int, b: int|
            0 <= a < b < v@.len() implies lex_lt(v@[a]@, v@[b]@) by {
            if a < j && b > j {
                lemma_lex_trans(v@[a]@, x@, v@[b]@);
            }
        }
        assert forall|y: Seq<char>|
            has_str(v@, y) <==> has_str(pre, y) || y == x@ by {
            if has_str(pre, y) {
                let i = choose|i: int| 0 <= i < pre.len() && pre[i]@ == y;
                if i < j {
                    assert(v@[i]@ == y);
                } else {
                    assert(v@[i + 1]@ == y);
                }
            }
            if has_str(v@, y) && y != x@ {
                let i = choose|i: int| 0 <= i < v@.len() && v@[i]@ == y;
                if i < j {
                    assert(pre[i]@ == y);
                } else {
                    assert(pre[i - 1]@ == y);
                }
            }
        }
    }
}

/// Law: two strictly sorted vectors of names with the same members are equal,
/// name for name.
pub proof fn lemma_sorted_same_members_equal(p: Seq<String>, q: Seq<String>)
    requires
        sorted_strs(p),
        sorted_strs(q),
        forall|y: Seq<char>| has_str(p, y) <==> has_str(q, y),
    ensures
        p.len() == q.len(),
        forall|i: int| 0 <= i < p.len() ==> p[i]@ == q[i]@,
    decreases p.len(),
{
    if p.len() == 0 {
        if q.len() > 0 {
            assert(has_str(q, q[0]@));
            assert(false);
        }
    } else if q.len() == 0 {
        assert(has_str(p, p[0]@));
        assert(false);
    } else {
        // the heads are the least members, so they agree
        assert(has_str(q, p[0]@));
        let iq = choose|i: int| 0 <= i < q.len() && q[i]@ == p[0]@;
        assert(has_str(p, q[0]@));
        let ip = choose|i: int| 0 <= i < p.len() && p[i]@ == q[0]@;
        if iq > 0 && ip > 0 {
            lemma_lex_trans(q[0]@, p[0]@, p[ip]@);
            lemma_lex_irrefl(q[0]@);
            assert(false);
        }
        assert(p[0]@ == q[0]@);
        let pt = p.skip(1);
        let qt = q.skip(1);
        assert forall|y: Seq<char>| has_str(pt, y) <==> has_str(qt, y) by {
            lemma_tail_membership(p, y);
            lemma_tail_membership(q, y);
        }
        assert(forall|i: int| 0 <= i < pt.len() ==> #[trigger] pt[i] == p[i + 1]);
        assert(forall|i: int| 0 <= i < qt.len() ==> #[trigger] qt[i] == q[i + 1]);
        assert(sorted_strs(pt));
        assert(sorted_strs(qt));
        lemma_sorted_same_members_equal(pt, qt);
        assert forall|i: int| 0 <= i < p.len() implies p[i]@ == q[i]@ by {
            if i > 0 {
                assert(p[i] == pt[i - 1]);
                assert(q[i] == qt[i - 1]);
            }
        }
    }
}

/// In a strictly sorted vector, a name other than the head is in the tail.
proof fn lemma_tail_membership(p: Seq<String>, y: Seq<char>)
    requires
        sorted_strs(p),
        p.len() > 0,
    ensures
        has_str(p.skip(1), y) <==> (has_str(p, y) && y != p[0]@),
{
    let pt = p.skip(1);
    assert(forall|i: int| 0 <= i < pt.len() ==> #[trigger] pt[i] == p[i + 1]);
    if has_str(pt, y) {
        let i = choose|i: int| 0 <= i < pt.len() && pt[i]@ == y;
        assert(p[i + 1]@ == y);
        assert(lex_lt(p[0]@, p[i + 1]@));
        lemma_lex_irrefl(p[0]@);
    }
    if has_str(p, y) && y != p[0]@ {
        let i = choose|i: int| 0 <= i < p.len() && p[i]@ == y;
        assert(pt[i - 1]@ == y);
    }
}

} // verus!
