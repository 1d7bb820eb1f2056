//! Package identifiers of the form `name-version`.
//!
//! The name/version boundary is the first hyphen that is immediately followed
//! by a digit, scanning left to right; identifiers without such a boundary are
//! rejected at construction.

use vstd::prelude::*;
use vstd::string::StrSliceExecFns;

verus! {

/// True of the characters `'0'` through `'9'`.
pub open spec fn is_digit_char(c: char) -> bool {
    48 <= c as u32 && c as u32 <= 57
}

/// A name/version boundary in `s` at position `i`: a hyphen immediately
/// followed by a digit.
pub open spec fn boundary_at(s: Seq<char>, i: int) -> bool {
    &&& 0 <= i
    &&& i + 1 < s.len()
    &&& s[i] == '-'
    &&& is_digit_char(s[i + 1])
}

/// `s` contains at least one name/version boundary.
pub open spec fn has_boundary(s: Seq<char>) -> bool {
    exists|i: int| boundary_at(s, i)
}

/// `i` is the leftmost name/version boundary of `s`.
pub open spec fn is_first_boundary(s: Seq<char>, i: int) -> bool {
    &&& boundary_at(s, i)
    &&& forall|j: int| 0 <= j < i ==> !boundary_at(s, j)
}

/// The leftmost boundary is unique.
pub proof fn lemma_first_boundary_unique(s: Seq<char>, i: int, j: int)
    requires
        is_first_boundary(s, i),
        is_first_boundary(s, j),
    ensures
        i == j,
{
}

/// Error of `Package::from_str`: the raw string has no name/version boundary.
#[derive(Debug)]
pub enum PackageErr {
    Version { name: String },
}

/// An immutable package identifier. `name` holds the full `name-version`
/// string and `v_idx` the character index where the version starts (one past
/// the boundary hyphen).
#[derive(Debug, Clone, PartialEq, Eq, PartialOrd, Ord, Hash)]
pub struct Package {
    name: String,
    v_idx: usize,
}

impl Package {
    /// Internal invariant: the version index points just past a hyphen.
    pub closed spec fn wf(&self) -> bool {
        &&& 1 <= self.v_idx <= self.name@.len()
        &&& self.name@[self.v_idx - 1] == '-'
    }

    /// The full identifier, e.g. `openssl-1.0.2d`.
    pub closed spec fn full_spec(&self) -> Seq<char> {
        self.name@
    }

    /// The base name, e.g. `openssl`.
    pub closed spec fn pname_spec(&self) -> Seq<char> {
        self.name@.subrange(0, self.v_idx - 1)
    }

    /// The version, e.g. `1.0.2d`.
    pub closed spec fn version_spec(&self) -> Seq<char> {
        self.name@.subrange(self.v_idx as int, self.name@.len() as int)
    }

    /// What `from_str` guarantees of a successfully parsed identifier.
    pub open spec fn parsed_from(&self, s: Seq<char>) -> bool {
        &&& self.wf()
        &&& self.full_spec() == s
        &&& is_first_boundary(s, self.pname_spec().len() as int)
        &&& self.pname_spec() == s.subrange(0, self.pname_spec().len() as int)
        &&& self.version_spec() == s.subrange(self.pname_spec().len() as int + 1, s.len() as int)
    }

    /// Builds an identifier from explicit name and version parts, joined by a
    /// single hyphen. Always succeeds; the parts are not validated.
    pub fn new(pname: &str, version: &str) -> (p: Package)
        requires
            pname@.len() + version@.len() + 1 <= usize::MAX,
        ensures
            p.wf(),
            p.full_spec() == pname@ + seq!['-'] + version@,
            p.pname_spec() == pname@,
            p.version_spec() == version@,
    {
        let mut name = pname.to_owned();
        name.append("-");
        name.append(version);
        let v_idx = pname.unicode_len() + 1;
        let p = Package { name, v_idx };
        proof {
            reveal_strlit("-");
            assert(p.name@ =~= pname@ + seq!['-'] + version@);
            assert(p.name@[p.v_idx - 1] == '-');
            assert(p.pname_spec() =~= pname@);
            assert(p.version_spec() =~= version@);
        }
        p
    }

    /// Parses a raw identifier, splitting it at the first hyphen-digit
    /// boundary; fails exactly when no such boundary exists.
    pub fn from_str(s: &str) -> (r: Result<Package, PackageErr>)
        ensures
            r matches Ok(p) ==> p.parsed_from(s@),
            r is Ok <==> has_boundary(s@),
            r matches Err(e) ==> e matches PackageErr::Version { name } && name@ == s@,
    {
        let n = s.unicode_len();
        let mut i: usize = 0;
        while i < n
            invariant
                i <= n,
                n == s@.len(),
                forall|j: int| 0 <= j < i ==> !boundary_at(s@, j),
            decreases n - i,
        {
            if i + 1 < n {
                let c = s.get_char(i);
                let d = s.get_char(i + 1);
                if c == '-' && is_digit(d) {
                    let p = Package { name: s.to_owned(), v_idx: i + 1 };
                    proof {
                        assert(boundary_at(s@, i as int));
                        assert(p.pname_spec() =~= s@.subrange(0, i as int));
                        assert(p.version_spec() =~= s@.subrange(
                            i + 1,
                            s@.len() as int,
                        ));
                    }
                    return Ok(p);
                }
            }
            i += 1;
        }
        proof {
            assert forall|j: int| !boundary_at(s@, j) by {
                if 0 <= j && j + 1 < n {
                    assert(j < i);
                }
            }
        }
        Err(PackageErr::Version { name: s.to_owned() })
    }

    /// The base name (everything before the boundary hyphen).
    pub fn pname(&self) -> (r: &str)
        requires
            self.wf(),
        ensures
            r@ == self.pname_spec(),
    {
        self.name.as_str().substring_char(0, self.v_idx - 1)
    }

    /// The version (everything after the boundary hyphen).
    pub fn version(&self) -> (r: &str)
        requires
            self.wf(),
        ensures
            r@ == self.version_spec(),
    {
        self.name.as_str().substring_char(self.v_idx, self.name.as_str().unicode_len())
    }

    /// The full identifier string.
    pub fn as_str(&self) -> (r: &str)
        ensures
            r@ == self.full_spec(),
    {
        self.name.as_str()
    }
}

/// Exec check for `is_digit_char`.
fn is_digit(c: char) -> (b: bool)
    ensures
        b == is_digit_char(c),
{
    let u: u32 = c as u32;
    48 <= u && u <= 57
}

/// Law: parsing splits the string exactly at its first boundary. For any
/// position `i` holding the leftmost hyphen-digit of `s`, a parsed identifier
/// has base name `s[..i]` and version `s[i+1..]`.
pub proof fn lemma_parse_splits_at_first_boundary(s: Seq<char>, p: Package, i: int)
    requires
        p.parsed_from(s),
        is_first_boundary(s, i),
    ensures
        p.pname_spec() == s.subrange(0, i),
        p.version_spec() == s.subrange(i + 1, s.len() as int),
{
    lemma_first_boundary_unique(s, i, p.pname_spec().len() as int);
}

/// Law: building an identifier from parts and parsing the result round-trips,
/// provided the base name itself contains no hyphen-digit boundary and the
/// version starts with a digit.
pub proof fn lemma_construct_then_parse_round_trip(
    base: Seq<char>,
    version: Seq<char>,
    q: Package,
)
    requires
        !has_boundary(base),
        version.len() > 0,
        is_digit_char(version[0]),
        q.parsed_from(base + seq!['-'] + version),
    ensures
        q.pname_spec() == base,
        q.version_spec() == version,
{
    let s = base + seq!['-'] + version;
    let b = base.len() as int;
    assert(s[b] == '-');
    assert(s[b + 1] == version[0]);
    assert(boundary_at(s, b));
    assert forall|j: int| 0 <= j < b implies !boundary_at(s, j) by {
        if j + 1 < b {
            assert(s[j] == base[j]);
            assert(s[j + 1] == base[j + 1]);
            assert(boundary_at(s, j) ==> boundary_at(base, j));
        } else {
            assert(s[j + 1] == '-');
            assert(!is_digit_char('-'));
        }
    }
    lemma_parse_splits_at_first_boundary(s, q, b);
    assert(q.pname_spec() =~= base);
    assert(q.version_spec() =~= version);
}

} // verus!
