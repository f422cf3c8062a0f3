//! Records describing published releases and components, and their ordering.

use vstd::prelude::*;

verus! {

use core::cmp::Ordering;
use vstd::string::StringSliceAdditionalSpecFns;
use crate::version::{cmp_version_spec, lex_cmp, compare_version_string, lex_cmp_exec};

/// The byte encoding of a character sequence, as a `String` stores it.
pub open spec fn bytes_of(s: Seq<char>) -> Seq<u8> {
    vstd::utf8::encode_utf8(s)
}

/// Compare two strings for equal contents.
pub fn str_eq(a: &str, b: &str) -> (r: bool)
    ensures
        r == (a@ == b@),
{
    let ab = a.as_bytes();
    let bb = b.as_bytes();
    if ab.len() != bb.len() {
        proof {
            if a@ == b@ {
                assert(a.spec_bytes() == b.spec_bytes());
            }
        }
        return false;
    }
    let mut i: usize = 0;
    while i < ab.len()
        invariant
            i <= ab@.len(),
            ab@.len() == bb@.len(),
            ab@ == a.spec_bytes(),
            bb@ == b.spec_bytes(),
            forall|j: int| 0 <= j < i ==> ab@[j] == bb@[j],
        decreases ab@.len() - i,
    {
        if ab[i] != bb[i] {
            proof {
                if a@ == b@ {
                    assert(a.spec_bytes() =~= b.spec_bytes());
                }
            }
            return false;
        }
        i = i + 1;
    }
    proof {
        assert(ab@ =~= bb@);
        vstd::utf8::encode_utf8_decode_utf8(a@);
        vstd::utf8::encode_utf8_decode_utf8(b@);
    }
    true
}

/// The historical aliases under which the same platform was published.
pub open spec fn is_macos_spec(s: Seq<char>) -> bool {
    s == "macos"@ || s == "os-x"@ || s == "mac-os-x"@
}

/// Whether the name is one of the historical aliases of the platform.
pub fn is_macos(s: &str) -> (r: bool)
    ensures
        r == is_macos_spec(s@),
{
    str_eq(s, "macos") || str_eq(s, "os-x") || str_eq(s, "mac-os-x")
}

/// One published version of a top-level software entity.
#[derive(Clone, Debug)]
pub struct ReleaseRecord {
    pub entity: String,
    pub version: String,
    pub url: String,
}

impl ReleaseRecord {
    /// Whether this record belongs to the entity named `s`, treating the
    /// platform aliases as one entity.
    pub open spec fn matches_entity_spec(self, s: Seq<char>) -> bool {
        s == self.entity@ || (is_macos_spec(s) && is_macos_spec(self.entity@))
    }

    /// Whether this record belongs to the named entity.
    pub fn matches_entity(&self, s: &str) -> (r: bool)
        ensures
            r == self.matches_entity_spec(s@),
    {
        str_eq(s, self.entity.as_str()) || (is_macos(s) && is_macos(self.entity.as_str()))
    }

    /// How two release records order: same-entity records by version,
    /// different entities lexicographically, with version order on a tie.
    pub open spec fn cmp_spec(self, other: ReleaseRecord) -> Option<Ordering> {
        if self.matches_entity_spec(other.entity@) {
            cmp_version_spec(bytes_of(self.version@), bytes_of(other.version@))
        } else {
            match lex_cmp(bytes_of(self.entity@), bytes_of(other.entity@)) {
                Ordering::Equal => cmp_version_spec(bytes_of(self.version@), bytes_of(other.version@)),
                ord => Some(ord),
            }
        }
    }
}

impl PartialEq for ReleaseRecord {
    fn eq(&self, other: &Self) -> (r: bool) {
        str_eq(self.entity.as_str(), other.entity.as_str())
            && str_eq(self.version.as_str(), other.version.as_str())
            && str_eq(self.url.as_str(), other.url.as_str())
    }
}

impl vstd::std_specs::cmp::PartialEqSpecImpl for ReleaseRecord {
    open spec fn obeys_eq_spec() -> bool {
        true
    }

    open spec fn eq_spec(&self, other: &Self) -> bool {
        self.entity@ == other.entity@ && self.version@ == other.version@ && self.url@ == other.url@
    }
}

impl PartialOrd for ReleaseRecord {
    fn partial_cmp(&self, other: &Self) -> (r: Option<Ordering>) {
        if self.matches_entity(other.entity.as_str()) {
            compare_version_string(self.version.as_str(), other.version.as_str())
        } else {
            match lex_cmp_exec(self.entity.as_str().as_bytes(), other.entity.as_str().as_bytes()) {
                Ordering::Equal => compare_version_string(
                    self.version.as_str(),
                    other.version.as_str(),
                ),
                ord => Some(ord),
            }
        }
    }
}

impl vstd::std_specs::cmp::PartialOrdSpecImpl for ReleaseRecord {
    open spec fn obeys_partial_cmp_spec() -> bool {
        true
    }

    open spec fn partial_cmp_spec(&self, other: &Self) -> Option<Ordering> {
        self.cmp_spec(*other)
    }
}

/// One archive contributing to a release version.
#[derive(Clone, Debug)]
pub struct ReleaseComponentRecord {
    pub entity: String,
    pub component: String,
    pub url: String,
}

/// One published version of a standalone component.
#[derive(Clone, Debug)]
pub struct ComponentRecord {
    pub component: String,
    pub filename: String,
    pub url: String,
    pub version: String,
}

impl ComponentRecord {
    /// How two component records order: by component name, then by version.
    pub open spec fn cmp_spec(self, other: ComponentRecord) -> Option<Ordering> {
        match lex_cmp(bytes_of(self.component@), bytes_of(other.component@)) {
            Ordering::Equal => cmp_version_spec(bytes_of(self.version@), bytes_of(other.version@)),
            ord => Some(ord),
        }
    }
}

impl PartialEq for ComponentRecord {
    fn eq(&self, other: &Self) -> (r: bool) {
        str_eq(self.component.as_str(), other.component.as_str())
            && str_eq(self.filename.as_str(), other.filename.as_str())
            && str_eq(self.url.as_str(), other.url.as_str())
            && str_eq(self.version.as_str(), other.version.as_str())
    }
}

impl vstd::std_specs::cmp::PartialEqSpecImpl for ComponentRecord {
    open spec fn obeys_eq_spec() -> bool {
        true
    }

    open spec fn eq_spec(&self, other: &Self) -> bool {
        self.component@ == other.component@ && self.filename@ == other.filename@
            && self.url@ == other.url@ && self.version@ == other.version@
    }
}

impl PartialOrd for ComponentRecord {
    fn partial_cmp(&self, other: &Self) -> (r: Option<Ordering>) {
        match lex_cmp_exec(
            self.component.as_str().as_bytes(),
            other.component.as_str().as_bytes(),
        ) {
            Ordering::Equal => compare_version_string(self.version.as_str(), other.version.as_str()),
            ord => Some(ord),
        }
    }
}

impl vstd::std_specs::cmp::PartialOrdSpecImpl for ComponentRecord {
    open spec fn obeys_partial_cmp_spec() -> bool {
        true
    }

    open spec fn partial_cmp_spec(&self, other: &Self) -> Option<Ordering> {
        self.cmp_spec(*other)
    }
}


/// The records among the first `n` that belong to the named entity, in
/// their given order.
pub open spec fn matching_releases(records: Seq<ReleaseRecord>, release: Seq<char>, n: int) -> Seq<
    ReleaseRecord,
>
    decreases n,
{
    if n <= 0 {
        Seq::empty()
    } else {
        let prev = matching_releases(records, release, n - 1);
        if records[n - 1].matches_entity_spec(release) {
            prev.push(records[n - 1])
        } else {
            prev
        }
    }
}

/// Keep the release records that belong to the named entity.
pub fn filter_releases(records: Vec<ReleaseRecord>, release: &str) -> (r: Vec<ReleaseRecord>)
    ensures
        r@ == matching_releases(records@, release@, records@.len() as int),
{
    let ghost orig = records@;
    let mut recs = records;
    let mut out: Vec<ReleaseRecord> = Vec::new();
    let ghost mut k: int = 0;
    proof {
        assert(recs@ =~= orig.skip(0));
    }
    while recs.len() > 0
        invariant
            0 <= k <= orig.len(),
            recs@ == orig.skip(k),
            out@ == matching_releases(orig, release@, k),
        decreases recs@.len(),
    {
        let rec = recs.remove(0);
        proof {
            assert(orig.skip(k)[0] == orig[k]);
            assert(orig.skip(k).remove(0) =~= orig.skip(k + 1));
        }
        if rec.matches_entity(release) {
            out.push(rec);
        }
        proof {
            k = k + 1;
        }
    }
    proof {
        assert(k == orig.len());
    }
    out
}

} // verus!
