//! Turning scraped catalog fragments into records.
//!
//! The catalog site is scraped outside this library; what comes back per
//! match is a handful of strings. The decisions made on them stand here: a
//! release link must end in `.html` and its stem names the entity before
//! its last `-`; a tarball path must end in `.tar.gz` and names its
//! component before the first `/`; a tarball filename names its version
//! after the first `-`.

use vstd::prelude::*;

verus! {

use crate::records::{bytes_of, ComponentRecord, ReleaseComponentRecord, ReleaseRecord};
use vstd::string::StringSliceAdditionalSpecFns;
use vstd::string::StringExecFns;
use vstd::utf8::is_char_boundary;

/// Position of the first occurrence of `w` in `s`, if any.
pub open spec fn find_byte(s: Seq<u8>, w: u8) -> Option<int>
    decreases s.len(),
{
    if s.len() == 0 {
        None
    } else if s[0] == w {
        Some(0)
    } else {
        match find_byte(s.skip(1), w) {
            Some(i) => Some(i + 1),
            None => None,
        }
    }
}

/// Position of the last occurrence of `w` in `s`, if any.
pub open spec fn rfind_byte(s: Seq<u8>, w: u8) -> Option<int>
    decreases s.len(),
{
    if s.len() == 0 {
        None
    } else if s[s.len() - 1] == w {
        Some(s.len() - 1)
    } else {
        rfind_byte(s.drop_last(), w)
    }
}

/// Whether `s` ends with the byte run `suffix`.
pub open spec fn ends_with(s: Seq<u8>, suffix: Seq<u8>) -> bool {
    s.len() >= suffix.len() && s.subrange(s.len() - suffix.len(), s.len() as int) == suffix
}

fn find_byte_exec(s: &[u8], w: u8) -> (r: Option<usize>)
    ensures
        match r {
            Some(i) => find_byte(s@, w) == Some(i as int) && i < s@.len(),
            None => find_byte(s@, w) is None,
        },
{
    let mut j: usize = 0;
    proof {
        assert(s@.skip(0) =~= s@);
    }
    while j < s.len()
        invariant
            j <= s@.len(),
            find_byte(s@, w) == match find_byte(s@.skip(j as int), w) {
                Some(i) => Some(i + j),
                None => None::<int>,
            },
        decreases s@.len() - j,
    {
        proof {
            assert(s@.skip(j as int)[0] == s@[j as int]);
            assert(s@.skip(j as int).skip(1) =~= s@.skip(j as int + 1));
        }
        if s[j] == w {
            return Some(j);
        }
        j = j + 1;
    }
    None
}

fn rfind_byte_exec(s: &[u8], w: u8) -> (r: Option<usize>)
    ensures
        match r {
            Some(i) => rfind_byte(s@, w) == Some(i as int) && i < s@.len(),
            None => rfind_byte(s@, w) is None,
        },
{
    let mut j: usize = s.len();
    proof {
        assert(s@.take(j as int) =~= s@);
    }
    while j > 0
        invariant
            j <= s@.len(),
            rfind_byte(s@, w) == rfind_byte(s@.take(j as int), w),
        decreases j,
    {
        proof {
            assert(s@.take(j as int)[j - 1] == s@[j - 1]);
            assert(s@.take(j as int).drop_last() =~= s@.take(j as int - 1));
        }
        if s[j - 1] == w {
            return Some(j - 1);
        }
        j = j - 1;
    }
    None
}

/// Whether `s` ends with `suffix`, both as bytes.
fn ends_with_exec(s: &[u8], suffix: &[u8]) -> (r: bool)
    ensures
        r == ends_with(s@, suffix@),
{
    let n = s.len();
    let m = suffix.len();
    if n < m {
        return false;
    }
    let mut i: usize = 0;
    while i < m
        invariant
            i <= m == suffix@.len() <= n == s@.len(),
            forall|k: int| 0 <= k < i ==> s@[n - m + k] == suffix@[k],
        decreases m - i,
    {
        if s[n - m + i] != suffix[i] {
            proof {
                assert(s@.subrange(n - m, n as int)[i as int] == s@[n - m + i]);
            }
            return false;
        }
        i = i + 1;
    }
    proof {
        assert(s@.subrange(n - m, n as int) =~= suffix@);
    }
    true
}

/// What a release catalog link yields: the link must end in `.html`, and
/// the stem before that suffix must hold a `-`; the entity is the stem up
/// to the last `-`, the version is taken as scraped, and the URL points at
/// the release page for the link.
pub open spec fn release_link_ok(href: Seq<u8>) -> bool {
    &&& ends_with(href, ".html"@.map(|i: int, c: char| c as u8))
    &&& is_char_boundary(href, href.len() - 5)
    &&& match rfind_byte(href.take(href.len() - 5), 45) {
        Some(d) => is_char_boundary(href.take(href.len() - 5), d),
        None => false,
    }
}

/// Build a release record from one scraped catalog link.
pub fn release_record_from_capture(href: &str, version: &str) -> (r: Option<ReleaseRecord>)
    ensures
        r is Some <==> release_link_ok(href.spec_bytes()),
        r matches Some(rec) ==> {
            let stem = href.spec_bytes().take(href.spec_bytes().len() - 5);
            &&& bytes_of(rec.entity@) == stem.take(rfind_byte(stem, 45).unwrap())
            &&& rec.version@ == version@
            &&& rec.url@ == "https://opensource.apple.com/release/"@ + href@
        },
{
    let b = href.as_bytes();
    let n = b.len();
    proof {
        vstd::string::is_ascii_spec_bytes(".html");
        reveal_strlit(".html");
        assert(".html"@.map(|i: int, c: char| c as u8) =~= ".html".spec_bytes());
    }
    if !ends_with_exec(b, ".html".as_bytes()) {
        return None;
    }
    if !href.is_char_boundary(n - 5) {
        return None;
    }
    let (stem, _) = href.split_at(n - 5);
    let sb = stem.as_bytes();
    proof {
        assert(stem.spec_bytes() =~= href.spec_bytes().take(n - 5));
    }
    match rfind_byte_exec(sb, 45) {
        None => None,
        Some(d) => {
            if !stem.is_char_boundary(d) {
                return None;
            }
            let (entity, _) = stem.split_at(d);
            let mut url = String::from_str("https://opensource.apple.com/release/");
            url.append(href);
            proof {
                assert(entity.spec_bytes() =~= stem.spec_bytes().take(d as int));
            }
            Some(
                ReleaseRecord {
                    entity: entity.to_owned(),
                    version: version.to_owned(),
                    url,
                },
            )
        },
    }
}

/// What a tarball path in a release page yields: the path must end in
/// `.tar.gz`, and its stem must hold a `/`; the component is the stem up to
/// the first `/`, and the URL points at the tarball.
pub open spec fn component_path_ok(path: Seq<u8>) -> bool {
    &&& ends_with(path, ".tar.gz"@.map(|i: int, c: char| c as u8))
    &&& is_char_boundary(path, path.len() - 7)
    &&& match find_byte(path.take(path.len() - 7), 47) {
        Some(d) => is_char_boundary(path.take(path.len() - 7), d),
        None => false,
    }
}

/// Build a release component record from one tarball path.
pub fn release_component_from_path(entity: &str, path: &str) -> (r: Option<
    ReleaseComponentRecord,
>)
    ensures
        r is Some <==> component_path_ok(path.spec_bytes()),
        r matches Some(rec) ==> {
            let stem = path.spec_bytes().take(path.spec_bytes().len() - 7);
            &&& rec.entity@ == entity@
            &&& bytes_of(rec.component@) == stem.take(find_byte(stem, 47).unwrap())
            &&& rec.url@ == "https://opensource.apple.com/tarballs/"@ + path@
        },
{
    let b = path.as_bytes();
    let n = b.len();
    proof {
        vstd::string::is_ascii_spec_bytes(".tar.gz");
        reveal_strlit(".tar.gz");
        assert(".tar.gz"@.map(|i: int, c: char| c as u8) =~= ".tar.gz".spec_bytes());
    }
    if !ends_with_exec(b, ".tar.gz".as_bytes()) {
        return None;
    }
    if !path.is_char_boundary(n - 7) {
        return None;
    }
    let (stem, _) = path.split_at(n - 7);
    proof {
        assert(stem.spec_bytes() =~= path.spec_bytes().take(n - 7));
    }
    match find_byte_exec(stem.as_bytes(), 47) {
        None => None,
        Some(d) => {
            if !stem.is_char_boundary(d) {
                return None;
            }
            let (component, _) = stem.split_at(d);
            let mut url = String::from_str("https://opensource.apple.com/tarballs/");
            url.append(path);
            proof {
                assert(component.spec_bytes() =~= stem.spec_bytes().take(d as int));
            }
            Some(
                ReleaseComponentRecord {
                    entity: entity.to_owned(),
                    component: component.to_owned(),
                    url,
                },
            )
        },
    }
}

/// What a component tarball filename yields: the filename must end in
/// `.tar.gz`, and its stem must hold a `-`; the version is the stem after
/// the first `-`, and the URL points at the tarball under the component's
/// directory.
pub open spec fn component_filename_ok(filename: Seq<u8>) -> bool {
    &&& ends_with(filename, ".tar.gz"@.map(|i: int, c: char| c as u8))
    &&& is_char_boundary(filename, filename.len() - 7)
    &&& match find_byte(filename.take(filename.len() - 7), 45) {
        Some(d) => is_char_boundary(filename.take(filename.len() - 7), d + 1),
        None => false,
    }
}

/// Build a component version record from one tarball filename.
pub fn component_record_from_filename(component: &str, filename: &str) -> (r: Option<
    ComponentRecord,
>)
    ensures
        r is Some <==> component_filename_ok(filename.spec_bytes()),
        r matches Some(rec) ==> {
            let stem = filename.spec_bytes().take(filename.spec_bytes().len() - 7);
            &&& rec.component@ == component@
            &&& rec.filename@ == filename@
            &&& bytes_of(rec.version@) == stem.skip(find_byte(stem, 45).unwrap() + 1)
            &&& rec.url@ == "https://opensource.apple.com/tarballs/"@ + component@ + "/"@
                + filename@
        },
{
    let b = filename.as_bytes();
    let n = b.len();
    proof {
        vstd::string::is_ascii_spec_bytes(".tar.gz");
        reveal_strlit(".tar.gz");
        assert(".tar.gz"@.map(|i: int, c: char| c as u8) =~= ".tar.gz".spec_bytes());
    }
    if !ends_with_exec(b, ".tar.gz".as_bytes()) {
        return None;
    }
    if !filename.is_char_boundary(n - 7) {
        return None;
    }
    let (stem, _) = filename.split_at(n - 7);
    proof {
        assert(stem.spec_bytes() =~= filename.spec_bytes().take(n - 7));
    }
    match find_byte_exec(stem.as_bytes(), 45) {
        None => None,
        Some(d) => {
            if !stem.is_char_boundary(d + 1) {
                return None;
            }
            let (_, after) = stem.split_at(d + 1);
            let mut url = String::from_str("https://opensource.apple.com/tarballs/");
            url.append(component);
            url.append("/");
            url.append(filename);
            proof {
                assert(after.spec_bytes() =~= stem.spec_bytes().skip(d + 1));
            }
            Some(
                ComponentRecord {
                    component: component.to_owned(),
                    filename: filename.to_owned(),
                    url,
                    version: after.to_owned(),
                },
            )
        },
    }
}

} // verus!
