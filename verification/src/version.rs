//! Best-effort ordering of version strings.
//!
//! Both strings are split on `.`; corresponding segments that both parse as
//! `u32` are compared numerically, and the first decisive numeric comparison
//! wins. If every compared position ties (missing trailing segments count as
//! `0`), the full strings are compared bytewise lexicographically. This is a
//! heuristic, not a total semantic-versioning order: purely textual segments
//! fall through to the lexicographic tail.

use vstd::prelude::*;

verus! {

use core::cmp::Ordering;
use vstd::string::StringSliceAdditionalSpecFns;

pub open spec fn is_digit(b: u8) -> bool {
    48 <= b && b <= 57
}

pub open spec fn all_digits(s: Seq<u8>) -> bool {
    forall|i: int| 0 <= i < s.len() ==> is_digit(#[trigger] s[i])
}

/// Numeric value of a digit run, most significant digit first.
pub open spec fn digits_val(s: Seq<u8>) -> int
    decreases s.len(),
{
    if s.len() == 0 {
        0
    } else {
        digits_val(s.drop_last()) * 10 + (s.last() - 48)
    }
}

/// The digit run of a segment, once an optional leading plus sign is gone.
pub open spec fn seg_digits(s: Seq<u8>) -> Seq<u8> {
    if s.len() > 0 && s[0] == 43 {
        s.skip(1)
    } else {
        s
    }
}

/// What `str::parse::<u32>` yields on a segment: an optional plus sign, then
/// one or more digits, with a value that fits in `u32`.
pub open spec fn parse_u32_spec(s: Seq<u8>) -> Option<u32> {
    let d = seg_digits(s);
    if d.len() > 0 && all_digits(d) && digits_val(d) <= u32::MAX {
        Some(digits_val(d) as u32)
    } else {
        None
    }
}

/// Length of the leading run free of `.` bytes.
pub open spec fn seg_len(s: Seq<u8>) -> nat
    decreases s.len(),
{
    if s.len() == 0 {
        0
    } else if s[0] == 46 {
        0
    } else {
        1 + seg_len(s.skip(1))
    }
}

/// End position of the segment that starts at `i`.
pub open spec fn seg_end(s: Seq<u8>, i: int) -> int {
    i + seg_len(s.skip(i))
}

/// Bytewise lexicographic order, the order of `str` comparison.
pub open spec fn lex_cmp(a: Seq<u8>, b: Seq<u8>) -> Ordering
    decreases a.len(),
{
    if a.len() == 0 && b.len() == 0 {
        Ordering::Equal
    } else if a.len() == 0 {
        Ordering::Less
    } else if b.len() == 0 {
        Ordering::Greater
    } else if a[0] < b[0] {
        Ordering::Less
    } else if a[0] > b[0] {
        Ordering::Greater
    } else {
        lex_cmp(a.skip(1), b.skip(1))
    }
}

/// Start of the segment after the one at `pb`, or `None` once `b` runs out.
pub open spec fn next_pb(b: Seq<u8>, pb: Option<int>) -> Option<int> {
    match pb {
        Some(p) => if seg_end(b, p) < b.len() {
            Some(seg_end(b, p) + 1)
        } else {
            None
        },
        None => None,
    }
}

/// The bytes compared against the current segment of `a`: the segment of `b`
/// at `pb`, or the single byte `0` once `b` has no segment left.
pub open spec fn bseg_at(b: Seq<u8>, pb: Option<int>) -> Seq<u8> {
    match pb {
        Some(p) => b.subrange(p, seg_end(b, p)),
        None => seq![48u8],
    }
}

/// A decisive numeric comparison of two segments, if both parse.
pub open spec fn numeric_verdict(aseg: Seq<u8>, bseg: Seq<u8>) -> Option<Ordering> {
    match (parse_u32_spec(aseg), parse_u32_spec(bseg)) {
        (Some(x), Some(y)) => if x < y {
            Some(Ordering::Less)
        } else if x > y {
            Some(Ordering::Greater)
        } else {
            None
        },
        _ => None,
    }
}

/// The comparison from segment start `pa` of `a` onward.
pub open spec fn cmp_pos(a: Seq<u8>, b: Seq<u8>, pa: int, pb: Option<int>) -> Option<Ordering>
    decreases a.len() - pa,
{
    let ea = seg_end(a, pa);
    let v = numeric_verdict(a.subrange(pa, ea), bseg_at(b, pb));
    if v is Some {
        v
    } else if ea < a.len() {
        cmp_pos(a, b, ea + 1, next_pb(b, pb))
    } else {
        Some(lex_cmp(a, b))
    }
}

/// The whole comparison, over the byte encodings of the two strings.
pub open spec fn cmp_version_spec(a: Seq<u8>, b: Seq<u8>) -> Option<Ordering> {
    cmp_pos(a, b, 0, Some(0))
}

fn seg_end_exec(s: &[u8], from: usize) -> (r: usize)
    requires
        from <= s@.len(),
    ensures
        r == seg_end(s@, from as int),
        from <= r <= s@.len(),
{
    let mut j = from;
    while j < s.len() && s[j] != 46
        invariant
            from <= j <= s@.len(),
            seg_end(s@, from as int) == j + seg_len(s@.skip(j as int)),
        decreases s@.len() - j,
    {
        proof {
            assert(s@.skip(j as int)[0] == s@[j as int]);
            assert(s@.skip(j as int).skip(1) =~= s@.skip(j as int + 1));
        }
        j = j + 1;
    }
    proof {
        if j < s@.len() {
            assert(s@.skip(j as int)[0] == 46);
        }
        assert(seg_len(s@.skip(j as int)) == 0);
    }
    j
}

fn parse_segment(s: &[u8], from: usize, to: usize) -> (r: Option<u32>)
    requires
        from <= to <= s@.len(),
    ensures
        r == parse_u32_spec(s@.subrange(from as int, to as int)),
{
    let ghost seg = s@.subrange(from as int, to as int);
    let start = if from < to && s[from] == 43 {
        from + 1
    } else {
        from
    };
    let ghost d = s@.subrange(start as int, to as int);
    proof {
        assert(seg_digits(seg) =~= d);
    }
    if start == to {
        proof {
            assert(d.len() == 0);
            assert(parse_u32_spec(seg) is None);
            assert(None::<u32> == parse_u32_spec(s@.subrange(from as int, to as int)));
        }
        return None;
    }
    let mut acc: u32 = 0;
    let mut over = false;
    let mut i = start;
    while i < to
        invariant
            start <= i <= to <= s@.len(),
            from <= start,
            start < to,
            d =~= s@.subrange(start as int, to as int),
            seg == s@.subrange(from as int, to as int),
            seg_digits(seg) == d,
            all_digits(d.take(i - start)),
            !over ==> acc == digits_val(d.take(i - start)),
            over ==> digits_val(d.take(i - start)) > u32::MAX,
        decreases to - i,
    {
        let c = s[i];
        proof {
            assert(d[i - start] == s@[i as int]);
        }
        if !(48 <= c && c <= 57) {
            proof {
                assert(!is_digit(d[i - start]));
                assert(!all_digits(d));
                assert(parse_u32_spec(seg) is None);
            }
            return None;
        }
        let dig = (c - 48) as u32;
        proof {
            assert(d.take(i - start + 1).drop_last() =~= d.take(i - start));
            assert(d.take(i - start + 1).last() == c);
            assert(digits_val(d.take(i - start + 1)) == digits_val(d.take(i - start)) * 10 + dig);
        }
        if over {
            proof {
                assert(digits_val(d.take(i - start)) * 10 + dig > u32::MAX);
            }
        } else {
            if acc > (u32::MAX - dig) / 10 {
                proof {
                    let m = (u32::MAX - dig) as int;
                    assert(m == (m / 10) * 10 + (m % 10)) by {
                        vstd::arithmetic::div_mod::lemma_fundamental_div_mod(m, 10);
                    }
                    assert(acc * 10 + dig > u32::MAX) by (nonlinear_arith)
                        requires
                            acc > m / 10,
                            m == (m / 10) * 10 + (m % 10),
                            0 <= m % 10 < 10,
                            m == u32::MAX - dig,
                    ;
                }
                over = true;
            } else {
                proof {
                    let m = (u32::MAX - dig) as int;
                    assert(m == (m / 10) * 10 + (m % 10)) by {
                        vstd::arithmetic::div_mod::lemma_fundamental_div_mod(m, 10);
                    }
                    assert(acc * 10 + dig <= u32::MAX) by (nonlinear_arith)
                        requires
                            acc <= m / 10,
                            m == (m / 10) * 10 + (m % 10),
                            0 <= m % 10 < 10,
                            m == u32::MAX - dig,
                            acc >= 0,
                    ;
                }
                acc = acc * 10 + dig;
            }
        }
        i = i + 1;
    }
    proof {
        assert(d.take(to - start) =~= d);
    }
    if over {
        None
    } else {
        Some(acc)
    }
}

pub fn lex_cmp_exec(a: &[u8], b: &[u8]) -> (r: Ordering)
    ensures
        r == lex_cmp(a@, b@),
{
    let mut i: usize = 0;
    proof {
        assert(a@.skip(0) =~= a@);
        assert(b@.skip(0) =~= b@);
    }
    loop
        invariant
            i <= a@.len(),
            i <= b@.len(),
            lex_cmp(a@, b@) == lex_cmp(a@.skip(i as int), b@.skip(i as int)),
        decreases a@.len() - i,
    {
        proof {
            if i < a@.len() {
                assert(a@.skip(i as int)[0] == a@[i as int]);
            }
            if i < b@.len() {
                assert(b@.skip(i as int)[0] == b@[i as int]);
            }
        }
        if i < a.len() && i < b.len() {
            let x = a[i];
            let y = b[i];
            if x < y {
                return Ordering::Less;
            }
            if x > y {
                return Ordering::Greater;
            }
            proof {
                assert(a@.skip(i as int).skip(1) =~= a@.skip(i as int + 1));
                assert(b@.skip(i as int).skip(1) =~= b@.skip(i as int + 1));
            }
            i = i + 1;
        } else if i < b.len() {
            return Ordering::Less;
        } else if i < a.len() {
            return Ordering::Greater;
        } else {
            return Ordering::Equal;
        }
    }
}

/// Compare two version strings, best effort.
///
/// The result follows `cmp_version_spec` over the byte encodings: numeric
/// segments decide where both sides parse, and a full tie falls back to the
/// bytewise lexicographic order of the whole strings.
pub fn compare_version_string(a: &str, b: &str) -> (r: Option<Ordering>)
    ensures
        r == cmp_version_spec(a.spec_bytes(), b.spec_bytes()),
{
    let ab = a.as_bytes();
    let bb = b.as_bytes();
    let mut pa: usize = 0;
    let mut pb: usize = 0;
    let mut b_live: bool = true;
    proof {
        assert(cmp_version_spec(ab@, bb@) == cmp_pos(ab@, bb@, 0, Some(0int)));
    }
    loop
        invariant
            pa <= ab@.len(),
            b_live ==> pb <= bb@.len(),
            ab@ == a.spec_bytes(),
            bb@ == b.spec_bytes(),
            cmp_version_spec(ab@, bb@) == cmp_pos(
                ab@,
                bb@,
                pa as int,
                if b_live {
                    Some(pb as int)
                } else {
                    None::<int>
                },
            ),
        decreases ab@.len() - pa,
    {
        let ghost pbo: Option<int> = if b_live {
            Some(pb as int)
        } else {
            None::<int>
        };
        let ea = seg_end_exec(ab, pa);
        let av = parse_segment(ab, pa, ea);
        let mut eb: usize = 0;
        let bv = if b_live {
            eb = seg_end_exec(bb, pb);
            parse_segment(bb, pb, eb)
        } else {
            proof {
                let z = seq![48u8];
                assert(bseg_at(bb@, pbo) == z);
                assert(z.len() == 1 && z[0] == 48);
                assert(seg_digits(z) =~= z);
                assert(digits_val(Seq::<u8>::empty()) == 0);
                assert(z.drop_last() =~= Seq::<u8>::empty());
                assert(digits_val(z) == digits_val(z.drop_last()) * 10 + (z.last() - 48));
                assert(digits_val(z) == 0);
                assert(all_digits(z));
            }
            Some(0u32)
        };
        proof {
            if b_live {
                assert(bseg_at(bb@, pbo) == bb@.subrange(pb as int, seg_end(bb@, pb as int)));
            }
            assert(av == parse_u32_spec(ab@.subrange(pa as int, ea as int)));
            assert(bv == parse_u32_spec(bseg_at(bb@, pbo)));
        }
        match (av, bv) {
            (Some(x), Some(y)) => {
                if x < y {
                    proof {
                        assert(numeric_verdict(ab@.subrange(pa as int, ea as int), bseg_at(bb@, pbo))
                            == Some(Ordering::Less));
                    }
                    return Some(Ordering::Less);
                }
                if x > y {
                    return Some(Ordering::Greater);
                }
            }
            _ => {}
        }
        proof {
            assert(numeric_verdict(ab@.subrange(pa as int, ea as int), bseg_at(bb@, pbo)) is None);
        }
        if ea < ab.len() {
            pa = ea + 1;
            if b_live {
                if eb < bb.len() {
                    pb = eb + 1;
                } else {
                    b_live = false;
                }
            }
        } else {
            return Some(lex_cmp_exec(ab, bb));
        }
    }
}


/// The numeric values of all segments from position `p` on, if every one
/// of them parses as a number.
pub open spec fn nums_from(s: Seq<u8>, p: int) -> Option<Seq<u32>>
    decreases s.len() - p,
{
    let e = seg_end(s, p);
    match parse_u32_spec(s.subrange(p, e)) {
        None => None,
        Some(x) => if e < s.len() {
            match nums_from(s, e + 1) {
                None => None,
                Some(rest) => Some(seq![x] + rest),
            }
        } else {
            Some(seq![x])
        },
    }
}

/// The numeric values of all segments of a version string, if it is fully
/// numeric.
pub open spec fn nums(s: Seq<u8>) -> Option<Seq<u32>> {
    nums_from(s, 0)
}

/// Position-by-position order of two equally long numeric sequences.
pub open spec fn num_seq_cmp(x: Seq<u32>, y: Seq<u32>) -> Ordering
    decreases x.len(),
{
    if x.len() == 0 || y.len() == 0 {
        Ordering::Equal
    } else if x[0] < y[0] {
        Ordering::Less
    } else if x[0] > y[0] {
        Ordering::Greater
    } else {
        num_seq_cmp(x.skip(1), y.skip(1))
    }
}

proof fn lemma_numeric_pos(a: Seq<u8>, b: Seq<u8>, pa: int, pb: int)
    requires
        0 <= pa,
        0 <= pb,
        nums_from(a, pa) is Some,
        nums_from(b, pb) is Some,
        nums_from(a, pa).unwrap().len() == nums_from(b, pb).unwrap().len(),
        nums_from(a, pa) != nums_from(b, pb),
    ensures
        cmp_pos(a, b, pa, Some(pb)) == Some(
            num_seq_cmp(nums_from(a, pa).unwrap(), nums_from(b, pb).unwrap()),
        ),
    decreases a.len() - pa,
{
    let ea = seg_end(a, pa);
    let eb = seg_end(b, pb);
    let x = parse_u32_spec(a.subrange(pa, ea)).unwrap();
    let y = parse_u32_spec(b.subrange(pb, eb)).unwrap();
    let xs = nums_from(a, pa).unwrap();
    let ys = nums_from(b, pb).unwrap();
    assert(bseg_at(b, Some(pb)) == b.subrange(pb, eb));
    if x != y {
        assert(xs[0] == x && ys[0] == y);
    } else {
        if ea < a.len() {
            assert(xs.len() >= 2);
            assert(eb < b.len()) by {
                if eb >= b.len() {
                    assert(ys =~= seq![y]);
                }
            }
            let xrest = nums_from(a, ea + 1).unwrap();
            let yrest = nums_from(b, eb + 1).unwrap();
            assert(xs =~= seq![x] + xrest);
            assert(xs.skip(1) =~= xrest);
            assert(ys.skip(1) =~= yrest);
            assert(xrest != yrest) by {
                if xrest == yrest {
                    assert(xs =~= ys);
                }
            }
            assert(next_pb(b, Some(pb)) == Some(eb + 1));
            lemma_numeric_pos(a, b, ea + 1, eb + 1);
            assert(num_seq_cmp(xs, ys) == num_seq_cmp(xrest, yrest));
        } else {
            assert(xs =~= seq![x]);
            assert(ys.len() == 1);
            if eb < b.len() {
                assert(ys.len() >= 2);
            }
            assert(ys =~= seq![y]);
            assert(xs =~= ys);
        }
    }
}

/// For two version strings whose segments are all numeric and equally
/// many, the comparator orders them by numeric magnitude: the first
/// position where the values differ decides.
pub proof fn lemma_numeric_versions(a: Seq<u8>, b: Seq<u8>)
    requires
        nums(a) is Some,
        nums(b) is Some,
        nums(a).unwrap().len() == nums(b).unwrap().len(),
        nums(a) != nums(b),
    ensures
        cmp_version_spec(a, b) == Some(num_seq_cmp(nums(a).unwrap(), nums(b).unwrap())),
{
    lemma_numeric_pos(a, b, 0, 0);
}

} // verus!
