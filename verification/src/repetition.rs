//! Detection of squares (a run of graphemes immediately followed by the same run)
//! by the divide-and-conquer method of Main and Lorentz, and the conflation of the
//! squares found into repeated graphemes.
use crate::ast::strings_view;
use crate::grapheme::{grapheme_models, Grapheme, GraphemeModel};
use crate::regexp::config::RegExpConfig;
use crate::text::{join_strings, str_eq};
use std::ops::Range;
use vstd::prelude::*;

verus! {

broadcast use vstd::seq::group_seq_axioms, vstd::seq_lib::group_seq_properties;

/// Whether two lists of strings hold the same strings.
fn same_strings(a: &Vec<String>, b: &Vec<String>) -> (r: bool)
    ensures
        r == (strings_view(a@) == strings_view(b@)),
{
    if a.len() != b.len() {
        assert(strings_view(a@).len() != strings_view(b@).len());
        return false;
    }
    let mut i: usize = 0;
    while i < a.len()
        invariant
            a@.len() == b@.len(),
            i <= a@.len(),
            forall|j: int| 0 <= j < i ==> (#[trigger] a@[j])@ == b@[j]@,
        decreases a.len() - i,
    {
        if !str_eq(a[i].as_str(), b[i].as_str()) {
            assert(strings_view(a@)[i as int] != strings_view(b@)[i as int]);
            return false;
        }
        i = i + 1;
    }
    assert(strings_view(a@) =~= strings_view(b@));
    true
}

/// Whether two graphemes are equal in every part.
pub fn same_grapheme(a: &Grapheme, b: &Grapheme) -> (r: bool)
    ensures
        r == (a@ == b@),
    decreases a,
{
    if a.min != b.min || a.max != b.max || a.config != b.config {
        return false;
    }
    if !same_strings(&a.chars, &b.chars) {
        return false;
    }
    if a.repetitions.len() != b.repetitions.len() {
        assert(a@.repetitions.len() != b@.repetitions.len());
        return false;
    }
    let mut i: usize = 0;
    while i < a.repetitions.len()
        invariant
            a.repetitions@.len() == b.repetitions@.len(),
            i <= a.repetitions@.len(),
            forall|j: int| 0 <= j < i ==> (#[trigger] a.repetitions@[j])@ == b.repetitions@[j]@,
        decreases a.repetitions.len() - i,
    {
        proof {
            let ghost rv = a.repetitions;
            assert(decreases_to!(*a => a.repetitions));
            assert(decreases_to!(rv => rv@));
            assert(decreases_to!(rv@ => rv@[i as int]));
        }
        if !same_grapheme(&a.repetitions[i], &b.repetitions[i]) {
            assert(a@.repetitions[i as int] != b@.repetitions[i as int]);
            return false;
        }
        i = i + 1;
    }
    assert(a@.repetitions =~= b@.repetitions);
    true
}

/// The first position of `s` that holds the same value as position `i`.
pub open spec fn first_equal(s: Seq<GraphemeModel>, i: int, j: int) -> bool {
    &&& 0 <= j <= i
    &&& s[j] == s[i]
    &&& forall|k: int| 0 <= k < j ==> s[k] != s[i]
}

/// Numbers the graphemes: each gets the position of the first grapheme equal to it,
/// so that two graphemes get the same number exactly when they are equal.
pub fn grapheme_ids(graphemes: &[Grapheme]) -> (ids: Vec<usize>)
    ensures
        ids@.len() == graphemes@.len(),
        forall|i: int|
            0 <= i < ids@.len() ==> first_equal(
                grapheme_models(graphemes@),
                i,
                #[trigger] ids@[i] as int,
            ),
{
    let ghost ms = grapheme_models(graphemes@);
    let mut ids: Vec<usize> = Vec::new();
    let mut i: usize = 0;
    while i < graphemes.len()
        invariant
            ms == grapheme_models(graphemes@),
            i <= graphemes@.len(),
            ids@.len() == i,
            forall|k: int| 0 <= k < i ==> first_equal(ms, k, #[trigger] ids@[k] as int),
        decreases graphemes.len() - i,
    {
        let mut j: usize = 0;
        while j < i && !same_grapheme(&graphemes[j], &graphemes[i])
            invariant
                ms == grapheme_models(graphemes@),
                i < graphemes@.len(),
                j <= i,
                forall|k: int| 0 <= k < j ==> ms[k] != ms[i as int],
            decreases i - j,
        {
            j = j + 1;
        }
        ids.push(j);
        i = i + 1;
    }
    ids
}

/// Equal numbers stand for equal graphemes.
pub proof fn lemma_ids_equal(s: Seq<GraphemeModel>, ids: Seq<usize>, a: int, b: int)
    requires
        ids.len() == s.len(),
        forall|i: int| 0 <= i < ids.len() ==> first_equal(s, i, #[trigger] ids[i] as int),
        0 <= a < s.len(),
        0 <= b < s.len(),
    ensures
        (ids[a] == ids[b]) <==> (s[a] == s[b]),
{
    assert(first_equal(s, a, ids[a] as int));
    assert(first_equal(s, b, ids[b] as int));
    if s[a] == s[b] {
        if ids[a] < ids[b] {
            assert(s[ids[a] as int] == s[b]);
        } else if ids[b] < ids[a] {
            assert(s[ids[b] as int] == s[a]);
        }
    }
}

/// `z` is the length of the longest common prefix of `s` and of `s` from `i` on.
pub open spec fn is_z_value(s: Seq<usize>, i: int, z: int) -> bool {
    &&& 0 <= z
    &&& i + z <= s.len()
    &&& forall|j: int| 0 <= j < z ==> #[trigger] s[j] == s[i + j]
    &&& (i + z == s.len() || s[z] != s[i + z])
}

/// The Z-array of `s`: at each position `i` from 1 on, the length of the longest
/// common prefix of `s` and of `s` from `i` on; 0 at position 0.
pub fn z_function(s: &[usize]) -> (z: Vec<usize>)
    ensures
        z@.len() == s@.len(),
        s@.len() > 0 ==> z@[0] == 0,
        forall|i: int| 1 <= i < s@.len() ==> is_z_value(s@, i, #[trigger] z@[i] as int),
{
    let n = s.len();
    let mut z: Vec<usize> = Vec::new();
    let mut k: usize = 0;
    while k < n
        invariant
            k <= n,
            z@.len() == k,
            forall|j: int| 0 <= j < k ==> z@[j] == 0,
        decreases n - k,
    {
        z.push(0);
        k = k + 1;
    }
    if n == 0 {
        return z;
    }
    let mut l: usize = 0;
    let mut r: usize = 0;
    let mut i: usize = 1;
    while i < n
        invariant
            n == s@.len(),
            z@.len() == n,
            1 <= i <= n,
            z@[0] == 0,
            l < i,
            r < n,
            l > 0 || r == 0,
            forall|j: int| 1 <= j < i ==> is_z_value(s@, j, #[trigger] z@[j] as int),
            forall|j: int| 0 <= j <= r - l ==> #[trigger] s@[j] == s@[l + j],
        decreases n - i,
    {
        let mut zi: usize = 0;
        if i <= r {
            let zl = z[i - l];
            zi = if r - i + 1 < zl {
                r - i + 1
            } else {
                zl
            };
            assert forall|j: int| 0 <= j < zi implies #[trigger] s@[j] == s@[i + j] by {
                if i - l >= 1 {
                    assert(is_z_value(s@, i - l, z@[i - l] as int));
                    assert(s@[j] == s@[i - l + j]);
                }
                assert(0 <= i - l + j <= r - l);
                assert(s@[i - l + j] == s@[l + (i - l + j)]);
            }
        }
        while i + zi < n && s[zi] == s[i + zi]
            invariant
                n == s@.len(),
                1 <= i < n,
                i + zi <= n,
                forall|j: int| 0 <= j < zi ==> #[trigger] s@[j] == s@[i + j],
            decreases n - i - zi,
        {
            zi = zi + 1;
        }
        z.set(i, zi);
        if i + zi - 1 > r {
            l = i;
            r = i + zi - 1;
        }
        i = i + 1;
    }
    z
}

/// The value of `z` at `i`, or 0 where `i` lies beyond its end.
pub fn get_z(z: &[usize], i: usize) -> (v: usize)
    ensures
        v == (if i < z@.len() {
            z@[i as int]
        } else {
            0
        }),
{
    if i < z.len() {
        z[i]
    } else {
        0
    }
}

/// The ranges come in the order of their starts.
pub open spec fn starts_sorted(s: Seq<Range<usize>>) -> bool {
    forall|i: int, j: int| 0 <= i <= j < s.len() ==> #[trigger] s[i].start <= #[trigger] s[j].start
}

/// `r`, taken relative to `shift`, covers a square of `s`: its first half
/// equals its second half.
pub open spec fn is_square(s: Seq<usize>, shift: int, r: Range<usize>) -> bool {
    let a = r.start - shift;
    let h = (r.end - r.start) / 2;
    &&& shift <= r.start < r.end
    &&& (r.end - r.start) % 2 == 0
    &&& r.end - shift <= s.len()
    &&& forall|j: int| a <= j < a + h ==> #[trigger] s[j] == s[j + h]
}

/// The positions `a .. b` of `s`.
fn sub_vec(s: &[usize], a: usize, b: usize) -> (v: Vec<usize>)
    requires
        a <= b <= s@.len(),
    ensures
        v@ == s@.subrange(a as int, b as int),
{
    let mut v: Vec<usize> = Vec::new();
    let mut i: usize = a;
    while i < b
        invariant
            a <= i <= b,
            b <= s@.len(),
            v@ == s@.subrange(a as int, i as int),
        decreases b - i,
    {
        v.push(s[i]);
        i = i + 1;
    }
    v
}

/// `s` from its end to its start.
fn reversed(s: &[usize]) -> (v: Vec<usize>)
    ensures
        v@ == s@.reverse(),
{
    let n = s.len();
    let mut v: Vec<usize> = Vec::new();
    let mut k: usize = 0;
    while k < n
        invariant
            n == s@.len(),
            k <= n,
            v@.len() == k,
            forall|j: int| 0 <= j < k ==> #[trigger] v@[j] == s@[n - 1 - j],
        decreases n - k,
    {
        v.push(s[n - 1 - k]);
        k = k + 1;
    }
    assert(v@ =~= s@.reverse());
    v
}

/// `a`, then `sep`, then `b`.
fn joined(a: &[usize], sep: usize, b: &[usize]) -> (v: Vec<usize>)
    ensures
        v@ == a@ + seq![sep] + b@,
{
    let mut v: Vec<usize> = Vec::new();
    let mut i: usize = 0;
    while i < a.len()
        invariant
            i <= a@.len(),
            v@ == a@.subrange(0, i as int),
        decreases a.len() - i,
    {
        v.push(a[i]);
        i = i + 1;
    }
    v.push(sep);
    let mut j: usize = 0;
    while j < b.len()
        invariant
            j <= b@.len(),
            v@ == a@ + seq![sep] + b@.subrange(0, j as int),
        decreases b.len() - j,
    {
        v.push(b[j]);
        j = j + 1;
    }
    v
}

/// Sorts the ranges by their start; ranges with equal starts keep their order.
fn sort_by_start(ranges: &mut Vec<Range<usize>>)
    ensures
        final(ranges)@ == sort_starts(old(ranges)@),
        starts_sorted(final(ranges)@),
        final(ranges)@.to_multiset() == old(ranges)@.to_multiset(),
{
    let mut out: Vec<Range<usize>> = Vec::new();
    let mut i: usize = 0;
    while i < ranges.len()
        invariant
            i <= ranges@.len(),
            starts_sorted(out@),
            out@ == sort_starts(ranges@.subrange(0, i as int)),
            out@.to_multiset() == ranges@.subrange(0, i as int).to_multiset(),
        decreases ranges.len() - i,
    {
        let s = ranges[i].start;
        let e = ranges[i].end;
        let mut p: usize = out.len();
        while p > 0 && out[p - 1].start > s
            invariant
                p <= out@.len(),
                starts_sorted(out@),
                forall|j: int| p <= j < out@.len() ==> #[trigger] out@[j].start > s,
            decreases p,
        {
            p = p - 1;
        }
        let r = Range { start: s, end: e };
        proof {
            assert(r == ranges@[i as int]);
            vstd::seq_lib::to_multiset_insert(out@, p as int, r);
            vstd::seq_lib::to_multiset_build(ranges@.subrange(0, i as int), r);
            assert(ranges@.subrange(0, i + 1) =~= ranges@.subrange(0, i as int).push(r));
            assert(ranges@.subrange(0, i + 1).drop_last() == ranges@.subrange(0, i as int));
            if p > 0 {
                assert(!(out@[p - 1].start > s));
            }
            lemma_insert_by_start(out@, r, p as int);
        }
        out.insert(p, r);
        i = i + 1;
    }
    assert(ranges@.subrange(0, ranges@.len() as int) =~= ranges@);
    *ranges = out;
}

/// A square read off a run where each position equals the one `h` further on.
proof fn lemma_square_in_run(s: Seq<usize>, shift: int, r: Range<usize>, lo: int, hi: int, h: int)
    requires
        forall|x: int| lo <= x < hi ==> #[trigger] s[x] == s[x + h],
        shift <= r.start,
        r.end == r.start + 2 * h,
        h >= 1,
        lo <= r.start - shift,
        r.start - shift + h <= hi,
        r.end - shift <= s.len(),
    ensures
        is_square(s, shift, r),
{
    assert((r.end - r.start) / 2 == h);
}

/// A square of a part of `s` is a square of `s`.
proof fn lemma_square_in_part(s: Seq<usize>, d: int, part: Seq<usize>, shift: int, r: Range<usize>)
    requires
        0 <= d,
        d + part.len() <= s.len(),
        part == s.subrange(d, d + part.len()),
        is_square(part, shift + d, r),
    ensures
        is_square(s, shift, r),
{
    let a = r.start - (shift + d);
    let h = (r.end - r.start) / 2;
    assert forall|j: int| a + d <= j < a + d + h implies #[trigger] s[j] == s[j + h] by {
        assert(part[j - d] == part[j - d + h]);
    }
}

/// Where the centre lies in the left half: the positions that equal the ones
/// `nu - cntr` further on.
proof fn lemma_left_run(
    ids: Seq<usize>,
    nu: int,
    cntr: int,
    z1: Seq<usize>,
    z2: Seq<usize>,
    k1: int,
    k2: int,
)
    requires
        1 <= nu <= ids.len() - nu,
        0 <= cntr < nu,
        z1.len() == nu,
        forall|i: int|
            1 <= i < nu ==> is_z_value(
                ids.subrange(0, nu).reverse(),
                i,
                #[trigger] z1[i] as int,
            ),
        z2.len() == ids.len() + 1,
        forall|i: int|
            1 <= i < ids.len() + 1 ==> is_z_value(
                ids.subrange(nu, ids.len() as int) + seq![usize::MAX] + ids.subrange(0, nu),
                i,
                #[trigger] z2[i] as int,
            ),
        k1 == (if nu - cntr < nu {
            z1[nu - cntr] as int
        } else {
            0
        }),
        k2 == z2[ids.len() - nu + 1 + cntr] as int,
    ensures
        0 <= k1 <= cntr,
        0 <= k2 <= nu - cntr,
        forall|x: int| cntr - k1 <= x < cntr + k2 ==> #[trigger] ids[x] == ids[x + (nu - cntr)],
        k1 == cntr || ids[cntr - 1 - k1] != ids[cntr - 1 - k1 + (nu - cntr)],
        k2 == nu - cntr || ids[cntr + k2] != ids[cntr + k2 + (nu - cntr)],
{
    let n = ids.len() as int;
    let nv = n - nu;
    let ru = ids.subrange(0, nu).reverse();
    let w2 = ids.subrange(nu, n) + seq![usize::MAX] + ids.subrange(0, nu);
    let p1 = nu - cntr;
    let p2 = nv + 1 + cntr;
    if p1 < nu {
        assert(is_z_value(ru, p1, z1[p1] as int));
    }
    assert(is_z_value(w2, p2, z2[p2] as int));
    assert forall|x: int| cntr - k1 <= x < cntr + k2 implies #[trigger] ids[x] == ids[x + (nu - cntr)] by {
        if x < cntr {
            let t = cntr - 1 - x;
            assert(ru[t] == ru[p1 + t]);
            assert(ru[t] == ids[nu - 1 - t]);
            assert(ru[p1 + t] == ids[nu - 1 - (p1 + t)]);
        } else {
            let t = x - cntr;
            assert(w2[t] == w2[p2 + t]);
            assert(w2[t] == ids[nu + t]);
            assert(w2[p2 + t] == ids[cntr + t]);
        }
    }
    if k1 != cntr {
        assert(ru[k1] != ru[p1 + k1]);
        assert(ru[k1] == ids[nu - 1 - k1]);
        assert(ru[p1 + k1] == ids[nu - 1 - (p1 + k1)]);
    }
    if k2 != nu - cntr {
        assert(w2[k2] != w2[p2 + k2]);
        assert(w2[k2] == ids[nu + k2]);
        assert(w2[p2 + k2] == ids[cntr + k2]);
    }
}

/// Where the centre lies in the right half: the positions that equal the ones
/// `cntr - nu + 1` further on.
proof fn lemma_right_run(
    ids: Seq<usize>,
    nu: int,
    cntr: int,
    z3: Seq<usize>,
    z4: Seq<usize>,
    k1: int,
    k2: int,
)
    requires
        1 <= nu <= ids.len() - nu,
        nu <= cntr < ids.len(),
        forall|i: int| 0 <= i < ids.len() ==> ids[i] != usize::MAX,
        z3.len() == ids.len() + 1,
        forall|i: int|
            1 <= i < ids.len() + 1 ==> is_z_value(
                ids.subrange(0, nu).reverse() + seq![usize::MAX] + ids.subrange(
                    nu,
                    ids.len() as int,
                ).reverse(),
                i,
                #[trigger] z3[i] as int,
            ),
        z4.len() == ids.len() - nu,
        forall|i: int|
            1 <= i < ids.len() - nu ==> is_z_value(
                ids.subrange(nu, ids.len() as int),
                i,
                #[trigger] z4[i] as int,
            ),
        k1 == z3[2 * nu + (ids.len() - nu) - cntr] as int,
        k2 == (if cntr - nu + 1 < ids.len() - nu {
            z4[cntr - nu + 1] as int
        } else {
            0
        }),
    ensures
        0 <= k1 <= nu,
        0 <= k2,
        (cntr - nu + 1) + k2 <= ids.len() - nu,
        forall|x: int|
            nu - k1 <= x < nu + k2 ==> #[trigger] ids[x] == ids[x + (cntr - nu + 1)],
        k1 == cntr - nu + 1 || k1 == nu || ids[nu - 1 - k1] != ids[nu - 1 - k1 + (cntr - nu + 1)],
        (cntr - nu + 1) + k2 == ids.len() - nu || ids[nu + k2] != ids[nu + k2 + (cntr - nu + 1)],
{
    let n = ids.len() as int;
    let nv = n - nu;
    let l = cntr - nu + 1;
    let ru = ids.subrange(0, nu).reverse();
    let rv = ids.subrange(nu, n).reverse();
    let v = ids.subrange(nu, n);
    let w3 = ru + seq![usize::MAX] + rv;
    let p3 = 2 * nu + nv - cntr;
    assert(is_z_value(w3, p3, z3[p3] as int));
    if k1 > nu {
        assert(w3[nu] == w3[p3 + nu]);
        assert(w3[p3 + nu] == rv[p3 + nu - nu - 1]);
        assert(rv[p3 - 1] == v[nv - 1 - (p3 - 1)]);
        assert(false);
    }
    if l < nv {
        assert(is_z_value(v, l, z4[l] as int));
    }
    assert forall|x: int| nu - k1 <= x < nu + k2 implies #[trigger] ids[x] == ids[x + l] by {
        if x < nu {
            let t = nu - 1 - x;
            assert(w3[t] == w3[p3 + t]);
            assert(w3[t] == ru[t]);
            assert(w3[p3 + t] == rv[p3 + t - nu - 1]);
            assert(rv[p3 + t - nu - 1] == v[nv - 1 - (p3 + t - nu - 1)]);
        } else {
            let t = x - nu;
            assert(v[t] == v[l + t]);
        }
    }
    if k1 != l && k1 != nu {
        assert(w3[k1] != w3[p3 + k1]);
        assert(w3[k1] == ru[k1]);
        assert(w3[p3 + k1] == rv[p3 + k1 - nu - 1]);
        assert(rv[p3 + k1 - nu - 1] == v[nv - 1 - (p3 + k1 - nu - 1)]);
    }
    if l + k2 != nv {
        assert(v[k2] != v[l + k2]);
    }
}

/// A square of `s` that lies within a part of it is a square of the part.
proof fn lemma_square_to_part(s: Seq<usize>, d: int, part: Seq<usize>, shift: int, r: Range<usize>)
    requires
        0 <= d,
        d + part.len() <= s.len(),
        part == s.subrange(d, d + part.len()),
        is_square(s, shift, r),
        shift + d <= r.start,
        r.end - shift <= d + part.len(),
    ensures
        is_square(part, shift + d, r),
{
    let a = r.start - shift;
    let h = (r.end - r.start) / 2;
    assert forall|j: int| a - d <= j < a - d + h implies #[trigger] part[j] == part[j + h] by {
        assert(s[j + d] == s[j + d + h]);
    }
}

/// `r`, taken relative to `shift`, covers a square that reaches across position `nu`.
pub open spec fn crossing(ids: Seq<usize>, shift: int, nu: int, r: Range<usize>) -> bool {
    &&& is_square(ids, shift, r)
    &&& r.start - shift < nu
    &&& nu < r.end - shift
}

/// The position of the centre at which a square across `nu` is found: `nu` less the
/// half length where the square's middle lies before `nu`, `nu` plus the half length
/// less one otherwise.
pub open spec fn found_at(shift: int, nu: int, r: Range<usize>) -> int {
    let s = r.start - shift;
    let l = (r.end - r.start) / 2;
    if s + l < nu {
        nu - l
    } else {
        nu + l - 1
    }
}

/// The distance from the start of a square across `nu` to the centre at which it is
/// found (where its middle lies before `nu`), or to `nu` (otherwise).
pub open spec fn offset_of(shift: int, nu: int, r: Range<usize>) -> int {
    let s = r.start - shift;
    let l = (r.end - r.start) / 2;
    if s + l < nu {
        nu - l - s
    } else {
        nu - s
    }
}

/// A square across `nu` is found at a position of the centre loop.
proof fn lemma_found_at_range(ids: Seq<usize>, shift: int, nu: int, r: Range<usize>)
    requires
        crossing(ids, shift, nu, r),
        1 <= nu <= ids.len() - nu,
    ensures
        0 <= found_at(shift, nu, r) < ids.len(),
{
}

/// A square across `nu` whose middle lies before `nu`, at the centre `cntr`, lies in
/// the run that the left-hand search finds.
proof fn lemma_left_complete(
    ids: Seq<usize>,
    nu: int,
    cntr: int,
    k1: int,
    k2: int,
    shift: int,
    r: Range<usize>,
)
    requires
        1 <= nu <= ids.len() - nu,
        0 <= cntr < nu,
        0 <= k1 <= cntr,
        0 <= k2 <= nu - cntr,
        k1 == cntr || ids[cntr - 1 - k1] != ids[cntr - 1 - k1 + (nu - cntr)],
        k2 == nu - cntr || ids[cntr + k2] != ids[cntr + k2 + (nu - cntr)],
        crossing(ids, shift, nu, r),
        found_at(shift, nu, r) == cntr,
    ensures
        (r.end - r.start) / 2 == nu - cntr,
        1 <= offset_of(shift, nu, r) < nu - cntr,
        offset_of(shift, nu, r) <= k1,
        (nu - cntr) - k2 <= offset_of(shift, nu, r),
        r.start == shift + cntr - offset_of(shift, nu, r),
        r.end == r.start + 2 * (nu - cntr),
{
    let s = r.start - shift;
    let l = (r.end - r.start) / 2;
    assert(s + l < nu);
    let l1 = nu - l - s;
    if k1 < l1 {
        let x = cntr - 1 - k1;
        assert(s <= x < s + l);
        assert(ids[x] == ids[x + l]);
    }
    if k2 < l - l1 {
        let x = cntr + k2;
        assert(s <= x < s + l);
        assert(ids[x] == ids[x + l]);
    }
}

/// A square across `nu` whose middle does not lie before `nu`, at the centre `cntr`,
/// lies in the run that the right-hand search finds.
proof fn lemma_right_complete(
    ids: Seq<usize>,
    nu: int,
    cntr: int,
    k1: int,
    k2: int,
    shift: int,
    r: Range<usize>,
)
    requires
        1 <= nu <= ids.len() - nu,
        nu <= cntr < ids.len(),
        0 <= k1 <= nu,
        0 <= k2,
        (cntr - nu + 1) + k2 <= ids.len() - nu,
        k1 == cntr - nu + 1 || k1 == nu || ids[nu - 1 - k1] != ids[nu - 1 - k1 + (cntr - nu + 1)],
        (cntr - nu + 1) + k2 == ids.len() - nu || ids[nu + k2] != ids[nu + k2 + (cntr - nu + 1)],
        crossing(ids, shift, nu, r),
        found_at(shift, nu, r) == cntr,
    ensures
        (r.end - r.start) / 2 == cntr - nu + 1,
        1 <= offset_of(shift, nu, r) <= cntr - nu + 1,
        offset_of(shift, nu, r) <= k1,
        (cntr - nu + 1) - k2 <= offset_of(shift, nu, r),
        r.start == shift + cntr + 1 - (cntr - nu + 1) - offset_of(shift, nu, r),
        r.end == r.start + 2 * (cntr - nu + 1),
{
    let s = r.start - shift;
    let l = (r.end - r.start) / 2;
    assert(s + l >= nu);
    let l1 = nu - s;
    if k1 < l1 {
        let x = nu - 1 - k1;
        assert(s <= x < s + l);
        assert(ids[x] == ids[x + l]);
    }
    if k2 < l - l1 {
        let x = nu + k2;
        assert(s <= x < s + l);
        assert(ids[x] == ids[x + l]);
    }
}

/// Each range is one of `old` or, taken relative to `shift`, covers a square of `ids`.
pub open spec fn kept_or_square(
    rs: Seq<Range<usize>>,
    old_rs: Seq<Range<usize>>,
    ids: Seq<usize>,
    shift: int,
) -> bool {
    forall|k: int| 0 <= k < rs.len() ==> old_rs.contains(#[trigger] rs[k]) || is_square(ids, shift, rs[k])
}

/// Every range of `old` occurs in `rs` at least as often.
pub open spec fn keeps_all(rs: Seq<Range<usize>>, old_rs: Seq<Range<usize>>) -> bool {
    forall|x: Range<usize>| #[trigger] old_rs.to_multiset().count(x) <= rs.to_multiset().count(x)
}

/// After a square found at the centre `cntr` with offset `l1` is added, every range
/// is still one of the old ranges or a square, and every square across `nu` found at
/// that centre with an offset up to `l1` is there.
proof fn lemma_pushed_square(
    ids: Seq<usize>,
    nu: int,
    cntr: int,
    l: int,
    k1: int,
    k2: int,
    left: bool,
    shift: int,
    l1: int,
    before: Seq<Range<usize>>,
    after: Seq<Range<usize>>,
    old_rs: Seq<Range<usize>>,
    r: Range<usize>,
)
    requires
        after == before.push(r),
        2 <= ids.len(),
        nu == ids.len() / 2,
        cntr < ids.len(),
        left == (cntr < nu),
        left ==> (l == nu - cntr && k1 <= cntr && k2 <= l && (k1 == cntr || ids[cntr - 1 - k1]
            != ids[cntr - 1 - k1 + l]) && (k2 == l || ids[cntr + k2] != ids[cntr + k2 + l])),
        !left ==> (l == cntr - nu + 1 && k1 <= nu && l + k2 <= ids.len() - nu && (k1 == l || k1
            == nu || ids[nu - 1 - k1] != ids[nu - 1 - k1 + l]) && (l + k2 == ids.len() - nu
            || ids[nu + k2] != ids[nu + k2 + l])),
        0 <= k1,
        0 <= k2,
        r.start == shift + (if left {
            cntr - l1
        } else {
            cntr + 1 - l - l1
        }),
        r.end == r.start + 2 * l,
        is_square(ids, shift, r),
        forall|k: int|
            0 <= k < before.len() ==> old_rs.contains(#[trigger] before[k]) || is_square(
                ids,
                shift,
                before[k],
            ),
        forall|q: Range<usize>|
            #[trigger] crossing(ids, shift, nu, q) && found_at(shift, nu, q) == cntr && offset_of(
                shift,
                nu,
                q,
            ) < l1 ==> before.contains(q),
    ensures
        forall|q: Range<usize>| before.contains(q) ==> after.contains(q),
        forall|k: int|
            0 <= k < after.len() ==> old_rs.contains(#[trigger] after[k]) || is_square(
                ids,
                shift,
                after[k],
            ),
        forall|q: Range<usize>|
            #[trigger] crossing(ids, shift, nu, q) && found_at(shift, nu, q) == cntr && offset_of(
                shift,
                nu,
                q,
            ) < l1 + 1 ==> after.contains(q),
{
    assert(after[after.len() - 1] == r);
    assert forall|q: Range<usize>| before.contains(q) implies after.contains(q) by {
        let w = choose|w: int| 0 <= w < before.len() && before[w] == q;
        assert(after[w] == q);
    }
    assert forall|k: int| 0 <= k < after.len() implies old_rs.contains(#[trigger] after[k])
        || is_square(ids, shift, after[k]) by {
        if k < before.len() {
            assert(after[k] == before[k]);
        }
    }
    assert forall|q: Range<usize>|
        #[trigger] crossing(ids, shift, nu, q) && found_at(shift, nu, q) == cntr && offset_of(
            shift,
            nu,
            q,
        ) < l1 + 1 implies after.contains(q) by {
        if offset_of(shift, nu, q) == l1 {
            if left {
                lemma_left_complete(ids, nu, cntr, k1, k2, shift, q);
            } else {
                lemma_right_complete(ids, nu, cntr, k1, k2, shift, q);
            }
            assert(q == r);
        } else {
            assert(before.contains(q));
        }
    }
}

/// Adds the squares across `nu` whose centre is `cntr`: with half length `l`, at
/// each offset from `max(1, l - k2)` to `min(l, k1)` (short of `l` where the centre
/// lies before `nu`), where `k1` and `k2` are the lengths of the run around the
/// centre in which each position equals the one `l` further on.
#[verifier::rlimit(50)]
fn collect_at_centre(
    ranges: &mut Vec<Range<usize>>,
    ids: &[usize],
    shift: usize,
    nu: usize,
    cntr: usize,
    l: usize,
    k1: usize,
    k2: usize,
    left: bool,
)
    requires
        2 <= ids@.len(),
        nu == ids@.len() / 2,
        shift + 2 * ids@.len() <= usize::MAX,
        cntr < ids@.len(),
        left == (cntr < nu),
        left ==> (l == nu - cntr && k1 <= cntr && k2 <= l && (k1 == cntr || ids@[cntr - 1 - k1]
            != ids@[cntr - 1 - k1 + l]) && (k2 == l || ids@[cntr + k2] != ids@[cntr + k2 + l])
            && forall|x: int| cntr - k1 <= x < cntr + k2 ==> #[trigger] ids@[x] == ids@[x + l]),
        !left ==> (l == cntr - nu + 1 && k1 <= nu && l + k2 <= ids@.len() - nu && (k1 == l || k1
            == nu || ids@[nu - 1 - k1] != ids@[nu - 1 - k1 + l]) && (l + k2 == ids@.len() - nu
            || ids@[nu + k2] != ids@[nu + k2 + l]) && forall|x: int|
            nu - k1 <= x < nu + k2 ==> #[trigger] ids@[x] == ids@[x + l]),
    ensures
        keeps_all(final(ranges)@, old(ranges)@),
        forall|q: Range<usize>| old(ranges)@.contains(q) ==> final(ranges)@.contains(q),
        forall|k: int|
            0 <= k < final(ranges)@.len() ==> old(ranges)@.contains(#[trigger] final(ranges)@[k])
                || is_square(ids@, shift as int, final(ranges)@[k]),
        forall|q: Range<usize>|
            #[trigger] crossing(ids@, shift as int, nu as int, q) && found_at(
                shift as int,
                nu as int,
                q,
            ) == cntr ==> final(ranges)@.contains(q),
{
    let ghost n = ids@.len() as int;
    let ghost lo: int = if left {
        cntr - k1
    } else {
        nu - k1
    };
    let ghost hi: int = if left {
        cntr + k2
    } else {
        nu + k2
    };
    if k1 + k2 >= l {
        let first = if k2 >= l || l - k2 < 1 {
            1
        } else {
            l - k2
        };
        let last = if l < k1 {
            l
        } else {
            k1
        };
        let mut l1: usize = first;
        while l1 <= last
            invariant
                n == ids@.len(),
                2 <= n,
                nu == n / 2,
                shift + 2 * n <= usize::MAX,
                cntr < n,
                left == (cntr < nu),
                1 <= first <= l1,
                l <= l1 + k2,
                last <= l,
                last <= k1,
                l >= 1,
                left ==> (l == nu - cntr && k1 <= cntr && k2 <= l && lo == cntr - k1 && hi == cntr
                    + k2),
                !left ==> (l == cntr - nu + 1 && k1 <= nu && l + k2 <= n - nu && lo == nu - k1
                    && hi == nu + k2),
                left ==> (k1 == cntr || ids@[cntr - 1 - k1] != ids@[cntr - 1 - k1 + l]) && (k2 == l
                    || ids@[cntr + k2] != ids@[cntr + k2 + l]),
                !left ==> (k1 == l || k1 == nu || ids@[nu - 1 - k1] != ids@[nu - 1 - k1 + l]) && (l
                    + k2 == n - nu || ids@[nu + k2] != ids@[nu + k2 + l]),
                forall|x: int| lo <= x < hi ==> #[trigger] ids@[x] == ids@[x + l],
                keeps_all(ranges@, old(ranges)@),
                forall|q: Range<usize>| old(ranges)@.contains(q) ==> ranges@.contains(q),
                forall|k: int|
                    0 <= k < ranges@.len() ==> old(ranges)@.contains(#[trigger] ranges@[k])
                        || is_square(ids@, shift as int, ranges@[k]),
                forall|q: Range<usize>|
                    #[trigger] crossing(ids@, shift as int, nu as int, q) && found_at(
                        shift as int,
                        nu as int,
                        q,
                    ) == cntr && offset_of(shift as int, nu as int, q) < l1 ==> ranges@.contains(q),
            ensures
                last < l1 || (left && l1 == l),
                keeps_all(ranges@, old(ranges)@),
                forall|q: Range<usize>| old(ranges)@.contains(q) ==> ranges@.contains(q),
                forall|k: int|
                    0 <= k < ranges@.len() ==> old(ranges)@.contains(#[trigger] ranges@[k])
                        || is_square(ids@, shift as int, ranges@[k]),
                forall|q: Range<usize>|
                    #[trigger] crossing(ids@, shift as int, nu as int, q) && found_at(
                        shift as int,
                        nu as int,
                        q,
                    ) == cntr && offset_of(shift as int, nu as int, q) < l1 ==> ranges@.contains(q),
            decreases last + 1 - l1,
        {
            if left && l1 == l {
                break;
            }
            let a = if left {
                cntr - l1
            } else {
                cntr + 1 - l - l1
            };
            let s = shift + a;
            let e = s + 2 * l - 1;
            let r = Range { start: s, end: e + 1 };
            proof {
                lemma_square_in_run(ids@, shift as int, r, lo, hi, l as int);
                vstd::seq_lib::to_multiset_build(ranges@, r);
            }
            let ghost before_push = ranges@;
            ranges.push(r);
            proof {
                lemma_pushed_square(
                    ids@,
                    nu as int,
                    cntr as int,
                    l as int,
                    k1 as int,
                    k2 as int,
                    left,
                    shift as int,
                    l1 as int,
                    before_push,
                    ranges@,
                    old(ranges)@,
                    r,
                );
            }
            l1 = l1 + 1;
        }
        proof {
            assert forall|q: Range<usize>|
                #[trigger] crossing(ids@, shift as int, nu as int, q) && found_at(
                    shift as int,
                    nu as int,
                    q,
                ) == cntr implies ranges@.contains(q) by {
                if left {
                    lemma_left_complete(ids@, nu as int, cntr as int, k1 as int, k2 as int, shift as int, q);
                } else {
                    lemma_right_complete(ids@, nu as int, cntr as int, k1 as int, k2 as int, shift as int, q);
                }
            }
        }
    } else {
        proof {
            assert forall|q: Range<usize>|
                #[trigger] crossing(ids@, shift as int, nu as int, q) && found_at(
                    shift as int,
                    nu as int,
                    q,
                ) == cntr implies ranges@.contains(q) by {
                if left {
                    lemma_left_complete(ids@, nu as int, cntr as int, k1 as int, k2 as int, shift as int, q);
                } else {
                    lemma_right_complete(ids@, nu as int, cntr as int, k1 as int, k2 as int, shift as int, q);
                }
            }
        }
    }
}

/// Adds to `ranges` the squares of `ids` that the method of Main and Lorentz
/// enumerates, each taken `shift` positions further on, and sorts all ranges by
/// their start. The separator put between the halves is a number that no
/// position of `ids` holds.
pub fn collect_ranges(ranges: &mut Vec<Range<usize>>, ids: &[usize], shift: usize)
    requires
        ids@.len() >= 1,
        shift + 2 * ids@.len() <= usize::MAX,
        forall|i: int| 0 <= i < ids@.len() ==> ids@[i] != usize::MAX,
    ensures
        starts_sorted(final(ranges)@),
        keeps_all(final(ranges)@, old(ranges)@),
        kept_or_square(final(ranges)@, old(ranges)@, ids@, shift as int),
        forall|r: Range<usize>| #[trigger] is_square(ids@, shift as int, r) ==> final(ranges)@.contains(r),
    decreases ids@.len(),
{
    let n = ids.len();
    if n == 1 {
        sort_by_start(ranges);
        proof {
            assert forall|k: int| 0 <= k < ranges@.len() implies old(ranges)@.contains(
                #[trigger] ranges@[k],
            ) || is_square(ids@, shift as int, ranges@[k]) by {
                vstd::seq_lib::to_multiset_contains(ranges@, ranges@[k]);
                vstd::seq_lib::to_multiset_contains(old(ranges)@, ranges@[k]);
            }
        }
        return;
    }
    let ghost old_rs = ranges@;
    let nu = n / 2;
    let nv = n - nu;
    let u = sub_vec(ids, 0, nu);
    let v = sub_vec(ids, nu, n);
    let ru = reversed(&u);
    let rv = reversed(&v);
    collect_ranges(ranges, &u, shift);
    let ghost mid_rs = ranges@;
    collect_ranges(ranges, &v, shift + nu);
    let ghost halves_rs = ranges@;
    proof {
        assert forall|k: int| 0 <= k < ranges@.len() implies old_rs.contains(#[trigger] ranges@[k])
            || is_square(ids@, shift as int, ranges@[k]) by {
            let r = ranges@[k];
            if !mid_rs.contains(r) {
                lemma_square_in_part(ids@, nu as int, v@, shift as int, r);
            } else {
                let m = choose|m: int| 0 <= m < mid_rs.len() && mid_rs[m] == r;
                if !old_rs.contains(r) {
                    assert(is_square(u@, shift as int, mid_rs[m]));
                    lemma_square_in_part(ids@, 0, u@, shift as int, r);
                }
            }
        }
    }
    let z1 = z_function(&ru);
    let w2 = joined(&v, usize::MAX, &u);
    let z2 = z_function(&w2);
    let w3 = joined(&ru, usize::MAX, &rv);
    let z3 = z_function(&w3);
    let z4 = z_function(&v);
    let mut cntr: usize = 0;
    while cntr < n
        invariant
            n == ids@.len(),
            2 <= n,
            nu == n / 2,
            nv == n - nu,
            shift + 2 * n <= usize::MAX,
            forall|i: int| 0 <= i < n ==> ids@[i] != usize::MAX,
            u@ == ids@.subrange(0, nu as int),
            v@ == ids@.subrange(nu as int, n as int),
            z1@.len() == nu,
            forall|i: int| 1 <= i < nu ==> is_z_value(u@.reverse(), i, #[trigger] z1@[i] as int),
            z2@.len() == n + 1,
            forall|i: int|
                1 <= i < n + 1 ==> is_z_value(
                    v@ + seq![usize::MAX] + u@,
                    i,
                    #[trigger] z2@[i] as int,
                ),
            z3@.len() == n + 1,
            forall|i: int|
                1 <= i < n + 1 ==> is_z_value(
                    u@.reverse() + seq![usize::MAX] + v@.reverse(),
                    i,
                    #[trigger] z3@[i] as int,
                ),
            z4@.len() == nv,
            forall|i: int| 1 <= i < nv ==> is_z_value(v@, i, #[trigger] z4@[i] as int),
            keeps_all(ranges@, old_rs),
            kept_or_square(ranges@, old_rs, ids@, shift as int),
            keeps_all(ranges@, halves_rs),
            forall|r: Range<usize>|
                #[trigger] crossing(ids@, shift as int, nu as int, r) && found_at(
                    shift as int,
                    nu as int,
                    r,
                ) < cntr ==> ranges@.contains(r),
        decreases n - cntr,
    {
        let left = cntr < nu;
        let l: usize;
        let k1: usize;
        let k2: usize;
        if left {
            l = nu - cntr;
            k1 = get_z(&z1, nu - cntr);
            k2 = get_z(&z2, nv + 1 + cntr);
            proof {
                lemma_left_run(ids@, nu as int, cntr as int, z1@, z2@, k1 as int, k2 as int);
            }
        } else {
            l = cntr - nu + 1;
            k1 = get_z(&z3, nu + 1 + nv - 1 - (cntr - nu));
            k2 = get_z(&z4, (cntr - nu) + 1);
            proof {
                lemma_right_run(ids@, nu as int, cntr as int, z3@, z4@, k1 as int, k2 as int);
            }
        }
        let ghost before = ranges@;
        collect_at_centre(ranges, ids, shift, nu, cntr, l, k1, k2, left);
        proof {
            assert forall|x: Range<usize>| #[trigger] old_rs.to_multiset().count(x)
                <= ranges@.to_multiset().count(x) by {
                assert(old_rs.to_multiset().count(x) <= before.to_multiset().count(x));
            }
            assert forall|x: Range<usize>| #[trigger] halves_rs.to_multiset().count(x)
                <= ranges@.to_multiset().count(x) by {
                assert(halves_rs.to_multiset().count(x) <= before.to_multiset().count(x));
            }
            assert forall|k: int| 0 <= k < ranges@.len() implies old_rs.contains(#[trigger] ranges@[k])
                || is_square(ids@, shift as int, ranges@[k]) by {
                if before.contains(ranges@[k]) {
                    let w = choose|w: int| 0 <= w < before.len() && before[w] == ranges@[k];
                    assert(old_rs.contains(before[w]) || is_square(ids@, shift as int, before[w]));
                }
            }
            assert forall|r: Range<usize>|
                #[trigger] crossing(ids@, shift as int, nu as int, r) && found_at(
                    shift as int,
                    nu as int,
                    r,
                ) < cntr + 1 implies ranges@.contains(r) by {
                if found_at(shift as int, nu as int, r) < cntr {
                    assert(before.contains(r));
                }
            }
        }
        cntr = cntr + 1;
    }
    let ghost before = ranges@;
    sort_by_start(ranges);
    proof {
        assert forall|k: int| 0 <= k < ranges@.len() implies old_rs.contains(#[trigger] ranges@[k])
            || is_square(ids@, shift as int, ranges@[k]) by {
            vstd::seq_lib::to_multiset_contains(ranges@, ranges@[k]);
            vstd::seq_lib::to_multiset_contains(before, ranges@[k]);
        }
        assert forall|r: Range<usize>| #[trigger] is_square(ids@, shift as int, r) implies ranges@.contains(
            r,
        ) by {
            if r.end - shift <= nu {
                lemma_square_to_part(ids@, 0, u@, shift as int, r);
                assert(mid_rs.contains(r));
                vstd::seq_lib::to_multiset_contains(mid_rs, r);
                vstd::seq_lib::to_multiset_contains(halves_rs, r);
                vstd::seq_lib::to_multiset_contains(before, r);
            } else if r.start - shift >= nu {
                lemma_square_to_part(ids@, nu as int, v@, shift as int, r);
                assert(halves_rs.contains(r));
                vstd::seq_lib::to_multiset_contains(halves_rs, r);
                vstd::seq_lib::to_multiset_contains(before, r);
            } else {
                assert(crossing(ids@, shift as int, nu as int, r));
                lemma_found_at_range(ids@, shift as int, nu as int, r);
                assert(before.contains(r));
            }
            vstd::seq_lib::to_multiset_contains(ranges@, r);
            vstd::seq_lib::to_multiset_contains(before, r);
        }
    }
}

/// The ranges at the positions where `keep` holds, in their order.
pub open spec fn select(s: Seq<Range<usize>>, keep: spec_fn(int) -> bool) -> Seq<Range<usize>>
    decreases s.len(),
{
    if s.len() == 0 {
        Seq::empty()
    } else if keep(s.len() - 1) {
        select(s.drop_last(), keep).push(s.last())
    } else {
        select(s.drop_last(), keep)
    }
}

/// The range at `i` shares its start with a neighbour and is longer than it.
pub open spec fn longer_than_neighbour(s: Seq<Range<usize>>, i: int) -> bool {
    ||| (i + 1 < s.len() && s[i].start == s[i + 1].start && s[i].end > s[i + 1].end)
    ||| (i >= 1 && s[i - 1].start == s[i].start && s[i - 1].end < s[i].end)
}

/// The first half of a range.
pub open spec fn first_half(r: Range<usize>) -> Range<usize> {
    Range { start: r.start, end: (r.start + (r.end - r.start) / 2) as usize }
}

/// The second half of a range.
pub open spec fn second_half(r: Range<usize>) -> Range<usize> {
    Range { start: (r.start + (r.end - r.start) / 2) as usize, end: r.end }
}

/// Each range replaced by its two halves.
pub open spec fn halves(s: Seq<Range<usize>>) -> Seq<Range<usize>>
    decreases s.len(),
{
    if s.len() == 0 {
        Seq::empty()
    } else {
        halves(s.drop_last()).push(first_half(s.last())).push(second_half(s.last()))
    }
}

/// `r` put after every range of `s` whose start is not greater than its own.
pub open spec fn insert_by_start(s: Seq<Range<usize>>, r: Range<usize>) -> Seq<Range<usize>>
    decreases s.len(),
{
    if s.len() == 0 {
        seq![r]
    } else if r.start < s.last().start {
        insert_by_start(s.drop_last(), r).push(s.last())
    } else {
        s.push(r)
    }
}

/// The ranges sorted by their start; ranges with equal starts keep their order.
pub open spec fn sort_starts(s: Seq<Range<usize>>) -> Seq<Range<usize>>
    decreases s.len(),
{
    if s.len() == 0 {
        Seq::empty()
    } else {
        insert_by_start(sort_starts(s.drop_last()), s.last())
    }
}

/// The ranges without the ones equal to the range just before them.
pub open spec fn dedup(s: Seq<Range<usize>>) -> Seq<Range<usize>>
    decreases s.len(),
{
    if s.len() == 0 {
        Seq::empty()
    } else {
        let d = dedup(s.drop_last());
        if d.len() > 0 && d.last() == s.last() {
            d
        } else {
            d.push(s.last())
        }
    }
}

/// The values of the graphemes a range covers.
pub open spec fn values_of(ms: Seq<GraphemeModel>, r: Range<usize>) -> Seq<Seq<char>> {
    ms.subrange(r.start as int, r.end as int).map_values(|g: GraphemeModel| g.value())
}

/// Every value of `a` occurs in `b`.
pub open spec fn contained_in(a: Seq<Seq<char>>, b: Seq<Seq<char>>) -> bool {
    forall|i: int| 0 <= i < a.len() ==> b.contains(#[trigger] a[i])
}

/// The range at `i` shares its start with a neighbour and is the one of the two
/// that gives way: the first of two gives way when its values all occur in the
/// second, the second gives way otherwise.
pub open spec fn gives_way(s: Seq<Range<usize>>, ms: Seq<GraphemeModel>, i: int) -> bool {
    ||| (i + 1 < s.len() && s[i].start == s[i + 1].start && contained_in(
        values_of(ms, s[i]),
        values_of(ms, s[i + 1]),
    ))
    ||| (i >= 1 && s[i - 1].start == s[i].start && !contained_in(
        values_of(ms, s[i - 1]),
        values_of(ms, s[i]),
    ))
}

/// The first range and, after it, each range that starts where the last one kept
/// ends.
pub open spec fn chained(s: Seq<Range<usize>>) -> Seq<Range<usize>>
    decreases s.len(),
{
    if s.len() <= 1 {
        s
    } else {
        let c = chained(s.drop_last());
        if s.last().start == c.last().end {
            c.push(s.last())
        } else {
            c
        }
    }
}

/// The ranges with a range put in front from 0 to the first start, where that is
/// not 0, and one put after them from the last end to `n`, where that is short of `n`.
pub open spec fn filled(s: Seq<Range<usize>>, n: usize) -> Seq<Range<usize>> {
    let front = if s[0].start > 0 {
        seq![Range { start: 0usize, end: s[0].start }] + s
    } else {
        s
    };
    if s.last().end < n {
        front.push(Range { start: s.last().end, end: n })
    } else {
        front
    }
}

/// The ranges left after the shorter of two with a common start was kept.
pub open spec fn shortest_kept(s: Seq<Range<usize>>) -> Seq<Range<usize>> {
    select(s, |i: int| !longer_than_neighbour(s, i))
}

/// The halves, sorted by start, without repeats.
pub open spec fn sorted_halves(s: Seq<Range<usize>>) -> Seq<Range<usize>> {
    dedup(sort_starts(halves(s)))
}

/// The halves left after the ones that give way were dropped.
pub open spec fn kept_halves(s: Seq<Range<usize>>, ms: Seq<GraphemeModel>) -> Seq<Range<usize>> {
    select(s, |i: int| !gives_way(s, ms, i))
}

/// The ranges into which the graphemes are cut, from the squares found.
pub open spec fn converted_ranges(s: Seq<Range<usize>>, ms: Seq<GraphemeModel>) -> Seq<
    Range<usize>,
> {
    filled(chained(kept_halves(sorted_halves(shortest_kept(s)), ms)), ms.len() as usize)
}

/// Selecting by two tests that agree on every position gives the same ranges.
proof fn lemma_select_congruent(
    s: Seq<Range<usize>>,
    k1: spec_fn(int) -> bool,
    k2: spec_fn(int) -> bool,
)
    requires
        forall|i: int| 0 <= i < s.len() ==> #[trigger] k1(i) == k2(i),
    ensures
        select(s, k1) == select(s, k2),
    decreases s.len(),
{
    if s.len() > 0 {
        lemma_select_congruent(s.drop_last(), k1, k2);
    }
}

/// What is selected from a prefix, and one position more.
proof fn lemma_select_take(s: Seq<Range<usize>>, keep: spec_fn(int) -> bool, i: int)
    requires
        0 <= i < s.len(),
    ensures
        select(s.take(i + 1), keep) == if keep(i) {
            select(s.take(i), keep).push(s[i])
        } else {
            select(s.take(i), keep)
        },
{
    assert(s.take(i + 1).drop_last() =~= s.take(i));
}

/// Every selected range is one of the ranges; one is selected where one position
/// is kept.
proof fn lemma_select_from(s: Seq<Range<usize>>, keep: spec_fn(int) -> bool)
    ensures
        forall|k: int| 0 <= k < select(s, keep).len() ==> s.contains(#[trigger] select(s, keep)[k]),
        (exists|j: int| 0 <= j < s.len() && #[trigger] keep(j)) ==> select(s, keep).len() > 0,
    decreases s.len(),
{
    if s.len() > 0 {
        lemma_select_from(s.drop_last(), keep);
        let t = select(s.drop_last(), keep);
        assert forall|k: int| 0 <= k < select(s, keep).len() implies s.contains(
            #[trigger] select(s, keep)[k],
        ) by {
            if k < t.len() {
                let m = choose|m: int| 0 <= m < s.drop_last().len() && s.drop_last()[m] == t[k];
                assert(s[m] == t[k]);
            } else {
                assert(s[s.len() - 1] == s.last());
            }
        }
        if exists|j: int| 0 <= j < s.len() && #[trigger] keep(j) {
            let j = choose|j: int| 0 <= j < s.len() && #[trigger] keep(j);
            if j < s.len() - 1 {
                assert(0 <= j < s.drop_last().len() && keep(j));
            }
        }
    }
}

/// Every range lies within `0 ..= n` and does not end before it starts.
pub open spec fn within(s: Seq<Range<usize>>, n: int) -> bool {
    forall|k: int| 0 <= k < s.len() ==> #[trigger] s[k].start <= s[k].end && s[k].end <= n
}

/// Ranges taken from ranges that lie within `0 ..= n` lie there too.
proof fn lemma_within_from(t: Seq<Range<usize>>, s: Seq<Range<usize>>, n: int)
    requires
        within(s, n),
        forall|k: int| 0 <= k < t.len() ==> s.contains(#[trigger] t[k]),
    ensures
        within(t, n),
{
    assert forall|k: int| 0 <= k < t.len() implies #[trigger] t[k].start <= t[k].end && t[k].end
        <= n by {
        assert(s.contains(t[k]));
        let m = choose|m: int| 0 <= m < s.len() && s[m] == t[k];
        assert(s[m].start <= s[m].end);
    }
}

/// A copy of a range.
fn copy_range(r: &Range<usize>) -> (c: Range<usize>)
    ensures
        c == *r,
{
    Range { start: r.start, end: r.end }
}

/// The ranges whose mark is not set.
fn select_unmarked(s: &Vec<Range<usize>>, drop: &Vec<bool>) -> (out: Vec<Range<usize>>)
    requires
        drop@.len() == s@.len(),
    ensures
        out@ == select(s@, |i: int| !drop@[i]),
{
    let ghost keep = |i: int| !drop@[i];
    let mut out: Vec<Range<usize>> = Vec::new();
    let mut i: usize = 0;
    while i < s.len()
        invariant
            drop@.len() == s@.len(),
            i <= s@.len(),
            keep == (|i: int| !drop@[i]),
            out@ == select(s@.take(i as int), keep),
        decreases s.len() - i,
    {
        proof {
            lemma_select_take(s@, keep, i as int);
        }
        if !drop[i] {
            out.push(copy_range(&s[i]));
        }
        i = i + 1;
    }
    assert(s@.take(s@.len() as int) =~= s@);
    out
}

/// `n` marks, none of them set.
fn no_marks(n: usize) -> (v: Vec<bool>)
    ensures
        v@.len() == n,
        forall|j: int| 0 <= j < n ==> !#[trigger] v@[j],
{
    let mut v: Vec<bool> = Vec::new();
    let mut k: usize = 0;
    while k < n
        invariant
            k <= n,
            v@.len() == k,
            forall|j: int| 0 <= j < k ==> !#[trigger] v@[j],
        decreases n - k,
    {
        v.push(false);
        k = k + 1;
    }
    v
}

/// Of two neighbouring ranges with a common start, drops the longer one.
fn drop_longer(s: &Vec<Range<usize>>) -> (out: Vec<Range<usize>>)
    requires
        s@.len() >= 1,
    ensures
        out@ == shortest_kept(s@),
{
    let n = s.len();
    let mut drop = no_marks(n);
    let mut i: usize = 0;
    while i < n - 1
        invariant
            n == s@.len(),
            n >= 1,
            i <= n - 1,
            drop@.len() == n,
            forall|j: int|
                0 <= j < n ==> #[trigger] drop@[j] == ((j < i && s@[j].start == s@[j + 1].start
                    && s@[j].end > s@[j + 1].end) || (1 <= j <= i && s@[j - 1].start
                    == s@[j].start && s@[j - 1].end < s@[j].end)),
        decreases n - 1 - i,
    {
        if s[i].start == s[i + 1].start {
            if s[i].end > s[i + 1].end {
                drop.set(i, true);
            } else if s[i].end < s[i + 1].end {
                drop.set(i + 1, true);
            }
        }
        i = i + 1;
    }
    let out = select_unmarked(s, &drop);
    proof {
        lemma_select_congruent(s@, |j: int| !drop@[j], |j: int| !longer_than_neighbour(s@, j));
    }
    out
}

/// Each range replaced by its two halves.
fn split_halves(s: &Vec<Range<usize>>) -> (out: Vec<Range<usize>>)
    requires
        forall|k: int| 0 <= k < s@.len() ==> #[trigger] s@[k].start <= s@[k].end,
    ensures
        out@ == halves(s@),
{
    let mut out: Vec<Range<usize>> = Vec::new();
    let mut i: usize = 0;
    while i < s.len()
        invariant
            i <= s@.len(),
            forall|k: int| 0 <= k < s@.len() ==> #[trigger] s@[k].start <= s@[k].end,
            out@ == halves(s@.take(i as int)),
        decreases s.len() - i,
    {
        let old_start = s[i].start;
        let old_end = s[i].end;
        let new_end = old_start + (old_end - old_start) / 2;
        proof {
            assert(s@.take(i + 1).drop_last() =~= s@.take(i as int));
        }
        out.push(Range { start: old_start, end: new_end });
        out.push(Range { start: new_end, end: old_end });
        i = i + 1;
    }
    assert(s@.take(s@.len() as int) =~= s@);
    out
}

/// The halves of ranges that lie within `0 ..= n` lie there too, and there are
/// two of them for each range.
proof fn lemma_halves(s: Seq<Range<usize>>, n: int)
    requires
        within(s, n),
    ensures
        within(halves(s), n),
        halves(s).len() == 2 * s.len(),
    decreases s.len(),
{
    if s.len() > 0 {
        lemma_halves(s.drop_last(), n);
        assert(s.last() == s[s.len() - 1]);
    }
}

/// Removes the ranges equal to the range just before them.
fn dedup_ranges(s: &Vec<Range<usize>>) -> (out: Vec<Range<usize>>)
    ensures
        out@ == dedup(s@),
{
    let mut out: Vec<Range<usize>> = Vec::new();
    let mut i: usize = 0;
    while i < s.len()
        invariant
            i <= s@.len(),
            out@ == dedup(s@.take(i as int)),
        decreases s.len() - i,
    {
        proof {
            assert(s@.take(i + 1).drop_last() =~= s@.take(i as int));
        }
        let n = out.len();
        if n > 0 && out[n - 1].start == s[i].start && out[n - 1].end == s[i].end {
            assert(out@.last() == s@[i as int]);
        } else {
            out.push(copy_range(&s[i]));
        }
        i = i + 1;
    }
    assert(s@.take(s@.len() as int) =~= s@);
    out
}

/// Every range left by `dedup` is one of the ranges, and one is left of a
/// non-empty list.
proof fn lemma_dedup_from(s: Seq<Range<usize>>)
    ensures
        forall|k: int| 0 <= k < dedup(s).len() ==> s.contains(#[trigger] dedup(s)[k]),
        s.len() > 0 ==> dedup(s).len() > 0,
    decreases s.len(),
{
    if s.len() > 0 {
        lemma_dedup_from(s.drop_last());
        let d = dedup(s.drop_last());
        assert forall|k: int| 0 <= k < dedup(s).len() implies s.contains(#[trigger] dedup(s)[k]) by {
            if k < d.len() {
                let m = choose|m: int| 0 <= m < s.drop_last().len() && s.drop_last()[m] == d[k];
                assert(s[m] == d[k]);
            } else {
                assert(s[s.len() - 1] == s.last());
            }
        }
    }
}

/// Inserting by start into sorted ranges puts the range at the first position
/// whose range starts after it.
proof fn lemma_insert_by_start(s: Seq<Range<usize>>, r: Range<usize>, p: int)
    requires
        0 <= p <= s.len(),
        forall|j: int| p <= j < s.len() ==> #[trigger] s[j].start > r.start,
        p > 0 ==> s[p - 1].start <= r.start,
    ensures
        insert_by_start(s, r) == s.insert(p, r),
    decreases s.len(),
{
    if s.len() > 0 {
        if p == s.len() {
            assert(s.insert(p, r) =~= s.push(r));
        } else {
            assert(s.last() == s[s.len() - 1]);
            lemma_insert_by_start(s.drop_last(), r, p);
            assert(s.insert(p, r) =~= s.drop_last().insert(p, r).push(s.last()));
        }
    } else {
        assert(s.insert(p, r) =~= seq![r]);
    }
}

/// The values of the graphemes that `r` covers.
fn values_in(graphemes: &[Grapheme], r: &Range<usize>) -> (out: Vec<String>)
    requires
        r.start <= r.end <= graphemes@.len(),
    ensures
        strings_view(out@) == values_of(grapheme_models(graphemes@), *r),
{
    let ghost ms = grapheme_models(graphemes@);
    let mut out: Vec<String> = Vec::new();
    let mut i: usize = r.start;
    while i < r.end
        invariant
            r.start <= i <= r.end <= graphemes@.len(),
            ms == grapheme_models(graphemes@),
            strings_view(out@) == values_of(ms, Range { start: r.start, end: i }),
        decreases r.end - i,
    {
        let v = graphemes[i].value();
        proof {
            assert(ms[i as int] == graphemes@[i as int]@);
            assert(values_of(ms, Range { start: r.start, end: (i + 1) as usize }) =~= values_of(
                ms,
                Range { start: r.start, end: i },
            ).push(v@));
            assert(strings_view(out@.push(v)) =~= strings_view(out@).push(v@));
        }
        out.push(v);
        i = i + 1;
    }
    out
}

/// Whether `x` is one of the strings of `b`.
fn contains_string(b: &Vec<String>, x: &String) -> (found: bool)
    ensures
        found == strings_view(b@).contains(x@),
{
    let mut i: usize = 0;
    while i < b.len()
        invariant
            i <= b@.len(),
            forall|j: int| 0 <= j < i ==> (#[trigger] b@[j])@ != x@,
        decreases b.len() - i,
    {
        if str_eq(b[i].as_str(), x.as_str()) {
            assert(strings_view(b@)[i as int] == x@);
            return true;
        }
        i = i + 1;
    }
    assert forall|j: int| 0 <= j < strings_view(b@).len() implies #[trigger] strings_view(b@)[j]
        != x@ by {
        assert(strings_view(b@)[j] == b@[j]@);
    }
    false
}

/// Whether every string of `a` is one of the strings of `b`.
fn all_contained(a: &Vec<String>, b: &Vec<String>) -> (r: bool)
    ensures
        r == contained_in(strings_view(a@), strings_view(b@)),
{
    let mut i: usize = 0;
    while i < a.len()
        invariant
            i <= a@.len(),
            forall|j: int| 0 <= j < i ==> strings_view(b@).contains(#[trigger] strings_view(a@)[j]),
        decreases a.len() - i,
    {
        if !contains_string(b, &a[i]) {
            assert(strings_view(a@)[i as int] == a@[i as int]@);
            return false;
        }
        assert(strings_view(a@)[i as int] == a@[i as int]@);
        i = i + 1;
    }
    true
}

/// Of two neighbouring ranges with a common start, drops the one that gives way.
fn drop_contained(s: &Vec<Range<usize>>, graphemes: &[Grapheme]) -> (out: Vec<Range<usize>>)
    requires
        s@.len() >= 1,
        within(s@, graphemes@.len() as int),
    ensures
        out@ == kept_halves(s@, grapheme_models(graphemes@)),
{
    let ghost ms = grapheme_models(graphemes@);
    let n = s.len();
    let mut drop = no_marks(n);
    let mut i: usize = 0;
    while i < n - 1
        invariant
            n == s@.len(),
            n >= 1,
            i <= n - 1,
            ms == grapheme_models(graphemes@),
            within(s@, graphemes@.len() as int),
            drop@.len() == n,
            forall|j: int|
                0 <= j < n ==> #[trigger] drop@[j] == ((j < i && s@[j].start == s@[j + 1].start
                    && contained_in(values_of(ms, s@[j]), values_of(ms, s@[j + 1]))) || (1 <= j
                    <= i && s@[j - 1].start == s@[j].start && !contained_in(
                    values_of(ms, s@[j - 1]),
                    values_of(ms, s@[j]),
                ))),
        decreases n - 1 - i,
    {
        if s[i].start == s[i + 1].start {
            proof {
                assert(s@[i as int].start <= s@[i as int].end);
                assert(s@[i + 1].start <= s@[i + 1].end);
            }
            let first = values_in(graphemes, &s[i]);
            let second = values_in(graphemes, &s[i + 1]);
            if all_contained(&first, &second) {
                drop.set(i, true);
            } else {
                drop.set(i + 1, true);
            }
        }
        i = i + 1;
    }
    let out = select_unmarked(s, &drop);
    proof {
        lemma_select_congruent(s@, |j: int| !drop@[j], |j: int| !gives_way(s@, ms, j));
    }
    out
}

/// Keeps the first range and each range that starts where the last one kept ends.
fn chain_ranges(s: &Vec<Range<usize>>) -> (out: Vec<Range<usize>>)
    requires
        s@.len() >= 1,
    ensures
        out@ == chained(s@),
{
    let mut out: Vec<Range<usize>> = Vec::new();
    out.push(copy_range(&s[0]));
    let mut current_end = s[0].end;
    let mut i: usize = 1;
    proof {
        assert(s@.take(1) =~= seq![s@[0]]);
    }
    while i < s.len()
        invariant
            1 <= i <= s@.len(),
            out@.len() >= 1,
            out@ == chained(s@.take(i as int)),
            current_end == out@.last().end,
        decreases s.len() - i,
    {
        proof {
            assert(s@.take(i + 1).drop_last() =~= s@.take(i as int));
        }
        if s[i].start == current_end {
            current_end = s[i].end;
            out.push(copy_range(&s[i]));
        }
        i = i + 1;
    }
    assert(s@.take(s@.len() as int) =~= s@);
    out
}

/// A range kept by `shortest_kept` exists, searching from position `k` down.
proof fn lemma_shortest_kept_exists(s: Seq<Range<usize>>, k: int)
    requires
        0 <= k < s.len(),
        forall|j: int|
            k < j < s.len() ==> #[trigger] s[j - 1].start == s[j].start && s[j - 1].end < s[j].end,
    ensures
        exists|j: int| 0 <= j < s.len() && !longer_than_neighbour(s, j),
    decreases k,
{
    if k >= 1 && s[k - 1].start == s[k].start && s[k - 1].end < s[k].end {
        lemma_shortest_kept_exists(s, k - 1);
    } else {
        if k + 1 < s.len() {
            assert(s[k + 1 - 1].start == s[k + 1].start && s[k + 1 - 1].end < s[k + 1].end);
        }
        assert(!longer_than_neighbour(s, k));
    }
}

/// A range kept by `kept_halves` exists, searching from position `k` down.
proof fn lemma_kept_halves_exists(s: Seq<Range<usize>>, ms: Seq<GraphemeModel>, k: int)
    requires
        0 <= k < s.len(),
        forall|j: int|
            k < j < s.len() ==> #[trigger] s[j - 1].start == s[j].start && !contained_in(
                values_of(ms, s[j - 1]),
                values_of(ms, s[j]),
            ),
    ensures
        exists|j: int| 0 <= j < s.len() && !gives_way(s, ms, j),
    decreases k,
{
    if k >= 1 && s[k - 1].start == s[k].start && !contained_in(
        values_of(ms, s[k - 1]),
        values_of(ms, s[k]),
    ) {
        lemma_kept_halves_exists(s, ms, k - 1);
    } else {
        if k + 1 < s.len() {
            assert(s[k + 1 - 1].start == s[k + 1].start && !contained_in(
                values_of(ms, s[k + 1 - 1]),
                values_of(ms, s[k + 1]),
            ));
        }
        assert(!gives_way(s, ms, k));
    }
}

/// The ranges kept by `chained` are among the ranges, and there is one where
/// there are ranges.
proof fn lemma_chained_from(s: Seq<Range<usize>>)
    ensures
        forall|k: int| 0 <= k < chained(s).len() ==> s.contains(#[trigger] chained(s)[k]),
        s.len() > 0 ==> chained(s).len() > 0,
    decreases s.len(),
{
    if s.len() > 1 {
        lemma_chained_from(s.drop_last());
        let c = chained(s.drop_last());
        assert forall|k: int| 0 <= k < chained(s).len() implies s.contains(#[trigger] chained(s)[k]) by {
            if k < c.len() {
                let m = choose|m: int| 0 <= m < s.drop_last().len() && s.drop_last()[m] == c[k];
                assert(s[m] == c[k]);
            } else {
                assert(s[s.len() - 1] == s.last());
            }
        }
    } else if s.len() == 1 {
        assert forall|k: int| 0 <= k < chained(s).len() implies s.contains(#[trigger] chained(s)[k]) by {
            assert(s[k] == chained(s)[k]);
        }
    }
}

/// Cuts the graphemes into ranges from the squares found: of squares with a
/// common start the shortest is kept; each is cut into its halves; of halves
/// with a common start the one whose values are not all found in the other is
/// kept; the halves that follow on one another from the first are kept; and the
/// gaps before the first and after the last are filled with one range each.
pub fn convert_ranges(ranges: &Vec<Range<usize>>, graphemes: &[Grapheme]) -> (out: Vec<
    Range<usize>,
>)
    requires
        ranges@.len() >= 1,
        within(ranges@, graphemes@.len() as int),
    ensures
        out@ == converted_ranges(ranges@, grapheme_models(graphemes@)),
{
    let ghost ms = grapheme_models(graphemes@);
    let ghost n = graphemes@.len() as int;
    let optional_ranges = drop_longer(ranges);
    proof {
        lemma_shortest_kept_exists(ranges@, ranges@.len() - 1);
        let keep = |i: int| !longer_than_neighbour(ranges@, i);
        let j = choose|j: int| 0 <= j < ranges@.len() && !longer_than_neighbour(ranges@, j);
        assert(keep(j));
        lemma_select_from(ranges@, keep);
        lemma_within_from(optional_ranges@, ranges@, n);
    }
    let mut split_ranges = split_halves(&optional_ranges);
    proof {
        lemma_halves(optional_ranges@, n);
    }
    let ghost halves_found = split_ranges@;
    sort_by_start(&mut split_ranges);
    proof {
        assert forall|k: int| 0 <= k < split_ranges@.len() implies halves_found.contains(
            #[trigger] split_ranges@[k],
        ) by {
            vstd::seq_lib::to_multiset_contains(split_ranges@, split_ranges@[k]);
            vstd::seq_lib::to_multiset_contains(halves_found, split_ranges@[k]);
        }
        lemma_within_from(split_ranges@, halves_found, n);
        vstd::seq_lib::to_multiset_len(split_ranges@);
        vstd::seq_lib::to_multiset_len(halves_found);
    }
    let deduped = dedup_ranges(&split_ranges);
    proof {
        lemma_dedup_from(split_ranges@);
        lemma_within_from(deduped@, split_ranges@, n);
    }
    let kept = drop_contained(&deduped, graphemes);
    proof {
        lemma_kept_halves_exists(deduped@, ms, deduped@.len() - 1);
        let keep = |i: int| !gives_way(deduped@, ms, i);
        let j = choose|j: int| 0 <= j < deduped@.len() && !gives_way(deduped@, ms, j);
        assert(keep(j));
        lemma_select_from(deduped@, keep);
    }
    let mut new_ranges = chain_ranges(&kept);
    proof {
        lemma_chained_from(kept@);
    }
    let first_start = new_ranges[0].start;
    let last_end = new_ranges[new_ranges.len() - 1].end;
    let ghost chain = new_ranges@;
    if first_start > 0 {
        new_ranges.insert(0, Range { start: 0, end: first_start });
    }
    if last_end < graphemes.len() {
        new_ranges.push(Range { start: last_end, end: graphemes.len() });
    }
    proof {
        let front = if chain[0].start > 0 {
            seq![Range { start: 0usize, end: chain[0].start }] + chain
        } else {
            chain
        };
        assert(chain.insert(0, Range { start: 0usize, end: chain[0].start }) =~= seq![
            Range { start: 0usize, end: chain[0].start },
        ] + chain);
        assert(new_ranges@ =~= filled(chain, graphemes@.len() as usize));
    }
    new_ranges
}

/// The text each range covers: the values of its graphemes, one after the other.
pub open spec fn range_texts(ms: Seq<GraphemeModel>, rs: Seq<Range<usize>>) -> Seq<Seq<char>> {
    Seq::new(rs.len(), |k: int| values_of(ms, rs[k]).flatten())
}

/// The runs of equal neighbouring texts: each text of a run with the run's length.
pub open spec fn text_runs(ts: Seq<Seq<char>>) -> Seq<(Seq<char>, nat)>
    decreases ts.len(),
{
    if ts.len() == 0 {
        Seq::empty()
    } else {
        let rr = text_runs(ts.drop_last());
        if rr.len() > 0 && rr.last().0 == ts.last() {
            rr.update(rr.len() - 1, (ts.last(), rr.last().1 + 1))
        } else {
            rr.push((ts.last(), 1nat))
        }
    }
}

/// The grapheme that stands for a run: its text, repeated exactly as often as the
/// run is long (the count taken modulo 2^32).
pub open spec fn run_grapheme(run: (Seq<char>, nat), config: RegExpConfig) -> GraphemeModel {
    GraphemeModel {
        chars: seq![run.0],
        repetitions: Seq::empty(),
        min: run.1 as u32,
        max: run.1 as u32,
        config,
    }
}

/// The graphemes that stand for the runs of the texts of the ranges.
pub open spec fn run_graphemes(
    ms: Seq<GraphemeModel>,
    rs: Seq<Range<usize>>,
    config: RegExpConfig,
) -> Seq<GraphemeModel> {
    text_runs(range_texts(ms, rs)).map_values(|run: (Seq<char>, nat)| run_grapheme(run, config))
}

/// The texts and counts held as two lists, read as runs.
pub open spec fn runs_view(texts: Seq<String>, counts: Seq<usize>) -> Seq<(Seq<char>, nat)> {
    Seq::new(texts.len(), |k: int| (texts[k]@, counts[k] as nat))
}

/// Joins the values each range covers into one text, gathers equal neighbouring
/// texts into one grapheme, and repeats it exactly as often as the text came.
pub fn convert_graphemes(
    graphemes: &[Grapheme],
    ranges: &Vec<Range<usize>>,
    config: &RegExpConfig,
) -> (out: Vec<Grapheme>)
    requires
        within(ranges@, graphemes@.len() as int),
    ensures
        grapheme_models(out@) == run_graphemes(grapheme_models(graphemes@), ranges@, *config),
{
    let ghost ms = grapheme_models(graphemes@);
    let ghost ts = range_texts(ms, ranges@);
    let mut texts: Vec<String> = Vec::new();
    let mut counts: Vec<usize> = Vec::new();
    let mut i: usize = 0;
    while i < ranges.len()
        invariant
            i <= ranges@.len(),
            ms == grapheme_models(graphemes@),
            ts == range_texts(ms, ranges@),
            within(ranges@, graphemes@.len() as int),
            texts@.len() == counts@.len(),
            forall|k: int| 0 <= k < counts@.len() ==> #[trigger] counts@[k] <= i,
            runs_view(texts@, counts@) == text_runs(ts.take(i as int)),
        decreases ranges.len() - i,
    {
        proof {
            assert(ranges@[i as int].start <= ranges@[i as int].end);
        }
        let vals = values_in(graphemes, &ranges[i]);
        let text = join_strings(&vals);
        proof {
            assert(ts.take(i + 1).drop_last() =~= ts.take(i as int));
            assert(ts.take(i + 1).last() == text@);
        }
        let n = texts.len();
        if n > 0 && str_eq(texts[n - 1].as_str(), text.as_str()) {
            let c = counts[n - 1];
            counts.set(n - 1, c + 1);
            proof {
                assert(runs_view(texts@, counts@) =~= text_runs(ts.take(i + 1)));
            }
        } else {
            texts.push(text);
            counts.push(1);
            proof {
                assert(runs_view(texts@, counts@) =~= text_runs(ts.take(i + 1)));
            }
        }
        i = i + 1;
    }
    assert(ts.take(ranges@.len() as int) =~= ts);
    let ghost runs = text_runs(ts);
    let mut out: Vec<Grapheme> = Vec::new();
    let mut k: usize = 0;
    while k < texts.len()
        invariant
            k <= texts@.len(),
            texts@.len() == counts@.len(),
            runs == runs_view(texts@, counts@),
            grapheme_models(out@) == runs.take(k as int).map_values(
                |run: (Seq<char>, nat)| run_grapheme(run, *config),
            ),
        decreases texts.len() - k,
    {
        let mut chars: Vec<String> = Vec::new();
        chars.push(texts[k].clone());
        let c = counts[k] as u32;
        let g = Grapheme::new(chars, c, c, config);
        proof {
            assert(strings_view(chars@) =~= seq![texts@[k as int]@]);
            assert(g@ == run_grapheme(runs[k as int], *config));
            crate::grapheme::lemma_models_push(out@, g);
            assert(runs.take(k + 1).map_values(|run: (Seq<char>, nat)| run_grapheme(run, *config))
                =~= runs.take(k as int).map_values(
                |run: (Seq<char>, nat)| run_grapheme(run, *config),
            ).push(g@));
        }
        out.push(g);
        k = k + 1;
    }
    assert(runs.take(runs.len() as int) =~= runs);
    out
}

/// `r` covers a square of the graphemes: its first half equals its second half.
pub open spec fn is_model_square(ms: Seq<GraphemeModel>, r: Range<usize>) -> bool {
    let h = (r.end - r.start) / 2;
    &&& r.start < r.end
    &&& (r.end - r.start) % 2 == 0
    &&& r.end <= ms.len()
    &&& forall|j: int| r.start <= j < r.start + h ==> #[trigger] ms[j] == ms[j + h]
}

/// Squares of the graphemes, at least one, in the order of their starts.
pub open spec fn found_squares(rs: Seq<Range<usize>>, ms: Seq<GraphemeModel>) -> bool {
    &&& rs.len() >= 1
    &&& starts_sorted(rs)
    &&& forall|k: int| 0 <= k < rs.len() ==> is_model_square(ms, #[trigger] rs[k])
}

/// A square of the numbers is a square of the graphemes they number.
proof fn lemma_model_square(ms: Seq<GraphemeModel>, ids: Seq<usize>, r: Range<usize>)
    requires
        ids.len() == ms.len(),
        forall|i: int| 0 <= i < ids.len() ==> first_equal(ms, i, #[trigger] ids[i] as int),
        is_square(ids, 0, r),
    ensures
        is_model_square(ms, r),
{
    let h = (r.end - r.start) / 2;
    assert forall|j: int| r.start <= j < r.start + h implies #[trigger] ms[j] == ms[j + h] by {
        assert(ids[j] == ids[j + h]);
        lemma_ids_equal(ms, ids, j, j + h);
    }
}

/// Every square of the graphemes is among the ranges.
pub open spec fn all_squares_in(rs: Seq<Range<usize>>, ms: Seq<GraphemeModel>) -> bool {
    forall|r: Range<usize>| #[trigger] is_model_square(ms, r) ==> rs.contains(r)
}

/// A square of the graphemes is a square of their numbers.
proof fn lemma_ids_square(ms: Seq<GraphemeModel>, ids: Seq<usize>, r: Range<usize>)
    requires
        ids.len() == ms.len(),
        forall|i: int| 0 <= i < ids.len() ==> first_equal(ms, i, #[trigger] ids[i] as int),
        is_model_square(ms, r),
    ensures
        is_square(ids, 0, r),
{
    let h = (r.end - r.start) / 2;
    assert forall|j: int| r.start <= j < r.start + h implies #[trigger] ids[j] == ids[j + h] by {
        assert(ms[j] == ms[j + h]);
        lemma_ids_equal(ms, ids, j, j + h);
    }
}

/// A copy of each grapheme.
pub(crate) fn copy_graphemes(gs: &Vec<Grapheme>) -> (out: Vec<Grapheme>)
    ensures
        grapheme_models(out@) == grapheme_models(gs@),
{
    let mut out: Vec<Grapheme> = Vec::new();
    let mut i: usize = 0;
    while i < gs.len()
        invariant
            i <= gs@.len(),
            grapheme_models(out@) == grapheme_models(gs@.take(i as int)),
        decreases gs.len() - i,
    {
        let g = gs[i].copy();
        proof {
            crate::grapheme::lemma_models_push(out@, g);
            assert(gs@.take(i + 1) =~= gs@.take(i as int).push(gs@[i as int]));
            crate::grapheme::lemma_models_push(gs@.take(i as int), gs@[i as int]);
        }
        out.push(g);
        i = i + 1;
    }
    assert(gs@.take(gs@.len() as int) =~= gs@);
    out
}

/// Replaces the squares found among the graphemes by repeated graphemes: the
/// graphemes are cut into ranges at the squares found (see `convert_ranges`), and
/// equal neighbouring parts are gathered into one grapheme that repeats as often as
/// the part came (see `convert_graphemes`). Where no square is found, the graphemes
/// come back as they are.
pub fn conflate_repetitions(graphemes: &Vec<Grapheme>, config: &RegExpConfig) -> (out: Vec<
    Grapheme,
>)
    requires
        graphemes@.len() >= 1,
        2 * graphemes@.len() <= usize::MAX,
    ensures
        (forall|r: Range<usize>| !#[trigger] is_model_square(grapheme_models(graphemes@), r))
            ==> grapheme_models(out@) == grapheme_models(graphemes@),
        (exists|r: Range<usize>| #[trigger] is_model_square(grapheme_models(graphemes@), r))
            ==> exists|rs: Seq<Range<usize>>|
            #[trigger] found_squares(rs, grapheme_models(graphemes@)) && all_squares_in(
                rs,
                grapheme_models(graphemes@),
            ) && grapheme_models(out@) == run_graphemes(
                grapheme_models(graphemes@),
                converted_ranges(rs, grapheme_models(graphemes@)),
                *config,
            ),
        graphemes@.len() <= u32::MAX && (forall|i: int|
            0 <= i < graphemes@.len() ==> (#[trigger] graphemes@[i])@.min == 1) ==> written_out(
            grapheme_models(out@),
        ) == spelled(grapheme_models(graphemes@)),
{
    let ghost ms = grapheme_models(graphemes@);
    let ids = grapheme_ids(graphemes.as_slice());
    proof {
        assert forall|i: int| 0 <= i < ids@.len() implies ids@[i] != usize::MAX by {
            assert(first_equal(ms, i, ids@[i] as int));
        }
    }
    let mut ranges: Vec<Range<usize>> = Vec::new();
    collect_ranges(&mut ranges, ids.as_slice(), 0);
    proof {
        assert forall|r: Range<usize>| #[trigger] is_model_square(ms, r) implies ranges@.contains(r) by {
            lemma_ids_square(ms, ids@, r);
        }
    }
    if ranges.len() == 0 {
        proof {
            if forall|i: int| 0 <= i < graphemes@.len() ==> (#[trigger] graphemes@[i])@.min == 1 {
                lemma_written_out_once(ms);
            }
        }
        return copy_graphemes(graphemes);
    }
    proof {
        assert forall|k: int| 0 <= k < ranges@.len() implies is_model_square(
            ms,
            #[trigger] ranges@[k],
        ) by {
            assert(is_square(ids@, 0, ranges@[k]));
            lemma_model_square(ms, ids@, ranges@[k]);
        }
        assert(found_squares(ranges@, ms));
        assert(is_model_square(ms, ranges@[0]));
        assert(all_squares_in(ranges@, ms));
        assert forall|k: int| 0 <= k < ranges@.len() implies #[trigger] ranges@[k].start
            <= ranges@[k].end && ranges@[k].end <= graphemes@.len() by {
            assert(is_model_square(ms, ranges@[k]));
        }
    }
    let cut = convert_ranges(&ranges, graphemes.as_slice());
    proof {
        lemma_converted_tiles(ranges@, ms);
        lemma_tiles_within(cut@, ms.len() as int);
    }
    proof {
        if graphemes@.len() <= u32::MAX {
            lemma_conflation_keeps_text(ms, ranges@, *config);
        }
    }
    convert_graphemes(graphemes.as_slice(), &cut, config)
}

/// Graphemes that each occur once are written out as their values.
pub(crate) proof fn lemma_written_out_once(ms: Seq<GraphemeModel>)
    requires
        forall|i: int| 0 <= i < ms.len() ==> (#[trigger] ms[i]).min == 1,
    ensures
        written_out(ms) == spelled(ms),
{
    assert(ms.map_values(|g: GraphemeModel| repeat_text(g.value(), g.min as nat)) =~= ms.map_values(
        |g: GraphemeModel| g.value(),
    )) by {
        assert forall|i: int| 0 <= i < ms.len() implies repeat_text(#[trigger] ms[i].value(), 1)
            == ms[i].value() by {
            assert(repeat_text(ms[i].value(), 0) =~= Seq::<char>::empty());
            assert(repeat_text(ms[i].value(), 1) =~= ms[i].value());
        }
    }
}

/// The ranges follow on one another from 0 to `n`, none of them empty.
pub open spec fn tiles(p: Seq<Range<usize>>, n: int) -> bool {
    &&& p.len() >= 1
    &&& p[0].start == 0
    &&& p.last().end == n
    &&& forall|k: int| 0 <= k < p.len() ==> #[trigger] p[k].start < p[k].end
    &&& forall|k: int| 0 <= k < p.len() - 1 ==> #[trigger] p[k].end == p[k + 1].start
}

/// Every range lies within `0 ..= n` and holds one position at least.
pub open spec fn nonempty_within(s: Seq<Range<usize>>, n: int) -> bool {
    forall|k: int| 0 <= k < s.len() ==> #[trigger] s[k].start < s[k].end && s[k].end <= n
}

/// Every range lies within `0 ..= n` and holds two positions at least.
pub open spec fn long_within(s: Seq<Range<usize>>, n: int) -> bool {
    forall|k: int| 0 <= k < s.len() ==> #[trigger] s[k].start + 2 <= s[k].end && s[k].end <= n
}

/// Ranges taken from non-empty ranges within `0 ..= n` are such ranges too.
proof fn lemma_nonempty_from(t: Seq<Range<usize>>, s: Seq<Range<usize>>, n: int)
    requires
        nonempty_within(s, n),
        forall|k: int| 0 <= k < t.len() ==> s.contains(#[trigger] t[k]),
    ensures
        nonempty_within(t, n),
{
    assert forall|k: int| 0 <= k < t.len() implies #[trigger] t[k].start < t[k].end && t[k].end
        <= n by {
        let m = choose|m: int| 0 <= m < s.len() && s[m] == t[k];
        assert(s[m].start < s[m].end);
    }
}

/// Ranges taken from ranges of two positions at least are such ranges too.
proof fn lemma_long_from(t: Seq<Range<usize>>, s: Seq<Range<usize>>, n: int)
    requires
        long_within(s, n),
        forall|k: int| 0 <= k < t.len() ==> s.contains(#[trigger] t[k]),
    ensures
        long_within(t, n),
{
    assert forall|k: int| 0 <= k < t.len() implies #[trigger] t[k].start + 2 <= t[k].end && t[k].end
        <= n by {
        let m = choose|m: int| 0 <= m < s.len() && s[m] == t[k];
        assert(s[m].start + 2 <= s[m].end);
    }
}

/// The halves of ranges of two positions at least are not empty.
proof fn lemma_halves_nonempty(s: Seq<Range<usize>>, n: int)
    requires
        long_within(s, n),
    ensures
        nonempty_within(halves(s), n),
    decreases s.len(),
{
    if s.len() > 0 {
        lemma_halves_nonempty(s.drop_last(), n);
        assert(s.last() == s[s.len() - 1]);
    }
}

/// Inserting by start adds the range to the ones already there.
proof fn lemma_insert_by_start_from(s: Seq<Range<usize>>, r: Range<usize>)
    ensures
        insert_by_start(s, r).len() == s.len() + 1,
        forall|k: int|
            0 <= k < insert_by_start(s, r).len() ==> s.contains(#[trigger] insert_by_start(s, r)[k])
                || insert_by_start(s, r)[k] == r,
    decreases s.len(),
{
    if s.len() > 0 && r.start < s.last().start {
        lemma_insert_by_start_from(s.drop_last(), r);
        let t = insert_by_start(s.drop_last(), r);
        assert forall|k: int| 0 <= k < insert_by_start(s, r).len() implies s.contains(
            #[trigger] insert_by_start(s, r)[k],
        ) || insert_by_start(s, r)[k] == r by {
            if k < t.len() {
                if t[k] != r {
                    let m = choose|m: int| 0 <= m < s.drop_last().len() && s.drop_last()[m] == t[k];
                    assert(s[m] == t[k]);
                }
            } else {
                assert(s[s.len() - 1] == s.last());
            }
        }
    } else if s.len() > 0 {
        assert forall|k: int| 0 <= k < insert_by_start(s, r).len() implies s.contains(
            #[trigger] insert_by_start(s, r)[k],
        ) || insert_by_start(s, r)[k] == r by {
            if k < s.len() {
                assert(s[k] == insert_by_start(s, r)[k]);
            }
        }
    }
}

/// Sorting by start keeps the ranges and their number.
proof fn lemma_sort_starts_from(s: Seq<Range<usize>>)
    ensures
        sort_starts(s).len() == s.len(),
        forall|k: int| 0 <= k < sort_starts(s).len() ==> s.contains(#[trigger] sort_starts(s)[k]),
    decreases s.len(),
{
    if s.len() > 0 {
        lemma_sort_starts_from(s.drop_last());
        let t = sort_starts(s.drop_last());
        lemma_insert_by_start_from(t, s.last());
        assert forall|k: int| 0 <= k < sort_starts(s).len() implies s.contains(
            #[trigger] sort_starts(s)[k],
        ) by {
            let x = sort_starts(s)[k];
            if x == s.last() {
                assert(s[s.len() - 1] == x);
            } else {
                let m = choose|m: int| 0 <= m < t.len() && t[m] == x;
                assert(t.contains(t[m]));
                let q = choose|q: int| 0 <= q < s.drop_last().len() && s.drop_last()[q] == t[m];
                assert(s[q] == x);
            }
        }
    }
}

/// The ranges kept by `chained` follow on one another.
proof fn lemma_chained_follow(s: Seq<Range<usize>>)
    ensures
        s.len() > 0 ==> chained(s)[0] == s[0],
        forall|k: int|
            0 <= k < chained(s).len() - 1 ==> #[trigger] chained(s)[k].end == chained(s)[k + 1].start,
    decreases s.len(),
{
    if s.len() > 1 {
        lemma_chained_follow(s.drop_last());
        lemma_chained_from(s.drop_last());
    }
}

/// The ranges into which the graphemes are cut at squares follow on one another
/// from the first grapheme to the last, none of them empty.
pub proof fn lemma_converted_tiles(rs: Seq<Range<usize>>, ms: Seq<GraphemeModel>)
    requires
        found_squares(rs, ms),
        ms.len() <= usize::MAX,
    ensures
        tiles(converted_ranges(rs, ms), ms.len() as int),
{
    let n = ms.len() as int;
    assert forall|k: int| 0 <= k < rs.len() implies #[trigger] rs[k].start + 2 <= rs[k].end
        && rs[k].end <= n by {
        assert(is_model_square(ms, rs[k]));
    }
    let s1 = shortest_kept(rs);
    let keep1 = |i: int| !longer_than_neighbour(rs, i);
    lemma_shortest_kept_exists(rs, rs.len() - 1);
    let j1 = choose|j: int| 0 <= j < rs.len() && !longer_than_neighbour(rs, j);
    assert(keep1(j1));
    lemma_select_from(rs, keep1);
    lemma_long_from(s1, rs, n);
    let h = halves(s1);
    lemma_halves_nonempty(s1, n);
    lemma_halves(s1, n);
    let st = sort_starts(h);
    lemma_sort_starts_from(h);
    lemma_nonempty_from(st, h, n);
    let d = dedup(st);
    lemma_dedup_from(st);
    lemma_nonempty_from(d, st, n);
    let kh = kept_halves(d, ms);
    let keep2 = |i: int| !gives_way(d, ms, i);
    lemma_kept_halves_exists(d, ms, d.len() - 1);
    let j2 = choose|j: int| 0 <= j < d.len() && !gives_way(d, ms, j);
    assert(keep2(j2));
    lemma_select_from(d, keep2);
    lemma_nonempty_from(kh, d, n);
    let c = chained(kh);
    lemma_chained_from(kh);
    lemma_chained_follow(kh);
    lemma_nonempty_from(c, kh, n);
    lemma_filled_tiles(c, n);
}

/// Filling the gaps before and after ranges that follow on one another gives
/// tiles from 0 to `n`.
proof fn lemma_filled_tiles(c: Seq<Range<usize>>, n: int)
    requires
        c.len() >= 1,
        0 <= n <= usize::MAX,
        nonempty_within(c, n),
        forall|k: int| 0 <= k < c.len() - 1 ==> #[trigger] c[k].end == c[k + 1].start,
    ensures
        tiles(filled(c, n as usize), n),
{
    let p = filled(c, n as usize);
    let front = if c[0].start > 0 {
        seq![Range { start: 0usize, end: c[0].start }] + c
    } else {
        c
    };
    assert(c.last() == c[c.len() - 1]);
    assert forall|k: int| 0 <= k < front.len() - 1 implies #[trigger] front[k].end == front[k
        + 1].start by {
        if c[0].start > 0 {
            if k > 0 {
                assert(front[k] == c[k - 1]);
                assert(front[k + 1] == c[k]);
            }
        }
    }
    assert forall|k: int| 0 <= k < front.len() implies #[trigger] front[k].start < front[k].end by {
        if c[0].start > 0 && k > 0 {
            assert(front[k] == c[k - 1]);
        }
    }
    assert(front.last() == c.last());
    assert(front[0].start == 0);
    let last = c.len() - 1;
    assert(0 <= last < c.len());
    assert(c[last].start < c[last].end);
    assert(c[last].end <= n);
    assert(c.last().end <= n);
    if c.last().end < n {
        assert(p.last().end == n);
        assert(p[0] == front[0]);
        assert forall|k: int| 0 <= k < p.len() - 1 implies #[trigger] p[k].end == p[k + 1].start by {
            if k < front.len() - 1 {
                assert(p[k] == front[k]);
                assert(p[k + 1] == front[k + 1]);
            } else {
                assert(p[k] == front.last());
            }
        }
        assert forall|k: int| 0 <= k < p.len() implies #[trigger] p[k].start < p[k].end by {
            if k < front.len() {
                assert(p[k] == front[k]);
            }
        }
    } else {
        assert(p == front);
        assert(p.last().end == n);
    }
}

/// Tiles lie within `0 ..= n`.
proof fn lemma_tiles_within(p: Seq<Range<usize>>, n: int)
    requires
        tiles(p, n),
    ensures
        within(p, n),
        p.len() <= n,
{
    lemma_tiles_grow(p, n, p.len() - 1);
    assert(p.last() == p[p.len() - 1]);
    assert forall|k: int| 0 <= k < p.len() implies #[trigger] p[k].start <= p[k].end && p[k].end
        <= n by {
        lemma_tiles_grow(p, n, k);
        lemma_tiles_below(p, n, k);
    }
}

/// The end of the tile at `k` is `k + 1` at least.
proof fn lemma_tiles_grow(p: Seq<Range<usize>>, n: int, k: int)
    requires
        tiles(p, n),
        0 <= k < p.len(),
    ensures
        p[k].end >= k + 1,
    decreases k,
{
    assert(p[k].start < p[k].end);
    if k > 0 {
        lemma_tiles_grow(p, n, k - 1);
        assert(p[k - 1].end == p[k].start);
    }
}

/// The end of the tile at `k` is not beyond `n`.
proof fn lemma_tiles_below(p: Seq<Range<usize>>, n: int, k: int)
    requires
        tiles(p, n),
        0 <= k < p.len(),
    ensures
        p[k].end <= n,
    decreases p.len() - k,
{
    if k < p.len() - 1 {
        lemma_tiles_below(p, n, k + 1);
        assert(p[k].end == p[k + 1].start);
        assert(p[k + 1].start < p[k + 1].end);
    } else {
        assert(p.last() == p[k]);
    }
}

/// `t` written `m` times, one after the other.
pub open spec fn repeat_text(t: Seq<char>, m: nat) -> Seq<char>
    decreases m,
{
    if m == 0 {
        Seq::empty()
    } else {
        repeat_text(t, (m - 1) as nat) + t
    }
}

/// The values of the graphemes, one after the other.
pub open spec fn spelled(ms: Seq<GraphemeModel>) -> Seq<char> {
    ms.map_values(|g: GraphemeModel| g.value()).flatten()
}

/// The text that graphemes stand for: each grapheme's value written as often as
/// it repeats at least.
pub open spec fn written_out(gs: Seq<GraphemeModel>) -> Seq<char> {
    gs.map_values(|g: GraphemeModel| repeat_text(g.value(), g.min as nat)).flatten()
}

/// The texts of tiles, one after the other, spell the graphemes up to the end of
/// the tile at `k`.
proof fn lemma_tiles_prefix(ms: Seq<GraphemeModel>, p: Seq<Range<usize>>, k: int)
    requires
        tiles(p, ms.len() as int),
        0 <= k < p.len(),
    ensures
        p[k].end <= ms.len(),
        range_texts(ms, p.take(k + 1)).flatten() == spelled(ms.subrange(0, p[k].end as int)),
    decreases k,
{
    lemma_tiles_within(p, ms.len() as int);
    assert(p[k].start <= p[k].end && p[k].end <= ms.len());
    let f = |g: GraphemeModel| g.value();
    if k == 0 {
        assert(range_texts(ms, p.take(1)) =~= seq![values_of(ms, p[0]).flatten()]);
        seq![values_of(ms, p[0]).flatten()].lemma_flatten_one_element();
        assert(ms.subrange(0, p[0].end as int).map_values(f) =~= values_of(ms, p[0]));
    } else {
        lemma_tiles_prefix(ms, p, k - 1);
        assert(p[k - 1].end == p[k].start);
        assert(range_texts(ms, p.take(k + 1)) =~= range_texts(ms, p.take(k)).push(
            values_of(ms, p[k]).flatten(),
        ));
        range_texts(ms, p.take(k)).lemma_flatten_push(values_of(ms, p[k]).flatten());
        let a = ms.subrange(0, p[k].start as int).map_values(f);
        let b = values_of(ms, p[k]);
        assert(ms.subrange(0, p[k].end as int).map_values(f) =~= a + b);
        vstd::seq_lib::lemma_flatten_concat(a, b);
    }
}

/// The texts of tiles that cover the graphemes, one after the other, spell them.
proof fn lemma_tiles_text(ms: Seq<GraphemeModel>, p: Seq<Range<usize>>)
    requires
        tiles(p, ms.len() as int),
    ensures
        range_texts(ms, p).flatten() == spelled(ms),
{
    lemma_tiles_prefix(ms, p, p.len() - 1);
    assert(p.take(p.len() as int) =~= p);
    assert(p.last() == p[p.len() - 1]);
    assert(ms.subrange(0, ms.len() as int) =~= ms);
}

/// Runs of equal texts, each written out as often as it is long, spell the texts;
/// no run is longer than the texts are many.
proof fn lemma_runs_text(ts: Seq<Seq<char>>)
    ensures
        text_runs(ts).map_values(|r: (Seq<char>, nat)| repeat_text(r.0, r.1)).flatten()
            == ts.flatten(),
        forall|k: int| 0 <= k < text_runs(ts).len() ==> #[trigger] text_runs(ts)[k].1 <= ts.len(),
    decreases ts.len(),
{
    let f = |r: (Seq<char>, nat)| repeat_text(r.0, r.1);
    if ts.len() > 0 {
        let rest = ts.drop_last();
        lemma_runs_text(rest);
        let rr = text_runs(rest);
        let mr = rr.map_values(f);
        assert(ts =~= rest.push(ts.last()));
        rest.lemma_flatten_push(ts.last());
        if rr.len() > 0 && rr.last().0 == ts.last() {
            let c = rr.last().1;
            assert(repeat_text(ts.last(), c + 1) == repeat_text(ts.last(), c) + ts.last());
            assert(text_runs(ts).map_values(f) =~= mr.drop_last().push(
                repeat_text(ts.last(), c) + ts.last(),
            ));
            mr.drop_last().lemma_flatten_push(repeat_text(ts.last(), c) + ts.last());
            mr.drop_last().lemma_flatten_push(repeat_text(ts.last(), c));
            assert(mr =~= mr.drop_last().push(repeat_text(ts.last(), c)));
            assert(rr.last() == rr[rr.len() - 1]);
        } else {
            assert(repeat_text(ts.last(), 0) =~= Seq::<char>::empty());
            assert(repeat_text(ts.last(), 1) =~= ts.last());
            assert(text_runs(ts).map_values(f) =~= mr.push(ts.last()));
            mr.lemma_flatten_push(ts.last());
        }
    }
}

/// Cutting graphemes at the squares found and gathering equal neighbouring parts
/// keeps the text: the graphemes that come out, each written out as often as it
/// repeats, spell the values of the graphemes that went in.
pub proof fn lemma_conflation_keeps_text(
    ms: Seq<GraphemeModel>,
    rs: Seq<Range<usize>>,
    config: RegExpConfig,
)
    requires
        found_squares(rs, ms),
        ms.len() <= u32::MAX,
    ensures
        written_out(run_graphemes(ms, converted_ranges(rs, ms), config)) == spelled(ms),
{
    let p = converted_ranges(rs, ms);
    lemma_converted_tiles(rs, ms);
    lemma_tiles_within(p, ms.len() as int);
    lemma_tiles_text(ms, p);
    let ts = range_texts(ms, p);
    lemma_runs_text(ts);
    let runs = text_runs(ts);
    let f = |r: (Seq<char>, nat)| repeat_text(r.0, r.1);
    let gs = run_graphemes(ms, p, config);
    assert(gs.map_values(|g: GraphemeModel| repeat_text(g.value(), g.min as nat)) =~= runs.map_values(f))
        by {
        assert forall|k: int| 0 <= k < runs.len() implies #[trigger] gs[k].value() == runs[k].0
            && gs[k].min == runs[k].1 by {
            assert(runs[k].1 <= ts.len());
            assert(gs[k] == run_grapheme(runs[k], config));
            seq![runs[k].0].lemma_flatten_one_element();
        }
    }
}

/// Graphemes one after another are written out, and spelled, part after part.
pub(crate) proof fn lemma_written_out_concat(a: Seq<GraphemeModel>, b: Seq<GraphemeModel>)
    ensures
        written_out(a + b) == written_out(a) + written_out(b),
        spelled(a + b) == spelled(a) + spelled(b),
{
    let f = |g: GraphemeModel| repeat_text(g.value(), g.min as nat);
    let v = |g: GraphemeModel| g.value();
    assert((a + b).map_values(f) =~= a.map_values(f) + b.map_values(f));
    assert((a + b).map_values(v) =~= a.map_values(v) + b.map_values(v));
    vstd::seq_lib::lemma_flatten_concat(a.map_values(f), b.map_values(f));
    vstd::seq_lib::lemma_flatten_concat(a.map_values(v), b.map_values(v));
}

/// One grapheme is written out as its value repeated as often as it repeats at least.
pub(crate) proof fn lemma_written_out_one(g: GraphemeModel)
    ensures
        written_out(seq![g]) == repeat_text(g.value(), g.min as nat),
{
    let f = |g: GraphemeModel| repeat_text(g.value(), g.min as nat);
    assert(seq![g].map_values(f) =~= seq![repeat_text(g.value(), g.min as nat)]);
    seq![repeat_text(g.value(), g.min as nat)].lemma_flatten_one_element();
}

} // verus!
