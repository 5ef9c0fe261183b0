use vstd::prelude::*;

use crate::arith::{floor_to, multiple_below};
use crate::NODE_SIZE;

verus! {

/// A free run of heap bytes: `size` bytes starting at address `base`.
#[derive(Clone, Copy, Debug, PartialEq, Eq, Structural)]
pub struct FreeRegion {
    pub size: usize,
    pub base: usize,
}

/// One past the last byte of a region.
pub open spec fn end(r: FreeRegion) -> int {
    r.base + r.size
}

/// Byte `x` lies in `r`.
pub open spec fn in_region(r: FreeRegion, x: int) -> bool {
    r.base <= x < end(r)
}

/// A region that can hold its own header: header-aligned, whole headers, not empty.
pub open spec fn region_ok(r: FreeRegion) -> bool {
    &&& r.base % NODE_SIZE == 0
    &&& r.size % NODE_SIZE == 0
    &&& r.size > 0
    &&& end(r) <= usize::MAX
}

/// Regions in strictly descending address order, with a gap between any two.
pub open spec fn descending_apart(s: Seq<FreeRegion>) -> bool {
    forall|i: int, j: int| 0 <= i < j < s.len() ==> end(#[trigger] s[j]) < (#[trigger] s[i]).base
}

/// The free-list invariant: every region sound, descending, never touching another.
pub open spec fn well_formed(s: Seq<FreeRegion>) -> bool {
    &&& forall|i: int| 0 <= i < s.len() ==> region_ok(#[trigger] s[i])
    &&& descending_apart(s)
}

/// Byte `x` is free according to `s`.
pub open spec fn covers(s: Seq<FreeRegion>, x: int) -> bool {
    exists|i: int| 0 <= i < s.len() && in_region(#[trigger] s[i], x)
}

/// Every region lies in `[lo, hi)`.
pub open spec fn within(s: Seq<FreeRegion>, lo: int, hi: int) -> bool {
    forall|i: int| 0 <= i < s.len() ==> lo <= (#[trigger] s[i]).base && end(s[i]) <= hi
}

/// The range `[p, p + n)` shares no byte with any region of `s`.
pub open spec fn apart_from(s: Seq<FreeRegion>, p: int, n: int) -> bool {
    forall|i: int| 0 <= i < s.len() ==> end(#[trigger] s[i]) <= p || p + n <= s[i].base
}

/// Where `need` bytes aligned to `align` go in `r`: as high as they fit.
pub open spec fn carve_position(r: FreeRegion, need: int, align: int) -> int {
    floor_to(end(r) - need, align)
}

/// `need` bytes aligned to `align` fit in `r`.
pub open spec fn fits(r: FreeRegion, need: int, align: int) -> bool {
    need <= end(r) && carve_position(r, need, align) >= r.base
}

/// `k` is the first region of `s`, in list order, where the request fits.
pub open spec fn first_fit(s: Seq<FreeRegion>, need: int, align: int, k: int) -> bool {
    &&& 0 <= k < s.len()
    &&& fits(s[k], need, align)
    &&& forall|j: int| 0 <= j < k ==> !fits(#[trigger] s[j], need, align)
}

/// `s` with its `c` regions from index `k` on replaced by `m`.
pub open spec fn splice(s: Seq<FreeRegion>, k: int, c: int, m: Seq<FreeRegion>) -> Seq<FreeRegion> {
    s.subrange(0, k) + m + s.subrange(k + c, s.len() as int)
}

/// Sum of the sizes of the regions.
pub open spec fn total(s: Seq<FreeRegion>) -> int
    decreases s.len(),
{
    if s.len() == 0 {
        0
    } else {
        s[0].size + total(s.subrange(1, s.len() as int))
    }
}

/// Replacing a run of a well-formed list by regions that lie strictly between the
/// run's neighbours keeps the list well formed.
pub proof fn lemma_splice_well_formed(s: Seq<FreeRegion>, k: int, c: int, m: Seq<FreeRegion>)
    requires
        well_formed(s),
        well_formed(m),
        0 <= k <= k + c <= s.len(),
        k > 0 ==> forall|t: int| 0 <= t < m.len() ==> end(#[trigger] m[t]) < s[k - 1].base,
        k + c < s.len() ==> forall|t: int| 0 <= t < m.len() ==> end(s[k + c]) < (#[trigger] m[t]).base,
    ensures
        well_formed(splice(s, k, c, m)),
        splice(s, k, c, m).len() == s.len() - c + m.len(),
{
    let r = splice(s, k, c, m);
    let ml = m.len() as int;
    assert(r.len() == s.len() - c + ml);
    assert forall|i: int| 0 <= i < r.len() implies region_ok(#[trigger] r[i]) by {
        if i < k {
            assert(r[i] == s[i]);
        } else if i < k + ml {
            assert(r[i] == m[i - k]);
        } else {
            assert(r[i] == s[i - ml + c]);
        }
    }
    assert forall|i: int, j: int| 0 <= i < j < r.len() implies end(#[trigger] r[j]) < (
    #[trigger] r[i]).base by {
        if j < k {
            assert(r[i] == s[i] && r[j] == s[j]);
        } else if j < k + ml {
            assert(r[j] == m[j - k]);
            if i < k {
                assert(r[i] == s[i]);
                assert(end(m[j - k]) < s[k - 1].base);
                if i < k - 1 {
                    assert(end(s[k - 1]) < s[i].base);
                    assert(region_ok(s[k - 1]));
                }
            } else {
                assert(r[i] == m[i - k]);
            }
        } else {
            assert(r[j] == s[j - ml + c]);
            let jj = j - ml + c;
            if i < k {
                assert(r[i] == s[i]);
            } else if i < k + ml {
                assert(r[i] == m[i - k]);
                assert(end(s[k + c]) < m[i - k].base);
                if jj > k + c {
                    assert(end(s[jj]) < s[k + c].base);
                    assert(region_ok(s[k + c]));
                }
            } else {
                assert(r[i] == s[i - ml + c]);
            }
        }
    }
}

/// A byte is free after a splice exactly when it lies in a kept region or in an
/// inserted one.
pub proof fn lemma_splice_covers(s: Seq<FreeRegion>, k: int, c: int, m: Seq<FreeRegion>, x: int)
    requires
        0 <= k <= k + c <= s.len(),
    ensures
        covers(splice(s, k, c, m), x) <==> (covers(m, x) || exists|i: int|
            (0 <= i < k || k + c <= i < s.len()) && in_region(#[trigger] s[i], x)),
{
    let r = splice(s, k, c, m);
    let ml = m.len() as int;
    if covers(r, x) {
        let i = choose|i: int| 0 <= i < r.len() && in_region(#[trigger] r[i], x);
        if i < k {
            assert(r[i] == s[i]);
        } else if i < k + ml {
            assert(r[i] == m[i - k]);
        } else {
            assert(r[i] == s[i - ml + c]);
        }
    }
    if covers(m, x) {
        let t = choose|t: int| 0 <= t < m.len() && in_region(#[trigger] m[t], x);
        assert(r[k + t] == m[t]);
    }
    if exists|i: int| (0 <= i < k || k + c <= i < s.len()) && in_region(#[trigger] s[i], x) {
        let i = choose|i: int| (0 <= i < k || k + c <= i < s.len()) && in_region(#[trigger] s[i], x);
        if i < k {
            assert(r[i] == s[i]);
        } else {
            assert(r[i - c + ml] == s[i]);
        }
    }
}

/// In a well-formed list a byte lies in at most one region.
pub proof fn lemma_unique_region(s: Seq<FreeRegion>, i: int, j: int, x: int)
    requires
        well_formed(s),
        0 <= i < s.len(),
        0 <= j < s.len(),
        in_region(s[i], x),
        in_region(s[j], x),
    ensures
        i == j,
{
    if i < j {
        assert(end(s[j]) < s[i].base);
    } else if j < i {
        assert(end(s[i]) < s[j].base);
    }
}

/// In a well-formed list no region touches or overlaps another: neighbours in the
/// list leave a gap, and no region ends where another begins.
pub proof fn lemma_apart_and_disjoint(s: Seq<FreeRegion>)
    requires
        well_formed(s),
    ensures
        forall|i: int| 0 <= i && i + 1 < s.len() ==> end(#[trigger] s[i + 1]) < s[i].base,
        forall|i: int, j: int|
            0 <= i < s.len() && 0 <= j < s.len() ==> end(#[trigger] s[i]) != (#[trigger] s[j]).base,
        forall|i: int, j: int|
            0 <= i < s.len() && 0 <= j < s.len() && i != j ==> end(#[trigger] s[i]) <= (
            #[trigger] s[j]).base || end(s[j]) <= s[i].base,
{
    assert forall|i: int| 0 <= i && i + 1 < s.len() implies end(#[trigger] s[i + 1]) < s[i].base by {
        assert(end(s[i + 1]) < s[i].base);
    }
    assert forall|i: int, j: int| 0 <= i < s.len() && 0 <= j < s.len() implies end(
        #[trigger] s[i],
    ) != (#[trigger] s[j]).base by {
        assert(region_ok(s[i]));
        if j < i {
            assert(end(s[i]) < s[j].base);
        } else if i < j {
            assert(end(s[j]) < s[i].base);
            assert(region_ok(s[j]));
        }
    }
    assert forall|i: int, j: int|
        0 <= i < s.len() && 0 <= j < s.len() && i != j implies end(#[trigger] s[i]) <= (
        #[trigger] s[j]).base || end(s[j]) <= s[i].base by {
        if j < i {
            assert(end(s[i]) < s[j].base);
        } else {
            assert(end(s[j]) < s[i].base);
        }
    }
}

/// The regions of a well-formed list inside `[lo, hi)` add up to at most `hi - lo` bytes.
pub proof fn lemma_total_bound(s: Seq<FreeRegion>, lo: int, hi: int)
    requires
        well_formed(s),
        within(s, lo, hi),
        lo <= hi,
    ensures
        total(s) <= hi - lo,
    decreases s.len(),
{
    if s.len() > 0 {
        let rest = s.subrange(1, s.len() as int);
        assert forall|i: int| 0 <= i < rest.len() implies region_ok(#[trigger] rest[i]) by {
            assert(rest[i] == s[i + 1]);
        }
        assert forall|i: int, j: int| 0 <= i < j < rest.len() implies end(#[trigger] rest[j]) < (
        #[trigger] rest[i]).base by {
            assert(rest[i] == s[i + 1] && rest[j] == s[j + 1]);
        }
        assert forall|i: int| 0 <= i < rest.len() implies lo <= (#[trigger] rest[i]).base && end(
            rest[i],
        ) <= s[0].base by {
            assert(rest[i] == s[i + 1]);
            assert(end(s[i + 1]) < s[0].base);
        }
        lemma_total_bound(rest, lo, s[0].base as int);
    }
}

/// A well-formed list inside `[lo, hi)` that leaves no byte of it out is the single
/// region `[lo, hi)`, or empty when the range is.
pub proof fn lemma_single_region(s: Seq<FreeRegion>, lo: int, hi: int)
    requires
        well_formed(s),
        within(s, lo, hi),
        lo <= hi,
        forall|x: int| lo <= x < hi ==> #[trigger] covers(s, x),
    ensures
        lo == hi ==> s.len() == 0,
        lo < hi ==> s == seq![FreeRegion { size: (hi - lo) as usize, base: lo as usize }],
{
    if s.len() > 0 {
        assert(region_ok(s[0]));
    }
    if lo < hi {
        assert(covers(s, lo));
        if s.len() >= 2 {
            let x = end(s[1]);
            assert(end(s[1]) < s[0].base);
            assert(covers(s, x));
            let i = choose|i: int| 0 <= i < s.len() && in_region(#[trigger] s[i], x);
            if i >= 2 {
                assert(end(s[i]) < s[1].base);
                assert(region_ok(s[1]));
            }
        }
        assert(s.len() == 1);
        assert(covers(s, hi - 1));
        let j = choose|j: int| 0 <= j < s.len() && in_region(#[trigger] s[j], hi - 1);
        let j2 = choose|j: int| 0 <= j < s.len() && in_region(#[trigger] s[j], lo);
        assert(j == 0 && j2 == 0);
        assert(s =~= seq![FreeRegion { size: (hi - lo) as usize, base: lo as usize }]);
    }
}

/// Of a well-formed list, the regions after the first cover exactly the bytes below
/// the first region's base.
proof fn lemma_rest_covers(s: Seq<FreeRegion>, x: int)
    requires
        well_formed(s),
        s.len() > 0,
    ensures
        covers(s.subrange(1, s.len() as int), x) <==> (covers(s, x) && x < s[0].base),
{
    let rest = s.subrange(1, s.len() as int);
    if covers(rest, x) {
        let i = choose|i: int| 0 <= i < rest.len() && in_region(#[trigger] rest[i], x);
        assert(rest[i] == s[i + 1]);
        assert(end(s[i + 1]) < s[0].base);
    }
    if covers(s, x) && x < s[0].base {
        let i = choose|i: int| 0 <= i < s.len() && in_region(#[trigger] s[i], x);
        assert(i != 0);
        assert(rest[i - 1] == s[i]);
    }
}

/// A well-formed list is determined by the bytes it covers: two well-formed lists
/// that free the same bytes are equal.
pub proof fn lemma_canonical(s: Seq<FreeRegion>, t: Seq<FreeRegion>)
    requires
        well_formed(s),
        well_formed(t),
        forall|x: int|
            #![trigger covers(s, x)]
            #![trigger covers(t, x)]
            covers(s, x) <==> covers(t, x),
    ensures
        s == t,
    decreases s.len(),
{
    if s.len() == 0 {
        if t.len() > 0 {
            assert(region_ok(t[0]));
            assert(in_region(t[0], t[0].base as int));
            assert(covers(t, t[0].base as int));
        }
        assert(s =~= t);
    } else if t.len() == 0 {
        assert(region_ok(s[0]));
        assert(in_region(s[0], s[0].base as int));
        assert(covers(s, s[0].base as int));
    } else {
        lemma_canonical_head(s, t);
        lemma_canonical_head(t, s);
        let rs = s.subrange(1, s.len() as int);
        let rt = t.subrange(1, t.len() as int);
        assert forall|i: int| 0 <= i < rs.len() implies region_ok(#[trigger] rs[i]) by {
            assert(rs[i] == s[i + 1]);
        }
        assert forall|i: int, j: int| 0 <= i < j < rs.len() implies end(#[trigger] rs[j]) < (
        #[trigger] rs[i]).base by {
            assert(rs[i] == s[i + 1] && rs[j] == s[j + 1]);
        }
        assert forall|i: int| 0 <= i < rt.len() implies region_ok(#[trigger] rt[i]) by {
            assert(rt[i] == t[i + 1]);
        }
        assert forall|i: int, j: int| 0 <= i < j < rt.len() implies end(#[trigger] rt[j]) < (
        #[trigger] rt[i]).base by {
            assert(rt[i] == t[i + 1] && rt[j] == t[j + 1]);
        }
        assert forall|x: int|
            #![trigger covers(rs, x)]
            #![trigger covers(rt, x)]
            covers(rs, x) <==> covers(rt, x) by {
            lemma_rest_covers(s, x);
            lemma_rest_covers(t, x);
        }
        lemma_canonical(rs, rt);
        assert(s =~= seq![s[0]] + rs);
        assert(t =~= seq![t[0]] + rt);
    }
}

/// Two non-empty well-formed lists that free the same bytes: the first region of `s`
/// lies inside the first region of `t`.
proof fn lemma_canonical_head(s: Seq<FreeRegion>, t: Seq<FreeRegion>)
    requires
        well_formed(s),
        well_formed(t),
        s.len() > 0,
        t.len() > 0,
        forall|x: int|
            #![trigger covers(s, x)]
            #![trigger covers(t, x)]
            covers(s, x) <==> covers(t, x),
    ensures
        t[0].base <= s[0].base,
        end(s[0]) <= end(t[0]),
{
    assert(region_ok(s[0]));
    assert(region_ok(t[0]));
    // The top byte of `s` lies in some region of `t`, which cannot end below the
    // top of `t`'s first region.
    let top = end(s[0]) - 1;
    assert(in_region(s[0], top));
    assert(covers(s, top));
    assert(covers(t, top));
    let i = choose|i: int| 0 <= i < t.len() && in_region(#[trigger] t[i], top);
    if i > 0 {
        assert(end(t[i]) < t[0].base);
        assert(in_region(t[0], t[0].base as int));
        assert(covers(t, t[0].base as int));
        assert(covers(s, t[0].base as int));
        let j = choose|j: int| 0 <= j < s.len() && in_region(#[trigger] s[j], t[0].base as int);
        if j > 0 {
            assert(end(s[j]) < s[0].base);
        }
    }
    assert(i == 0);
    // Were `t`'s first region to start above the one of `s`, the byte just below it
    // would be free in `s` and not in `t`.
    if t[0].base > s[0].base {
        let x = t[0].base - 1;
        assert(in_region(s[0], x));
        assert(covers(s, x));
        assert(covers(t, x));
        let j = choose|j: int| 0 <= j < t.len() && in_region(#[trigger] t[j], x);
        if j > 0 {
            assert(end(t[j]) < t[0].base);
        }
    }
}

/// Membership in lists of up to two regions, spelled out.
pub proof fn lemma_covers_short(t: Seq<FreeRegion>, x: int)
    ensures
        t.len() == 0 ==> !covers(t, x),
        t.len() == 1 ==> (covers(t, x) <==> in_region(t[0], x)),
        t.len() == 2 ==> (covers(t, x) <==> in_region(t[0], x) || in_region(t[1], x)),
{
    if t.len() == 1 && in_region(t[0], x) {
        assert(covers(t, x));
    }
    if t.len() == 2 && in_region(t[1], x) {
        assert(covers(t, x));
    }
    if t.len() == 2 && in_region(t[0], x) {
        assert(covers(t, x));
    }
}

/// Replacing a run of regions by `m`, where `m` holds the run's bytes and the range
/// `[p, p + n)`, frees exactly that range.
pub proof fn lemma_splice_adds(s: Seq<FreeRegion>, k: int, c: int, m: Seq<FreeRegion>, p: int, n: int)
    requires
        0 <= k <= k + c <= s.len(),
        forall|x: int| #[trigger]
            covers(m, x) <==> (covers(s.subrange(k, k + c), x) || p <= x < p + n),
    ensures
        forall|x: int| #[trigger]
            covers(splice(s, k, c, m), x) <==> (covers(s, x) || p <= x < p + n),
{
    assert forall|x: int| #[trigger]
        covers(splice(s, k, c, m), x) <==> (covers(s, x) || p <= x < p + n) by {
        lemma_splice_covers(s, k, c, m, x);
        let sub = s.subrange(k, k + c);
        assert(covers(m, x) <==> (covers(sub, x) || p <= x < p + n));
        if covers(sub, x) {
            let t = choose|t: int| 0 <= t < sub.len() && in_region(#[trigger] sub[t], x);
            assert(sub[t] == s[k + t]);
        }
        if covers(s, x) {
            let i = choose|i: int| 0 <= i < s.len() && in_region(#[trigger] s[i], x);
            if k <= i < k + c {
                assert(sub[i - k] == s[i]);
            }
        }
    }
}

/// One step of an insertion: the run of `c` regions at `k` becomes `m`, which holds
/// the run's bytes and `[p, p + n)` and fits between the run's neighbours.
pub proof fn lemma_insert_step(s: Seq<FreeRegion>, k: int, c: int, m: Seq<FreeRegion>, p: int, n: int)
    requires
        well_formed(s),
        well_formed(m),
        0 <= k <= k + c <= s.len(),
        k > 0 ==> forall|t: int| 0 <= t < m.len() ==> end(#[trigger] m[t]) < s[k - 1].base,
        k + c < s.len() ==> forall|t: int| 0 <= t < m.len() ==> end(s[k + c]) < (#[trigger] m[t]).base,
        forall|x: int| #[trigger]
            covers(m, x) <==> (covers(s.subrange(k, k + c), x) || p <= x < p + n),
    ensures
        well_formed(splice(s, k, c, m)),
        forall|x: int| #[trigger]
            covers(splice(s, k, c, m), x) <==> (covers(s, x) || p <= x < p + n),
{
    lemma_splice_well_formed(s, k, c, m);
    lemma_splice_adds(s, k, c, m, p, n);
}

/// The new range becomes a region of its own at index `k`, between regions it
/// does not touch.
proof fn lemma_insert_alone(s: Seq<FreeRegion>, k: int, fresh: FreeRegion)
    requires
        well_formed(s),
        region_ok(fresh),
        0 <= k <= s.len(),
        k > 0 ==> end(fresh) < s[k - 1].base,
        k < s.len() ==> end(s[k]) < fresh.base,
    ensures
        well_formed(splice(s, k, 0, seq![fresh])),
        forall|x: int| #[trigger]
            covers(splice(s, k, 0, seq![fresh]), x) <==> (covers(s, x) || in_region(fresh, x)),
{
    let m = seq![fresh];
    assert forall|x: int| #[trigger]
        covers(m, x) <==> (covers(s.subrange(k, k), x) || fresh.base <= x < end(fresh)) by {
        lemma_covers_short(m, x);
        lemma_covers_short(s.subrange(k, k), x);
    }
    lemma_insert_step(s, k, 0, m, fresh.base as int, fresh.size as int);
}

/// The new range `[p, p + n)` replaces the region at `k`, which it extends or which
/// extends it.
proof fn lemma_insert_grow(s: Seq<FreeRegion>, k: int, grown: FreeRegion, p: int, n: int)
    requires
        well_formed(s),
        region_ok(grown),
        0 <= k < s.len(),
        (s[k].base == grown.base && end(s[k]) == p && end(grown) == p + n) || (grown.base == p
            && s[k].base == p + n && end(grown) == end(s[k])),
        n > 0,
        k > 0 ==> end(grown) < s[k - 1].base,
        k + 1 < s.len() ==> end(s[k + 1]) < grown.base,
    ensures
        well_formed(splice(s, k, 1, seq![grown])),
        forall|x: int| #[trigger]
            covers(splice(s, k, 1, seq![grown]), x) <==> (covers(s, x) || p <= x < p + n),
{
    let m = seq![grown];
    assert forall|x: int| #[trigger]
        covers(m, x) <==> (covers(s.subrange(k, k + 1), x) || p <= x < p + n) by {
        lemma_covers_short(m, x);
        lemma_covers_short(s.subrange(k, k + 1), x);
    }
    lemma_insert_step(s, k, 1, m, p, n);
}

/// The new range `[p, p + n)` closes the gap between the regions at `k` and `k + 1`.
proof fn lemma_insert_bridge(s: Seq<FreeRegion>, k: int, merged: FreeRegion, p: int, n: int)
    requires
        well_formed(s),
        region_ok(merged),
        0 <= k,
        k + 1 < s.len(),
        s[k].base == p + n,
        end(s[k + 1]) == p,
        merged.base == s[k + 1].base,
        end(merged) == end(s[k]),
    ensures
        well_formed(splice(s, k, 2, seq![merged])),
        forall|x: int| #[trigger]
            covers(splice(s, k, 2, seq![merged]), x) <==> (covers(s, x) || p <= x < p + n),
{
    let m = seq![merged];
    if k > 0 {
        assert(end(s[k]) < s[k - 1].base);
    }
    if k + 2 < s.len() {
        assert(end(s[k + 2]) < s[k + 1].base);
    }
    assert forall|x: int| #[trigger]
        covers(m, x) <==> (covers(s.subrange(k, k + 2), x) || p <= x < p + n) by {
        lemma_covers_short(m, x);
        lemma_covers_short(s.subrange(k, k + 2), x);
    }
    lemma_insert_step(s, k, 2, m, p, n);
}

/// Gives the range `[p, p + n)` back to the list, merging it with the free regions
/// it touches above and below, so that the list stays sorted and coalesced.
pub fn insert_region(list: &mut Vec<FreeRegion>, p: usize, n: usize)
    requires
        well_formed(old(list)@),
        p % NODE_SIZE == 0,
        n % NODE_SIZE == 0,
        n > 0,
        p + n <= usize::MAX,
        apart_from(old(list)@, p as int, n as int),
    ensures
        well_formed(final(list)@),
        forall|x: int| #[trigger]
            covers(final(list)@, x) <==> (covers(old(list)@, x) || p <= x < p + n),
{
    let ghost s = list@;
    let after_new = p + n;
    let fresh = FreeRegion { size: n, base: p };
    let mut i: usize = 0;
    loop
        invariant
            list@ == s,
            s == old(list)@,
            well_formed(s),
            apart_from(s, p as int, n as int),
            after_new == p + n,
            fresh == (FreeRegion { size: n, base: p }),
            region_ok(fresh),
            n > 0,
            i <= s.len(),
            forall|j: int| 0 <= j < i ==> (#[trigger] s[j]).base > after_new,
        decreases s.len() - i,
    {
        if i == list.len() {
            list.push(fresh);
            proof {
                assert(list@ =~= splice(s, i as int, 0, seq![fresh]));
                if i > 0 {
                    assert(s[i - 1].base > after_new);
                }
                lemma_insert_alone(s, i as int, fresh);
            }
            return;
        }
        let cur = list[i];
        proof {
            assert(region_ok(s[i as int]));
            if i > 0 {
                assert(end(s[i as int]) < s[i - 1].base);
            }
            if i + 1 < s.len() {
                assert(end(s[i + 1]) < s[i as int].base);
                assert(region_ok(s[i + 1]));
            }
        }
        if cur.base == after_new {
            let new_size = n + cur.size;
            proof {
                crate::arith::lemma_mod_add_sub(n as int, cur.size as int, NODE_SIZE as int);
            }
            if i + 1 < list.len() && list[i + 1].base + list[i + 1].size == p {
                let below = list[i + 1];
                let merged = FreeRegion { size: below.size + new_size, base: below.base };
                proof {
                    crate::arith::lemma_mod_add_sub(below.size as int, new_size as int, NODE_SIZE as int);
                }
                list[i + 1] = merged;
                list.remove(i);
                proof {
                    assert(list@ =~= splice(s, i as int, 2, seq![merged]));
                    lemma_insert_bridge(s, i as int, merged, p as int, n as int);
                }
                return;
            }
            let grown = FreeRegion { size: new_size, base: p };
            list[i] = grown;
            proof {
                assert(list@ =~= splice(s, i as int, 1, seq![grown]));
                if i + 1 < s.len() {
                    assert(end(s[i + 1]) <= p || p + n <= s[i + 1].base);
                }
                lemma_insert_grow(s, i as int, grown, p as int, n as int);
            }
            return;
        }
        if cur.base < p {
            assert(end(s[i as int]) <= p);
            if cur.base + cur.size == p {
                let grown = FreeRegion { size: cur.size + n, base: cur.base };
                proof {
                    crate::arith::lemma_mod_add_sub(cur.size as int, n as int, NODE_SIZE as int);
                }
                list[i] = grown;
                proof {
                    assert(list@ =~= splice(s, i as int, 1, seq![grown]));
                    if i > 0 {
                        assert(s[i - 1].base > after_new);
                    }
                    lemma_insert_grow(s, i as int, grown, p as int, n as int);
                }
                return;
            }
            list.insert(i, fresh);
            proof {
                assert(list@ =~= splice(s, i as int, 0, seq![fresh]));
                if i > 0 {
                    assert(s[i - 1].base > after_new);
                }
                lemma_insert_alone(s, i as int, fresh);
            }
            return;
        }
        proof {
            assert(s[i as int].base >= after_new);
        }
        i = i + 1;
    }
}

/// Replacing region `k` by pieces that hold its bytes but for `[p, p + n)` keeps the
/// list well formed and frees exactly the bytes it freed before, but for that range.
proof fn lemma_carve_pieces(s: Seq<FreeRegion>, k: int, m: Seq<FreeRegion>, p: int, n: int)
    requires
        well_formed(s),
        well_formed(m),
        0 <= k < s.len(),
        s[k].base <= p,
        p + n <= end(s[k]),
        forall|t: int|
            0 <= t < m.len() ==> s[k].base <= (#[trigger] m[t]).base && end(m[t]) <= end(s[k]),
        forall|x: int| #[trigger] covers(m, x) <==> (in_region(s[k], x) && !(p <= x < p + n)),
    ensures
        well_formed(splice(s, k, 1, m)),
        forall|x: int| #[trigger]
            covers(splice(s, k, 1, m), x) <==> (covers(s, x) && !(p <= x < p + n)),
{
    if k > 0 {
        assert(end(s[k]) < s[k - 1].base);
    }
    if k + 1 < s.len() {
        assert(end(s[k + 1]) < s[k].base);
    }
    lemma_splice_well_formed(s, k, 1, m);
    assert forall|x: int| #[trigger]
        covers(splice(s, k, 1, m), x) <==> (covers(s, x) && !(p <= x < p + n)) by {
        lemma_splice_covers(s, k, 1, m, x);
        if covers(s, x) {
            let i = choose|i: int| 0 <= i < s.len() && in_region(#[trigger] s[i], x);
            if i != k && in_region(s[k], x) {
                lemma_unique_region(s, i, k, x);
            }
        }
        if exists|i: int| (0 <= i < k || k + 1 <= i < s.len()) && in_region(#[trigger] s[i], x) {
            let i = choose|i: int| (0 <= i < k || k + 1 <= i < s.len()) && in_region(#[trigger] s[i], x);
            if in_region(s[k], x) {
                lemma_unique_region(s, i, k, x);
            }
        }
    }
}

/// Finds the first region, in list order, that can hold `need` bytes aligned to `align`.
pub fn find_fit(list: &Vec<FreeRegion>, need: usize, align: usize) -> (r: Option<usize>)
    requires
        well_formed(list@),
        align > 0,
    ensures
        match r {
            Some(k) => first_fit(list@, need as int, align as int, k as int),
            None => forall|j: int| 0 <= j < list@.len() ==> !fits(#[trigger] list@[j], need as int, align as int),
        },
{
    let mut i: usize = 0;
    while i < list.len()
        invariant
            well_formed(list@),
            align > 0,
            i <= list@.len(),
            forall|j: int| 0 <= j < i ==> !fits(#[trigger] list@[j], need as int, align as int),
        decreases list@.len() - i,
    {
        let r = list[i];
        assert(region_ok(list@[i as int]));
        let end_of_block = r.base + r.size;
        if need <= end_of_block {
            let position = multiple_below(end_of_block - need, align);
            if position >= r.base {
                return Some(i);
            }
        }
        i = i + 1;
    }
    None
}

/// Takes `need` bytes from the tail of region `k`, at the highest offset aligned to
/// `align`, and returns their address. What stays free on either side stays listed.
pub fn carve(list: &mut Vec<FreeRegion>, k: usize, need: usize, align: usize) -> (p: usize)
    requires
        well_formed(old(list)@),
        0 <= k < old(list)@.len(),
        fits(old(list)@[k as int], need as int, align as int),
        need > 0,
        need % NODE_SIZE == 0,
        align > 0,
        align % NODE_SIZE == 0,
    ensures
        p == carve_position(old(list)@[k as int], need as int, align as int),
        p % align == 0,
        old(list)@[k as int].base <= p,
        p + need <= end(old(list)@[k as int]),
        well_formed(final(list)@),
        forall|x: int| #[trigger]
            covers(final(list)@, x) <==> (covers(old(list)@, x) && !(p <= x < p + need)),
{
    let ghost s = list@;
    let r = list[k];
    assert(region_ok(s[k as int]));
    let end_of_block = r.base + r.size;
    let position = multiple_below(end_of_block - need, align);
    proof {
        crate::arith::lemma_mod_trans(position as int, NODE_SIZE as int, align as int);
        crate::arith::lemma_mod_add_sub(position as int, need as int, NODE_SIZE as int);
        crate::arith::lemma_mod_add_sub(r.base as int, r.size as int, NODE_SIZE as int);
        crate::arith::lemma_mod_add_sub(end_of_block as int, (position + need) as int, NODE_SIZE as int);
        crate::arith::lemma_mod_add_sub(position as int, r.base as int, NODE_SIZE as int);
    }
    let end_of_used = position + need;
    let tail = FreeRegion { base: end_of_used, size: end_of_block - end_of_used };
    let head = FreeRegion { base: r.base, size: position - r.base };
    let ghost m: Seq<FreeRegion> = if end_of_used < end_of_block {
        if position == r.base {
            seq![tail]
        } else {
            seq![tail, head]
        }
    } else {
        if position == r.base {
            seq![]
        } else {
            seq![head]
        }
    };
    if end_of_used < end_of_block {
        list.insert(k, tail);
        let len = list.len();
        assert(k + 1 < len);
        if position == r.base {
            list.remove(k + 1);
        } else {
            list[k + 1] = head;
        }
    } else {
        if position == r.base {
            list.remove(k);
        } else {
            list[k] = head;
        }
    }
    proof {
        assert(list@ =~= splice(s, k as int, 1, m));
        assert(well_formed(m));
        assert forall|x: int| #[trigger]
            covers(m, x) <==> (in_region(s[k as int], x) && !(position <= x < position + need)) by {
            lemma_covers_short(m, x);
        }
        lemma_carve_pieces(s, k as int, m, position as int, need as int);
    }
    position
}

} // verus!
