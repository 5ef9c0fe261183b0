use vstd::prelude::*;

use crate::free_list::{apart_from, covers, end, in_region, region_ok, well_formed, within, FreeRegion};
use crate::NODE_SIZE;

verus! {

/// A live allocation at `a` of `n` bytes, inside the heap `[lo, hi)`.
pub open spec fn live_ok(a: int, n: int, lo: int, hi: int) -> bool {
    &&& lo <= a
    &&& a + n <= hi
    &&& n > 0
    &&& a % NODE_SIZE as int == 0
    &&& n % NODE_SIZE as int == 0
    &&& a + n <= usize::MAX
}

/// Byte `x` belongs to a live allocation (address to length).
pub open spec fn in_live(live: Map<int, int>, x: int) -> bool {
    exists|a: int| #[trigger] live.contains_key(a) && a <= x < a + live[a]
}

/// The heap `[lo, hi)` is split exactly between the free regions `s` and the live
/// allocations: the free list is well formed, everything lies in the heap, no two
/// pieces share a byte, and every byte is free or allocated.
pub open spec fn heap_ok(s: Seq<FreeRegion>, live: Map<int, int>, lo: int, hi: int) -> bool {
    &&& well_formed(s)
    &&& within(s, lo, hi)
    &&& 0 <= lo <= hi
    &&& forall|a: int| #[trigger] live.contains_key(a) ==> live_ok(a, live[a], lo, hi)
    &&& forall|a: int, b: int|
        #![trigger live.contains_key(a), live.contains_key(b)]
        live.contains_key(a) && live.contains_key(b) && a != b ==> a + live[a] <= b || b + live[b] <= a
    &&& forall|a: int| #[trigger] live.contains_key(a) ==> apart_from(s, a, live[a])
    &&& forall|x: int| lo <= x < hi ==> #[trigger] covers(s, x) || in_live(live, x)
}

/// A well-formed list whose bytes all lie in `[lo, hi)` lies in `[lo, hi)`.
pub proof fn lemma_within_from_covers(s: Seq<FreeRegion>, lo: int, hi: int)
    requires
        well_formed(s),
        forall|x: int| #[trigger] covers(s, x) ==> lo <= x < hi,
    ensures
        within(s, lo, hi),
{
    assert forall|i: int| 0 <= i < s.len() implies lo <= (#[trigger] s[i]).base && end(s[i]) <= hi by {
        assert(region_ok(s[i]));
        assert(in_region(s[i], s[i].base as int));
        assert(covers(s, s[i].base as int));
        assert(in_region(s[i], end(s[i]) - 1));
        assert(covers(s, end(s[i]) - 1));
    }
}

/// A range that shares no byte with the regions of `s` shares none with a list
/// whose bytes are all bytes of `s`.
pub proof fn lemma_apart_from_covers(s2: Seq<FreeRegion>, s: Seq<FreeRegion>, p: int, n: int)
    requires
        well_formed(s2),
        apart_from(s, p, n),
        n > 0,
        forall|x: int| #[trigger] covers(s2, x) ==> covers(s, x),
    ensures
        apart_from(s2, p, n),
{
    assert forall|j: int| 0 <= j < s2.len() implies end(#[trigger] s2[j]) <= p || p + n <= s2[j].base by {
        if !(end(s2[j]) <= p || p + n <= s2[j].base) {
            let x = if s2[j].base > p { s2[j].base as int } else { p };
            assert(region_ok(s2[j]));
            assert(in_region(s2[j], x));
            assert(covers(s2, x));
            let i = choose|i: int| 0 <= i < s.len() && in_region(#[trigger] s[i], x);
            assert(end(s[i]) <= p || p + n <= s[i].base);
        }
    }
}

/// Taking `[a, a + n)` out of region `k` for a new live allocation keeps the heap split.
pub proof fn lemma_heap_take(
    s: Seq<FreeRegion>,
    s2: Seq<FreeRegion>,
    live: Map<int, int>,
    lo: int,
    hi: int,
    k: int,
    a: int,
    n: int,
)
    requires
        heap_ok(s, live, lo, hi),
        well_formed(s2),
        forall|x: int| #[trigger] covers(s2, x) <==> (covers(s, x) && !(a <= x < a + n)),
        0 <= k < s.len(),
        s[k].base <= a,
        a + n <= end(s[k]),
        n > 0,
        a % NODE_SIZE as int == 0,
        n % NODE_SIZE as int == 0,
    ensures
        !live.contains_key(a),
        heap_ok(s2, live.insert(a, n), lo, hi),
{
    let live2 = live.insert(a, n);
    assert(region_ok(s[k]));
    assert(lo <= s[k].base && end(s[k]) <= hi);
    if live.contains_key(a) {
        assert(apart_from(s, a, live[a]));
        assert(end(s[k]) <= a || a + live[a] <= s[k].base);
    }
    assert forall|x: int| #[trigger] covers(s2, x) implies lo <= x < hi by {
        let i = choose|i: int| 0 <= i < s.len() && in_region(#[trigger] s[i], x);
    }
    lemma_within_from_covers(s2, lo, hi);
    assert forall|b: int| #[trigger] live2.contains_key(b) implies apart_from(s2, b, live2[b]) by {
        if b == a {
            assert forall|j: int| 0 <= j < s2.len() implies end(#[trigger] s2[j]) <= a || a + n
                <= s2[j].base by {
                if !(end(s2[j]) <= a || a + n <= s2[j].base) {
                    let x = if s2[j].base > a { s2[j].base as int } else { a };
                    assert(region_ok(s2[j]));
                    assert(in_region(s2[j], x));
                    assert(covers(s2, x));
                }
            }
        } else {
            assert(live_ok(b, live[b], lo, hi));
            lemma_apart_from_covers(s2, s, b, live[b]);
        }
    }
    assert forall|b: int, c: int|
        #![trigger live2.contains_key(b), live2.contains_key(c)]
        live2.contains_key(b) && live2.contains_key(c) && b != c implies b + live2[b] <= c || c
        + live2[c] <= b by {
        if b == a {
            assert(apart_from(s, c, live[c]));
            assert(end(s[k]) <= c || c + live[c] <= s[k].base);
        } else if c == a {
            assert(apart_from(s, b, live[b]));
            assert(end(s[k]) <= b || b + live[b] <= s[k].base);
        }
    }
    assert forall|x: int| lo <= x < hi implies #[trigger] covers(s2, x) || in_live(live2, x) by {
        if a <= x < a + n {
            assert(live2.contains_key(a));
        } else if !covers(s, x) {
            let b = choose|b: int| #[trigger] live.contains_key(b) && b <= x < b + live[b];
            assert(live2.contains_key(b));
        }
    }
}

/// Giving the live allocation at `p` back to the free list keeps the heap split.
pub proof fn lemma_heap_give_back(
    s: Seq<FreeRegion>,
    s2: Seq<FreeRegion>,
    live: Map<int, int>,
    lo: int,
    hi: int,
    p: int,
)
    requires
        heap_ok(s, live, lo, hi),
        live.contains_key(p),
        well_formed(s2),
        forall|x: int| #[trigger] covers(s2, x) <==> (covers(s, x) || p <= x < p + live[p]),
    ensures
        heap_ok(s2, live.remove(p), lo, hi),
{
    let n = live[p];
    let live2 = live.remove(p);
    assert(live_ok(p, n, lo, hi));
    assert forall|x: int| #[trigger] covers(s2, x) implies lo <= x < hi by {
        if covers(s, x) {
            let i = choose|i: int| 0 <= i < s.len() && in_region(#[trigger] s[i], x);
        }
    }
    lemma_within_from_covers(s2, lo, hi);
    assert forall|b: int| #[trigger] live2.contains_key(b) implies apart_from(s2, b, live2[b]) by {
        assert(live.contains_key(b) && b != p);
        assert(p + n <= b || b + live[b] <= p);
        assert forall|j: int| 0 <= j < s2.len() implies end(#[trigger] s2[j]) <= b || b + live[b]
            <= s2[j].base by {
            if !(end(s2[j]) <= b || b + live[b] <= s2[j].base) {
                let x = if s2[j].base > b { s2[j].base as int } else { b };
                assert(region_ok(s2[j]));
                assert(in_region(s2[j], x));
                assert(covers(s2, x));
                if covers(s, x) {
                    let i = choose|i: int| 0 <= i < s.len() && in_region(#[trigger] s[i], x);
                    assert(apart_from(s, b, live[b]));
                    assert(end(s[i]) <= b || b + live[b] <= s[i].base);
                }
            }
        }
    }
    assert forall|x: int| lo <= x < hi implies #[trigger] covers(s2, x) || in_live(live2, x) by {
        if !covers(s, x) && !(p <= x < p + n) {
            let b = choose|b: int| #[trigger] live.contains_key(b) && b <= x < b + live[b];
            assert(live2.contains_key(b));
        }
    }
}

/// Appending `[hi, hi2)` to the heap and to the free list keeps the heap split.
pub proof fn lemma_heap_extend(
    s: Seq<FreeRegion>,
    s2: Seq<FreeRegion>,
    live: Map<int, int>,
    lo: int,
    hi: int,
    hi2: int,
)
    requires
        heap_ok(s, live, lo, hi),
        hi <= hi2,
        well_formed(s2),
        forall|x: int| #[trigger] covers(s2, x) <==> (covers(s, x) || hi <= x < hi2),
    ensures
        heap_ok(s2, live, lo, hi2),
{
    assert forall|x: int| #[trigger] covers(s2, x) implies lo <= x < hi2 by {
        if covers(s, x) {
            let i = choose|i: int| 0 <= i < s.len() && in_region(#[trigger] s[i], x);
        }
    }
    lemma_within_from_covers(s2, lo, hi2);
    assert forall|b: int| #[trigger] live.contains_key(b) implies apart_from(s2, b, live[b]) by {
        assert(live_ok(b, live[b], lo, hi));
        assert forall|j: int| 0 <= j < s2.len() implies end(#[trigger] s2[j]) <= b || b + live[b]
            <= s2[j].base by {
            if !(end(s2[j]) <= b || b + live[b] <= s2[j].base) {
                let x = if s2[j].base > b { s2[j].base as int } else { b };
                assert(region_ok(s2[j]));
                assert(in_region(s2[j], x));
                assert(covers(s2, x));
                let i = choose|i: int| 0 <= i < s.len() && in_region(#[trigger] s[i], x);
                assert(apart_from(s, b, live[b]));
                assert(end(s[i]) <= b || b + live[b] <= s[i].base);
            }
        }
    }
    assert forall|x: int| lo <= x < hi2 implies #[trigger] covers(s2, x) || in_live(live, x) by {
        if x < hi && !covers(s, x) {
            assert(in_live(live, x));
        }
    }
}

} // verus!
