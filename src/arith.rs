use vstd::arithmetic::div_mod::*;
use vstd::arithmetic::power2::is_pow2;
use vstd::prelude::*;

use crate::{NODE_SIZE, PAGE_SIZE};

verus! {

/// The largest multiple of `m` that is not above `v`.
pub open spec fn floor_to(v: int, m: int) -> int {
    v - v % m
}

/// The smallest multiple of `m` that is not below `v`.
pub open spec fn ceil_to(v: int, m: int) -> int {
    floor_to(v + m - 1, m)
}

/// Bytes taken by a request of `size` bytes: at least one header, in whole headers.
pub open spec fn full_size_spec(size: int) -> int {
    ceil_to(if size > NODE_SIZE { size } else { NODE_SIZE as int }, NODE_SIZE as int)
}

/// Alignment honoured for a request aligned to `align`: never below the header's.
pub open spec fn effective_align(align: int) -> int {
    if align > NODE_SIZE { align } else { NODE_SIZE as int }
}

/// An alignment this library accepts: a power of two no larger than a page.
pub open spec fn valid_align(align: int) -> bool {
    is_pow2(align) && align <= PAGE_SIZE
}

/// `floor_to(v, m)` is a multiple of `m` in `(v - m, v]`.
pub proof fn lemma_floor_to(v: int, m: int)
    requires
        v >= 0,
        m > 0,
    ensures
        floor_to(v, m) % m == 0,
        floor_to(v, m) <= v,
        v - m < floor_to(v, m),
        0 <= floor_to(v, m),
{
    lemma_fundamental_div_mod(v, m);
    lemma_mod_bound(v, m);
    lemma_mod_multiples_basic(v / m, m);
    assert(floor_to(v, m) == m * (v / m));
    assert((v / m) * m == m * (v / m)) by (nonlinear_arith);
}

/// No multiple of `m` lies strictly between `floor_to(v, m)` and `v`.
pub proof fn lemma_floor_to_greatest(v: int, m: int, y: int)
    requires
        v >= 0,
        m > 0,
        y >= 0,
        y % m == 0,
        y <= v,
    ensures
        y <= floor_to(v, m),
{
    lemma_fundamental_div_mod(v, m);
    lemma_fundamental_div_mod(y, m);
    lemma_div_is_ordered(y, v, m);
    let a = y / m;
    let b = v / m;
    assert(a * m <= b * m) by (nonlinear_arith)
        requires
            a <= b,
            m > 0,
    ;
    assert(y == m * a);
    assert(floor_to(v, m) == m * b);
    assert(m * a == a * m && m * b == b * m) by (nonlinear_arith);
}

/// `ceil_to(v, m)` is a multiple of `m`, not below `v`, and not above any multiple of
/// `m` that is not below `v`.
pub proof fn lemma_ceil_to_least(v: int, m: int, y: int)
    requires
        v >= 0,
        m > 0,
        y % m == 0,
        v <= y,
    ensures
        ceil_to(v, m) % m == 0,
        v <= ceil_to(v, m) <= y,
{
    let c = ceil_to(v, m);
    lemma_floor_to(v + m - 1, m);
    lemma_mod_add_sub(c, y, m);
    lemma_fundamental_div_mod(c - y, m);
    let q = (c - y) / m;
    assert(q <= 0) by (nonlinear_arith)
        requires
            c - y == m * q,
            c - y <= m - 1,
            m > 0,
    ;
    assert(m * q <= 0) by (nonlinear_arith)
        requires
            q <= 0,
            m > 0,
    ;
}

/// The only multiple of `m` in `[v, v + m)` is `ceil_to(v, m)`.
pub proof fn lemma_ceil_to_unique(v: int, m: int, c: int)
    requires
        v >= 0,
        m > 0,
        c % m == 0,
        v <= c < v + m,
    ensures
        c == ceil_to(v, m),
{
    lemma_ceil_to_least(v, m, c);
    lemma_floor_to_greatest(v + m - 1, m, c);
}

/// Sums and differences of multiples of `m` are multiples of `m`.
pub proof fn lemma_mod_add_sub(a: int, b: int, m: int)
    requires
        m > 0,
        a % m == 0,
        b % m == 0,
    ensures
        (a + b) % m == 0,
        (a - b) % m == 0,
{
    lemma_fundamental_div_mod(a, m);
    lemma_fundamental_div_mod(b, m);
    let qa = a / m;
    let qb = b / m;
    assert(a + b == m * (qa + qb)) by (nonlinear_arith)
        requires
            a == m * qa,
            b == m * qb,
    ;
    assert(a - b == m * (qa - qb)) by (nonlinear_arith)
        requires
            a == m * qa,
            b == m * qb,
    ;
    lemma_mod_multiples_basic(qa + qb, m);
    lemma_mod_multiples_basic(qa - qb, m);
    assert((qa + qb) * m == m * (qa + qb) && (qa - qb) * m == m * (qa - qb)) by (nonlinear_arith);
}

/// A multiple of `b` is a multiple of every divisor `a` of `b`.
pub proof fn lemma_mod_trans(x: int, a: int, b: int)
    requires
        a > 0,
        b > 0,
        x % b == 0,
        b % a == 0,
    ensures
        x % a == 0,
{
    lemma_fundamental_div_mod(x, b);
    lemma_fundamental_div_mod(b, a);
    let q = x / b;
    let r = b / a;
    assert(x == (q * r) * a) by (nonlinear_arith)
        requires
            x == b * q,
            b == a * r,
    ;
    lemma_mod_multiples_basic(q * r, a);
}

/// Of two powers of two, the larger is a multiple of the smaller.
pub proof fn lemma_pow2_divides(a: int, b: int)
    requires
        is_pow2(a),
        is_pow2(b),
        a <= b,
    ensures
        b % a == 0,
    decreases a,
{
    reveal(is_pow2);
    if a == 1 {
        lemma_mod_multiples_basic(b, 1);
    } else {
        assert(b != 1);
        lemma_pow2_divides(a / 2, b / 2);
        lemma_fundamental_div_mod(b / 2, a / 2);
        let q = (b / 2) / (a / 2);
        assert(b == (a / 2 * 2) * q) by (nonlinear_arith)
            requires
                b / 2 == (a / 2) * q,
                b % 2 == 0,
        ;
        assert(a / 2 * 2 == a);
        lemma_mod_multiples_basic(q, a);
        assert(a * q == q * a) by (nonlinear_arith);
    }
}

/// The facts about the header and page sizes that the allocators rely on.
pub proof fn lemma_sizes()
    ensures
        NODE_SIZE == 8 || NODE_SIZE == 16,
        is_pow2(NODE_SIZE as int),
        is_pow2(PAGE_SIZE as int),
        PAGE_SIZE % NODE_SIZE == 0,
{
    reveal_with_fuel(is_pow2, 18);
}

/// The effective alignment is a power of two that the header size, the requested
/// alignment and the page size all fit.
pub proof fn lemma_effective_align(align: int)
    requires
        valid_align(align),
    ensures
        align > 0,
        is_pow2(effective_align(align)),
        effective_align(align) % NODE_SIZE as int == 0,
        effective_align(align) % align == 0,
        PAGE_SIZE as int % effective_align(align) == 0,
        NODE_SIZE <= effective_align(align) <= PAGE_SIZE,
{
    lemma_sizes();
    let e = effective_align(align);
    lemma_pow2_divides(NODE_SIZE as int, e);
    reveal(is_pow2);
    assert(align > 0);
    if align <= NODE_SIZE {
        lemma_pow2_divides(align, NODE_SIZE as int);
    } else {
        lemma_mod_self_0(align);
    }
    lemma_pow2_divides(e, PAGE_SIZE as int);
}

/// A request's full size is whole headers, at least one, and less than two headers
/// above the request.
pub proof fn lemma_full_size(size: int)
    requires
        size >= 0,
    ensures
        full_size_spec(size) % NODE_SIZE as int == 0,
        full_size_spec(size) >= size,
        full_size_spec(size) >= NODE_SIZE,
        full_size_spec(size) < size + 2 * NODE_SIZE,
{
    lemma_sizes();
    let g = if size > NODE_SIZE { size } else { NODE_SIZE as int };
    lemma_floor_to(g + NODE_SIZE - 1, NODE_SIZE as int);
}

/// Rounds `value` down to a multiple of `increment`.
pub fn multiple_below(value: usize, increment: usize) -> (r: usize)
    requires
        increment > 0,
    ensures
        r == floor_to(value as int, increment as int),
        r % increment == 0,
        r <= value,
        value - increment < r,
{
    proof {
        lemma_floor_to(value as int, increment as int);
    }
    value - value % increment
}

/// Rounds `value` up to a multiple of `increment`.
pub fn round_up(value: usize, increment: usize) -> (r: usize)
    requires
        increment > 0,
        value + increment - 1 <= usize::MAX,
    ensures
        r == ceil_to(value as int, increment as int),
        r % increment == 0,
        value <= r,
        r < value + increment,
{
    proof {
        lemma_floor_to(value + increment - 1, increment as int);
    }
    multiple_below(value + (increment - 1), increment)
}

/// Bytes that a request of `size` bytes takes from the heap.
pub fn full_size(size: usize) -> (r: usize)
    requires
        size + 2 * NODE_SIZE <= usize::MAX,
    ensures
        r == full_size_spec(size as int),
        r % NODE_SIZE == 0,
        r >= size,
        r >= NODE_SIZE,
        r < size + 2 * NODE_SIZE,
{
    proof {
        lemma_sizes();
        lemma_full_size(size as int);
    }
    let grown = if size > NODE_SIZE { size } else { NODE_SIZE };
    round_up(grown, NODE_SIZE)
}

} // verus!
