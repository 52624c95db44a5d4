//! Bitboards as sets of squares: the spec vocabulary (`has_sq`, `set_mask`,
//! `count_below`) and the lemmas that connect bit operations to it.
use vstd::prelude::*;

verus! {

/// Square `s` (numbered `0..64`) is set in the bitboard `bb`.
pub open spec fn has_sq(bb: u64, s: int) -> bool {
    0 <= s < 64 && (bb >> (s as u64)) & 1u64 == 1u64
}

/// The bits `0..n` set (for `n < 64`).
pub open spec fn low_mask(n: u64) -> u64 {
    ((1u64 << n) - 1) as u64
}

/// The bitboard whose squares below `n` are exactly those satisfying `f`.
pub open spec fn set_mask(f: spec_fn(int) -> bool, n: int) -> u64
    decreases n,
{
    if n <= 0 {
        0u64
    } else {
        let prev = set_mask(f, n - 1);
        if f(n - 1) {
            prev | (1u64 << ((n - 1) as u64))
        } else {
            prev
        }
    }
}

/// Number of squares below `n` set in `bb`.
pub open spec fn count_below(bb: u64, n: int) -> nat
    decreases n,
{
    if n <= 0 {
        0
    } else {
        count_below(bb, n - 1) + if has_sq(bb, n - 1) {
            1nat
        } else {
            0nat
        }
    }
}

/// Number of squares set in `bb` (what `u64::count_ones` returns).
pub open spec fn popcount(bb: u64) -> nat {
    count_below(bb, 64)
}

proof fn bit_or(a: u64, b: u64, i: u64)
    requires
        i < 64,
    ensures
        ((a | b) >> i) & 1u64 == 1u64 <==> ((a >> i) & 1u64 == 1u64 || (b >> i) & 1u64 == 1u64),
{
    assert(((a | b) >> i) & 1u64 == 1u64 <==> ((a >> i) & 1u64 == 1u64 || (b >> i) & 1u64 == 1u64))
        by (bit_vector)
        requires
            i < 64,
    ;
}

proof fn bit_and(a: u64, b: u64, i: u64)
    requires
        i < 64,
    ensures
        ((a & b) >> i) & 1u64 == 1u64 <==> ((a >> i) & 1u64 == 1u64 && (b >> i) & 1u64 == 1u64),
{
    assert(((a & b) >> i) & 1u64 == 1u64 <==> ((a >> i) & 1u64 == 1u64 && (b >> i) & 1u64 == 1u64))
        by (bit_vector)
        requires
            i < 64,
    ;
}

proof fn bit_not(a: u64, i: u64)
    requires
        i < 64,
    ensures
        ((!a) >> i) & 1u64 == 1u64 <==> !((a >> i) & 1u64 == 1u64),
{
    assert(((!a) >> i) & 1u64 == 1u64 <==> !((a >> i) & 1u64 == 1u64)) by (bit_vector)
        requires
            i < 64,
    ;
}

proof fn bit_single(i: u64, j: u64)
    requires
        i < 64,
        j < 64,
    ensures
        ((1u64 << j) >> i) & 1u64 == 1u64 <==> i == j,
{
    assert(((1u64 << j) >> i) & 1u64 == 1u64 <==> i == j) by (bit_vector)
        requires
            i < 64,
            j < 64,
    ;
}

proof fn bit_zero(i: u64)
    requires
        i < 64,
    ensures
        !((0u64 >> i) & 1u64 == 1u64),
{
    assert(!((0u64 >> i) & 1u64 == 1u64)) by (bit_vector);
}

/// Bits of a union.
pub proof fn lemma_has_sq_or(a: u64, b: u64)
    ensures
        forall|s: int| #[trigger] has_sq(a | b, s) <==> (has_sq(a, s) || has_sq(b, s)),
{
    assert forall|s: int| #[trigger] has_sq(a | b, s) <==> (has_sq(a, s) || has_sq(b, s)) by {
        if 0 <= s < 64 {
            bit_or(a, b, s as u64);
        }
    }
}

/// Bits of an intersection.
pub proof fn lemma_has_sq_and(a: u64, b: u64)
    ensures
        forall|s: int| #[trigger] has_sq(a & b, s) <==> (has_sq(a, s) && has_sq(b, s)),
{
    assert forall|s: int| #[trigger] has_sq(a & b, s) <==> (has_sq(a, s) && has_sq(b, s)) by {
        if 0 <= s < 64 {
            bit_and(a, b, s as u64);
        }
    }
}

/// Bits of a complement.
pub proof fn lemma_has_sq_not(a: u64)
    ensures
        forall|s: int| 0 <= s < 64 ==> (#[trigger] has_sq(!a, s) <==> !has_sq(a, s)),
{
    assert forall|s: int| 0 <= s < 64 implies (#[trigger] has_sq(!a, s) <==> !has_sq(a, s)) by {
        bit_not(a, s as u64);
    }
}

/// Bits of a single-square board.
pub proof fn lemma_has_sq_single(j: u64)
    requires
        j < 64,
    ensures
        forall|s: int| #[trigger] has_sq(1u64 << j, s) <==> s == j,
{
    assert forall|s: int| #[trigger] has_sq(1u64 << j, s) <==> s == j by {
        if 0 <= s < 64 {
            bit_single(s as u64, j);
        }
    }
}

/// The empty board has no square.
pub proof fn lemma_has_sq_zero()
    ensures
        forall|s: int| !#[trigger] has_sq(0u64, s),
{
    assert forall|s: int| !#[trigger] has_sq(0u64, s) by {
        if 0 <= s < 64 {
            bit_zero(s as u64);
        }
    }
}

/// `set_mask(f, n)` holds exactly the squares below `n` that satisfy `f`.
pub proof fn lemma_set_mask(f: spec_fn(int) -> bool, n: int)
    requires
        0 <= n <= 64,
    ensures
        forall|t: int| #[trigger] has_sq(set_mask(f, n), t) <==> (0 <= t < n && f(t)),
    decreases n,
{
    lemma_has_sq_zero();
    if n > 0 {
        lemma_set_mask(f, n - 1);
        let prev = set_mask(f, n - 1);
        if f(n - 1) {
            lemma_has_sq_or(prev, 1u64 << ((n - 1) as u64));
            lemma_has_sq_single((n - 1) as u64);
        }
    }
}

proof fn low_mask_zero(x: u64)
    ensures
        x & low_mask(0) == 0,
{
    assert(x & (((1u64 << 0u64) - 1) as u64) == 0) by (bit_vector);
}

proof fn low_mask_step(x: u64, n: u64, m: u64)
    requires
        n < 63,
        m == n + 1,
    ensures
        x & low_mask(m) == (x & low_mask(n)) | (x & (1u64 << n)),
{
    assert(x & (((1u64 << m) - 1) as u64) == (x & (((1u64 << n) - 1) as u64)) | (x & (1u64 << n)))
        by (bit_vector)
        requires
            n < 63,
            m == n + 1,
    ;
}

proof fn low_mask_top(x: u64)
    ensures
        x == (x & low_mask(63)) | (x & (1u64 << 63u64)),
{
    assert(x == (x & (((1u64 << 63u64) - 1) as u64)) | (x & (1u64 << 63u64))) by (bit_vector);
}

proof fn single_bit_part(a: u64, b: u64, n: u64)
    requires
        n < 64,
        ((a >> n) & 1u64 == 1u64) == ((b >> n) & 1u64 == 1u64),
    ensures
        a & (1u64 << n) == b & (1u64 << n),
{
    assert(a & (1u64 << n) == b & (1u64 << n)) by (bit_vector)
        requires
            n < 64,
            ((a >> n) & 1u64 == 1u64) == ((b >> n) & 1u64 == 1u64),
    ;
}

proof fn lemma_low_parts_eq(a: u64, b: u64, n: u64)
    requires
        n <= 63,
        forall|t: int| 0 <= t < 64 ==> has_sq(a, t) == has_sq(b, t),
    ensures
        a & low_mask(n) == b & low_mask(n),
    decreases n,
{
    if n == 0 {
        low_mask_zero(a);
        low_mask_zero(b);
    } else {
        let k = (n - 1) as u64;
        lemma_low_parts_eq(a, b, k);
        low_mask_step(a, k, n);
        low_mask_step(b, k, n);
        assert(has_sq(a, k as int) == has_sq(b, k as int));
        single_bit_part(a, b, k);
    }
}

/// Two bitboards with the same squares are equal.
pub proof fn lemma_bits_ext(a: u64, b: u64)
    requires
        forall|t: int| 0 <= t < 64 ==> has_sq(a, t) == has_sq(b, t),
    ensures
        a == b,
{
    lemma_low_parts_eq(a, b, 63);
    low_mask_top(a);
    low_mask_top(b);
    assert(has_sq(a, 63) == has_sq(b, 63));
    single_bit_part(a, b, 63);
}

/// A count of squares never exceeds the range counted.
pub proof fn lemma_count_below_bound(bb: u64, n: int)
    requires
        0 <= n,
    ensures
        count_below(bb, n) <= n,
    decreases n,
{
    if n > 0 {
        lemma_count_below_bound(bb, n - 1);
    }
}

/// Removing one set square lowers the count by one.
pub proof fn lemma_count_below_remove(a: u64, b: u64, s: int, n: int)
    requires
        0 <= n <= 64,
        0 <= s < 64,
        has_sq(a, s),
        forall|t: int| 0 <= t < 64 ==> has_sq(b, t) == (has_sq(a, t) && t != s),
    ensures
        count_below(a, n) == count_below(b, n) + if s < n {
            1nat
        } else {
            0nat
        },
    decreases n,
{
    if n > 0 {
        lemma_count_below_remove(a, b, s, n - 1);
    }
}

/// Counts of disjoint parts add up to the count of their union.
pub proof fn lemma_count_below_split(a: u64, b: u64, u: u64, n: int)
    requires
        0 <= n <= 64,
        forall|t: int| 0 <= t < 64 ==> !(has_sq(a, t) && has_sq(b, t)),
        forall|t: int| 0 <= t < 64 ==> has_sq(u, t) == (has_sq(a, t) || has_sq(b, t)),
    ensures
        count_below(u, n) == count_below(a, n) + count_below(b, n),
    decreases n,
{
    if n > 0 {
        lemma_count_below_split(a, b, u, n - 1);
    }
}

/// Number of `t` in `0..n` satisfying `p`.
pub open spec fn count_where(p: spec_fn(int) -> bool, n: int) -> nat
    decreases n,
{
    if n <= 0 {
        0
    } else {
        count_where(p, n - 1) + if p(n - 1) {
            1nat
        } else {
            0nat
        }
    }
}

/// A bitboard whose squares are those satisfying `p` counts them.
pub proof fn lemma_count_below_where(m: u64, p: spec_fn(int) -> bool, n: int)
    requires
        0 <= n <= 64,
        forall|t: int| 0 <= t < 64 ==> #[trigger] has_sq(m, t) == p(t),
    ensures
        count_below(m, n) == count_where(p, n),
    decreases n,
{
    if n > 0 {
        lemma_count_below_where(m, p, n - 1);
    }
}

/// Nothing in `a..b` satisfies `p`: the count does not grow there.
pub proof fn lemma_count_where_none(p: spec_fn(int) -> bool, a: int, b: int)
    requires
        a <= b,
        forall|t: int| a <= t < b ==> !#[trigger] p(t),
    ensures
        count_where(p, b) == count_where(p, a),
    decreases b - a,
{
    if a < b {
        lemma_count_where_none(p, a, b - 1);
        assert(!p(b - 1));
    }
}

/// Everything in `a..b` satisfies `p`: the count grows by `b - a`.
pub proof fn lemma_count_where_all(p: spec_fn(int) -> bool, a: int, b: int)
    requires
        0 <= a <= b,
        forall|t: int| a <= t < b ==> #[trigger] p(t),
    ensures
        count_where(p, b) == count_where(p, a) + (b - a),
    decreases b - a,
{
    if a < b {
        lemma_count_where_all(p, a, b - 1);
        assert(p(b - 1));
    }
}

/// A board within another counts no more.
pub proof fn lemma_count_below_subset(x: u64, m: u64, n: int)
    requires
        0 <= n <= 64,
        forall|t: int| 0 <= t < 64 && has_sq(x, t) ==> has_sq(m, t),
    ensures
        count_below(x, n) <= count_below(m, n),
    decreases n,
{
    if n > 0 {
        lemma_count_below_subset(x, m, n - 1);
    }
}

/// The empty board counts zero.
pub proof fn lemma_count_below_zero(n: int)
    ensures
        count_below(0u64, n) == 0,
    decreases n,
{
    lemma_has_sq_zero();
    if n > 0 {
        lemma_count_below_zero(n - 1);
    }
}

/// A union is empty exactly when both parts are.
pub proof fn lemma_or_zero(a: u64, b: u64)
    ensures
        (a | b) == 0 <==> (a == 0 && b == 0),
{
    assert((a | b) == 0 <==> (a == 0 && b == 0)) by (bit_vector);
}

/// Number of ones in `x`; agrees with `u64::count_ones`.
pub fn popcount_u64(x: u64) -> (r: u32)
    ensures
        r == popcount(x),
        r <= 64,
{
    let mut count: u32 = 0;
    let mut i: u64 = 0;
    while i < 64
        invariant
            i <= 64,
            count == count_below(x, i as int),
        decreases 64 - i,
    {
        proof {
            lemma_count_below_bound(x, i as int);
        }
        if (x >> i) & 1 == 1 {
            count = count + 1;
        }
        i = i + 1;
    }
    proof {
        lemma_count_below_bound(x, 64);
    }
    count
}

} // verus!
