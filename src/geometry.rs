//! Index arithmetic of the implicit-heap bucket tree.
//!
//! The tree has `depth + 1` levels, the root at level 0 and the leaves at
//! level `depth`. Bucket `i` has children `2i+1` and `2i+2`; leaf label `x`
//! names bucket `2^depth - 1 + x`.
use vstd::arithmetic::div_mod::{
    lemma_div_denominator, lemma_div_is_ordered, lemma_div_by_self, lemma_fundamental_div_mod,
    lemma_fundamental_div_mod_converse,
};
use vstd::arithmetic::power2::{
    lemma2_to64, lemma_pow2_adds, lemma_pow2_pos, lemma_pow2_strictly_increases, lemma_pow2_unfold, pow2,
};
use vstd::bits::{lemma_u32_shl_is_mul, lemma_u32_shr_is_div};
use vstd::prelude::*;

verus! {

/// The deepest tree this library handles: every bucket index fits in an `i32`.
pub const MAX_DEPTH: u32 = 30;

/// Bucket index of the level-`l` ancestor of leaf `x` in a tree of the given depth.
pub open spec fn bucket_index(depth: nat, x: nat, l: nat) -> int {
    (pow2(depth) + x) as int / pow2((depth - l) as nat) as int - 1
}

/// Number of buckets of a tree with `depth + 1` levels.
pub open spec fn num_buckets(depth: nat) -> int {
    pow2(depth + 1) as int - 1
}

/// Parent of bucket `i` in the implicit heap.
pub open spec fn parent(i: int) -> int {
    (i - 1) / 2
}

/// The bucket `k` steps above bucket `i`.
pub open spec fn heap_ancestor(i: int, k: nat) -> int
    decreases k,
{
    if k == 0 {
        i
    } else {
        parent(heap_ancestor(i, (k - 1) as nat))
    }
}

/// Leaf `y` lies below the level-`l` bucket on the path of leaf `x`: `y` and
/// `x` agree on all but their lowest `depth - l` bits.
pub open spec fn on_path(depth: nat, x: nat, l: nat, y: nat) -> bool {
    let p = pow2((depth - l) as nat) as int;
    (x as int / p) * p <= y < (x as int / p) * p + p
}

proof fn lemma_shift_one(e: u32)
    requires
        e <= 31,
    ensures
        (1u32 << e) == pow2(e as nat),
        pow2(e as nat) <= pow2(31),
        pow2(31) == 0x8000_0000,
{
    lemma_pow2_pos(e as nat);
    if e < 31 {
        lemma_pow2_strictly_increases(e as nat, 31);
    }
    lemma2_to64();
    lemma_u32_shl_is_mul(1, e);
}

/// Index of the level-`l` bucket on the path to leaf `x`.
pub fn get_index(depth: u32, x: u32, l: u32) -> (r: u32)
    requires
        depth <= MAX_DEPTH,
        x < pow2(depth as nat),
        l <= depth,
    ensures
        r == bucket_index(depth as nat, x as nat, l as nat),
        r < num_buckets(depth as nat),
        l == depth ==> r == pow2(depth as nat) - 1 + x,
{
    proof {
        lemma_shift_one(depth);
        lemma_pow2_unfold((depth + 1) as nat);
    }
    let top: u32 = 1u32 << depth;
    let node: u32 = top + x;
    let shift: u32 = depth - l;
    proof {
        lemma_u32_shr_is_div(node, shift);
        lemma_pow2_pos(shift as nat);
        if shift < depth {
            lemma_pow2_strictly_increases(shift as nat, depth as nat);
        }
        lemma_div_is_ordered(pow2(shift as nat) as int, node as int, pow2(shift as nat) as int);
        lemma_div_by_self(pow2(shift as nat) as int);
        lemma_div_is_ordered(node as int, node as int, pow2(shift as nat) as int);
        vstd::arithmetic::div_mod::lemma_div_nonincreasing(
            node as int,
            pow2(shift as nat) as int,
        );
        lemma2_to64();
        if shift == 0 {
            assert(pow2(shift as nat) == 1);
            vstd::arithmetic::div_mod::lemma_div_basics_2(node as int);
            assert(node as nat / pow2(shift as nat) == node);
        }
    }
    let up: u32 = node >> shift;
    up - 1
}

/// The leaves below the level-`l` bucket on the path of leaf `x`, as the
/// half-open range `[r.0, r.1)`.
pub fn get_on_path_indices(depth: u32, x: u32, l: u32) -> (r: (u32, u32))
    requires
        depth <= MAX_DEPTH,
        x < pow2(depth as nat),
        l <= depth,
    ensures
        forall|y: nat| #[trigger] on_path(depth as nat, x as nat, l as nat, y) <==> r.0 <= y < r.1,
        r.1 <= pow2(depth as nat),
        l == depth ==> r.0 == x && r.1 == x + 1,
{
    let shift: u32 = depth - l;
    proof {
        lemma_shift_one(shift);
        lemma_shift_one(depth);
        lemma_pow2_pos(shift as nat);
        lemma_pow2_adds(l as nat, shift as nat);
        lemma_fundamental_div_mod(x as int, pow2(shift as nat) as int);
        lemma2_to64();
        if shift == 0 {
            assert(pow2(shift as nat) == 1);
            vstd::arithmetic::div_mod::lemma_div_basics_2(x as int);
        }
    }
    let p: u32 = 1u32 << shift;
    let q: u32 = x / p;
    proof {
        let pp = pow2(shift as nat) as int;
        let ll = pow2(l as nat) as int;
        let xi = x as int;
        let qi = q as int;
        assert(qi == xi / pp);
        assert(qi * pp <= xi) by (nonlinear_arith)
            requires
                xi == pp * qi + xi % pp,
                0 <= xi % pp,
        ;
        assert(qi < ll) by (nonlinear_arith)
            requires
                xi < ll * pp,
                xi == pp * qi + xi % pp,
                0 <= xi % pp,
                xi % pp < pp,
                pp > 0,
        ;
        assert(qi * pp + pp <= ll * pp) by (nonlinear_arith)
            requires
                qi < ll,
                pp > 0,
        ;
    }
    let start: u32 = q * p;
    (start, start + p)
}

/// Geometry of the index arithmetic: the level-`l` bucket of leaf `x` is an
/// ancestor (`depth - l` steps up) of the leaf bucket of `x`, and the leaves
/// that `on_path` admits are exactly those whose paths pass through it.
pub proof fn lemma_index_geometry(depth: nat, x: nat, l: nat)
    requires
        x < pow2(depth),
        l <= depth,
    ensures
        bucket_index(depth, x, l) == heap_ancestor(bucket_index(depth, x, depth), (depth - l) as nat),
        forall|y: nat|
            y < pow2(depth) ==> (on_path(depth, x, l, y) <==> bucket_index(depth, y, l)
                == bucket_index(depth, x, l)),
{
    lemma_ancestor_steps(depth, x, (depth - l) as nat);
    lemma2_to64();
    assert forall|y: nat| y < pow2(depth) implies (on_path(depth, x, l, y) <==> bucket_index(
        depth,
        y,
        l,
    ) == bucket_index(depth, x, l)) by {
        lemma_same_bucket(depth, x, l, y);
    }
}

proof fn lemma_ancestor_steps(depth: nat, x: nat, k: nat)
    requires
        x < pow2(depth),
        k <= depth,
    ensures
        heap_ancestor(bucket_index(depth, x, depth), k) == (pow2(depth) + x) as int / pow2(k) as int
            - 1,
    decreases k,
{
    lemma2_to64();
    if k > 0 {
        lemma_ancestor_steps(depth, x, (k - 1) as nat);
        let n = (pow2(depth) + x) as int;
        let pk = pow2((k - 1) as nat) as int;
        lemma_pow2_pos((k - 1) as nat);
        lemma_pow2_unfold(k);
        lemma_div_denominator(n, pk, 2);
        let m = n / pk;
        assert((m - 1 - 1) / 2 == m / 2 - 1);
    }
}

proof fn lemma_same_bucket(depth: nat, x: nat, l: nat, y: nat)
    requires
        x < pow2(depth),
        y < pow2(depth),
        l <= depth,
    ensures
        on_path(depth, x, l, y) <==> bucket_index(depth, y, l) == bucket_index(depth, x, l),
{
    let d = (depth - l) as nat;
    let p = pow2(d) as int;
    let t = pow2(l) as int;
    lemma_pow2_pos(d);
    lemma_pow2_adds(l, d);
    assert(pow2(depth) == t * p);
    lemma_fundamental_div_mod(x as int, p);
    lemma_fundamental_div_mod(y as int, p);
    let qx = x as int / p;
    let qy = y as int / p;
    assert(t * p + x == (t + qx) * p + x as int % p) by (nonlinear_arith)
        requires
            x == p * qx + x as int % p,
    ;
    assert(t * p + y == (t + qy) * p + y as int % p) by (nonlinear_arith)
        requires
            y == p * qy + y as int % p,
    ;
    lemma_fundamental_div_mod_converse(t * p + x, p, t + qx, x as int % p);
    lemma_fundamental_div_mod_converse(t * p + y, p, t + qy, y as int % p);
    if on_path(depth, x, l, y) {
        lemma_fundamental_div_mod_converse(y as int, p, qx, y - qx * p);
    }
    if qy == qx {
        assert(qx * p == p * qx) by (nonlinear_arith);
    }
}

/// The level-`l` bucket of any path lies in level `l` of the heap,
/// `[2^l - 1, 2^(l+1) - 1)`; so the buckets of one path are distinct.
pub proof fn lemma_level_range(depth: nat, x: nat, l: nat)
    requires
        x < pow2(depth),
        l <= depth,
    ensures
        pow2(l) - 1 <= bucket_index(depth, x, l) < pow2(l + 1) - 1,
        pow2(l + 1) <= pow2(depth + 1),
{
    let d = (depth - l) as nat;
    let p = pow2(d) as int;
    let n = (pow2(depth) + x) as int;
    lemma_pow2_pos(d);
    lemma_pow2_adds(l, d);
    lemma_pow2_adds((l + 1) as nat, d);
    lemma_pow2_unfold((l + 1) as nat);
    lemma_pow2_unfold((depth + 1) as nat);
    lemma_fundamental_div_mod(n, p);
    let q = n / p;
    let t = pow2(l) as int;
    assert(t * p <= n < 2 * t * p);
    assert(q >= t) by (nonlinear_arith)
        requires
            n == p * q + n % p,
            0 <= n % p < p,
            t * p <= n,
            p > 0,
    ;
    assert(q < 2 * t) by (nonlinear_arith)
        requires
            n == p * q + n % p,
            0 <= n % p < p,
            n < 2 * t * p,
            p > 0,
    ;
    if l < depth {
        lemma_pow2_strictly_increases((l + 1) as nat, (depth + 1) as nat);
    }
}

/// Distinct levels of one path name distinct buckets.
pub proof fn lemma_path_distinct(depth: nat, x: nat, l1: nat, l2: nat)
    requires
        x < pow2(depth),
        l1 <= depth,
        l2 <= depth,
        l1 != l2,
    ensures
        bucket_index(depth, x, l1) != bucket_index(depth, x, l2),
{
    lemma_level_range(depth, x, l1);
    lemma_level_range(depth, x, l2);
    if l1 < l2 {
        if l1 + 1 < l2 {
            lemma_pow2_strictly_increases((l1 + 1) as nat, l2);
        }
    } else {
        if l2 + 1 < l1 {
            lemma_pow2_strictly_increases((l2 + 1) as nat, l1);
        }
    }
}

/// Leaves that agree below the level-`l` bucket of `x` share that bucket.
pub proof fn lemma_on_path_same_bucket(depth: nat, x: nat, l: nat, y: nat)
    requires
        x < pow2(depth),
        y < pow2(depth),
        l <= depth,
        on_path(depth, x, l, y),
    ensures
        bucket_index(depth, y, l) == bucket_index(depth, x, l),
{
    lemma_same_bucket(depth, x, l, y);
}

} // verus!
