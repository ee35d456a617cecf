//! The ORAM client: position map, stash and path eviction.
//!
//! Every logical access reads one root-to-leaf path (the one the position map
//! held for the address before the access), moves its blocks into the stash,
//! assigns the address a fresh random leaf, and writes the same path back,
//! refilled from the stash as deep as each block's own leaf allows.
use crate::geometry::{
    bucket_index, get_index, get_on_path_indices, lemma_level_range, lemma_on_path_same_bucket,
    lemma_path_distinct, num_buckets, on_path, MAX_DEPTH,
};
use crate::store::{all_in_range, lemma_gather, lemma_scatter, scatter, valid_config, MyPathOram};
use crate::wire::{empty_block, Block, StoreError, WriteBlockRequest, EMPTY};
use rand::rngs::StdRng;
use rand::{Rng, SeedableRng};
use vstd::arithmetic::power2::{lemma2_to64, lemma_pow2_strictly_increases, lemma_pow2_unfold, pow2};
use vstd::prelude::*;

verus! {

#[verifier::external_type_specification]
#[verifier::external_body]
pub struct ExStdRng(StdRng);

/// Relies on rand's `SeedableRng::seed_from_u64`: a generator determined by
/// the seed.
#[verifier::external_body]
fn seeded_rng(seed: u64) -> (r: StdRng) {
    StdRng::seed_from_u64(seed)
}

/// Relies on rand's `Rng::gen_range` over `0..bound`: a value of that
/// half-open range, which must not be empty.
#[verifier::external_body]
fn draw_leaf(rng: &mut StdRng, bound: u32) -> (r: u32)
    requires
        0 < bound <= i32::MAX,
    ensures
        r < bound,
{
    rng.gen_range(0..bound as i32) as u32
}

/// The value a map holds at `a`, if any.
pub open spec fn lookup(m: Map<int, int>, a: int) -> Option<int> {
    if m.contains_key(a) {
        Some(m[a])
    } else {
        None
    }
}

/// Some entry of `s` carries tag `t`.
pub open spec fn has_tag(s: Seq<Block>, t: int) -> bool {
    exists|k: int| 0 <= k < s.len() && (#[trigger] s[k]).index == t
}

/// The smallest `l` with `2^l >= n`.
pub open spec fn is_ceil_log2(n: nat, l: nat) -> bool {
    &&& pow2(l) >= n
    &&& (l == 0 || pow2((l - 1) as nat) < n)
}

/// Bucket indices of the path to leaf `x`, root first.
pub open spec fn path_root_first(depth: nat, x: nat) -> Seq<i32> {
    Seq::new(depth + 1, |l: int| bucket_index(depth, x, l as nat) as i32)
}

/// Bucket indices of the path to leaf `x`, leaf first.
pub open spec fn path_leaf_first(depth: nat, x: nat) -> Seq<i32> {
    Seq::new(depth + 1, |k: int| bucket_index(depth, x, (depth - k) as nat) as i32)
}

/// Bucket `i` lies on the path to leaf `x`.
pub open spec fn on_tree_path(depth: nat, x: nat, i: int) -> bool {
    exists|l: nat| l <= depth && i == #[trigger] bucket_index(depth, x, l)
}

/// Some slot of the tree carries tag `t`.
pub open spec fn in_tree(tree: Seq<Seq<Block>>, t: int) -> bool {
    exists|i: int, j: int|
        0 <= i < tree.len() && 0 <= j < tree[i].len() && (#[trigger] tree[i][j]).index == t
}

/// Block `e` may go into the level-`l` bucket on the path to leaf `x`: its
/// address is mapped to a leaf below that bucket.
pub open spec fn eligible(pmap: Seq<u32>, depth: nat, x: nat, l: nat, e: Block) -> bool {
    0 <= e.index < pmap.len() && on_path(depth, x, l, pmap[e.index as int] as nat)
}

/// The first (up to `z`) entries of `s` that are eligible for the level-`l`
/// bucket on the path to leaf `x`, in stash order.
pub open spec fn chosen_for(s: Seq<Block>, pmap: Seq<u32>, depth: nat, x: nat, l: nat, z: nat) -> Seq<
    Block,
>
    decreases s.len(),
{
    if s.len() == 0 {
        Seq::empty()
    } else {
        let p = chosen_for(s.drop_last(), pmap, depth, x, l, z);
        if p.len() < z && eligible(pmap, depth, x, l, s.last()) {
            p.push(s.last())
        } else {
            p
        }
    }
}

/// The entries of `s` that `chosen_for` leaves behind, in stash order.
pub open spec fn left_over(s: Seq<Block>, pmap: Seq<u32>, depth: nat, x: nat, l: nat, z: nat) -> Seq<
    Block,
>
    decreases s.len(),
{
    if s.len() == 0 {
        Seq::empty()
    } else {
        let p = chosen_for(s.drop_last(), pmap, depth, x, l, z);
        let r = left_over(s.drop_last(), pmap, depth, x, l, z);
        if p.len() < z && eligible(pmap, depth, x, l, s.last()) {
            r
        } else {
            r.push(s.last())
        }
    }
}

/// `c` followed by empty slots up to `z` slots.
pub open spec fn padded(c: Seq<Block>, z: nat) -> Seq<Block> {
    c + Seq::new((z - c.len()) as nat, |i: int| empty_block())
}

/// The write-back of the path to leaf `x` from stash `s`, after its first
/// `m` buckets (leaf first): the blocks written so far and the stash left.
pub open spec fn write_back_run(s: Seq<Block>, pmap: Seq<u32>, depth: nat, x: nat, z: nat, m: nat) -> (
    Seq<Block>,
    Seq<Block>,
)
    decreases m,
{
    if m == 0 {
        (Seq::empty(), s)
    } else {
        let prev = write_back_run(s, pmap, depth, x, z, (m - 1) as nat);
        let l = (depth - (m - 1)) as nat;
        (
            prev.0 + padded(chosen_for(prev.1, pmap, depth, x, l, z), z),
            left_over(prev.1, pmap, depth, x, l, z),
        )
    }
}

/// No two occupied entries of `s` carry the same tag.
pub open spec fn distinct_tags(s: Seq<Block>) -> bool {
    forall|k1: int, k2: int|
        0 <= k1 < s.len() && 0 <= k2 < s.len() && k1 != k2 && s[k1].index != EMPTY
            ==> (#[trigger] s[k1]).index != (#[trigger] s[k2]).index
}

/// No two occupied slots of the tree carry the same tag.
pub open spec fn tree_distinct(tree: Seq<Seq<Block>>) -> bool {
    forall|i1: int, j1: int, i2: int, j2: int|
        0 <= i1 < tree.len() && 0 <= j1 < tree[i1].len() && 0 <= i2 < tree.len() && 0 <= j2
            < tree[i2].len() && (i1 != i2 || j1 != j2) && tree[i1][j1].index != EMPTY
            ==> (#[trigger] tree[i1][j1]).index != (#[trigger] tree[i2][j2]).index
}

/// No tag of the stash occurs in the tree.
pub open spec fn stash_tree_disjoint(stash: Seq<Block>, tree: Seq<Seq<Block>>) -> bool {
    forall|k: int, i: int, j: int|
        0 <= k < stash.len() && 0 <= i < tree.len() && 0 <= j < tree[i].len() ==> (
        #[trigger] stash[k]).index != (#[trigger] tree[i][j]).index
}

/// Every slot of the write-back run for level `lv` (the run `depth - lv`,
/// runs of `z` slots) is occupied.
pub open spec fn level_full(blocks: Seq<Block>, depth: nat, lv: nat, z: int) -> bool {
    forall|p: int|
        (depth - lv) * z <= p < (depth - lv) * z + z ==> (#[trigger] blocks[p]).index != EMPTY
}

/// Why `setup` failed.
#[derive(Clone, Copy, Debug, PartialEq, Eq, Structural)]
pub enum SetupError {
    /// The store refused the tree shape or the bucket size.
    Config,
}

pub struct PathORAMHandler {
    n: u32,
    l: u32,
    z: i32,
    stash: Vec<Block>,
    pmap: Vec<u32>,
    num_leaves: u32,
    rng: StdRng,
    mem: Ghost<Map<int, int>>,
}

/// Least `l` with `2^l >= n`.
pub fn ceil_log2(n: u32) -> (l: u32)
    requires
        1 <= n <= pow2(MAX_DEPTH as nat),
    ensures
        is_ceil_log2(n as nat, l as nat),
        l <= MAX_DEPTH,
{
    let mut l: u32 = 0;
    let mut p: u32 = 1;
    proof {
        lemma2_to64();
    }
    while p < n
        invariant
            l <= MAX_DEPTH,
            p == pow2(l as nat),
            l == 0 || pow2((l - 1) as nat) < n,
            n <= pow2(MAX_DEPTH as nat),
        decreases MAX_DEPTH - l,
    {
        proof {
            lemma2_to64();
            if l == MAX_DEPTH {
                assert(false);
            }
            lemma_pow2_unfold((l + 1) as nat);
            if l + 1 < MAX_DEPTH {
                lemma_pow2_strictly_increases((l + 1) as nat, MAX_DEPTH as nat);
            }
        }
        p = p * 2;
        l = l + 1;
    }
    l
}

impl PathORAMHandler {
    /// The logical memory: address to value, for the addresses written so far.
    pub closed spec fn contents(&self) -> Map<int, int> {
        self.mem@
    }

    /// Number of logical slots.
    pub closed spec fn num_slots(&self) -> nat {
        self.n as nat
    }

    /// Leaf level of the tree.
    pub closed spec fn depth(&self) -> nat {
        self.l as nat
    }

    /// Slots per bucket.
    pub closed spec fn bucket_capacity(&self) -> int {
        self.z as int
    }

    /// The leaf assigned to each address.
    pub closed spec fn position_map(&self) -> Seq<u32> {
        self.pmap@
    }

    /// The blocks held by the client between accesses.
    pub closed spec fn stash_blocks(&self) -> Seq<Block> {
        self.stash@
    }

    /// Everything but the stash and the generator is as in `o`.
    pub closed spec fn same_shape(&self, o: Self) -> bool {
        &&& self.pmap == o.pmap
        &&& self.l == o.l
        &&& self.z == o.z
        &&& self.n == o.n
        &&& self.num_leaves == o.num_leaves
        &&& self.mem == o.mem
    }

    /// Everything but the position map and the generator is as in `o`.
    pub closed spec fn same_except_map(&self, o: Self) -> bool {
        &&& self.l == o.l
        &&& self.z == o.z
        &&& self.n == o.n
        &&& self.num_leaves == o.num_leaves
        &&& self.stash == o.stash
        &&& self.mem == o.mem
    }

    /// A handler for buckets of `z` slots, before `setup`.
    pub fn new(z: i32, rng_seed: u64) -> (r: Self)
        ensures
            r.bucket_capacity() == z,
            r.num_slots() == 0,
            r.contents() == Map::<int, int>::empty(),
            r.stash_blocks().len() == 0,
            r.position_map().len() == 0,
            r.depth() == 0,
    {
        PathORAMHandler {
            n: 0,
            l: 0,
            z,
            stash: Vec::new(),
            pmap: Vec::new(),
            num_leaves: 1,
            rng: seeded_rng(rng_seed),
            mem: Ghost(Map::empty()),
        }
    }

    /// Number of blocks in the stash.
    pub fn stash_len(&self) -> (r: usize)
        ensures
            r == self.stash_blocks().len(),
    {
        self.stash.len()
    }

    /// Index of the level-`l` bucket on the path to leaf `x`.
    fn get_index(&self, x: u32, l: u32) -> (r: u32)
        requires
            self.l <= MAX_DEPTH,
            x < pow2(self.l as nat),
            l <= self.l,
        ensures
            r == bucket_index(self.l as nat, x as nat, l as nat),
            r < num_buckets(self.l as nat),
    {
        get_index(self.l, x, l)
    }

    /// The leaves whose paths pass through the level-`l` bucket of leaf `x`.
    fn get_on_path_indices(&self, x: u32, l: u32) -> (r: (u32, u32))
        requires
            self.l <= MAX_DEPTH,
            x < pow2(self.l as nat),
            l <= self.l,
        ensures
            forall|y: nat| #[trigger] on_path(self.l as nat, x as nat, l as nat, y) <==> r.0 <= y < r.1,
    {
        get_on_path_indices(self.l, x, l)
    }

    /// The bucket indices of the path to leaf `x`, root first.
    pub fn path_indices(&self, x: u32) -> (r: Vec<i32>)
        requires
            self.depth() <= MAX_DEPTH,
            x < pow2(self.depth()),
        ensures
            r@ == path_root_first(self.depth(), x as nat),
    {
        let mut out: Vec<i32> = Vec::new();
        let mut l: u32 = 0;
        while l <= self.l
            invariant
                self.l <= MAX_DEPTH,
                x < pow2(self.l as nat),
                l <= self.l + 1,
                out@.len() == l,
                forall|k: int| 0 <= k < l ==> out@[k] == bucket_index(self.l as nat, x as nat, k as nat),
            decreases self.l + 1 - l,
        {
            let i = self.get_index(x, l);
            proof {
                lemma2_to64();
                if self.l < 30 {
                    lemma_pow2_strictly_increases((self.l + 1) as nat, 31);
                }
            }
            out.push(i as i32);
            l = l + 1;
        }
        assert(out@ =~= path_root_first(self.depth(), x as nat));
        out
    }

    /// The value the stash holds for `a`, if any.
    fn stash_get(&self, a: i32) -> (r: Option<i32>)
        ensures
            r matches Some(v) ==> self.stash@.contains(Block { index: a, value: v }),
            r is None ==> !has_tag(self.stash@, a as int),
    {
        let mut k: usize = 0;
        while k < self.stash.len()
            invariant
                0 <= k <= self.stash@.len(),
                forall|i: int| 0 <= i < k ==> (#[trigger] self.stash@[i]).index != a,
            decreases self.stash@.len() - k,
        {
            if self.stash[k].index == a {
                return Some(self.stash[k].value);
            }
            k = k + 1;
        }
        None
    }

    /// Binds `a` to `v` in the stash; returns the value it held before.
    fn stash_insert(&mut self, a: i32, v: i32) -> (r: Option<i32>)
        ensures
            final(self).stash@.contains(Block { index: a, value: v }),
            forall|k: int|
                0 <= k < final(self).stash@.len() && (#[trigger] final(self).stash@[k]).index == a
                    ==> final(self).stash@[k].value == v,
            forall|e: Block| #[trigger]
                final(self).stash@.contains(e) ==> e.index == a || old(self).stash@.contains(e),
            forall|e: Block|
                old(self).stash@.contains(e) && e.index != a ==> #[trigger] final(self).stash@.contains(e),
            r matches Some(w) ==> old(self).stash@.contains(Block { index: a, value: w }),
            r is None ==> !has_tag(old(self).stash@, a as int),
            distinct_tags(old(self).stash@) ==> distinct_tags(final(self).stash@),
            final(self).pmap == old(self).pmap,
            final(self).l == old(self).l,
            final(self).z == old(self).z,
            final(self).n == old(self).n,
            final(self).num_leaves == old(self).num_leaves,
            final(self).mem == old(self).mem,
    {
        let mut out: Option<i32> = None;
        let mut k: usize = 0;
        let ghost before = self.stash@;
        while k < self.stash.len()
            invariant
                0 <= k <= self.stash@.len(),
                self.stash@.len() == before.len(),
                self.pmap == old(self).pmap,
                self.l == old(self).l,
                self.z == old(self).z,
                self.n == old(self).n,
                self.num_leaves == old(self).num_leaves,
                self.mem == old(self).mem,
                before == old(self).stash@,
                forall|i: int|
                    0 <= i < k ==> #[trigger] self.stash@[i] == (if before[i].index == a {
                        Block { index: a, value: v }
                    } else {
                        before[i]
                    }),
                forall|i: int| k <= i < before.len() ==> #[trigger] self.stash@[i] == before[i],
                forall|i: int| 0 <= i < before.len() ==> (#[trigger] self.stash@[i]).index == before[i].index,
                out matches Some(w) ==> before.contains(Block { index: a, value: w }),
                out is None ==> forall|i: int| 0 <= i < k ==> (#[trigger] before[i]).index != a,
            decreases self.stash@.len() - k,
        {
            if self.stash[k].index == a {
                if out.is_none() {
                    out = Some(self.stash[k].value);
                    assert(before[k as int] == Block { index: a, value: out.unwrap() });
                }
                self.stash.set(k, Block { index: a, value: v });
            }
            k = k + 1;
        }
        if out.is_none() {
            self.stash.push(Block { index: a, value: v });
            assert(self.stash@[self.stash@.len() - 1] == Block { index: a, value: v });
            assert(forall|i: int| 0 <= i < before.len() ==> (#[trigger] before[i]).index != a);
        } else {
            let ghost w = out.unwrap();
            assert(before.contains(Block { index: a, value: w }));
            let ghost i = choose|i: int| 0 <= i < before.len() && before[i] == Block { index: a, value: w };
            assert(self.stash@[i] == Block { index: a, value: v });
        }
        assert forall|e: Block|
            old(self).stash@.contains(e) && e.index != a implies #[trigger] self.stash@.contains(e) by {
            let i = choose|i: int| 0 <= i < before.len() && before[i] == e;
            assert(self.stash@[i] == e);
        }
        assert forall|e: Block| #[trigger] self.stash@.contains(e) implies e.index == a
            || old(self).stash@.contains(e) by {
            let i = choose|i: int| 0 <= i < self.stash@.len() && self.stash@[i] == e;
            if i < before.len() {
                assert(self.stash@[i] == before[i] || e.index == a);
            }
        }
        out
    }

    /// Moves the occupied blocks of a path read into the stash, each
    /// replacing any entry with its tag.
    pub fn update_stash(&mut self, blocks: &Vec<Block>)
        ensures
            forall|e: Block| #[trigger]
                final(self).stash_blocks().contains(e) ==> old(self).stash_blocks().contains(e) || (
                blocks@.contains(e) && e.index != EMPTY),
            forall|k: int|
                0 <= k < blocks@.len() && (#[trigger] blocks@[k]).index != EMPTY ==> has_tag(
                    final(self).stash_blocks(),
                    blocks@[k].index as int,
                ),
            forall|t: int| has_tag(old(self).stash_blocks(), t) ==> #[trigger] has_tag(final(self).stash_blocks(), t),
            distinct_tags(old(self).stash_blocks()) ==> distinct_tags(final(self).stash_blocks()),
            forall|i: int|
                0 <= i < final(self).stash_blocks().len() && final(self).stash_blocks()[i].index
                    != EMPTY && has_tag(
                    blocks@,
                    (#[trigger] final(self).stash_blocks()[i]).index as int,
                ) ==> blocks@.contains(final(self).stash_blocks()[i]),
            final(self).same_shape(*old(self)),
    {
        let mut k: usize = 0;
        while k < blocks.len()
            invariant
                0 <= k <= blocks@.len(),
                forall|e: Block| #[trigger]
                    self.stash@.contains(e) ==> old(self).stash@.contains(e) || (blocks@.contains(e)
                        && e.index != EMPTY),
                forall|i: int|
                    0 <= i < k && (#[trigger] blocks@[i]).index != EMPTY ==> has_tag(
                        self.stash@,
                        blocks@[i].index as int,
                    ),
                forall|t: int| has_tag(old(self).stash@, t) ==> #[trigger] has_tag(self.stash@, t),
                distinct_tags(old(self).stash@) ==> distinct_tags(self.stash@),
                forall|i: int|
                    0 <= i < self.stash@.len() && self.stash@[i].index != EMPTY && has_tag(
                        blocks@.take(k as int),
                        (#[trigger] self.stash@[i]).index as int,
                    ) ==> blocks@.take(k as int).contains(self.stash@[i]),
                self.pmap == old(self).pmap,
                self.l == old(self).l,
                self.z == old(self).z,
                self.n == old(self).n,
                self.num_leaves == old(self).num_leaves,
                self.mem == old(self).mem,
            decreases blocks@.len() - k,
        {
            let b = blocks[k];
            let ghost prev = self.stash@;
            if b.index != EMPTY {
                self.stash_insert(b.index, b.value);
                proof {
                    assert(blocks@.contains(b));
                    assert forall|t: int| has_tag(prev, t) implies #[trigger] has_tag(
                        self.stash@,
                        t,
                    ) by {
                        let i = choose|i: int| 0 <= i < prev.len() && prev[i].index == t;
                        if t == b.index {
                            let j = choose|j: int|
                                0 <= j < self.stash@.len() && self.stash@[j] == Block {
                                    index: b.index,
                                    value: b.value,
                                };
                            assert(self.stash@[j].index == t);
                        } else {
                            assert(prev.contains(prev[i]));
                            assert(self.stash@.contains(prev[i]));
                            let j = choose|j: int|
                                0 <= j < self.stash@.len() && self.stash@[j] == prev[i];
                            assert(self.stash@[j].index == t);
                        }
                    }
                    assert forall|i: int|
                        0 <= i < k + 1 && (#[trigger] blocks@[i]).index != EMPTY implies has_tag(
                        self.stash@,
                        blocks@[i].index as int,
                    ) by {
                        if i < k {
                            assert(has_tag(prev, blocks@[i].index as int));
                        } else {
                            let j = choose|j: int|
                                0 <= j < self.stash@.len() && self.stash@[j] == Block {
                                    index: b.index,
                                    value: b.value,
                                };
                            assert(self.stash@[j].index == b.index);
                        }
                    }
                }
            }
            proof {
                let pre = blocks@.take(k as int);
                let post = blocks@.take(k + 1);
                assert(post[k as int] == b);
                assert forall|t: int| has_tag(post, t) && t != b.index implies has_tag(pre, t) by {
                    let i = choose|i: int| 0 <= i < post.len() && (#[trigger] post[i]).index == t;
                    assert(pre[i] == post[i]);
                }
                assert forall|e: Block| pre.contains(e) implies post.contains(e) by {
                    let i = choose|i: int| 0 <= i < pre.len() && pre[i] == e;
                    assert(post[i] == e);
                }
                assert forall|i: int|
                    0 <= i < self.stash@.len() && self.stash@[i].index != EMPTY && has_tag(
                        post,
                        (#[trigger] self.stash@[i]).index as int,
                    ) implies post.contains(self.stash@[i]) by {
                    let e = self.stash@[i];
                    if e.index == b.index {
                        assert(e.value == b.value);
                        assert(e == b);
                    } else {
                        assert(has_tag(pre, e.index as int));
                        assert(self.stash@.contains(e));
                        assert(prev.contains(e));
                        let i2 = choose|i2: int| 0 <= i2 < prev.len() && prev[i2] == e;
                        assert(pre.contains(prev[i2]));
                    }
                }
            }
            k = k + 1;
        }
        assert(blocks@.take(k as int) =~= blocks@);
    }
}


proof fn lemma_push_contains(s: Seq<Block>, x: Block)
    ensures
        s.push(x).contains(x),
        forall|e: Block| s.contains(e) ==> #[trigger] s.push(x).contains(e),
        forall|e: Block| #[trigger] s.push(x).contains(e) ==> s.contains(e) || e == x,
{
    assert(s.push(x)[s.len() as int] == x);
    assert forall|e: Block| s.contains(e) implies #[trigger] s.push(x).contains(e) by {
        let i = choose|i: int| 0 <= i < s.len() && s[i] == e;
        assert(s.push(x)[i] == e);
    }
    assert forall|e: Block| #[trigger] s.push(x).contains(e) implies s.contains(e) || e == x by {
        let i = choose|i: int| 0 <= i < s.len() + 1 && s.push(x)[i] == e;
        if i < s.len() {
            assert(s[i] == e);
        }
    }
}

proof fn lemma_add_contains(s: Seq<Block>, t: Seq<Block>)
    ensures
        forall|e: Block| #[trigger] (s + t).contains(e) <==> s.contains(e) || t.contains(e),
{
    assert forall|e: Block| #[trigger] (s + t).contains(e) <==> s.contains(e) || t.contains(e) by {
        if s.contains(e) {
            let i = choose|i: int| 0 <= i < s.len() && s[i] == e;
            assert((s + t)[i] == e);
        }
        if t.contains(e) {
            let i = choose|i: int| 0 <= i < t.len() && t[i] == e;
            assert((s + t)[s.len() + i] == e);
        }
        if (s + t).contains(e) {
            let i = choose|i: int| 0 <= i < s.len() + t.len() && (s + t)[i] == e;
            if i < s.len() {
                assert(s[i] == e);
            } else {
                assert(t[i - s.len()] == e);
            }
        }
    }
}

proof fn lemma_div_run(m: int, z: int, j: int)
    requires
        z > 0,
        m >= 0,
        0 <= j < z,
    ensures
        (m * z + j) / z == m,
        (m * z + j) % z == j,
{
    vstd::arithmetic::div_mod::lemma_fundamental_div_mod_converse(m * z + j, z, m, j);
}

impl PathORAMHandler {
    /// Stash entries name addresses of the position map.
    pub closed spec fn stash_tags_in_range(&self) -> bool {
        forall|k: int|
            0 <= k < self.stash@.len() ==> 0 <= (#[trigger] self.stash@[k]).index < self.pmap@.len()
    }

    /// Leaves and depth are those of a tree this handler can address.
    pub closed spec fn shape_ok(&self) -> bool {
        &&& self.l <= MAX_DEPTH
        &&& self.num_leaves == pow2(self.l as nat)
        &&& self.z >= 1
        &&& forall|a: int| 0 <= a < self.pmap@.len() ==> #[trigger] self.pmap@[a] < self.num_leaves
    }

    /// Takes from the stash, in stash order, up to `z` blocks whose leaves
    /// lie below the level-`l` bucket of leaf `x`, and pads them with empty
    /// slots to a full bucket.
    fn evict_bucket(&mut self, x: u32, l: u32) -> (bucket: Vec<Block>)
        requires
            old(self).shape_ok(),
            old(self).stash_tags_in_range(),
            distinct_tags(old(self).stash@),
            x < pow2(old(self).l as nat),
            l <= old(self).l,
        ensures
            bucket@.len() == old(self).z,
            bucket@ == padded(
                chosen_for(old(self).stash@, old(self).pmap@, old(self).l as nat, x as nat, l as nat, old(self).z as nat),
                old(self).z as nat,
            ),
            final(self).stash@ == left_over(
                old(self).stash@,
                old(self).pmap@,
                old(self).l as nat,
                x as nat,
                l as nat,
                old(self).z as nat,
            ),
            forall|j: int|
                0 <= j < bucket@.len() ==> #[trigger] bucket@[j] == empty_block() || (old(self).stash@.contains(bucket@[j]) && on_path(
                    old(self).l as nat,
                    x as nat,
                    l as nat,
                    old(self).pmap@[bucket@[j].index as int] as nat,
                )),
            forall|e: Block|
                old(self).stash@.contains(e) ==> #[trigger] final(self).stash@.contains(e)
                    || bucket@.contains(e),
            forall|e: Block| #[trigger] final(self).stash@.contains(e) ==> old(self).stash@.contains(e),
            forall|e: Block| #[trigger]
                final(self).stash@.contains(e) ==> !on_path(
                    old(self).l as nat,
                    x as nat,
                    l as nat,
                    old(self).pmap@[e.index as int] as nat,
                ) || forall|j: int| 0 <= j < bucket@.len() ==> (#[trigger] bucket@[j]).index != EMPTY,
            distinct_tags(final(self).stash@),
            distinct_tags(bucket@),
            forall|k: int, j: int|
                0 <= k < final(self).stash@.len() && 0 <= j < bucket@.len() ==> (#[trigger] final(self).stash@[k]).index != (#[trigger] bucket@[j]).index,
            final(self).same_shape(*old(self)),
            final(self).shape_ok(),
            final(self).stash_tags_in_range(),
    {
        let (lo, hi) = self.get_on_path_indices(x, l);
        let zu: usize = self.z as usize;
        let mut kept: Vec<Block> = Vec::new();
        let mut bucket: Vec<Block> = Vec::new();
        let mut k: usize = 0;
        while k < self.stash.len()
            invariant
                0 <= k <= self.stash@.len(),
                *self == *old(self),
                zu == self.z,
                self.stash_tags_in_range(),
                forall|y: nat| #[trigger] on_path(self.l as nat, x as nat, l as nat, y) <==> lo <= y < hi,
                bucket@.len() <= zu,
                bucket@ == chosen_for(self.stash@.take(k as int), self.pmap@, self.l as nat, x as nat, l as nat, zu as nat),
                kept@ == left_over(self.stash@.take(k as int), self.pmap@, self.l as nat, x as nat, l as nat, zu as nat),
                forall|j: int|
                    0 <= j < bucket@.len() ==> self.stash@.contains(#[trigger] bucket@[j]) && on_path(
                        self.l as nat,
                        x as nat,
                        l as nat,
                        self.pmap@[bucket@[j].index as int] as nat,
                    ),
                forall|e: Block| #[trigger] kept@.contains(e) ==> self.stash@.contains(e),
                forall|e: Block| #[trigger]
                    kept@.contains(e) ==> !on_path(
                        self.l as nat,
                        x as nat,
                        l as nat,
                        self.pmap@[e.index as int] as nat,
                    ) || bucket@.len() == zu,
                forall|i: int|
                    0 <= i < k ==> kept@.contains(#[trigger] self.stash@[i]) || bucket@.contains(
                        self.stash@[i],
                    ),
                distinct_tags(self.stash@),
                distinct_tags(kept@),
                distinct_tags(bucket@),
                forall|j1: int, j2: int|
                    0 <= j1 < kept@.len() && 0 <= j2 < bucket@.len() ==> (#[trigger] kept@[j1]).index
                        != (#[trigger] bucket@[j2]).index,
                forall|j: int, i: int|
                    0 <= j < kept@.len() && k <= i < self.stash@.len() ==> (#[trigger] kept@[j]).index
                        != (#[trigger] self.stash@[i]).index,
                forall|j: int, i: int|
                    0 <= j < bucket@.len() && k <= i < self.stash@.len() ==> (
                    #[trigger] bucket@[j]).index != (#[trigger] self.stash@[i]).index,
                forall|j: int| 0 <= j < bucket@.len() ==> (#[trigger] bucket@[j]).index != EMPTY,
            decreases self.stash@.len() - k,
        {
            let e = self.stash[k];
            let leaf = self.pmap[e.index as usize];
            proof {
                assert forall|i: int| k < i < self.stash@.len() implies (
                #[trigger] self.stash@[i]).index != e.index by {
                    assert(self.stash@[k as int] == e);
                }
            }
            proof {
                assert(self.stash@.contains(e));
                lemma_push_contains(kept@, e);
                lemma_push_contains(bucket@, e);
                let pre = self.stash@.take(k as int);
                let post = self.stash@.take(k + 1);
                assert(post.drop_last() =~= pre);
                assert(post.last() == e);
                assert(0 <= e.index < self.pmap@.len());
            }
            if bucket.len() < zu && lo <= leaf && leaf < hi {
                bucket.push(e);
                assert(on_path(self.l as nat, x as nat, l as nat, leaf as nat));
            } else {
                kept.push(e);
            }
            k = k + 1;
        }
        let ghost chosen = bucket@;
        proof {
            assert(self.stash@.take(k as int) =~= self.stash@);
            assert forall|j: int| 0 <= j < kept@.len() implies (#[trigger] kept@[j]).index >= 0 by {
                assert(kept@.contains(kept@[j]));
                assert(self.stash@.contains(kept@[j]));
            }
            assert forall|j: int| 0 <= j < chosen.len() implies (#[trigger] chosen[j]).index != EMPTY by {
                let i = choose|i: int| 0 <= i < self.stash@.len() && self.stash@[i] == chosen[j];
            }
        }
        while bucket.len() < zu
            invariant
                chosen.len() <= bucket@.len() <= zu,
                distinct_tags(bucket@),
                forall|j1: int, j2: int|
                    0 <= j1 < kept@.len() && 0 <= j2 < bucket@.len() ==> (#[trigger] kept@[j1]).index
                        != (#[trigger] bucket@[j2]).index,
                forall|j: int| 0 <= j < kept@.len() ==> (#[trigger] kept@[j]).index >= 0,
                bucket@.subrange(0, chosen.len() as int) == chosen,
                forall|j: int| chosen.len() <= j < bucket@.len() ==> #[trigger] bucket@[j] == empty_block(),
            decreases zu - bucket@.len(),
        {
            let ghost prev = bucket@;
            bucket.push(Block::empty());
            assert(bucket@.subrange(0, chosen.len() as int) =~= prev.subrange(0, chosen.len() as int));
        }
        proof {
            assert(bucket@ =~= padded(chosen, zu as nat)) by {
                assert forall|j: int| 0 <= j < chosen.len() implies bucket@[j] == chosen[j] by {
                    assert(bucket@.subrange(0, chosen.len() as int)[j] == chosen[j]);
                }
            }
            assert forall|e: Block| chosen.contains(e) implies #[trigger] bucket@.contains(e) by {
                let i = choose|i: int| 0 <= i < chosen.len() && chosen[i] == e;
                assert(bucket@.subrange(0, chosen.len() as int)[i] == e);
                assert(bucket@[i] == e);
            }
            assert forall|j: int| 0 <= j < chosen.len() implies #[trigger] bucket@[j] == chosen[j] by {
                assert(bucket@.subrange(0, chosen.len() as int)[j] == chosen[j]);
            }
            assert forall|e: Block| old(self).stash@.contains(e) implies #[trigger] kept@.contains(e)
                || bucket@.contains(e) by {
                let i = choose|i: int| 0 <= i < old(self).stash@.len() && old(self).stash@[i] == e;
                assert(kept@.contains(self.stash@[i]) || chosen.contains(self.stash@[i]));
            }
        }
        self.stash = kept;
        proof {
            assert forall|e: Block| #[trigger] self.stash@.contains(e) implies !on_path(
                old(self).l as nat,
                x as nat,
                l as nat,
                old(self).pmap@[e.index as int] as nat,
            ) || forall|j: int| 0 <= j < bucket@.len() ==> (#[trigger] bucket@[j]).index != EMPTY by {
                if chosen.len() == zu {
                    assert(bucket@ =~= chosen);
                }
            }
            assert forall|k: int| 0 <= k < self.stash@.len() implies 0 <= (
            #[trigger] self.stash@[k]).index < self.pmap@.len() by {
                assert(kept@.contains(self.stash@[k]));
                let i = choose|i: int|
                    0 <= i < old(self).stash@.len() && old(self).stash@[i] == self.stash@[k];
            }
        }
        bucket
    }

    /// Refills the path to leaf `x` from the stash, leaf bucket first: the
    /// request names the path's buckets leaf to root, with `z` slots each.
    pub fn write_back_stash(&mut self, x: u32) -> (req: WriteBlockRequest)
        requires
            old(self).shape_ok(),
            old(self).stash_tags_in_range(),
            distinct_tags(old(self).stash_blocks()),
            x < pow2(old(self).depth()),
        ensures
            req.indices@ == path_leaf_first(old(self).depth(), x as nat),
            (req.blocks@, final(self).stash_blocks()) == write_back_run(
                old(self).stash_blocks(),
                old(self).position_map(),
                old(self).depth(),
                x as nat,
                old(self).bucket_capacity() as nat,
                (old(self).depth() + 1) as nat,
            ),
            req.blocks@.len() == (old(self).depth() + 1) * old(self).bucket_capacity(),
            forall|p: int|
                0 <= p < req.blocks@.len() ==> #[trigger] req.blocks@[p] == empty_block() || (old(self).stash_blocks().contains(req.blocks@[p]) && on_path(
                    old(self).depth(),
                    x as nat,
                    (old(self).depth() - p / old(self).bucket_capacity()) as nat,
                    old(self).position_map()[req.blocks@[p].index as int] as nat,
                )),
            forall|e: Block|
                old(self).stash_blocks().contains(e) ==> #[trigger] final(self).stash_blocks().contains(e) || req.blocks@.contains(e),
            forall|e: Block| #[trigger]
                final(self).stash_blocks().contains(e) ==> old(self).stash_blocks().contains(e),
            forall|e: Block, lv: nat|
                #![trigger final(self).stash_blocks().contains(e), on_path(old(self).depth(), x as nat, lv, old(self).position_map()[e.index as int] as nat)]
                final(self).stash_blocks().contains(e) && lv <= old(self).depth() && on_path(
                    old(self).depth(),
                    x as nat,
                    lv,
                    old(self).position_map()[e.index as int] as nat,
                ) ==> level_full(req.blocks@, old(self).depth(), lv, old(self).bucket_capacity()),
            distinct_tags(final(self).stash_blocks()),
            distinct_tags(req.blocks@),
            forall|k: int, p: int|
                0 <= k < final(self).stash_blocks().len() && 0 <= p < req.blocks@.len() ==> (
                #[trigger] final(self).stash_blocks()[k]).index != (#[trigger] req.blocks@[p]).index,
            final(self).same_shape(*old(self)),
            final(self).shape_ok(),
            final(self).stash_tags_in_range(),
    {
        let mut indices: Vec<i32> = Vec::new();
        let mut blocks: Vec<Block> = Vec::new();
        let ghost orig = self.stash@;
        let ghost zi = self.z as int;
        let ghost depth = self.l as nat;
        let mut m: u32 = 0;
        while m <= self.l
            invariant
                m <= self.l + 1,
                self.same_shape(*old(self)),
                self.shape_ok(),
                self.stash_tags_in_range(),
                orig == old(self).stash@,
                zi == self.z,
                depth == self.l,
                x < pow2(depth),
                indices@ == path_leaf_first(depth, x as nat).take(m as int),
                (blocks@, self.stash@) == write_back_run(orig, self.pmap@, depth, x as nat, zi as nat, m as nat),
                self.pmap@ == old(self).pmap@,
                blocks@.len() == m * zi,
                forall|p: int|
                    0 <= p < blocks@.len() ==> #[trigger] blocks@[p] == empty_block() || (
                    orig.contains(blocks@[p]) && on_path(
                        depth,
                        x as nat,
                        (depth - p / zi) as nat,
                        self.pmap@[blocks@[p].index as int] as nat,
                    )),
                forall|e: Block| orig.contains(e) ==> #[trigger] self.stash@.contains(e)
                    || blocks@.contains(e),
                forall|e: Block| #[trigger] self.stash@.contains(e) ==> orig.contains(e),
                distinct_tags(self.stash@),
                distinct_tags(blocks@),
                forall|k: int, p: int|
                    0 <= k < self.stash@.len() && 0 <= p < blocks@.len() ==> (
                    #[trigger] self.stash@[k]).index != (#[trigger] blocks@[p]).index,
                forall|e: Block, lv: nat|
                    #![trigger self.stash@.contains(e), on_path(depth, x as nat, lv, self.pmap@[e.index as int] as nat)]
                    self.stash@.contains(e) && lv <= depth && depth - lv < m && on_path(
                        depth,
                        x as nat,
                        lv,
                        self.pmap@[e.index as int] as nat,
                    ) ==> level_full(blocks@, depth, lv, zi),
            decreases self.l + 1 - m,
        {
            let l: u32 = self.l - m;
            let target = self.get_index(x, l);
            proof {
                lemma2_to64();
                if self.l < 30 {
                    lemma_pow2_strictly_increases((self.l + 1) as nat, 31);
                }
            }
            let ghost before = self.stash@;
            let mut bucket = self.evict_bucket(x, l);
            let ghost bv = bucket@;
            let ghost prev = blocks@;
            indices.push(target as i32);
            blocks.append(&mut bucket);
            proof {
                assert(indices@ =~= path_leaf_first(depth, x as nat).take(m + 1));
                assert(blocks@ == prev + bv);
                lemma_add_contains(prev, bv);
                assert(blocks@.len() == (m + 1) * zi) by (nonlinear_arith)
                    requires
                        blocks@.len() == prev.len() + bv.len(),
                        prev.len() == m * zi,
                        bv.len() == zi,
                ;
                assert forall|p: int| 0 <= p < blocks@.len() implies #[trigger] blocks@[p]
                    == empty_block() || (orig.contains(blocks@[p]) && on_path(
                    depth,
                    x as nat,
                    (depth - p / zi) as nat,
                    self.pmap@[blocks@[p].index as int] as nat,
                )) by {
                    if p < prev.len() {
                        assert(blocks@[p] == prev[p]);
                    } else {
                        let j = p - prev.len();
                        assert(blocks@[p] == bv[j]);
                        lemma_div_run(m as int, zi, j);
                        assert(p == m * zi + j);
                        if bv[j] != empty_block() {
                            assert(before.contains(bv[j]));
                        }
                    }
                }
                assert forall|e: Block| orig.contains(e) implies #[trigger] self.stash@.contains(e)
                    || blocks@.contains(e) by {
                    if !prev.contains(e) {
                        assert(before.contains(e));
                    }
                }
                assert forall|k1: int, k2: int|
                    0 <= k1 < blocks@.len() && 0 <= k2 < blocks@.len() && k1 != k2
                        && blocks@[k1].index != EMPTY implies (#[trigger] blocks@[k1]).index != (
                    #[trigger] blocks@[k2]).index by {
                    if k1 >= prev.len() && k2 < prev.len() {
                        let j = k1 - prev.len();
                        assert(blocks@[k1] == bv[j]);
                        assert(before.contains(bv[j]));
                        let kk = choose|kk: int| 0 <= kk < before.len() && before[kk] == bv[j];
                        assert(before[kk].index != prev[k2].index);
                    } else if k1 < prev.len() && k2 >= prev.len() {
                        let j = k2 - prev.len();
                        assert(blocks@[k2] == bv[j]);
                        if bv[j].index != EMPTY {
                            assert(before.contains(bv[j]));
                            let kk = choose|kk: int| 0 <= kk < before.len() && before[kk] == bv[j];
                            assert(before[kk].index != prev[k1].index);
                        }
                    } else if k1 >= prev.len() && k2 >= prev.len() {
                        assert(blocks@[k1] == bv[k1 - prev.len()]);
                        assert(blocks@[k2] == bv[k2 - prev.len()]);
                    } else {
                        assert(blocks@[k1] == prev[k1]);
                        assert(blocks@[k2] == prev[k2]);
                    }
                }
                assert forall|k: int, p: int|
                    0 <= k < self.stash@.len() && 0 <= p < blocks@.len() implies (
                    #[trigger] self.stash@[k]).index != (#[trigger] blocks@[p]).index by {
                    if p < prev.len() {
                        assert(self.stash@.contains(self.stash@[k]));
                        assert(before.contains(self.stash@[k]));
                        let kk = choose|kk: int| 0 <= kk < before.len() && before[kk] == self.stash@[k];
                        assert(before[kk].index != prev[p].index);
                        assert(blocks@[p] == prev[p]);
                    } else {
                        assert(blocks@[p] == bv[p - prev.len()]);
                    }
                }
                assert forall|e: Block, lv: nat|
                    #![trigger self.stash@.contains(e), on_path(depth, x as nat, lv, self.pmap@[e.index as int] as nat)]
                    self.stash@.contains(e) && lv <= depth && depth - lv < m + 1 && on_path(
                        depth,
                        x as nat,
                        lv,
                        self.pmap@[e.index as int] as nat,
                    ) implies level_full(blocks@, depth, lv, zi) by {
                    assert(before.contains(e));
                    if depth - lv < m {
                        assert(level_full(prev, depth, lv, zi));
                        assert forall|p: int|
                            (depth - lv) * zi <= p < (depth - lv) * zi + zi implies (
                            #[trigger] blocks@[p]).index != EMPTY by {
                            assert((depth - lv) * zi + zi <= m * zi) by (nonlinear_arith)
                                requires
                                    depth - lv < m,
                                    zi > 0,
                            ;
                            assert(blocks@[p] == prev[p]);
                        }
                    } else {
                        assert(lv == l);
                        assert forall|p: int|
                            (depth - lv) * zi <= p < (depth - lv) * zi + zi implies (
                            #[trigger] blocks@[p]).index != EMPTY by {
                            assert(blocks@[p] == bv[p - prev.len()]);
                        }
                    }
                }
            }
            m = m + 1;
        }
        proof {
            assert(indices@ =~= path_leaf_first(depth, x as nat));
        }
        WriteBlockRequest { indices, blocks }
    }
}

impl PathORAMHandler {
    /// `b` is a block of an address that was written, with its current value.
    pub closed spec fn tag_ok(&self, b: Block) -> bool {
        &&& 0 <= b.index < self.n
        &&& self.mem@.contains_key(b.index as int)
        &&& self.mem@[b.index as int] == b.value
    }

    /// Every occupied slot of `tree` holds a current block that lies on the
    /// path of the leaf its address is mapped to.
    pub closed spec fn tree_ok(&self, tree: Seq<Seq<Block>>) -> bool {
        forall|i: int, j: int|
            0 <= i < tree.len() && 0 <= j < tree[i].len() && (#[trigger] tree[i][j]).index != EMPTY
                ==> self.tag_ok(tree[i][j]) && on_tree_path(
                self.l as nat,
                self.pmap@[tree[i][j].index as int] as nat,
                i,
            )
    }

    /// The handler and the store together hold the logical memory: each
    /// written address has its block in the stash or on the path of its leaf,
    /// and every copy anywhere carries the current value.
    pub closed spec fn inv(&self, store: &MyPathOram) -> bool {
        &&& self.shape_ok()
        &&& self.pmap@.len() == self.n
        &&& self.n <= self.num_leaves
        &&& store.wf()
        &&& store.bucket_size() == self.z
        &&& store.buckets().len() == num_buckets(self.l as nat)
        &&& self.stash_tags_in_range()
        &&& forall|k: int| 0 <= k < self.stash@.len() ==> self.tag_ok(#[trigger] self.stash@[k])
        &&& self.tree_ok(store.buckets())
        &&& distinct_tags(self.stash@)
        &&& tree_distinct(store.buckets())
        &&& stash_tree_disjoint(self.stash@, store.buckets())
        &&& forall|t: int|
            #[trigger] self.mem@.contains_key(t) ==> 0 <= t < self.n && (has_tag(self.stash@, t)
                || in_tree(store.buckets(), t))
    }
}

/// The path of leaf `x` names exactly the buckets that lie on it, each once.
proof fn lemma_path_facts(depth: nat, x: nat)
    requires
        depth <= MAX_DEPTH,
        x < pow2(depth),
    ensures
        all_in_range(path_root_first(depth, x), num_buckets(depth)),
        all_in_range(path_leaf_first(depth, x), num_buckets(depth)),
        forall|k1: int, k2: int|
            0 <= k1 <= depth && 0 <= k2 <= depth && k1 != k2 ==> #[trigger] path_leaf_first(
                depth,
                x,
            )[k1] != #[trigger] path_leaf_first(depth, x)[k2],
        forall|i: int|
            on_tree_path(depth, x, i) <==> exists|k: int|
                0 <= k <= depth && #[trigger] path_leaf_first(depth, x)[k] == i,
        forall|l: int| 0 <= l <= depth ==> #[trigger] path_root_first(depth, x)[l] == bucket_index(depth, x, l as nat),
        forall|k: int| 0 <= k <= depth ==> #[trigger] path_leaf_first(depth, x)[k] == bucket_index(depth, x, (depth - k) as nat),
{
    lemma2_to64();
    if depth < 30 {
        lemma_pow2_strictly_increases((depth + 1) as nat, 31);
    }
    assert forall|l: nat| l <= depth implies 0 <= #[trigger] bucket_index(depth, x, l) < num_buckets(
        depth,
    ) && bucket_index(depth, x, l) < 0x8000_0000 by {
        lemma_level_range(depth, x, l);
        vstd::arithmetic::power2::lemma_pow2_pos(l);
    }
    assert forall|k: int| 0 <= k <= depth implies #[trigger] path_leaf_first(depth, x)[k]
        == bucket_index(depth, x, (depth - k) as nat) by {
        let l = (depth - k) as nat;
        assert(0 <= bucket_index(depth, x, l) < 0x8000_0000);
    }
    assert forall|l: int| 0 <= l <= depth implies #[trigger] path_root_first(depth, x)[l]
        == bucket_index(depth, x, l as nat) by {
        assert(0 <= bucket_index(depth, x, l as nat) < 0x8000_0000);
    }
    assert(all_in_range(path_root_first(depth, x), num_buckets(depth))) by {
        assert forall|k: int| 0 <= k < path_root_first(depth, x).len() implies 0
            <= #[trigger] path_root_first(depth, x)[k] < num_buckets(depth) by {
            assert(0 <= bucket_index(depth, x, k as nat) < num_buckets(depth));
        }
    }
    assert(all_in_range(path_leaf_first(depth, x), num_buckets(depth))) by {
        assert forall|k: int| 0 <= k < path_leaf_first(depth, x).len() implies 0
            <= #[trigger] path_leaf_first(depth, x)[k] < num_buckets(depth) by {
            assert(0 <= bucket_index(depth, x, (depth - k) as nat) < num_buckets(depth));
        }
    }
    assert forall|k1: int, k2: int|
        0 <= k1 <= depth && 0 <= k2 <= depth && k1 != k2 implies #[trigger] path_leaf_first(
        depth,
        x,
    )[k1] != #[trigger] path_leaf_first(depth, x)[k2] by {
        lemma_path_distinct(depth, x, (depth - k1) as nat, (depth - k2) as nat);
    }
    assert forall|i: int|
        on_tree_path(depth, x, i) <==> exists|k: int|
            0 <= k <= depth && #[trigger] path_leaf_first(depth, x)[k] == i by {
        if on_tree_path(depth, x, i) {
            let l = choose|l: nat| l <= depth && i == #[trigger] bucket_index(depth, x, l);
            assert(path_leaf_first(depth, x)[depth - l] == i);
        }
        if exists|k: int| 0 <= k <= depth && #[trigger] path_leaf_first(depth, x)[k] == i {
            let k = choose|k: int| 0 <= k <= depth && #[trigger] path_leaf_first(depth, x)[k] == i;
            assert(i == bucket_index(depth, x, (depth - k) as nat));
        }
    }
}

/// An optional `i32` read as an optional integer.
pub open spec fn opt_int(o: Option<i32>) -> Option<int> {
    match o {
        Some(v) => Some(v as int),
        None => None,
    }
}

/// The logical memory after an access that stores `update`, if any, at `a`.
pub open spec fn after_access(m: Map<int, int>, a: int, update: Option<i32>) -> Map<int, int> {
    match update {
        Some(v) => m.insert(a, v as int),
        None => m,
    }
}

impl PathORAMHandler {
    /// First half of an access to `a`: returns the leaf `x` that `a` was
    /// mapped to and the path to read, root first; `a` is mapped to a fresh
    /// random leaf before anything is read.
    pub fn begin_access(&mut self, a: i32) -> (r: (u32, Vec<i32>))
        requires
            old(self).shape_ok(),
            0 <= a < old(self).position_map().len(),
        ensures
            r.0 == old(self).position_map()[a as int],
            r.0 < pow2(old(self).depth()),
            r.1@ == path_root_first(old(self).depth(), r.0 as nat),
            final(self).position_map() == old(self).position_map().update(
                a as int,
                final(self).position_map()[a as int],
            ),
            final(self).position_map()[a as int] < pow2(old(self).depth()),
            final(self).stash_blocks() == old(self).stash_blocks(),
            final(self).contents() == old(self).contents(),
            final(self).depth() == old(self).depth(),
            final(self).bucket_capacity() == old(self).bucket_capacity(),
            final(self).num_slots() == old(self).num_slots(),
            final(self).shape_ok(),
            final(self).same_except_map(*old(self)),
    {
        let x = self.pmap[a as usize];
        proof {
            lemma2_to64();
            if self.l < 30 {
                lemma_pow2_strictly_increases(self.l as nat, 30);
            }
        }
        let leaf = draw_leaf(&mut self.rng, self.num_leaves);
        self.pmap.set(a as usize, leaf);
        let indices = self.path_indices(x);
        (x, indices)
    }

    /// Second half of an access to `a`, given the blocks read from the path to
    /// leaf `x`: moves them into the stash, stores `update` at `a` if given,
    /// and returns the value `a` held with the write-back of that path (leaf
    /// first, `z` slots per bucket).
    pub fn finish_access(&mut self, x: u32, blocks: &Vec<Block>, a: i32, update: Option<i32>) -> (r: (
        Option<i32>,
        WriteBlockRequest,
    ))
        requires
            old(self).shape_ok(),
            old(self).stash_tags_in_range(),
            distinct_tags(old(self).stash_blocks()),
            x < pow2(old(self).depth()),
            0 <= a < old(self).position_map().len(),
            forall|k: int|
                0 <= k < blocks@.len() && (#[trigger] blocks@[k]).index != EMPTY ==> 0
                    <= blocks@[k].index < old(self).position_map().len(),
        ensures
            r.1.indices@ == path_leaf_first(old(self).depth(), x as nat),
            r.1.blocks@.len() == (old(self).depth() + 1) * old(self).bucket_capacity(),
            r.0 matches Some(w) ==> old(self).stash_blocks().contains(Block { index: a, value: w })
                || blocks@.contains(Block { index: a, value: w }),
            r.0 is None ==> !has_tag(old(self).stash_blocks(), a as int) && !has_tag(
                blocks@,
                a as int,
            ),
            final(self).contents() == after_access(old(self).contents(), a as int, update),
            final(self).position_map() == old(self).position_map(),
            final(self).depth() == old(self).depth(),
            final(self).bucket_capacity() == old(self).bucket_capacity(),
            final(self).num_slots() == old(self).num_slots(),
            final(self).shape_ok(),
            final(self).stash_tags_in_range(),
            distinct_tags(final(self).stash_blocks()),
    {
        let ghost s0 = self.stash@;
        self.update_stash(blocks);
        let ghost s1 = self.stash@;
        let out = match update {
            None => self.stash_get(a),
            Some(v) => {
                let o = self.stash_insert(a, v);
                self.mem = Ghost(self.mem@.insert(a as int, v as int));
                o
            },
        };
        proof {
            match out {
                Some(w) => {
                    assert(s1.contains(Block { index: a, value: w }));
                },
                None => {
                    if has_tag(blocks@, a as int) {
                        let k = choose|k: int| 0 <= k < blocks@.len() && (#[trigger] blocks@[k]).index == a;
                        assert(has_tag(s1, a as int));
                    }
                },
            }
            assert forall|k: int| 0 <= k < self.stash@.len() implies 0 <= (#[trigger] self.stash@[k]).index
                < self.pmap@.len() by {
                let e = self.stash@[k];
                assert(self.stash@.contains(e));
                if e.index != a {
                    assert(s1.contains(e));
                    if s0.contains(e) {
                        let i = choose|i: int| 0 <= i < s0.len() && s0[i] == e;
                    } else {
                        let i = choose|i: int| 0 <= i < blocks@.len() && blocks@[i] == e;
                    }
                }
            }
        }
        let req = self.write_back_stash(x);
        (out, req)
    }

    /// One logical access: reads the path of the leaf `a` is mapped to,
    /// remaps `a` to a fresh random leaf, stores `update` at `a` if given, and
    /// writes the path back. Returns the value `a` held before.
    #[verifier::rlimit(100)]
    #[verifier::spinoff_prover]
    fn access(&mut self, store: &mut MyPathOram, a: u32, update: Option<i32>) -> (r: Result<
        Option<i32>,
        StoreError,
    >)
        requires
            old(self).inv(old(store)),
            a < old(self).n,
        ensures
            final(self).inv(final(store)),
            r matches Ok(o) && opt_int(o) == lookup(old(self).mem@, a as int),
            final(self).mem@ == after_access(old(self).mem@, a as int, update),
            final(self).n == old(self).n,
            final(self).l == old(self).l,
            final(self).z == old(self).z,
            final(self).pmap@ == old(self).pmap@.update(a as int, final(self).pmap@[a as int]),
            final(store).buckets().len() == old(store).buckets().len(),
            forall|i: int|
                0 <= i < old(store).buckets().len() && !on_tree_path(
                    old(self).l as nat,
                    old(self).pmap@[a as int] as nat,
                    i,
                ) ==> #[trigger] final(store).buckets()[i] == old(store).buckets()[i],
            final(self).pmap@[a as int] < pow2(old(self).l as nat),
            exists|w: Seq<Block>|
                w.len() == (old(self).l + 1) * old(self).z && #[trigger] scatter(
                    old(store).buckets(),
                    path_leaf_first(old(self).l as nat, old(self).pmap@[a as int] as nat),
                    w,
                    old(self).z as nat,
                ) == final(store).buckets(),
    {
        let ghost t0 = store.buckets();
        let ghost mem0 = self.mem@;
        let ghost pmap0 = self.pmap@;
        let ghost depth = self.l as nat;
        let ghost zn = self.z as nat;
        proof {
            lemma2_to64();
            if self.l < 30 {
                lemma_pow2_strictly_increases(self.l as nat, 30);
            }
            assert(a < 0x4000_0000);
            assert((a as i32) as int == a as int);
        }
        let (x, indices) = self.begin_access(a as i32);
        proof {
            lemma_path_facts(depth, x as nat);
            lemma_gather(t0, indices@, zn);
        }
        let blocks = match store.read_block(&indices) {
            Ok(b) => b,
            Err(e) => {
                return Err(e);
            },
        };
        let ghost rb = blocks@;
        let ghost s0 = self.stash@;
        self.update_stash(&blocks);
        let ghost s1 = self.stash@;
        let ghost h1 = *self;
        proof {
            // blocks read from the path were current copies
            assert forall|p: int| 0 <= p < rb.len() && (#[trigger] rb[p]).index != EMPTY implies self.tag_ok(
                rb[p],
            ) by {
                let k = p / (zn as int);
                let j = p % (zn as int);
                vstd::arithmetic::div_mod::lemma_fundamental_div_mod(p, zn as int);
                assert(0 <= k < depth + 1) by (nonlinear_arith)
                    requires
                        p == zn * k + j,
                        0 <= j < zn,
                        0 <= p < (depth + 1) * zn,
                        zn > 0,
                ;
                assert(p == k * zn + j) by (nonlinear_arith)
                    requires
                        p == zn * k + j,
                ;
                assert(rb[p] == t0[indices@[k] as int][j]);
            }
            assert forall|e: Block| #[trigger] s1.contains(e) implies h1.tag_ok(e) by {
                if s0.contains(e) {
                    let i = choose|i: int| 0 <= i < s0.len() && s0[i] == e;
                    assert(self.tag_ok(s0[i]));
                } else {
                    assert(self.stash_blocks().contains(e));
                    let p = choose|p: int| 0 <= p < rb.len() && rb[p] == e;
                    assert(self.tag_ok(rb[p]));
                }
            }
            // every written address is now in the stash or off the path
            assert forall|t: int| #[trigger] mem0.contains_key(t) implies has_tag(s1, t) || exists|
                i: int,
                j: int,
            |
                0 <= i < t0.len() && 0 <= j < t0[i].len() && !on_tree_path(depth, x as nat, i) && (
                #[trigger] t0[i][j]).index == t by {
                if has_tag(s0, t) {
                    assert(has_tag(self.stash_blocks(), t));
                } else {
                    assert(in_tree(t0, t));
                    let (i, j) = choose|i: int, j: int|
                        0 <= i < t0.len() && 0 <= j < t0[i].len() && (#[trigger] t0[i][j]).index == t;
                    if on_tree_path(depth, x as nat, i) {
                        let l = choose|l: nat| l <= depth && i == #[trigger] bucket_index(depth, x as nat, l);
                        assert(indices@[l as int] == i);
                        assert(0 <= l * zn + j < rb.len()) by (nonlinear_arith)
                            requires
                                l <= depth,
                                0 <= j < zn,
                                rb.len() == (depth + 1) * zn,
                        ;
                        assert(rb[l * zn + j] == t0[i][j]);
                        assert(rb[l * zn + j].index != EMPTY);
                        assert(has_tag(s1, rb[l * zn + j].index as int));
                    }
                }
            }
        }
        let out = match update {
            None => self.stash_get(a as i32),
            Some(v) => {
                let o = self.stash_insert(a as i32, v);
                self.mem = Ghost(self.mem@.insert(a as int, v as int));
                o
            },
        };
        let ghost s2 = self.stash@;
        proof {
            // the value returned is the one the memory held
            if mem0.contains_key(a as int) {
                if !has_tag(s1, a as int) {
                    let (i, j) = choose|i: int, j: int|
                        0 <= i < t0.len() && 0 <= j < t0[i].len() && !on_tree_path(depth, x as nat, i)
                            && (#[trigger] t0[i][j]).index == a as int;
                    assert(on_tree_path(depth, pmap0[a as int] as nat, i));
                }
            }
            match out {
                Some(w) => {
                    assert(s1.contains(Block { index: a as i32, value: w }));
                },
                None => {},
            }
            // the stash entries are current and name addresses in range
            assert forall|e: Block| #[trigger] s2.contains(e) implies self.tag_ok(e) by {
                assert(self.stash@.contains(e));
                if e.index != a as i32 || update is None {
                    assert(s1.contains(e));
                    assert(h1.tag_ok(e));
                } else {
                    let k = choose|k: int| 0 <= k < s2.len() && s2[k] == e;
                    assert(s2[k].index == a as i32);
                }
            }
            assert forall|k: int| 0 <= k < s2.len() implies 0 <= (#[trigger] s2[k]).index
                < self.pmap@.len() by {
                assert(s2.contains(s2[k]));
            }
            assert(distinct_tags(s1)) by {
                assert(distinct_tags(h1.stash_blocks()));
            }
            // tags of the stash never occur off the path
            assert forall|k: int, i: int, j: int|
                0 <= k < s2.len() && 0 <= i < t0.len() && 0 <= j < t0[i].len() && !on_tree_path(
                    depth,
                    x as nat,
                    i,
                ) implies (#[trigger] s2[k]).index != (#[trigger] t0[i][j]).index by {
                let e = s2[k];
                assert(s2.contains(e));
                if t0[i][j].index != EMPTY {
                    assert(old(self).tag_ok(t0[i][j]) && on_tree_path(
                        depth,
                        pmap0[t0[i][j].index as int] as nat,
                        i,
                    ));
                    if e.index != a as i32 || update is None {
                        assert(s1.contains(e));
                        assert(h1.stash_blocks().contains(e));
                        if s0.contains(e) {
                            let kk = choose|kk: int| 0 <= kk < s0.len() && s0[kk] == e;
                            assert(s0[kk].index != t0[i][j].index);
                        } else {
                            let p = choose|p: int| 0 <= p < rb.len() && rb[p] == e;
                            let kp = p / (zn as int);
                            let jp = p % (zn as int);
                            vstd::arithmetic::div_mod::lemma_fundamental_div_mod(p, zn as int);
                            assert(0 <= kp < depth + 1) by (nonlinear_arith)
                                requires
                                    p == zn * kp + jp,
                                    0 <= jp < zn,
                                    0 <= p < (depth + 1) * zn,
                                    zn > 0,
                            ;
                            assert(p == kp * zn + jp) by (nonlinear_arith)
                                requires
                                    p == zn * kp + jp,
                            ;
                            let ip = indices@[kp] as int;
                            assert(rb[p] == t0[ip][jp]);
                            assert(ip == bucket_index(depth, x as nat, kp as nat));
                            assert(on_tree_path(depth, x as nat, ip));
                            assert(ip != i);
                            assert(t0[ip][jp].index != t0[i][j].index);
                        }
                    }
                }
            }
        }
        let req = self.write_back_stash(x);
        let ghost bl = req.blocks@;
        let ghost il = req.indices@;
        let ghost s3 = self.stash@;
        proof {
            assert(bl.len() == il.len() * zn);
        }
        match store.write_block(req.indices, req.blocks) {
            Ok(()) => {},
            Err(e) => {
                return Err(e);
            },
        }
        let ghost t1 = store.buckets();
        proof {
            assert(scatter(t0, il, bl, zn) == t1);
            lemma_scatter(t0, il, bl, zn);
            assert forall|i: int|
                0 <= i < t0.len() && !on_tree_path(depth, x as nat, i) implies #[trigger] t1[i] == t0[i] by {
                assert forall|k: int| 0 <= k < il.len() implies il[k] != i by {
                    if il[k] == i {
                        assert(exists|k: int| 0 <= k <= depth && #[trigger] path_leaf_first(depth, x as nat)[k] == i);
                    }
                }
            }
            // a block placed by the write-back
            assert forall|p: int| 0 <= p < bl.len() implies 0 <= p / (zn as int) <= depth && 0 <= p
                % (zn as int) < zn && t1[il[p / (zn as int)] as int][p % (zn as int)]
                == #[trigger] bl[p] && t1[il[p / (zn as int)] as int].len() == zn && 0 <= il[p / (
            zn as int)] < t1.len() by {
                let k = p / (zn as int);
                let j = p % (zn as int);
                vstd::arithmetic::div_mod::lemma_fundamental_div_mod(p, zn as int);
                assert(0 <= k < depth + 1) by (nonlinear_arith)
                    requires
                        p == zn * k + j,
                        0 <= j < zn,
                        0 <= p < (depth + 1) * zn,
                        zn > 0,
                ;
                assert(p == k * zn + j) by (nonlinear_arith)
                    requires
                        p == zn * k + j,
                ;
                assert(bl.len() == (depth + 1) * zn);
                assert(0 <= k <= depth);
                assert(0 <= il[k] < t1.len());
                assert(t1[il[k] as int] == bl.subrange(k * zn, k * zn + zn));
                assert(k * zn + zn <= bl.len()) by (nonlinear_arith)
                    requires
                        0 <= k <= depth,
                        bl.len() == (depth + 1) * zn,
                ;
                assert(t1[il[k] as int][j] == bl[p]);
            }
            // the tree holds current blocks on their leaves' paths
            assert forall|i: int, j: int|
                0 <= i < t1.len() && 0 <= j < t1[i].len() && (#[trigger] t1[i][j]).index != EMPTY implies self.tag_ok(
                t1[i][j],
            ) && on_tree_path(depth, self.pmap@[t1[i][j].index as int] as nat, i) by {
                if on_tree_path(depth, x as nat, i) {
                    let k = choose|k: int| 0 <= k <= depth && #[trigger] path_leaf_first(depth, x as nat)[k] == i;
                    assert(t1[i] == bl.subrange(k * zn, k * zn + zn));
                    lemma_div_run(k, zn as int, j);
                    let b = bl[k * zn + j];
                    assert(0 <= k * zn + j < bl.len()) by (nonlinear_arith)
                        requires
                            0 <= k <= depth,
                            0 <= j < zn,
                            bl.len() == (depth + 1) * zn,
                    ;
                    assert(k * zn + zn <= bl.len()) by (nonlinear_arith)
                        requires
                            0 <= k <= depth,
                            bl.len() == (depth + 1) * zn,
                    ;
                    assert(t1[i][j] == b);
                    assert(b != empty_block());
                    assert(s2.contains(b));
                    let lv = (depth - k) as nat;
                    lemma_on_path_same_bucket(depth, x as nat, lv, self.pmap@[b.index as int] as nat);
                    assert(i == bucket_index(depth, self.pmap@[b.index as int] as nat, lv));
                } else {
                    assert(t1[i] == t0[i]);
                    let t = t0[i][j].index;
                    assert(old(self).tag_ok(t0[i][j]) && on_tree_path(
                        depth,
                        pmap0[t as int] as nat,
                        i,
                    ));
                    assert(t != a as i32);
                    assert(self.pmap@[t as int] == pmap0[t as int]);
                }
            }
            // where a slot of the new tree came from
            assert forall|i: int, j: int|
                0 <= i < t1.len() && 0 <= j < t1[i].len() && on_tree_path(
                    depth,
                    x as nat,
                    i,
                ) implies exists|p: int|
                0 <= p < bl.len() && p % (zn as int) == j && il[p / (zn as int)] == i
                    && #[trigger] t1[i][j] == bl[p] by {
                let k = choose|k: int| 0 <= k <= depth && #[trigger] path_leaf_first(depth, x as nat)[k] == i;
                lemma_div_run(k, zn as int, j);
                assert(0 <= k * zn + j < bl.len()) by (nonlinear_arith)
                    requires
                        0 <= k <= depth,
                        0 <= j < zn,
                        bl.len() == (depth + 1) * zn,
                ;
                assert(k * zn + zn <= bl.len()) by (nonlinear_arith)
                    requires
                        0 <= k <= depth,
                        bl.len() == (depth + 1) * zn,
                ;
                assert(t1[i] == bl.subrange(k * zn, k * zn + zn));
                assert(t1[i][j] == bl[k * zn + j]);
            }
            assert forall|i: int, j: int|
                0 <= i < t1.len() && 0 <= j < t1[i].len() && !on_tree_path(depth, x as nat, i)
                    implies #[trigger] t1[i][j] == t0[i][j] by {
                assert(t1[i] == t0[i]);
            }
            assert(tree_distinct(t1)) by {
                assert forall|i1: int, j1: int, i2: int, j2: int|
                    0 <= i1 < t1.len() && 0 <= j1 < t1[i1].len() && 0 <= i2 < t1.len() && 0 <= j2
                        < t1[i2].len() && (i1 != i2 || j1 != j2) && t1[i1][j1].index != EMPTY
                        implies (#[trigger] t1[i1][j1]).index != (#[trigger] t1[i2][j2]).index by {
                    let on1 = on_tree_path(depth, x as nat, i1);
                    let on2 = on_tree_path(depth, x as nat, i2);
                    if on1 && on2 {
                        let p1 = choose|p: int|
                            0 <= p < bl.len() && p % (zn as int) == j1 && il[p / (zn as int)] == i1
                                && #[trigger] t1[i1][j1] == bl[p];
                        let p2 = choose|p: int|
                            0 <= p < bl.len() && p % (zn as int) == j2 && il[p / (zn as int)] == i2
                                && #[trigger] t1[i2][j2] == bl[p];
                        assert(p1 != p2);
                    } else if on1 && !on2 {
                        let p1 = choose|p: int|
                            0 <= p < bl.len() && p % (zn as int) == j1 && il[p / (zn as int)] == i1
                                && #[trigger] t1[i1][j1] == bl[p];
                        assert(bl[p1] != empty_block());
                        assert(s2.contains(bl[p1]));
                        let kk = choose|kk: int| 0 <= kk < s2.len() && s2[kk] == bl[p1];
                        assert(s2[kk].index != t0[i2][j2].index);
                    } else if !on1 && on2 {
                        let p2 = choose|p: int|
                            0 <= p < bl.len() && p % (zn as int) == j2 && il[p / (zn as int)] == i2
                                && #[trigger] t1[i2][j2] == bl[p];
                        if bl[p2].index != EMPTY {
                            assert(bl[p2] != empty_block());
                            assert(s2.contains(bl[p2]));
                            let kk = choose|kk: int| 0 <= kk < s2.len() && s2[kk] == bl[p2];
                            assert(s2[kk].index != t0[i1][j1].index);
                        }
                    } else {
                        assert(t1[i1][j1] == t0[i1][j1]);
                        assert(t1[i2][j2] == t0[i2][j2]);
                    }
                }
            }
            assert(stash_tree_disjoint(s3, t1)) by {
                assert forall|k: int, i: int, j: int|
                    0 <= k < s3.len() && 0 <= i < t1.len() && 0 <= j < t1[i].len() implies (
                    #[trigger] s3[k]).index != (#[trigger] t1[i][j]).index by {
                    if on_tree_path(depth, x as nat, i) {
                        let p = choose|p: int|
                            0 <= p < bl.len() && p % (zn as int) == j && il[p / (zn as int)] == i
                                && #[trigger] t1[i][j] == bl[p];
                        assert(self.stash_blocks()[k].index != bl[p].index);
                    } else {
                        assert(t1[i][j] == t0[i][j]);
                        assert(s3.contains(s3[k]));
                        assert(self.stash_blocks().contains(s3[k]));
                        let kk = choose|kk: int| 0 <= kk < s2.len() && s2[kk] == s3[k];
                        assert(s2[kk].index != t0[i][j].index);
                    }
                }
            }
            // the stash holds current blocks
            assert forall|k: int| 0 <= k < s3.len() implies self.tag_ok(#[trigger] s3[k]) by {
                assert(s3.contains(s3[k]));
                assert(self.stash_blocks().contains(s3[k]));
            }
            // every written address is somewhere
            assert forall|t: int| #[trigger] self.mem@.contains_key(t) implies 0 <= t < self.n && (has_tag(s3, t)
                || in_tree(t1, t)) by {
                if update is Some && t == a as int {
                    let v = update.unwrap();
                    assert(s2.contains(Block { index: a as i32, value: v }));
                    let k = choose|k: int| 0 <= k < s2.len() && s2[k] == Block { index: a as i32, value: v };
                    assert(s2[k].index == t);
                }
                if has_tag(s2, t) {
                    let k = choose|k: int| 0 <= k < s2.len() && (#[trigger] s2[k]).index == t;
                    let e = s2[k];
                    assert(s2.contains(e));
                    assert(self.stash_blocks().contains(e) || bl.contains(e));
                    if s3.contains(e) {
                        let k3 = choose|k3: int| 0 <= k3 < s3.len() && s3[k3] == e;
                        assert(s3[k3].index == t);
                    } else {
                        let p = choose|p: int| 0 <= p < bl.len() && bl[p] == e;
                        let kk = p / (zn as int);
                        let jj = p % (zn as int);
                        assert(t1[il[kk] as int][jj] == bl[p]);
                    }
                    assert(self.tag_ok(e));
                } else {
                    assert(t != a as int || update is None);
                    assert(mem0.contains_key(t));
                    if has_tag(s1, t) {
                        let k = choose|k: int| 0 <= k < s1.len() && (#[trigger] s1[k]).index == t;
                        assert(s1.contains(s1[k]));
                        assert(t != a as int);
                        assert(s2.contains(s1[k]));
                        let k2 = choose|k2: int| 0 <= k2 < s2.len() && s2[k2] == s1[k];
                        assert(s2[k2].index == t);
                    } else {
                        let (i, j) = choose|i: int, j: int|
                            0 <= i < t0.len() && 0 <= j < t0[i].len() && !on_tree_path(depth, x as nat, i)
                                && (#[trigger] t0[i][j]).index == t;
                        assert(t1[i] == t0[i]);
                        assert(t1[i][j].index == t);
                    }
                }
            }
        }
        Ok(out)
    }
}

/// The logical memory right after `setup(data)`: address `a` holds `data[a]`.
pub open spec fn initial_contents(data: Seq<i32>) -> Map<int, int> {
    Map::new(|a: int| 0 <= a < data.len(), |a: int| data[a] as int)
}

impl PathORAMHandler {
    /// Asks the store for a fresh tree of `num_layers` levels of buckets of
    /// `bucket_size` slots; returns whether it accepted.
    pub fn initialize_server(&mut self, store: &mut MyPathOram, num_layers: i32, bucket_size: i32) -> (r:
        bool)
        ensures
            r == valid_config(num_layers, bucket_size),
            r ==> final(store).wf() && final(store).bucket_size() == bucket_size
                && final(store).buckets() == crate::store::empty_tree(
                (pow2(num_layers as nat) - 1) as nat,
                bucket_size as nat,
            ),
            !r ==> *final(store) == *old(store),
            *final(self) == *old(self),
    {
        store.setup(num_layers, bucket_size)
    }

    /// The value stored at `a`, or `None` if `a` was never written. Reads the
    /// path that `begin_access` returns (the one of the leaf `a` held before
    /// the call) and writes that path back, leaf first, `(L+1)*Z` blocks; `a`
    /// moves to a fresh random leaf.
    pub fn read(&mut self, store: &mut MyPathOram, a: i32) -> (r: Option<i32>)
        requires
            old(self).inv(old(store)),
            0 <= a < old(self).num_slots(),
        ensures
            final(self).inv(final(store)),
            opt_int(r) == lookup(old(self).contents(), a as int),
            final(self).contents() == old(self).contents(),
            final(self).num_slots() == old(self).num_slots(),
            final(self).depth() == old(self).depth(),
            final(self).bucket_capacity() == old(self).bucket_capacity(),
            final(self).position_map() == old(self).position_map().update(
                a as int,
                final(self).position_map()[a as int],
            ),
            final(store).buckets().len() == old(store).buckets().len(),
            forall|i: int|
                0 <= i < old(store).buckets().len() && !on_tree_path(
                    old(self).depth(),
                    old(self).position_map()[a as int] as nat,
                    i,
                ) ==> #[trigger] final(store).buckets()[i] == old(store).buckets()[i],
            final(self).position_map()[a as int] < pow2(old(self).depth()),
            exists|w: Seq<Block>|
                w.len() == (old(self).depth() + 1) * old(self).bucket_capacity() && #[trigger] scatter(
                    old(store).buckets(),
                    path_leaf_first(old(self).depth(), old(self).position_map()[a as int] as nat),
                    w,
                    old(self).bucket_capacity() as nat,
                ) == final(store).buckets(),
    {
        match self.access(store, a as u32, None) {
            Ok(o) => o,
            Err(_) => None,
        }
    }

    /// Stores `data` at `a`; returns the value `a` held before, if any. Reads
    /// the path that `begin_access` returns (the one of the leaf `a` held
    /// before the call) and writes that path back, leaf first, `(L+1)*Z`
    /// blocks; `a` moves to a fresh random leaf.
    pub fn write(&mut self, store: &mut MyPathOram, a: i32, data: i32) -> (r: Option<i32>)
        requires
            old(self).inv(old(store)),
            0 <= a < old(self).num_slots(),
        ensures
            final(self).inv(final(store)),
            opt_int(r) == lookup(old(self).contents(), a as int),
            final(self).contents() == old(self).contents().insert(a as int, data as int),
            final(self).num_slots() == old(self).num_slots(),
            final(self).depth() == old(self).depth(),
            final(self).bucket_capacity() == old(self).bucket_capacity(),
            final(self).position_map() == old(self).position_map().update(
                a as int,
                final(self).position_map()[a as int],
            ),
            final(store).buckets().len() == old(store).buckets().len(),
            forall|i: int|
                0 <= i < old(store).buckets().len() && !on_tree_path(
                    old(self).depth(),
                    old(self).position_map()[a as int] as nat,
                    i,
                ) ==> #[trigger] final(store).buckets()[i] == old(store).buckets()[i],
            final(self).position_map()[a as int] < pow2(old(self).depth()),
            exists|w: Seq<Block>|
                w.len() == (old(self).depth() + 1) * old(self).bucket_capacity() && #[trigger] scatter(
                    old(store).buckets(),
                    path_leaf_first(old(self).depth(), old(self).position_map()[a as int] as nat),
                    w,
                    old(self).bucket_capacity() as nat,
                ) == final(store).buckets(),
    {
        match self.access(store, a as u32, Some(data)) {
            Ok(o) => o,
            Err(_) => None,
        }
    }

    /// Starts a fresh ORAM over `data`: `L = ceil(log2 N)`, a tree of `L + 1`
    /// levels in the store, a random leaf for each address, then
    /// `write(a, data[a])` for each `a` in order. Fails with `Config` when the
    /// store refuses the bucket size.
    pub fn setup(&mut self, store: &mut MyPathOram, data: Vec<i32>) -> (r: Result<(), SetupError>)
        requires
            1 <= data@.len() <= pow2(MAX_DEPTH as nat),
        ensures
            r is Ok <==> old(self).bucket_capacity() >= 1,
            r is Err ==> r == Err::<(), SetupError>(SetupError::Config),
            r is Ok ==> {
                &&& final(self).inv(final(store))
                &&& final(self).contents() == initial_contents(data@)
                &&& final(self).num_slots() == data@.len()
                &&& is_ceil_log2(data@.len(), final(self).depth())
                &&& final(self).bucket_capacity() == old(self).bucket_capacity()
                &&& final(store).buckets().len() == num_buckets(final(self).depth())
            },
    {
        proof {
            lemma2_to64();
        }
        let n: u32 = data.len() as u32;
        let l = ceil_log2(n);
        proof {
            lemma2_to64();
            if l < 30 {
                lemma_pow2_strictly_increases(l as nat, 30);
            }
            vstd::bits::lemma_u32_shl_is_mul(1, l);
        }
        let z = self.z;
        let num_layers: i32 = (l + 1) as i32;
        let ok = self.initialize_server(store, num_layers, z);
        if !ok {
            return Err(SetupError::Config);
        }
        self.n = n;
        self.l = l;
        self.num_leaves = 1u32 << l;
        self.stash = Vec::new();
        self.mem = Ghost(Map::empty());
        let mut pmap: Vec<u32> = Vec::new();
        let mut k: u32 = 0;
        while k < n
            invariant
                k <= n,
                pmap@.len() == k,
                0 < self.num_leaves <= i32::MAX,
                self.num_leaves == pow2(l as nat),
                self.n == n,
                self.l == l,
                self.z == z,
                self.stash@.len() == 0,
                self.mem@ == Map::<int, int>::empty(),
                forall|i: int| 0 <= i < k ==> #[trigger] pmap@[i] < self.num_leaves,
            decreases n - k,
        {
            let leaf = draw_leaf(&mut self.rng, self.num_leaves);
            pmap.push(leaf);
            k = k + 1;
        }
        self.pmap = pmap;
        proof {
            lemma_pow2_unfold((l + 1) as nat);
            assert(pow2((l + 1) as nat) == 2 * pow2(l as nat));
            assert forall|i: int, j: int|
                0 <= i < store.buckets().len() && 0 <= j < store.buckets()[i].len() implies (
                #[trigger] store.buckets()[i][j]).index == EMPTY by {}
            assert(self.tree_ok(store.buckets()));
            assert(tree_distinct(store.buckets()));
            assert(initial_contents(data@.take(0)) =~= Map::<int, int>::empty());
        }
        let mut a: u32 = 0;
        while a < n
            invariant
                a <= n,
                n == data@.len(),
                n <= pow2(30),
                self.n == n,
                self.l == l,
                self.z == z,
                z >= 1,
                is_ceil_log2(n as nat, l as nat),
                self.inv(store),
                store.buckets().len() == num_buckets(l as nat),
                self.mem@ == initial_contents(data@.take(a as int)),
            decreases n - a,
        {
            proof {
                assert(n <= pow2(30));
                lemma2_to64();
                assert((a as i32) as int == a as int);
            }
            self.write(store, a as i32, data[a as usize]);
            proof {
                assert(self.mem@ =~= initial_contents(data@.take(a + 1)));
            }
            a = a + 1;
        }
        proof {
            assert(data@.take(n as int) =~= data@);
        }
        Ok(())
    }

    /// The leaf that `a` is currently mapped to.
    pub fn leaf_of(&self, a: u32) -> (r: u32)
        requires
            a < self.position_map().len(),
        ensures
            r == self.position_map()[a as int],
    {
        self.pmap[a as usize]
    }

    /// Number of logical slots.
    pub fn len(&self) -> (r: u32)
        ensures
            r == self.num_slots(),
    {
        self.n
    }
}

/// The logical memory after the accesses `ops` in order, each an address and
/// the value written there (`None` for a read).
pub open spec fn apply_accesses(m: Map<int, int>, ops: Seq<(int, Option<i32>)>) -> Map<int, int>
    decreases ops.len(),
{
    if ops.len() == 0 {
        m
    } else {
        after_access(apply_accesses(m, ops.drop_last()), ops.last().0, ops.last().1)
    }
}

/// Read after write: once `v` is written at `a`, a read of `a` returns `v`,
/// whatever reads and writes of other addresses come between.
pub proof fn lemma_read_after_write(m: Map<int, int>, a: int, v: i32, ops: Seq<(int, Option<i32>)>)
    requires
        forall|k: int| 0 <= k < ops.len() ==> (#[trigger] ops[k]).0 != a,
    ensures
        lookup(apply_accesses(after_access(m, a, Some(v)), ops), a) == Some(v as int),
    decreases ops.len(),
{
    if ops.len() > 0 {
        let init = ops.drop_last();
        assert forall|k: int| 0 <= k < init.len() implies (#[trigger] init[k]).0 != a by {
            assert(init[k] == ops[k]);
        }
        lemma_read_after_write(m, a, v, init);
        assert(ops.last() == ops[ops.len() - 1]);
    }
}

/// Overwrite: of two writes to one address, a read returns the second value.
pub proof fn lemma_overwrite(m: Map<int, int>, a: int, v1: i32, v2: i32)
    ensures
        lookup(after_access(after_access(m, a, Some(v1)), a, Some(v2)), a) == Some(v2 as int),
        after_access(after_access(m, a, Some(v1)), a, Some(v2)) == after_access(m, a, Some(v2)),
{
    assert(after_access(after_access(m, a, Some(v1)), a, Some(v2)) =~= after_access(
        m,
        a,
        Some(v2),
    ));
}

/// After `setup(data)`, a read of each address `a < N` returns `data[a]`.
pub proof fn lemma_setup_then_read(data: Seq<i32>, a: int)
    requires
        0 <= a < data.len(),
    ensures
        lookup(initial_contents(data), a) == Some(data[a] as int),
{
}

/// Position-map coverage: under the invariant that every access keeps, each
/// written address has its block in the stash or in a bucket on the path of
/// the leaf it is mapped to, and that block carries the address's value.
pub proof fn lemma_coverage(h: &PathORAMHandler, store: &MyPathOram, a: int)
    requires
        h.inv(store),
        h.contents().contains_key(a),
    ensures
        0 <= a < h.num_slots(),
        h.stash_blocks().contains(Block { index: a as i32, value: h.contents()[a] as i32 }) || exists|
            i: int,
            j: int,
        |
            0 <= i < store.buckets().len() && 0 <= j < store.buckets()[i].len() && #[trigger] store.buckets()[i][j]
                == (Block { index: a as i32, value: h.contents()[a] as i32 }) && on_tree_path(
                h.depth(),
                h.position_map()[a] as nat,
                i,
            ),
{
    let tree = store.buckets();
    if has_tag(h.stash@, a) {
        let k = choose|k: int| 0 <= k < h.stash@.len() && (#[trigger] h.stash@[k]).index == a;
        assert(h.tag_ok(h.stash@[k]));
        assert(h.stash@[k] == Block { index: a as i32, value: h.contents()[a] as i32 });
    } else {
        let (i, j) = choose|i: int, j: int|
            0 <= i < tree.len() && 0 <= j < tree[i].len() && (#[trigger] tree[i][j]).index == a;
        assert(tree[i][j].index != EMPTY);
        assert(h.tag_ok(tree[i][j]));
        assert(tree[i][j] == Block { index: a as i32, value: h.contents()[a] as i32 });
    }
}

/// Bucket capacity: under the invariant, every bucket holds exactly `Z`
/// slots, the tree has `2^(L+1) - 1` buckets, and no tag occurs twice in
/// the tree and the stash together.
pub proof fn lemma_bucket_capacity(h: &PathORAMHandler, store: &MyPathOram)
    requires
        h.inv(store),
    ensures
        store.buckets().len() == num_buckets(h.depth()),
        forall|i: int|
            0 <= i < store.buckets().len() ==> (#[trigger] store.buckets()[i]).len()
                == h.bucket_capacity(),
        tree_distinct(store.buckets()),
        distinct_tags(h.stash_blocks()),
        stash_tree_disjoint(h.stash_blocks(), store.buckets()),
{
}

/// What the invariant gives a caller: the shape the access steps need, a
/// position map of `N` leaves below `2^L`, and stash tags in `[0, N)`,
/// distinct.
pub proof fn lemma_inv_facts(h: &PathORAMHandler, store: &MyPathOram)
    requires
        h.inv(store),
    ensures
        h.shape_ok(),
        h.stash_tags_in_range(),
        distinct_tags(h.stash_blocks()),
        h.depth() <= MAX_DEPTH,
        h.bucket_capacity() >= 1,
        h.position_map().len() == h.num_slots(),
        h.num_slots() <= pow2(h.depth()),
        forall|a: int| 0 <= a < h.num_slots() ==> #[trigger] h.position_map()[a] < pow2(h.depth()),
        forall|k: int|
            0 <= k < h.stash_blocks().len() ==> 0 <= (#[trigger] h.stash_blocks()[k]).index
                < h.num_slots(),
{
}

/// `same_shape` keeps the position map, the depth, the bucket size, the
/// number of slots and the contents.
pub proof fn lemma_same_shape(h: &PathORAMHandler, o: &PathORAMHandler)
    requires
        h.same_shape(*o),
    ensures
        h.position_map() == o.position_map(),
        h.depth() == o.depth(),
        h.bucket_capacity() == o.bucket_capacity(),
        h.num_slots() == o.num_slots(),
        h.contents() == o.contents(),
{
}

/// `same_except_map` keeps the stash, the depth, the bucket size, the number
/// of slots and the contents.
pub proof fn lemma_same_except_map(h: &PathORAMHandler, o: &PathORAMHandler)
    requires
        h.same_except_map(*o),
    ensures
        h.stash_blocks() == o.stash_blocks(),
        h.depth() == o.depth(),
        h.bucket_capacity() == o.bucket_capacity(),
        h.num_slots() == o.num_slots(),
        h.contents() == o.contents(),
{
}

} // verus!
