//! The bucket store: a flat array of fixed-size buckets, read and overwritten
//! whole, by bucket index. It holds no secrets and makes no decisions.
use crate::geometry::MAX_DEPTH;
use crate::wire::{empty_block, Block, StoreError};
use vstd::arithmetic::power2::{lemma2_to64, lemma_pow2_strictly_increases, pow2};
use vstd::bits::lemma_u32_shl_is_mul;
use vstd::prelude::*;

verus! {

/// A bucket of `z` empty slots.
pub open spec fn empty_bucket(z: nat) -> Seq<Block> {
    Seq::new(z, |j: int| empty_block())
}

/// A tree of `n` buckets of `z` empty slots each.
pub open spec fn empty_tree(n: nat, z: nat) -> Seq<Seq<Block>> {
    Seq::new(n, |i: int| empty_bucket(z))
}

/// The contents of each bucket of a tree held as vectors.
pub open spec fn tree_view(t: Seq<Vec<Block>>) -> Seq<Seq<Block>> {
    Seq::new(t.len(), |i: int| t[i]@)
}

/// Every index names a bucket of a store with `n` buckets.
pub open spec fn all_in_range(indices: Seq<i32>, n: int) -> bool {
    forall|k: int| 0 <= k < indices.len() ==> 0 <= #[trigger] indices[k] < n
}

/// The concatenation of the buckets named by `indices`, in order.
pub open spec fn gather(tree: Seq<Seq<Block>>, indices: Seq<i32>) -> Seq<Block>
    decreases indices.len(),
{
    if indices.len() == 0 {
        Seq::empty()
    } else {
        gather(tree, indices.drop_last()) + tree[indices.last() as int]
    }
}

/// `tree` after bucket `indices[k]` is overwritten, for each `k` in order, by
/// the `k`-th run of `z` blocks.
pub open spec fn scatter(tree: Seq<Seq<Block>>, indices: Seq<i32>, blocks: Seq<Block>, z: nat) -> Seq<
    Seq<Block>,
>
    decreases indices.len(),
{
    if indices.len() == 0 {
        tree
    } else {
        let k = indices.len() - 1;
        scatter(tree, indices.drop_last(), blocks, z).update(
            indices[k] as int,
            blocks.subrange(k * z, k * z + z),
        )
    }
}

/// The configuration that `setup` accepts.
pub open spec fn valid_config(num_layers: i32, bucket_size: i32) -> bool {
    1 <= num_layers <= MAX_DEPTH + 1 && bucket_size >= 1
}

pub struct MyPathOram {
    data_store: Vec<Vec<Block>>,
    bucket_size: i32,
}

impl MyPathOram {
    /// The buckets, in heap order.
    pub closed spec fn buckets(&self) -> Seq<Seq<Block>> {
        tree_view(self.data_store@)
    }

    /// The number of slots per bucket.
    pub closed spec fn bucket_size(&self) -> int {
        self.bucket_size as int
    }

    /// Every bucket holds exactly `bucket_size` slots.
    pub open spec fn wf(&self) -> bool {
        &&& self.bucket_size() >= 0
        &&& forall|i: int|
            0 <= i < self.buckets().len() ==> (#[trigger] self.buckets()[i]).len()
                == self.bucket_size()
    }

    /// Number of buckets in the tree.
    pub fn num_buckets(&self) -> (r: usize)
        ensures
            r == self.buckets().len(),
    {
        self.data_store.len()
    }

    /// Number of slots per bucket.
    pub fn slots_per_bucket(&self) -> (r: i32)
        ensures
            r == self.bucket_size(),
    {
        self.bucket_size
    }

    fn fresh_bucket(z: i32) -> (r: Vec<Block>)
        requires
            z >= 0,
        ensures
            r@ == empty_bucket(z as nat),
    {
        let mut b: Vec<Block> = Vec::new();
        let mut j: i32 = 0;
        while j < z
            invariant
                0 <= j <= z,
                b@ == empty_bucket(j as nat),
            decreases z - j,
        {
            b.push(Block::empty());
            j = j + 1;
            assert(b@ =~= empty_bucket(j as nat));
        }
        b
    }

    fn fresh_tree(n: usize, z: i32) -> (r: Vec<Vec<Block>>)
        requires
            z >= 0,
        ensures
            tree_view(r@) == empty_tree(n as nat, z as nat),
    {
        let mut t: Vec<Vec<Block>> = Vec::new();
        let mut i: usize = 0;
        while i < n
            invariant
                0 <= i <= n,
                z >= 0,
                t@.len() == i,
                forall|j: int| 0 <= j < i ==> (#[trigger] t@[j])@ == empty_bucket(z as nat),
            decreases n - i,
        {
            let b = Self::fresh_bucket(z);
            t.push(b);
            i = i + 1;
        }
        assert(tree_view(t@) =~= empty_tree(n as nat, z as nat));
        t
    }

    /// A store of `num_buckets` empty buckets of `bucket_size` slots; an absent
    /// argument counts as zero.
    pub fn new(num_buckets: Option<usize>, bucket_size: Option<i32>) -> (r: Self)
        requires
            bucket_size matches Some(z) ==> z >= 0,
        ensures
            r.wf(),
            r.bucket_size() == bucket_size.unwrap_or(0),
            r.buckets() == empty_tree(num_buckets.unwrap_or(0) as nat, bucket_size.unwrap_or(0) as nat),
    {
        let n: usize = match num_buckets {
            Some(n) => n,
            None => 0,
        };
        let z: i32 = match bucket_size {
            Some(z) => z,
            None => 0,
        };
        let data_store = Self::fresh_tree(n, z);
        MyPathOram { data_store, bucket_size: z }
    }

    /// Replaces the whole store by `2^num_layers - 1` empty buckets of
    /// `bucket_size` slots. Returns whether the configuration was accepted;
    /// a refused one leaves the store as it was.
    pub fn setup(&mut self, num_layers: i32, bucket_size: i32) -> (r: bool)
        ensures
            r == valid_config(num_layers, bucket_size),
            r ==> final(self).wf() && final(self).bucket_size() == bucket_size
                && final(self).buckets() == empty_tree(
                (pow2(num_layers as nat) - 1) as nat,
                bucket_size as nat,
            ),
            !r ==> *final(self) == *old(self),
    {
        if num_layers < 1 || num_layers > MAX_DEPTH as i32 + 1 || bucket_size < 1 {
            return false;
        }
        proof {
            lemma2_to64();
            if num_layers < 31 {
                lemma_pow2_strictly_increases(num_layers as nat, 31);
            }
            lemma_u32_shl_is_mul(1, num_layers as u32);
        }
        let n: u32 = (1u32 << (num_layers as u32)) - 1;
        self.data_store = Self::fresh_tree(n as usize, bucket_size);
        self.bucket_size = bucket_size;
        true
    }

    /// The concatenated contents of the buckets named by `indices`, or
    /// `NotFound` when one of them is outside the tree.
    pub fn read_block(&self, indices: &Vec<i32>) -> (r: Result<Vec<Block>, StoreError>)
        ensures
            all_in_range(indices@, self.buckets().len() as int) ==> (r matches Ok(v) && v@ == gather(
                self.buckets(),
                indices@,
            )),
            !all_in_range(indices@, self.buckets().len() as int) ==> r == Err::<Vec<Block>, StoreError>(
                StoreError::NotFound,
            ),
    {
        let mut out: Vec<Block> = Vec::new();
        let mut k: usize = 0;
        while k < indices.len()
            invariant
                0 <= k <= indices.len(),
                all_in_range(indices@.subrange(0, k as int), self.buckets().len() as int),
                out@ == gather(self.buckets(), indices@.subrange(0, k as int)),
            decreases indices.len() - k,
        {
            let index = indices[k];
            if index < 0 || index as usize >= self.data_store.len() {
                return Err(StoreError::NotFound);
            }
            let bucket = &self.data_store[index as usize];
            let mut j: usize = 0;
            let ghost before = out@;
            while j < bucket.len()
                invariant
                    0 <= j <= bucket.len(),
                    out@ == before + bucket@.subrange(0, j as int),
                decreases bucket.len() - j,
            {
                out.push(bucket[j]);
                j = j + 1;
                assert(out@ =~= before + bucket@.subrange(0, j as int));
            }
            proof {
                let s = indices@.subrange(0, k + 1);
                assert(s.drop_last() =~= indices@.subrange(0, k as int));
                assert(bucket@.subrange(0, j as int) =~= bucket@);
            }
            k = k + 1;
        }
        assert(indices@.subrange(0, k as int) =~= indices@);
        Ok(out)
    }

    /// Overwrites bucket `indices[k]`, for each `k` in order, with the `k`-th
    /// run of `bucket_size` blocks. Fails with `NotFound` when an index is
    /// outside the tree, else with `Invalid` when the number of blocks is not
    /// `indices.len() * bucket_size`; on failure no bucket changes.
    pub fn write_block(&mut self, indices: Vec<i32>, blocks: Vec<Block>) -> (r: Result<
        (),
        StoreError,
    >)
        requires
            old(self).wf(),
        ensures
            final(self).wf(),
            final(self).bucket_size() == old(self).bucket_size(),
            !all_in_range(indices@, old(self).buckets().len() as int) ==> r == Err::<(), StoreError>(
                StoreError::NotFound,
            ),
            all_in_range(indices@, old(self).buckets().len() as int) && blocks@.len()
                != indices@.len() * old(self).bucket_size() ==> r == Err::<(), StoreError>(
                StoreError::Invalid,
            ),
            r is Ok <==> all_in_range(indices@, old(self).buckets().len() as int) && blocks@.len()
                == indices@.len() * old(self).bucket_size(),
            r is Ok ==> final(self).buckets() == scatter(
                old(self).buckets(),
                indices@,
                blocks@,
                old(self).bucket_size() as nat,
            ),
            r is Err ==> *final(self) == *old(self),
    {
        let mut k: usize = 0;
        while k < indices.len()
            invariant
                0 <= k <= indices.len(),
                all_in_range(indices@.subrange(0, k as int), self.buckets().len() as int),
                self.wf(),
            decreases indices.len() - k,
        {
            let index = indices[k];
            if index < 0 || index as usize >= self.data_store.len() {
                return Err(StoreError::NotFound);
            }
            k = k + 1;
        }
        assert(indices@.subrange(0, k as int) =~= indices@);
        let z = self.bucket_size;
        let ok_len = if z == 0 {
            blocks.len() == 0
        } else {
            blocks.len() % (z as usize) == 0 && blocks.len() / (z as usize) == indices.len()
        };
        proof {
            if z > 0 {
                let bl = blocks@.len() as int;
                let zi = z as int;
                vstd::arithmetic::div_mod::lemma_fundamental_div_mod(bl, zi);
                if bl == indices@.len() * zi {
                    vstd::arithmetic::div_mod::lemma_fundamental_div_mod_converse(
                        bl,
                        zi,
                        indices@.len() as int,
                        0,
                    );
                }
                if ok_len {
                    assert(bl == zi * (bl / zi));
                    assert(bl == indices@.len() * zi) by (nonlinear_arith)
                        requires
                            bl == zi * (bl / zi),
                            bl / zi == indices@.len(),
                    ;
                }
            }
        }
        if !ok_len {
            return Err(StoreError::Invalid);
        }
        let zu: usize = z as usize;
        let total: usize = blocks.len();
        let ghost old_tree = self.buckets();
        let mut k: usize = 0;
        while k < indices.len()
            invariant
                0 <= k <= indices.len(),
                zu == z,
                total == blocks@.len(),
                z == self.bucket_size,
                self.bucket_size() == old(self).bucket_size(),
                self.buckets().len() == old_tree.len(),
                old_tree == old(self).buckets(),
                old(self).wf(),
                blocks@.len() == indices@.len() * zu,
                all_in_range(indices@, old_tree.len() as int),
                self.wf(),
                self.buckets() == scatter(old_tree, indices@.subrange(0, k as int), blocks@, zu as nat),
            decreases indices.len() - k,
        {
            proof {
                assert((k + 1) * zu <= indices@.len() * zu) by (nonlinear_arith)
                    requires
                        k < indices@.len(),
                ;
                assert(k * zu + zu == (k + 1) * zu) by (nonlinear_arith);
                assert(k * zu <= (k + 1) * zu) by (nonlinear_arith);
                assert(k * zu <= total);
            }
            let start: usize = k * zu;
            let mut bucket: Vec<Block> = Vec::new();
            let mut j: usize = 0;
            while j < zu
                invariant
                    0 <= j <= zu,
                    start + zu <= blocks@.len(),
                    total == blocks@.len(),
                    bucket@ == blocks@.subrange(start as int, start + j),
                decreases zu - j,
            {
                bucket.push(blocks[start + j]);
                j = j + 1;
                assert(bucket@ =~= blocks@.subrange(start as int, start + j));
            }
            let index = indices[k];
            assert(0 <= index < old_tree.len());
            self.data_store.set(index as usize, bucket);
            proof {
                let s = indices@.subrange(0, k + 1);
                assert(s.drop_last() =~= indices@.subrange(0, k as int));
                assert(self.buckets() =~= scatter(old_tree, s, blocks@, zu as nat));
            }
            k = k + 1;
        }
        assert(indices@.subrange(0, k as int) =~= indices@);
        Ok(())
    }
}

/// Where each block of a path read comes from: with buckets of `z` slots,
/// slot `k*z + j` of the result is slot `j` of bucket `indices[k]`.
pub proof fn lemma_gather(tree: Seq<Seq<Block>>, indices: Seq<i32>, z: nat)
    requires
        all_in_range(indices, tree.len() as int),
        forall|i: int| 0 <= i < tree.len() ==> (#[trigger] tree[i]).len() == z,
    ensures
        gather(tree, indices).len() == indices.len() * z,
        forall|k: int, j: int|
            0 <= k < indices.len() && 0 <= j < z ==> gather(tree, indices)[k * z + j]
                == #[trigger] tree[indices[k] as int][j],
    decreases indices.len(),
{
    if indices.len() > 0 {
        let init = indices.drop_last();
        let last = indices.len() - 1;
        assert(all_in_range(init, tree.len() as int)) by {
            assert forall|k: int| 0 <= k < init.len() implies 0 <= #[trigger] init[k] < tree.len() by {
                assert(init[k] == indices[k]);
            }
        }
        lemma_gather(tree, init, z);
        let g = gather(tree, indices);
        assert(0 <= indices[last] < tree.len());
        assert(g.len() == indices.len() * z) by (nonlinear_arith)
            requires
                g.len() == init.len() * z + z,
                init.len() == indices.len() - 1,
        ;
        assert forall|k: int, j: int|
            0 <= k < indices.len() && 0 <= j < z implies g[k * z + j]
                == #[trigger] tree[indices[k] as int][j] by {
            if k < last {
                assert(k * z + j < init.len() * z) by (nonlinear_arith)
                    requires
                        k < init.len(),
                        j < z,
                ;
                assert(init[k] == indices[k]);
            } else {
                assert(k * z == init.len() * z);
            }
        }
    }
}

/// An overwrite of distinct buckets: each named bucket receives its run of
/// blocks, and every other bucket keeps its contents.
pub proof fn lemma_scatter(tree: Seq<Seq<Block>>, indices: Seq<i32>, blocks: Seq<Block>, z: nat)
    requires
        all_in_range(indices, tree.len() as int),
        forall|k1: int, k2: int|
            0 <= k1 < indices.len() && 0 <= k2 < indices.len() && k1 != k2 ==> #[trigger] indices[k1]
                != #[trigger] indices[k2],
    ensures
        scatter(tree, indices, blocks, z).len() == tree.len(),
        forall|k: int|
            0 <= k < indices.len() ==> scatter(tree, indices, blocks, z)[#[trigger] indices[k] as int]
                == blocks.subrange(k * z, k * z + z),
        forall|i: int|
            0 <= i < tree.len() && (forall|k: int| 0 <= k < indices.len() ==> indices[k] != i)
                ==> #[trigger] scatter(tree, indices, blocks, z)[i] == tree[i],
    decreases indices.len(),
{
    if indices.len() > 0 {
        let init = indices.drop_last();
        let last = indices.len() - 1;
        assert(all_in_range(init, tree.len() as int)) by {
            assert forall|k: int| 0 <= k < init.len() implies 0 <= #[trigger] init[k] < tree.len() by {
                assert(init[k] == indices[k]);
            }
        }
        assert forall|k1: int, k2: int|
            0 <= k1 < init.len() && 0 <= k2 < init.len() && k1 != k2 implies #[trigger] init[k1]
            != #[trigger] init[k2] by {
            assert(init[k1] == indices[k1] && init[k2] == indices[k2]);
        }
        lemma_scatter(tree, init, blocks, z);
        assert(0 <= indices[last] < tree.len());
        assert forall|k: int| 0 <= k < indices.len() implies scatter(tree, indices, blocks, z)[
        #[trigger] indices[k] as int] == blocks.subrange(k * z, k * z + z) by {
            if k < last {
                assert(init[k] == indices[k]);
                assert(indices[k] != indices[last]);
            }
        }
        assert forall|i: int|
            0 <= i < tree.len() && (forall|k: int| 0 <= k < indices.len() ==> indices[k] != i)
                implies #[trigger] scatter(tree, indices, blocks, z)[i] == tree[i] by {
            assert(indices[last] != i);
            assert forall|k: int| 0 <= k < init.len() implies init[k] != i by {
                assert(init[k] == indices[k]);
            }
        }
    }
}

} // verus!
