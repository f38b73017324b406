//! The inventory of fixed-size cache blocks.
//!
//! The allocator owns every block index below `total` and keeps the ones that
//! nobody holds in a free list. A reservation takes blocks from the tail of
//! that list, all of them or none; a release puts blocks back at the tail.

use vstd::prelude::*;

verus! {

/// The usual paging granularity: tokens per block.
pub const DEFAULT_BLOCK_SPAN: u64 = 16;

/// Number of whole blocks of `block_span` tokens that fit in a budget of
/// `max_batch_total_tokens` tokens.
pub open spec fn spec_block_count(max_batch_total_tokens: nat, block_span: nat) -> nat
    recommends
        block_span > 0,
{
    max_batch_total_tokens / block_span
}

/// Number of blocks needed to hold `tokens` tokens: the quotient rounded up.
pub open spec fn spec_blocks_for(tokens: nat, block_span: nat) -> nat
    recommends
        block_span > 0,
{
    if tokens % block_span == 0 {
        tokens / block_span
    } else {
        tokens / block_span + 1
    }
}

/// Computes the number of blocks that `tokens` tokens occupy.
pub fn blocks_for(tokens: u64, block_span: u64) -> (n: u64)
    requires
        block_span > 0,
    ensures
        n == spec_blocks_for(tokens as nat, block_span as nat),
{
    let whole: u64 = tokens / block_span;
    if tokens % block_span == 0 {
        whole
    } else {
        assert(whole < u64::MAX) by {
            lemma_quotient_below_dividend(tokens as nat, block_span as nat);
        }
        whole + 1
    }
}

/// A group of blocks taken out of the free pool.
///
/// The indices cannot be read out mutably or copied: whoever owns the value
/// owns the blocks, and giving them back consumes it.
#[derive(Debug)]
pub struct BlockSet {
    indices: Vec<u64>,
}

impl View for BlockSet {
    type V = Seq<u64>;

    closed spec fn view(&self) -> Seq<u64> {
        self.indices@
    }
}

impl BlockSet {
    /// A set that holds no block.
    pub fn empty() -> (set: Self)
        ensures
            set@ == Seq::<u64>::empty(),
    {
        BlockSet { indices: Vec::new() }
    }

    /// Number of blocks in the set.
    pub fn len(&self) -> (n: usize)
        ensures
            n == self@.len(),
    {
        self.indices.len()
    }

    /// The block indices, in the order in which they left the free list.
    pub fn indices(&self) -> (indices: &Vec<u64>)
        ensures
            indices@ == self@,
    {
        &self.indices
    }

    /// Joins a later reservation to this one, for a holder whose sequence has
    /// outgrown the blocks it had.
    pub fn absorb(&mut self, other: BlockSet)
        ensures
            final(self)@ == old(self)@ + other@,
    {
        let mut more = other.indices;
        self.indices.append(&mut more);
    }
}

/// What the allocator is, as mathematics.
pub struct PoolView {
    /// The free list, oldest entry first.
    pub free: Seq<u64>,
    /// Size of the whole inventory: the blocks are `0 .. total`.
    pub total: nat,
    /// Tokens that one block holds.
    pub block_span: nat,
}

impl PoolView {
    /// Every free block is a block of the inventory, and none is listed twice.
    pub open spec fn wf(self) -> bool {
        &&& self.block_span > 0
        &&& self.total <= usize::MAX
        &&& self.free.no_duplicates()
        &&& forall|i: int| 0 <= i < self.free.len() ==> (#[trigger] self.free[i]) < self.total
    }

    /// `block` belongs to the inventory and is not in the free pool, so some
    /// holder has it.
    pub open spec fn is_held(self, block: u64) -> bool {
        block < self.total && !self.free.contains(block)
    }

    /// The blocks that are out of the pool.
    pub open spec fn held(self) -> Set<u64> {
        Set::new(|block: u64| self.is_held(block))
    }

    /// `blocks` can be handed back: they are distinct and each is held.
    pub open spec fn can_release(self, blocks: Seq<u64>) -> bool {
        &&& blocks.no_duplicates()
        &&& forall|i: int| 0 <= i < blocks.len() ==> self.is_held(#[trigger] blocks[i])
    }

    /// The pool after `n` blocks left it.
    pub open spec fn after_reserve(self, n: nat) -> PoolView
        recommends
            n <= self.free.len(),
    {
        PoolView { free: self.free.subrange(0, self.free.len() - n), ..self }
    }

    /// The blocks that a reservation of `n` takes: the tail of the free list.
    pub open spec fn granted(self, n: nat) -> Seq<u64>
        recommends
            n <= self.free.len(),
    {
        self.free.subrange(self.free.len() - n, self.free.len() as int)
    }

    /// The pool after `blocks` came back.
    pub open spec fn after_release(self, blocks: Seq<u64>) -> PoolView {
        PoolView { free: self.free + blocks, ..self }
    }
}

/// The free pool of cache blocks.
#[derive(Debug)]
pub struct BlockAllocator {
    free: Vec<u64>,
    total: u64,
    block_span: u64,
}

impl View for BlockAllocator {
    type V = PoolView;

    closed spec fn view(&self) -> PoolView {
        PoolView {
            free: self.free@,
            total: self.total as nat,
            block_span: self.block_span as nat,
        }
    }
}

impl BlockAllocator {
    /// The allocator's invariant.
    pub open spec fn wf(&self) -> bool {
        self@.wf()
    }

    /// Builds the pool for a token budget: `max_batch_total_tokens / block_span`
    /// blocks, rounded down, all of them free.
    pub fn new(max_batch_total_tokens: u64, block_span: u64) -> (pool: Self)
        requires
            block_span > 0,
        ensures
            pool.wf(),
            pool@.block_span == block_span,
            pool@.total == spec_block_count(max_batch_total_tokens as nat, block_span as nat),
            pool@.free == Seq::new(pool@.total, |i: int| i as u64),
    {
        let total: u64 = max_batch_total_tokens / block_span;
        let mut free: Vec<u64> = Vec::new();
        let mut next: u64 = 0;
        while next < total
            invariant
                next <= total,
                free@ == Seq::new(next as nat, |i: int| i as u64),
            decreases total - next,
        {
            free.push(next);
            next = next + 1;
        }
        assert(total <= usize::MAX) by {
            assert(free@.len() == free.len());
        }
        BlockAllocator { free, total, block_span }
    }

    /// Number of blocks in the free pool.
    pub fn free_count(&self) -> (n: usize)
        ensures
            n == self@.free.len(),
    {
        self.free.len()
    }

    /// Size of the whole inventory.
    pub fn total_blocks(&self) -> (n: u64)
        ensures
            n == self@.total,
    {
        self.total
    }

    /// Tokens that one block holds.
    pub fn block_span(&self) -> (span: u64)
        ensures
            span == self@.block_span,
    {
        self.block_span
    }

    /// Number of blocks that a sequence of `tokens` tokens occupies.
    pub fn blocks_for(&self, tokens: u64) -> (n: u64)
        requires
            self.wf(),
        ensures
            n == spec_blocks_for(tokens as nat, self@.block_span),
    {
        blocks_for(tokens, self.block_span)
    }

    /// Takes `n_blocks` blocks out of the free pool, or none at all.
    ///
    /// With fewer than `n_blocks` free the call is rejected and the pool is
    /// untouched. Otherwise the caller gets exactly the last `n_blocks` entries
    /// of the free list, which leave the pool.
    pub fn try_reserve(&mut self, n_blocks: usize) -> (grant: Option<BlockSet>)
        requires
            old(self).wf(),
        ensures
            final(self).wf(),
            n_blocks > old(self)@.free.len() ==> grant is None && final(self)@ == old(self)@,
            n_blocks <= old(self)@.free.len() ==> grant is Some
                && grant->Some_0@ == old(self)@.granted(n_blocks as nat)
                && final(self)@ == old(self)@.after_reserve(n_blocks as nat)
                && final(self)@.can_release(grant->Some_0@),
    {
        let available: usize = self.free.len();
        if n_blocks > available {
            return None;
        }
        let taken = self.free.split_off(available - n_blocks);
        proof {
            lemma_reserve_keeps_pool(old(self)@, n_blocks as nat);
        }
        Some(BlockSet { indices: taken })
    }

    /// Puts `blocks` back at the tail of the free list, unconditionally.
    ///
    /// The caller must hold every block that it gives back, and hold it alone.
    pub fn release(&mut self, blocks: BlockSet)
        requires
            old(self).wf(),
            old(self)@.can_release(blocks@),
        ensures
            final(self).wf(),
            final(self)@ == old(self)@.after_release(blocks@),
    {
        let mut returned = blocks.indices;
        proof {
            lemma_release_keeps_pool(self@, returned@);
        }
        self.free.append(&mut returned);
    }
}

/// A quotient by a divisor that leaves a remainder is below the dividend.
proof fn lemma_quotient_below_dividend(tokens: nat, span: nat)
    requires
        span > 0,
        tokens % span != 0,
    ensures
        tokens / span < tokens,
{
    assert(tokens == span * (tokens / span) + tokens % span) by {
        vstd::arithmetic::div_mod::lemma_fundamental_div_mod(tokens as int, span as int);
    }
    assert(span * (tokens / span) >= tokens / span) by (nonlinear_arith)
        requires
            span >= 1,
            tokens / span >= 0,
    ;
}

/// A reservation leaves a well-formed pool, and what it took can be released.
pub proof fn lemma_reserve_keeps_pool(pool: PoolView, n: nat)
    requires
        pool.wf(),
        n <= pool.free.len(),
    ensures
        pool.after_reserve(n).wf(),
        pool.after_reserve(n).can_release(pool.granted(n)),
        pool.after_reserve(n).free + pool.granted(n) == pool.free,
{
    let kept = pool.after_reserve(n).free;
    let taken = pool.granted(n);
    let cut = pool.free.len() - n;
    assert(kept + taken =~= pool.free);
    assert forall|i: int| 0 <= i < taken.len() implies pool.after_reserve(n).is_held(
        #[trigger] taken[i],
    ) by {
        assert(taken[i] == pool.free[cut + i]);
        if kept.contains(taken[i]) {
            let j = choose|j: int| 0 <= j < kept.len() && kept[j] == taken[i];
            assert(pool.free[j] == pool.free[cut + i]);
        }
    }
}

/// A release of held, distinct blocks leaves a well-formed pool.
pub proof fn lemma_release_keeps_pool(pool: PoolView, blocks: Seq<u64>)
    requires
        pool.wf(),
        pool.can_release(blocks),
    ensures
        pool.after_release(blocks).wf(),
{
    let merged = pool.free + blocks;
    assert forall|i: int, j: int| 0 <= i < j < merged.len() implies merged[i] != merged[j] by {
        if j >= pool.free.len() {
            let k = j - pool.free.len();
            assert(pool.is_held(blocks[k]));
            if i < pool.free.len() {
                assert(pool.free.contains(pool.free[i]));
            }
        }
    }
    assert forall|i: int| 0 <= i < merged.len() implies (#[trigger] merged[i]) < pool.total by {
        if i >= pool.free.len() {
            assert(pool.is_held(blocks[i - pool.free.len()]));
        }
    }
}

/// Conservation: at every moment each block of the inventory is either in the
/// free pool or held, never both, so the free count and the number of held
/// blocks add up to the size of the inventory.
pub proof fn lemma_blocks_are_conserved(pool: BlockAllocator)
    requires
        pool.wf(),
    ensures
        pool@.held().finite(),
        pool@.free.to_set().disjoint(pool@.held()),
        pool@.free.len() + pool@.held().len() == pool@.total,
{
    let view = pool@;
    let inventory = Set::<u64>::range(0, pool.total);
    let free_set = view.free.to_set();
    vstd::set_lib::range_set_properties::<u64>(0, pool.total);
    view.free.unique_seq_to_set();
    vstd::seq_lib::seq_to_set_is_finite(view.free);
    assert(free_set + view.held() =~= inventory) by {
        assert forall|block: u64| free_set.contains(block) implies block < view.total by {
            let i = choose|i: int| 0 <= i < view.free.len() && view.free[i] == block;
            assert(view.free[i] < view.total);
        }
    }
    vstd::set_lib::lemma_set_subset_finite(inventory, view.held());
    vstd::set_lib::lemma_set_disjoint_lens(free_set, view.held());
}

} // verus!
