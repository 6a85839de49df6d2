use vstd::arithmetic::power2::{lemma_pow2_unfold, pow2};
use vstd::prelude::*;

use crate::boot::{MemoryMap, MemoryMapEntry, usable_of};
use crate::memory::{PAGE_SIZE, PhysicalAddress};

verus! {

/// State of one block of the buddy tree.
#[derive(PartialEq, Eq, Structural, Clone, Copy, Debug)]
pub enum BlockState {
    Free,
    Allocated,
    Split,
    Full,
    Reserved,
}

impl BlockState {
    pub open spec fn usable(self) -> bool {
        self == BlockState::Free || self == BlockState::Split
    }

    pub fn is_usable(&self) -> (r: bool)
        ensures
            r == self.usable(),
    {
        matches!(*self, BlockState::Free | BlockState::Split)
    }

    pub fn is_free(&self) -> (r: bool)
        ensures
            r == (*self == BlockState::Free),
    {
        matches!(*self, BlockState::Free)
    }
}

/// The state a parent takes from the states of its two children.
pub open spec fn parent_rule(l: BlockState, r: BlockState) -> BlockState {
    if l == BlockState::Free && r == BlockState::Free {
        BlockState::Free
    } else if l.usable() || r.usable() {
        BlockState::Split
    } else {
        BlockState::Full
    }
}

/// Whether node `q` lies in the subtree rooted at node `i` (heap layout, root 1).
pub open spec fn is_desc(q: int, i: int) -> bool
    decreases q,
{
    if q < i || q <= 0 {
        false
    } else if q == i {
        true
    } else {
        is_desc(q / 2, i)
    }
}

/// Whether `p` is an ancestor of `q`, `q` excluded.
pub open spec fn strict_anc(p: int, q: int) -> bool {
    is_desc(q, p) && p != q
}

/// The internal node `p` agrees with its children: an allocated node has both children
/// allocated, any other node has the state that the parent rule gives.
pub open spec fn node_ok(t: Seq<BlockState>, p: int) -> bool {
    &&& t[p] != BlockState::Reserved
    &&& if t[p] == BlockState::Allocated {
        t[2 * p] == BlockState::Allocated && t[2 * p + 1] == BlockState::Allocated
    } else {
        t[p] == parent_rule(t[2 * p], t[2 * p + 1])
    }
}

/// A state tree of `pow2(order + 1)` cells whose internal nodes all agree with their children.
pub open spec fn tree_ok(t: Seq<BlockState>, order: nat) -> bool {
    &&& t.len() == pow2(order + 1)
    &&& t[0] == BlockState::Reserved
    &&& forall|p: int| 1 <= p < pow2(order) ==> #[trigger] node_ok(t, p)
}

/// `t` with every cell of the subtree of `i` that is not reserved set to `s`.
pub open spec fn marked(t: Seq<BlockState>, i: int, s: BlockState) -> Seq<BlockState> {
    Seq::new(
        t.len(),
        |q: int|
            if is_desc(q, i) && t[q] != BlockState::Reserved {
                s
            } else {
                t[q]
            },
    )
}

/// `t` with the ancestors of `b` recomputed by the parent rule, from `b` upwards.
pub open spec fn recompute(t: Seq<BlockState>, b: int) -> Seq<BlockState>
    decreases b,
{
    if b <= 1 || b >= t.len() {
        t
    } else {
        let p = b / 2;
        recompute(t.update(p, parent_rule(t[2 * p], t[2 * p + 1])), p)
    }
}

/// The tree after the block `i` is handed out.
pub open spec fn allocated_tree(t: Seq<BlockState>, i: int) -> Seq<BlockState> {
    recompute(marked(t, i, BlockState::Allocated), i)
}

/// The tree after the block `i` is given back.
pub open spec fn freed_tree(t: Seq<BlockState>, i: int) -> Seq<BlockState> {
    recompute(marked(t, i, BlockState::Free), i)
}

proof fn lemma_desc_ge(q: int, i: int)
    requires
        is_desc(q, i),
    ensures
        q >= i,
        i >= 1,
    decreases q,
{
    if q != i {
        lemma_desc_ge(q / 2, i);
    }
}

proof fn lemma_desc_child(q: int, b: int)
    requires
        b >= 1,
        is_desc(q, 2 * b) || is_desc(q, 2 * b + 1),
    ensures
        is_desc(q, b),
        q != b,
    decreases q,
{
    assert(is_desc(b, b));
    if is_desc(q, 2 * b) {
        lemma_desc_ge(q, 2 * b);
        if q != 2 * b {
            lemma_desc_child(q / 2, b);
        } else {
            assert(q / 2 == b);
        }
    } else {
        lemma_desc_ge(q, 2 * b + 1);
        if q != 2 * b + 1 {
            lemma_desc_child(q / 2, b);
        } else {
            assert(q / 2 == b);
        }
    }
}

proof fn lemma_desc_split(q: int, b: int)
    requires
        b >= 1,
        is_desc(q, b),
        q != b,
    ensures
        is_desc(q, 2 * b) || is_desc(q, 2 * b + 1),
        q >= 2 * b,
    decreases q,
{
    if q / 2 != b {
        lemma_desc_split(q / 2, b);
        lemma_desc_ge(q / 2, b);
    }
}

proof fn lemma_desc_of_desc(q: int, i: int)
    requires
        is_desc(q, i),
    ensures
        is_desc(2 * q, i),
        is_desc(2 * q + 1, i),
{
    lemma_desc_ge(q, i);
}

proof fn lemma_desc_trans(q: int, p: int, i: int)
    requires
        is_desc(q, p),
        is_desc(p, i),
    ensures
        is_desc(q, i),
    decreases q,
{
    lemma_desc_ge(q, p);
    lemma_desc_ge(p, i);
    if q != p {
        lemma_desc_trans(q / 2, p, i);
    }
}

/// In a well-formed tree the subtree of a free or allocated node is uniformly so.
proof fn lemma_uniform_subtree(t: Seq<BlockState>, order: nat, i: int, q: int)
    requires
        tree_ok(t, order),
        1 <= i,
        is_desc(q, i),
        q < t.len(),
        t[i] == BlockState::Free || t[i] == BlockState::Allocated,
    ensures
        t[q] == t[i],
    decreases q,
{
    lemma_desc_ge(q, i);
    if q != i {
        let p = q / 2;
        lemma_uniform_subtree(t, order, i, p);
        lemma_pow2_unfold(order + 1);
        assert(node_ok(t, p));
    }
}

proof fn lemma_recompute_len(t: Seq<BlockState>, b: int)
    ensures
        recompute(t, b).len() == t.len(),
    decreases b,
{
    if !(b <= 1 || b >= t.len()) {
        let p = b / 2;
        lemma_recompute_len(t.update(p, parent_rule(t[2 * p], t[2 * p + 1])), p);
    }
}

/// Recomputing the ancestors of `b` leaves every other cell alone.
proof fn lemma_recompute_frame(t: Seq<BlockState>, b: int, q: int)
    requires
        0 <= q < t.len(),
        !strict_anc(q, b),
    ensures
        recompute(t, b)[q] == t[q],
    decreases b,
{
    if !(b <= 1 || b >= t.len()) {
        let p = b / 2;
        let t2 = t.update(p, parent_rule(t[2 * p], t[2 * p + 1]));
        if q == p {
            assert(is_desc(p, p));
            assert(is_desc(b, p));
        }
        if strict_anc(q, p) {
            lemma_desc_ge(b, 2);
            assert(is_desc(b, q));
        }
        lemma_recompute_frame(t2, p, q);
    }
}

/// Recomputing the ancestors of `b` repairs a tree that was broken only there.
proof fn lemma_recompute_repairs(t: Seq<BlockState>, order: nat, b: int)
    requires
        t.len() == pow2(order + 1),
        t.len() > 0,
        t[0] == BlockState::Reserved,
        1 <= b < t.len(),
        forall|p: int| 1 <= p < pow2(order) && !strict_anc(p, b) ==> #[trigger] node_ok(t, p),
    ensures
        tree_ok(recompute(t, b), order),
    decreases b,
{
    lemma_pow2_unfold(order + 1);
    if b > 1 {
        let p = b / 2;
        let t2 = t.update(p, parent_rule(t[2 * p], t[2 * p + 1]));
        assert forall|q: int| 1 <= q < pow2(order) && !strict_anc(q, p) implies #[trigger] node_ok(
            t2,
            q,
        ) by {
            if q != p {
                if strict_anc(q, b) {
                    assert(is_desc(b / 2, q));
                }
                assert(node_ok(t, q));
                if 2 * q == p || 2 * q + 1 == p {
                    assert(is_desc(q, q));
                    assert(p / 2 == q);
                    assert(is_desc(p, q));
                }
            }
        }
        lemma_recompute_repairs(t2, order, p);
    } else {
        assert forall|q: int| 1 <= q < pow2(order) implies #[trigger] node_ok(t, q) by {
            if strict_anc(q, b) {
                lemma_desc_ge(b, q);
            }
        }
    }
}

/// Marking a uniform subtree and recomputing its ancestors keeps the tree well formed.
proof fn lemma_mark_keeps_ok(t: Seq<BlockState>, order: nat, i: int, s: BlockState)
    requires
        tree_ok(t, order),
        1 <= i < t.len(),
        t[i] == BlockState::Free || t[i] == BlockState::Allocated,
        s == BlockState::Free || s == BlockState::Allocated,
    ensures
        tree_ok(recompute(marked(t, i, s), i), order),
        forall|q: int| 0 <= q < t.len() && is_desc(q, i) ==> #[trigger] recompute(marked(t, i, s), i)[q] == s,
{
    let m = marked(t, i, s);
    lemma_pow2_unfold(order + 1);
    assert forall|q: int| 0 <= q < t.len() && is_desc(q, i) implies m[q] == s by {
        lemma_uniform_subtree(t, order, i, q);
    }
    assert(!is_desc(0, i));
    assert forall|p: int| 1 <= p < pow2(order) && !strict_anc(p, i) implies #[trigger] node_ok(
        m,
        p,
    ) by {
        if is_desc(p, i) {
            lemma_desc_of_desc(p, i);
        } else {
            assert(node_ok(t, p));
            if is_desc(2 * p, i) {
                if 2 * p != i {
                    assert(is_desc(p, i));
                }
                assert(is_desc(p, p));
                assert(i / 2 == p);
                assert(is_desc(i, p));
            }
            if is_desc(2 * p + 1, i) {
                if 2 * p + 1 != i {
                    assert(is_desc(p, i));
                }
                assert(is_desc(p, p));
                assert(i / 2 == p);
                assert(is_desc(i, p));
            }
        }
    }
    lemma_recompute_repairs(m, order, i);
    assert forall|q: int| 0 <= q < t.len() && is_desc(q, i) implies #[trigger] recompute(
        m,
        i,
    )[q] == s by {
        lemma_recompute_frame(m, i, q);
    }
}

/// Failure to build the allocator from a memory map.
#[derive(PartialEq, Eq, Structural, Clone, Copy, Debug)]
pub enum InitializationError {
    NoUsableMemory,
    NotEnoughAvailableMemory,
    BadRange(PhysicalAddress, PhysicalAddress),
}

/// Depth of node `b` in the heap layout: the root is at depth 0.
pub open spec fn level(b: int) -> nat
    decreases b,
{
    if b <= 1 {
        0
    } else {
        1 + level(b / 2)
    }
}

/// The first free cell of `t` in `[lo, hi)`, or `hi` when there is none.
pub open spec fn first_free(t: Seq<BlockState>, lo: int, hi: int) -> int
    decreases hi - lo,
{
    if lo >= hi {
        hi
    } else if t[lo] == BlockState::Free {
        lo
    } else {
        first_free(t, lo + 1, hi)
    }
}

/// Number of trailing zero bits of `v`, counting at most `m` of them.
pub open spec fn low_zeros(v: nat, m: nat) -> nat
    decreases m,
{
    if m == 0 || v % 2 == 1 {
        0
    } else {
        1 + low_zeros(v / 2, (m - 1) as nat)
    }
}

/// The largest block whose first page is page `v`, for a tree of depth `m`.
pub open spec fn first_candidate(v: nat, m: nat) -> int {
    pow2((m - low_zeros(v, m)) as nat) + (v / pow2(low_zeros(v, m))) as int
}

/// Walking down the leftmost path from `b`, the first allocated node, or -1.
pub open spec fn allocated_below(t: Seq<BlockState>, b: int) -> int
    decreases t.len() - b,
{
    if b < 1 || b >= t.len() {
        -1
    } else if t[b] == BlockState::Allocated {
        b
    } else if 2 * b >= t.len() {
        -1
    } else {
        allocated_below(t, 2 * b)
    }
}

/// The smallest `e >= lo`, `e <= m`, with `PAGE_SIZE * 2^e >= size` (or `m`).
pub open spec fn fit_exp(size: nat, lo: nat, m: nat) -> nat
    decreases m - lo,
{
    if lo >= m || PAGE_SIZE * pow2(lo) >= size {
        lo
    } else {
        fit_exp(size, lo + 1, m)
    }
}

proof fn lemma_level(b: int, k: nat)
    requires
        pow2(k) <= b < pow2(k + 1),
    ensures
        level(b) == k,
    decreases k,
{
    lemma_pow2_unfold(k + 1);
    if k > 0 {
        lemma_pow2_unfold(k);
        lemma_level(b / 2, (k - 1) as nat);
    } else {
        vstd::arithmetic::power2::lemma2_to64();
    }
}

proof fn lemma_allocated_below(t: Seq<BlockState>, b: int)
    requires
        allocated_below(t, b) >= 1,
    ensures
        t[allocated_below(t, b)] == BlockState::Allocated,
        0 <= allocated_below(t, b) < t.len(),
    decreases t.len() - b,
{
    if !(b < 1 || b >= t.len()) && t[b] != BlockState::Allocated && 2 * b < t.len() {
        lemma_allocated_below(t, 2 * b);
    }
}

proof fn lemma_pow2_le(a: nat, b: nat)
    requires
        a <= b,
    ensures
        pow2(a) <= pow2(b),
{
    if a < b {
        vstd::arithmetic::power2::lemma_pow2_strictly_increases(a, b);
    }
}

/// `a` rounded down to a page boundary.
pub open spec fn page_down(a: int) -> int {
    a - a % (PAGE_SIZE as int)
}

/// `a` rounded up to a page boundary.
pub open spec fn page_up(a: int) -> int {
    if a % (PAGE_SIZE as int) == 0 {
        a
    } else {
        a - a % (PAGE_SIZE as int) + PAGE_SIZE
    }
}

/// Bytes in a machine word.
pub const WORD_SIZE: usize = 8;

/// One past the last byte of entry `e`.
pub open spec fn entry_end(e: MemoryMapEntry) -> int {
    e.base + e.length
}

/// A page-aligned, non-empty entry below a quarter of the address space.
pub open spec fn entry_ok(e: MemoryMapEntry) -> bool {
    &&& e.base % PAGE_SIZE == 0
    &&& e.length % PAGE_SIZE == 0
    &&& e.length > 0
    &&& entry_end(e) <= usize::MAX / 4
}

/// Usable entries as the bootloader promises them: page aligned, non-empty, sorted by base and
/// apart from each other, and below a quarter of the address space (physical addresses are far
/// narrower than a word).
pub open spec fn usable_map_ok(u: Seq<MemoryMapEntry>) -> bool {
    &&& forall|i: int| 0 <= i < u.len() ==> entry_ok(#[trigger] u[i])
    &&& forall|i: int, j: int| 0 <= i < j < u.len() ==> entry_end(#[trigger] u[i]) <= #[trigger] u[j].base
}

/// Whether `a` lies in one of the first `n` entries of `u`.
pub open spec fn in_entries(u: Seq<MemoryMapEntry>, a: int, n: int) -> bool
    decreases n,
{
    if n <= 0 {
        false
    } else {
        in_entries(u, a, n - 1) || (u[n - 1].base <= a < entry_end(u[n - 1]))
    }
}

/// Whether `a` lies between the ends of two consecutive entries among the first `n + 1` of `u`.
pub open spec fn in_gaps(u: Seq<MemoryMapEntry>, a: int, n: int) -> bool
    decreases n,
{
    if n <= 0 {
        false
    } else {
        in_gaps(u, a, n - 1) || (entry_end(u[n - 1]) <= a < u[n].base)
    }
}

/// Index of the first entry of `u` from `i` on that holds `size` bytes, or `u.len()`.
pub open spec fn first_fit(u: Seq<MemoryMapEntry>, size: int, i: int) -> int
    decreases u.len() - i,
{
    if i >= u.len() {
        u.len() as int
    } else if u[i].length >= size {
        i
    } else {
        first_fit(u, size, i + 1)
    }
}

/// Bytes of metadata (hints, then state tree) for a tree of depth `m`.
pub open spec fn metadata_size(m: nat) -> int {
    (m + 1) * WORD_SIZE + pow2(m + 1)
}

proof fn lemma_gaps_below(u: Seq<MemoryMapEntry>, a: int, n: int)
    requires
        usable_map_ok(u),
        1 <= n < u.len(),
        in_gaps(u, a, n - 1),
    ensures
        a < u[n - 1].base,
    decreases n,
{
    if n >= 2 && in_gaps(u, a, n - 2) {
        lemma_gaps_below(u, a, n - 1);
        assert(entry_end(u[n - 2]) <= u[n - 1].base);
    }
}

proof fn lemma_entries_below(u: Seq<MemoryMapEntry>, a: int, n: int)
    requires
        usable_map_ok(u),
        1 <= n <= u.len(),
        in_entries(u, a, n),
    ensures
        a < entry_end(u[n - 1]),
    decreases n,
{
    assert(entry_ok(u[n - 1]));
    assert(!in_entries(u, a, 0));
    if n >= 2 && in_entries(u, a, n - 1) {
        lemma_entries_below(u, a, n - 1);
        assert(entry_end(u[n - 2]) <= u[n - 1].base);
    }
}

/// Past the first base, the gaps and the space after the last entry are exactly what the
/// entries leave out.
proof fn lemma_gaps_complement(u: Seq<MemoryMapEntry>, a: int, n: int)
    requires
        usable_map_ok(u),
        1 <= n <= u.len(),
        a >= u[0].base,
    ensures
        (a >= entry_end(u[n - 1]) || in_gaps(u, a, n - 1)) <==> !in_entries(u, a, n),
    decreases n,
{
    assert(!in_entries(u, a, 0));
    assert(!in_gaps(u, a, 0));
    assert(entry_ok(u[n - 1]));
    if n >= 2 {
        assert(entry_ok(u[n - 2]));
        lemma_gaps_complement(u, a, n - 1);
        if in_gaps(u, a, n - 2) {
            lemma_gaps_below(u, a, n - 1);
        }
        if in_entries(u, a, n - 1) {
            lemma_entries_below(u, a, n - 1);
        }
        assert(entry_end(u[n - 2]) <= u[n - 1].base);
    }
}

proof fn lemma_first_fit(u: Seq<MemoryMapEntry>, size: int, i: int)
    requires
        0 <= i,
    ensures
        i <= first_fit(u, size, i) <= u.len() || (i > u.len() && first_fit(u, size, i) == u.len()),
        first_fit(u, size, i) < u.len() ==> u[first_fit(u, size, i)].length >= size,
    decreases u.len() - i,
{
    if i < u.len() && u[i].length < size {
        lemma_first_fit(u, size, i + 1);
    }
}

/// Comparing a leaf with a page-aligned address is comparing their pages.
proof fn lemma_leaf_cmp(start: int, c: int, v: int)
    requires
        start % (PAGE_SIZE as int) == 0,
        c % (PAGE_SIZE as int) == 0,
        c >= start,
        v >= 0,
    ensures
        ((c - start) / (PAGE_SIZE as int) <= v) <==> (c <= start + v * PAGE_SIZE),
{
    let p = PAGE_SIZE as int;
    vstd::arithmetic::div_mod::lemma_fundamental_div_mod(c, p);
    vstd::arithmetic::div_mod::lemma_fundamental_div_mod(start, p);
    let qc = c / p;
    let qs = start / p;
    assert(c - start == p * (qc - qs));
    vstd::arithmetic::div_mod::lemma_div_multiples_vanish(qc - qs, p);
    assert((c - start) / p == qc - qs);
    assert((qc - qs <= v) <==> (p * (qc - qs) <= p * v)) by (nonlinear_arith)
        requires
            p > 0,
    ;
}

/// A binary-buddy manager of physical frames.
#[derive(Debug)]
pub struct BuddyAllocator {
    region_start: PhysicalAddress,
    region_end: PhysicalAddress,
    max_order: u8,
    markers: Vec<usize>,
    state_tree: Vec<BlockState>,
}

impl BuddyAllocator {
    /// The state tree, in heap layout.
    pub closed spec fn tree(&self) -> Seq<BlockState> {
        self.state_tree@
    }

    /// The per-depth search hints.
    pub closed spec fn marks(&self) -> Seq<usize> {
        self.markers@
    }

    /// Depth of the leaves.
    pub closed spec fn order(&self) -> nat {
        self.max_order as nat
    }

    /// First byte of the managed region.
    pub closed spec fn start(&self) -> nat {
        self.region_start.0 as nat
    }

    /// One past the last byte of usable memory.
    pub closed spec fn end(&self) -> nat {
        self.region_end.0 as nat
    }

    pub open spec fn wf(&self) -> bool {
        &&& tree_ok(self.tree(), self.order())
        &&& self.marks().len() == self.order() + 1
        &&& self.start() % (PAGE_SIZE as nat) == 0
        &&& self.end() % (PAGE_SIZE as nat) == 0
        &&& self.start() <= self.end()
        &&& self.end() <= self.start() + PAGE_SIZE * pow2(self.order())
        &&& self.start() + PAGE_SIZE * pow2(self.order()) <= usize::MAX
        &&& self.order() < 64
    }

    /// Size in bytes of a block at depth `k`.
    pub open spec fn block_size(&self, k: nat) -> nat {
        (PAGE_SIZE * pow2((self.order() - k) as nat)) as nat
    }

    /// Physical address of the first byte of node `b` at depth `k`.
    pub open spec fn address_of(&self, b: int, k: nat) -> int {
        self.start() + self.block_size(k) * (b - pow2(k))
    }

    /// Where the search for a free block at depth `k` starts.
    pub open spec fn search_start(&self, k: nat) -> int {
        if self.marks()[k as int] > pow2(k) {
            self.marks()[k as int] as int
        } else {
            pow2(k) as int
        }
    }

    /// The node that `allocate_order(k)` takes, or `pow2(k + 1)` when there is none.
    pub open spec fn next_free(&self, k: nat) -> int {
        first_free(self.tree(), self.search_start(k), pow2(k + 1) as int)
    }

    /// The node that `free(address)` gives back, or -1 when there is none.
    pub open spec fn freed_block(&self, address: PhysicalAddress) -> int {
        let v = ((address.0 - self.start()) / (PAGE_SIZE as int)) as nat;
        allocated_below(self.tree(), first_candidate(v, self.order()))
    }

    /// Whether `address` is the start of a page of the managed span.
    pub open spec fn page_in_span(&self, address: PhysicalAddress) -> bool {
        &&& self.start() <= address.0
        &&& address.0 < self.start() + PAGE_SIZE * pow2(self.order())
        &&& (address.0 - self.start()) % (PAGE_SIZE as int) == 0
    }

    proof fn lemma_pow2_bounds(&self, k: nat)
        requires
            self.wf(),
            k <= self.order(),
        ensures
            pow2(k + 1) <= self.tree().len(),
            pow2(k) < pow2(k + 1),
            self.block_size(k) * pow2(k) == PAGE_SIZE * pow2(self.order()),
            self.tree().len() <= usize::MAX,
            self.tree().len() % 2 == 0,
            self.tree().len() == 2 * pow2(self.order()),
    {
        lemma_pow2_unfold(k + 1);
        lemma_pow2_unfold(self.order() + 1);
        vstd::arithmetic::power2::lemma_pow2_pos(k);
        if k < self.order() {
            vstd::arithmetic::power2::lemma_pow2_strictly_increases(k + 1, self.order() + 1);
        }
        vstd::arithmetic::power2::lemma_pow2_adds((self.order() - k) as nat, k);
        assert(self.block_size(k) * pow2(k) == PAGE_SIZE * (pow2((self.order() - k) as nat)
            * pow2(k))) by (nonlinear_arith);
    }

    /// `2^order`, the index of the first node at depth `order`.
    fn offset_for_order(order: u8) -> (r: usize)
        requires
            pow2(order as nat) <= usize::MAX,
        ensures
            r == pow2(order as nat),
    {
        let mut r: usize = 1;
        let mut e: u8 = 0;
        proof {
            vstd::arithmetic::power2::lemma2_to64();
        }
        while e < order
            invariant
                e <= order,
                r == pow2(e as nat),
                pow2(order as nat) <= usize::MAX,
            decreases order - e,
        {
            proof {
                lemma_pow2_unfold((e + 1) as nat);
                if e + 1 < order {
                    vstd::arithmetic::power2::lemma_pow2_strictly_increases(
                        (e + 1) as nat,
                        order as nat,
                    );
                }
            }
            r = r * 2;
            e = e + 1;
        }
        r
    }

    fn state(&self, block: usize) -> (r: BlockState)
        requires
            block < self.tree().len(),
        ensures
            r == self.tree()[block as int],
    {
        self.state_tree[block]
    }

    fn set_state(&mut self, block: usize, state: BlockState)
        requires
            block < old(self).tree().len(),
        ensures
            final(self).tree() == old(self).tree().update(block as int, state),
            final(self).marks() == old(self).marks(),
            final(self).order() == old(self).order(),
            final(self).start() == old(self).start(),
            final(self).end() == old(self).end(),
    {
        self.state_tree.set(block, state);
    }

    /// Recomputes the ancestors of `block` from their children, bottom up.
    fn update_ancestors(&mut self, block: usize)
        requires
            1 <= block < old(self).tree().len(),
            old(self).tree().len() % 2 == 0,
        ensures
            final(self).tree() == recompute(old(self).tree(), block as int),
            final(self).marks() == old(self).marks(),
            final(self).order() == old(self).order(),
            final(self).start() == old(self).start(),
            final(self).end() == old(self).end(),
    {
        let mut b = block;
        while b > 1
            invariant
                1 <= b < self.tree().len(),
                self.tree().len() == old(self).tree().len(),
                self.tree().len() % 2 == 0,
                recompute(self.tree(), b as int) == recompute(old(self).tree(), block as int),
                self.marks() == old(self).marks(),
                self.order() == old(self).order(),
                self.start() == old(self).start(),
                self.end() == old(self).end(),
            decreases b,
        {
            let parent = b / 2;
            let left = self.state(2 * parent);
            let right = self.state(2 * parent + 1);
            let s = if left.is_free() && right.is_free() {
                BlockState::Free
            } else if left.is_usable() || right.is_usable() {
                BlockState::Split
            } else {
                BlockState::Full
            };
            self.set_state(parent, s);
            b = parent;
        }
    }

    /// Sets every cell of the subtree of `block` that is not reserved to `state`.
    fn mark_subtree(&mut self, block: usize, state: BlockState)
        requires
            1 <= block < old(self).tree().len(),
            old(self).tree().len() % 2 == 0,
        ensures
            final(self).tree() == marked(old(self).tree(), block as int, state),
            final(self).marks() == old(self).marks(),
            final(self).order() == old(self).order(),
            final(self).start() == old(self).start(),
            final(self).end() == old(self).end(),
        decreases old(self).tree().len() - block,
    {
        let ghost t0 = self.tree();
        if self.state(block) != BlockState::Reserved {
            self.set_state(block, state);
        }
        let ghost t1 = self.tree();
        let len = self.state_tree.len();
        if block < len / 2 {
            self.mark_subtree(2 * block, state);
            let ghost t2 = self.tree();
            self.mark_subtree(2 * block + 1, state);
            proof {
                assert forall|q: int| 0 <= q < t0.len() implies #[trigger] self.tree()[q]
                    == marked(t0, block as int, state)[q] by {
                    if is_desc(q, 2 * block as int) || is_desc(q, 2 * block + 1) {
                        lemma_desc_child(q, block as int);
                    } else if is_desc(q, block as int) && q != block {
                        lemma_desc_split(q, block as int);
                    }
                    if q == block {
                        if is_desc(q, 2 * block as int) {
                            lemma_desc_ge(q, 2 * block as int);
                        }
                        if is_desc(q, 2 * block + 1) {
                            lemma_desc_ge(q, 2 * block + 1);
                        }
                    }
                    assert(t2[q] == marked(t1, 2 * block as int, state)[q]);
                }
            }
        } else {
            proof {
                assert forall|q: int| 0 <= q < t0.len() implies #[trigger] self.tree()[q]
                    == marked(t0, block as int, state)[q] by {
                    if is_desc(q, block as int) && q != block {
                        lemma_desc_split(q, block as int);
                    }
                }
            }
        }
        proof {
            assert(self.tree() =~= marked(t0, block as int, state));
        }
    }

    /// `after` is `self` once the block at depth `k` that the search finds was handed out at `r`.
    pub open spec fn allocates(&self, after: Self, k: nat, r: PhysicalAddress) -> bool {
        let j = self.next_free(k);
        &&& after.wf()
        &&& after.tree() == allocated_tree(self.tree(), j)
        &&& after.marks() == self.marks().update(k as int, (j + 1) as usize)
        &&& r.0 == self.address_of(j, k)
        &&& after.order() == self.order()
        &&& after.start() == self.start()
        &&& after.end() == self.end()
    }

    /// `after` is `self` once the allocated block holding the page at `address` was given back.
    pub open spec fn frees(&self, after: Self, address: PhysicalAddress) -> bool {
        let b = self.freed_block(address);
        let k = level(b);
        &&& after.wf()
        &&& after.tree() == freed_tree(self.tree(), b)
        &&& after.marks() == self.marks().update(
            k as int,
            if self.marks()[k as int] > b {
                b as usize
            } else {
                self.marks()[k as int]
            },
        )
        &&& after.order() == self.order()
        &&& after.start() == self.start()
        &&& after.end() == self.end()
    }

    /// Where the search for a free block at depth `order` starts.
    fn marker_for(&self, order: u8) -> (r: usize)
        requires
            self.wf(),
            order <= self.order(),
        ensures
            r == self.search_start(order as nat),
    {
        proof {
            self.lemma_pow2_bounds(order as nat);
        }
        let low = Self::offset_for_order(order);
        let m = self.markers[order as usize];
        if m > low {
            m
        } else {
            low
        }
    }

    /// Size in bytes of a block at depth `order`.
    fn size_for_order(&self, order: u8) -> (r: usize)
        requires
            self.wf(),
            order <= self.order(),
        ensures
            r == self.block_size(order as nat),
    {
        proof {
            lemma_pow2_le((self.order() - order) as nat, self.order());
            self.lemma_pow2_bounds(order as nat);
            assert(PAGE_SIZE * pow2((self.order() - order) as nat) <= PAGE_SIZE * pow2(
                self.order(),
            )) by (nonlinear_arith)
                requires
                    pow2((self.order() - order) as nat) <= pow2(self.order()),
            ;
        }
        PAGE_SIZE * Self::offset_for_order(self.max_order - order)
    }

    /// Hands out the free block `block` at depth `order`.
    fn allocate_block(&mut self, block: usize, order: u8) -> (r: PhysicalAddress)
        requires
            old(self).wf(),
            order <= old(self).order(),
            pow2(order as nat) <= block < pow2(order as nat + 1),
            old(self).tree()[block as int] == BlockState::Free,
        ensures
            final(self).wf(),
            final(self).tree() == allocated_tree(old(self).tree(), block as int),
            final(self).marks() == old(self).marks(),
            final(self).order() == old(self).order(),
            final(self).start() == old(self).start(),
            final(self).end() == old(self).end(),
            r.0 == old(self).address_of(block as int, order as nat),
    {
        proof {
            self.lemma_pow2_bounds(order as nat);
            lemma_mark_keeps_ok(self.tree(), self.order(), block as int, BlockState::Allocated);
        }
        self.mark_subtree(block, BlockState::Allocated);
        self.update_ancestors(block);
        let size = self.size_for_order(order);
        let low = Self::offset_for_order(order);
        proof {
            lemma_pow2_unfold(order as nat + 1);
            let idx = block - pow2(order as nat);
            assert(size * idx <= size * pow2(order as nat)) by (nonlinear_arith)
                requires
                    0 <= idx <= pow2(order as nat),
            ;
        }
        self.region_start.add(size * (block - low))
    }

    /// Hands out the first free block at depth `order` from the search hint on.
    pub fn allocate_order(&mut self, order: u8) -> (r: PhysicalAddress)
        requires
            old(self).wf(),
            order <= old(self).order(),
            old(self).next_free(order as nat) < pow2(order as nat + 1),
        ensures
            old(self).allocates(*final(self), order as nat, r),
    {
        proof {
            self.lemma_pow2_bounds(order as nat);
            lemma_pow2_unfold(order as nat + 1);
        }
        let first = self.marker_for(order);
        let last = 2 * Self::offset_for_order(order);
        let mut block = first;
        assert(first < last);
        loop
            invariant
                *self == *old(self),
                self.wf(),
                order <= self.order(),
                first == self.search_start(order as nat),
                last == pow2(order as nat + 1),
                last <= self.tree().len(),
                first <= block < last,
                first_free(self.tree(), block as int, last as int) == self.next_free(order as nat),
                self.next_free(order as nat) < last,
            decreases last - block,
        {
            if self.state(block).is_free() {
                self.markers.set(order as usize, block + 1);
                proof {
                    lemma_pow2_unfold(order as nat + 1);
                }
                return self.allocate_block(block, order);
            }
            assert(first_free(self.tree(), block as int, last as int) == first_free(
                self.tree(),
                block + 1,
                last as int,
            ));
            block = block + 1;
        }
    }

    /// The depth whose blocks are exactly `size` bytes, if any.
    fn order_for_size(&self, size: usize) -> (r: Option<u8>)
        requires
            self.wf(),
        ensures
            r matches Some(k) ==> k <= self.order() && self.block_size(k as nat) == size,
            r is None ==> forall|k: nat| k <= self.order() ==> self.block_size(k) != size,
    {
        let mut k: u8 = 0;
        while k <= self.max_order
            invariant
                self.wf(),
                k <= self.order() + 1,
                forall|j: nat| j < k ==> self.block_size(j) != size,
            decreases self.order() + 1 - k,
        {
            if self.size_for_order(k) == size {
                return Some(k);
            }
            k = k + 1;
        }
        None
    }

    /// Hands out a block of exactly `size` bytes.
    pub fn allocate_exact(&mut self, size: usize) -> (r: PhysicalAddress)
        requires
            old(self).wf(),
            exists|k: nat|
                k <= old(self).order() && old(self).block_size(k) == size && old(self).next_free(k)
                    < pow2(k + 1),
        ensures
            forall|k: nat|
                k <= old(self).order() && old(self).block_size(k) == size ==> old(self).allocates(
                    *final(self),
                    k,
                    r,
                ),
    {
        let k = self.order_for_size(size);
        proof {
            let kk = choose|k: nat|
                k <= self.order() && self.block_size(k) == size && self.next_free(k) < pow2(k + 1);
            assert forall|j: nat, i: nat|
                j <= self.order() && i <= self.order() && self.block_size(j) == self.block_size(i)
                implies j == i by {
                if j < i {
                    vstd::arithmetic::power2::lemma_pow2_strictly_increases(
                        (self.order() - i) as nat,
                        (self.order() - j) as nat,
                    );
                }
                if i < j {
                    vstd::arithmetic::power2::lemma_pow2_strictly_increases(
                        (self.order() - j) as nat,
                        (self.order() - i) as nat,
                    );
                }
            }
            assert(k == Some(kk as u8));
        }
        self.allocate_order(k.unwrap())
    }

    /// Hands out the smallest block that holds `size` bytes.
    pub fn allocate(&mut self, size: usize) -> (r: PhysicalAddress)
        requires
            old(self).wf(),
            0 < size <= old(self).block_size(0),
            old(self).next_free((old(self).order() - fit_exp(size as nat, 0, old(self).order())) as nat)
                < pow2((old(self).order() - fit_exp(size as nat, 0, old(self).order())) as nat + 1),
        ensures
            old(self).allocates(
                *final(self),
                (old(self).order() - fit_exp(size as nat, 0, old(self).order())) as nat,
                r,
            ),
    {
        let mut reverse_order: u8 = 0;
        while self.size_for_order(self.max_order - reverse_order) < size
            invariant
                self.wf(),
                0 < size <= self.block_size(0),
                reverse_order <= self.order(),
                fit_exp(size as nat, reverse_order as nat, self.order()) == fit_exp(
                    size as nat,
                    0,
                    self.order(),
                ),
            decreases self.order() - reverse_order,
        {
            reverse_order = reverse_order + 1;
        }
        self.allocate_order(self.max_order - reverse_order)
    }

    /// Lowers the search hint of depth `order` to `min` if it is above it.
    fn set_marker_min(&mut self, order: u8, min: usize)
        requires
            old(self).wf(),
            order <= old(self).order(),
        ensures
            final(self).wf(),
            final(self).tree() == old(self).tree(),
            final(self).marks() == old(self).marks().update(
                order as int,
                if old(self).marks()[order as int] > min {
                    min
                } else {
                    old(self).marks()[order as int]
                },
            ),
            final(self).order() == old(self).order(),
            final(self).start() == old(self).start(),
            final(self).end() == old(self).end(),
    {
        if self.markers[order as usize] > min {
            self.markers.set(order as usize, min);
        } else {
            proof {
                assert(self.marks().update(order as int, self.marks()[order as int]) =~= self.marks());
            }
        }
    }

    /// The allocated node that `free(address)` would give back, if any.
    pub fn allocated_block_at(&self, address: PhysicalAddress) -> (r: Option<usize>)
        requires
            self.wf(),
            self.page_in_span(address),
        ensures
            r matches Some(b) ==> b == self.freed_block(address) && pow2(level(b as int))
                <= b < pow2(level(b as int) + 1) && level(b as int) <= self.order(),
            r is None ==> self.freed_block(address) == -1,
    {
        let m = self.max_order;
        let ghost t = self.tree();
        let val = address.sub_address(self.region_start).value() / PAGE_SIZE;
        proof {
            self.lemma_pow2_bounds(0);
            assert(val < pow2(m as nat)) by (nonlinear_arith)
                requires
                    val == (address.0 - self.start()) / (PAGE_SIZE as int),
                    address.0 - self.start() < PAGE_SIZE * pow2(m as nat),
            ;
        }
        let mut rev: u8 = 0;
        let mut w: usize = val;
        proof {
            vstd::arithmetic::power2::lemma2_to64();
        }
        while rev < m && w % 2 == 0
            invariant
                rev <= m,
                m == self.order(),
                low_zeros(val as nat, m as nat) == rev + low_zeros(w as nat, (m - rev) as nat),
                w == val as nat / pow2(rev as nat),
            decreases m - rev,
        {
            proof {
                lemma_pow2_unfold(rev as nat + 1);
                vstd::arithmetic::power2::lemma_pow2_pos(rev as nat);
                vstd::arithmetic::div_mod::lemma_div_denominator(val as int, pow2(rev as nat) as int, 2);
            }
            w = w / 2;
            rev = rev + 1;
        }
        let mut order: u8 = m - rev;
        proof {
            self.lemma_pow2_bounds(order as nat);
            vstd::arithmetic::power2::lemma_pow2_adds(order as nat, rev as nat);
            vstd::arithmetic::power2::lemma_pow2_pos(rev as nat);
            assert(w < pow2(order as nat)) by (nonlinear_arith)
                requires
                    w == val as nat / pow2(rev as nat),
                    val < pow2(order as nat) * pow2(rev as nat),
                    pow2(rev as nat) > 0,
            ;
            lemma_pow2_unfold(order as nat + 1);
        }
        let mut block = Self::offset_for_order(order) + w;
        assert(block == first_candidate(val as nat, m as nat));
        loop
            invariant
                self.wf(),
                m == self.order(),
                t == self.tree(),
                order <= m,
                pow2(order as nat) <= block < pow2(order as nat + 1),
                allocated_below(t, block as int) == self.freed_block(address),
            decreases self.tree().len() - block,
        {
            proof {
                self.lemma_pow2_bounds(order as nat);
            }
            if self.state(block) == BlockState::Allocated {
                proof {
                    lemma_level(block as int, order as nat);
                }
                return Some(block);
            }
            if block >= self.state_tree.len() / 2 {
                return None;
            }
            proof {
                lemma_pow2_unfold(order as nat + 1);
                lemma_pow2_unfold(order as nat + 2);
                if order + 1 > m {
                    lemma_pow2_le(m as nat + 1, order as nat + 1);
                }
            }
            block = 2 * block;
            order = order + 1;
        }
    }

    /// Gives back the allocated block that holds the page at `address`.
    pub fn free(&mut self, address: PhysicalAddress)
        requires
            old(self).wf(),
            old(self).page_in_span(address),
            old(self).freed_block(address) >= 1,
        ensures
            old(self).frees(*final(self), address),
    {
        match self.allocated_block_at(address) {
            Some(block) => {
                let order = self.depth_of(block);
                self.set_marker_min(order, block);
                proof {
                    self.lemma_pow2_bounds(order as nat);
                    lemma_allocated_below(self.tree(), first_candidate(
                        ((address.0 - self.start()) / (PAGE_SIZE as int)) as nat,
                        self.order(),
                    ));
                    lemma_mark_keeps_ok(self.tree(), self.order(), block as int, BlockState::Free);
                }
                self.mark_subtree(block, BlockState::Free);
                self.update_ancestors(block);
            },
            None => {},
        }
    }

    /// Depth of node `block`.
    fn depth_of(&self, block: usize) -> (r: u8)
        requires
            self.wf(),
            1 <= block,
            pow2(level(block as int)) <= block < pow2(level(block as int) + 1),
            level(block as int) <= self.order(),
        ensures
            r == level(block as int),
    {
        let mut b = block;
        let mut d: u8 = 0;
        while b > 1
            invariant
                1 <= b <= block,
                d + level(b as int) == level(block as int),
                level(block as int) <= self.order() < 64,
            decreases b,
        {
            b = b / 2;
            d = d + 1;
        }
        d
    }

    /// Index, among the leaves, of the page at `address` once clamped to the region.
    pub open spec fn leaf_index(&self, address: int) -> int {
        let c = if address < self.start() {
            self.start() as int
        } else if address > self.end() {
            self.end() as int
        } else {
            address
        };
        (c - self.start()) / (PAGE_SIZE as int)
    }

    /// `after` is `self` with the leaves `[first, last)` reserved.
    pub open spec fn reserves(&self, after: Self, first: int, last: int) -> bool {
        &&& after.wf()
        &&& after.marks() == self.marks()
        &&& after.order() == self.order()
        &&& after.start() == self.start()
        &&& after.end() == self.end()
        &&& self.pages_only() ==> after.pages_only()
        &&& forall|v: int|
            0 <= v < pow2(self.order()) ==> #[trigger] after.tree()[pow2(self.order()) + v] == if first
                <= v < last {
                BlockState::Reserved
            } else {
                self.tree()[pow2(self.order()) + v]
            }
    }

    fn clamp_addr(&self, address: usize) -> (r: usize)
        ensures
            r == if address < self.start() {
                self.start() as int
            } else if address > self.end() {
                self.end() as int
            } else {
                address as int
            },
    {
        if address < self.region_start.0 {
            self.region_start.0
        } else if address > self.region_end.0 {
            self.region_end.0
        } else {
            address
        }
    }

    /// Leaf index of the page at `address`, which lies in the region.
    fn page_block_from(&self, address: usize) -> (r: usize)
        requires
            self.wf(),
            self.start() <= address <= self.end(),
        ensures
            r == (address - self.start()) / (PAGE_SIZE as int),
            r <= pow2(self.order()),
    {
        proof {
            assert((address - self.start()) / (PAGE_SIZE as int) <= pow2(self.order()))
                by (nonlinear_arith)
                requires
                    address - self.start() <= PAGE_SIZE * pow2(self.order()),
                    address >= self.start(),
            ;
        }
        (address - self.region_start.0) / PAGE_SIZE
    }

    /// Reserves the leaves `[first, last)`.
    fn reserve_leaves(&mut self, first: usize, last: usize)
        requires
            old(self).wf(),
            first <= last <= pow2(old(self).order()),
        ensures
            old(self).reserves(*final(self), first as int, last as int),
    {
        proof {
            self.lemma_pow2_bounds(self.order());
            lemma_pow2_unfold(self.order() + 1);
        }
        let offset = Self::offset_for_order(self.max_order);
        let mut leaf = first;
        while leaf < last
            invariant
                old(self).wf(),
                self.wf(),
                first <= leaf <= last <= pow2(old(self).order()),
                offset == pow2(self.order()),
                self.tree().len() == 2 * pow2(self.order()),
                old(self).reserves(*self, first as int, leaf as int),
            decreases last - leaf,
        {
            let block = offset + leaf;
            let ghost t0 = self.tree();
            self.set_state(block, BlockState::Reserved);
            let ghost t1 = self.tree();
            proof {
                assert forall|p: int|
                    1 <= p < pow2(self.order()) && !strict_anc(p, block as int) implies #[trigger] node_ok(
                    t1,
                    p,
                ) by {
                    assert(node_ok(t0, p));
                    if 2 * p == block || 2 * p + 1 == block {
                        assert(is_desc(p, p));
                        assert(block / 2 == p);
                        assert(is_desc(block as int, p));
                    }
                }
                lemma_recompute_repairs(t1, self.order(), block as int);
            }
            self.update_ancestors(block);
            proof {
                if old(self).pages_only() {
                    assert forall|q: int| 1 <= q < pow2(self.order()) implies #[trigger] self.tree()[q]
                        != BlockState::Allocated by {
                        if strict_anc(q, block as int) {
                            lemma_recompute_not_allocated(t1, block as int, q);
                        } else {
                            lemma_recompute_frame(t1, block as int, q);
                            assert(t0[q] != BlockState::Allocated);
                        }
                    }
                }
                assert forall|v: int| 0 <= v < pow2(self.order()) implies #[trigger] self.tree()[pow2(
                    self.order(),
                ) + v] == if first <= v < leaf + 1 {
                    BlockState::Reserved
                } else {
                    old(self).tree()[pow2(self.order()) + v]
                } by {
                    let q = pow2(self.order()) + v;
                    if strict_anc(q, block as int) {
                        lemma_desc_split(block as int, q);
                    }
                    lemma_recompute_frame(t1, block as int, q);
                }
            }
            leaf = leaf + 1;
        }
    }

    /// Reserves every page that meets `[start, end)`.
    pub fn reserve_range(&mut self, start: PhysicalAddress, end: PhysicalAddress) -> (r: Result<
        (),
        InitializationError,
    >)
        requires
            old(self).wf(),
            end.0 + PAGE_SIZE <= usize::MAX,
        ensures
            end.0 <= start.0 ==> r == Err::<(), InitializationError>(
                InitializationError::BadRange(start, end),
            ) && *final(self) == *old(self),
            end.0 > start.0 ==> r is Ok && old(self).reserves(
                *final(self),
                old(self).leaf_index(page_down(start.0 as int)),
                old(self).leaf_index(page_up(end.0 as int)),
            ),
    {
        if end.0 <= start.0 {
            return Err(InitializationError::BadRange(start, end));
        }
        let low = crate::memory::align_down(start.0, PAGE_SIZE);
        let high = crate::memory::align_up(end.0, PAGE_SIZE);
        proof {
            let e = end.0 as int;
            assert(high == page_up(e)) by (nonlinear_arith)
                requires
                    high % 4096 == 0,
                    e <= high < e + 4096,
            ;
            assert(low == page_down(start.0 as int)) by (nonlinear_arith)
                requires
                    low % 4096 == 0,
                    low <= start.0 < low + 4096,
            ;
        }
        let first = self.page_block_from(self.clamp_addr(low));
        let last = self.page_block_from(self.clamp_addr(high));
        proof {
            let cl = if low < self.start() { self.start() as int } else if low > self.end() { self.end() as int } else { low as int };
            let ch = if high < self.start() { self.start() as int } else if high > self.end() { self.end() as int } else { high as int };
            assert((cl - self.start()) / 4096 <= (ch - self.start()) / 4096) by (nonlinear_arith)
                requires
                    cl <= ch,
                    cl >= self.start(),
            ;
        }
        self.reserve_leaves(first, last);
        Ok(())
    }

    /// Reserves every page from the one after `address` to the end of the managed span.
    pub fn reserve_all_after(&mut self, address: PhysicalAddress)
        requires
            old(self).wf(),
            address.0 < usize::MAX,
        ensures
            old(self).reserves(
                *final(self),
                old(self).leaf_index(page_down(address.0 + 1)),
                pow2(old(self).order()) as int,
            ),
    {
        let low = crate::memory::align_down(address.0 + 1, PAGE_SIZE);
        proof {
            assert(low == page_down(address.0 + 1)) by (nonlinear_arith)
                requires
                    low % 4096 == 0,
                    low <= address.0 + 1 < low + 4096,
            ;
            self.lemma_pow2_bounds(self.order());
        }
        let first = self.page_block_from(self.clamp_addr(low));
        let last = Self::offset_for_order(self.max_order);
        self.reserve_leaves(first, last);
    }

    /// First byte of the first usable entry and one past the last byte of the last one.
    fn get_usable_region(usable: &Vec<MemoryMapEntry>) -> (r: Result<
        (PhysicalAddress, PhysicalAddress),
        InitializationError,
    >)
        requires
            usable_map_ok(usable@),
        ensures
            usable@.len() == 0 ==> r == Err::<(PhysicalAddress, PhysicalAddress), InitializationError>(
                InitializationError::NoUsableMemory,
            ),
            usable@.len() > 0 ==> (r matches Ok((s, e)) && s.0 == usable@[0].base && e.0
                == entry_end(usable@.last())),
    {
        if usable.len() == 0 {
            return Err(InitializationError::NoUsableMemory);
        }
        let first = usable[0];
        let last = usable[usable.len() - 1];
        Ok((PhysicalAddress::from(first.base), PhysicalAddress::from(last.base + last.length)))
    }

    /// The smallest depth whose `2^depth` pages cover `[usable_start, usable_end)`.
    fn max_order_for_usable_region(usable_start: PhysicalAddress, usable_end: PhysicalAddress) -> (r: u8)
        requires
            usable_start.0 < usable_end.0 <= usize::MAX / 4,
        ensures
            r == fit_exp((usable_end.0 - usable_start.0) as nat, 0, 64),
            PAGE_SIZE * pow2(r as nat) >= usable_end.0 - usable_start.0,
            PAGE_SIZE * pow2(r as nat) <= 2 * (usable_end.0 - usable_start.0) + PAGE_SIZE,
            r < 64,
    {
        let length = usable_end.0 - usable_start.0;
        let mut size: usize = PAGE_SIZE;
        let mut order: u8 = 0;
        proof {
            vstd::arithmetic::power2::lemma2_to64();
        }
        while size < length
            invariant
                0 < length <= usize::MAX / 4,
                size == PAGE_SIZE * pow2(order as nat),
                PAGE_SIZE <= size <= 2 * length + PAGE_SIZE,
                order < 64,
                fit_exp(length as nat, order as nat, 64) == fit_exp(length as nat, 0, 64),
            decreases 2 * length + PAGE_SIZE - size,
        {
            proof {
                lemma_pow2_unfold(order as nat + 1);
                if order + 1 >= 64 {
                    lemma_pow2_le(64, order as nat + 1);
                    vstd::arithmetic::power2::lemma2_to64();
                }
            }
            size = size * 2;
            order = order + 1;
        }
        order
    }

    fn size_of_tree_for_order(order: u8) -> (r: usize)
        requires
            order < 64,
            pow2(order as nat + 1) <= usize::MAX,
        ensures
            r == pow2(order as nat + 1),
    {
        Self::offset_for_order(order + 1)
    }

    fn size_of_markers_for_order(order: u8) -> (r: usize)
        requires
            order < 64,
        ensures
            r == (order + 1) * WORD_SIZE,
    {
        (order as usize + 1) * WORD_SIZE
    }

    /// Base of the first usable entry that can hold `data_size` bytes.
    fn select_data_start(usable: &Vec<MemoryMapEntry>, data_size: usize) -> (r: Result<
        PhysicalAddress,
        InitializationError,
    >)
        ensures
            first_fit(usable@, data_size as int, 0) == usable@.len() ==> r == Err::<
                PhysicalAddress,
                InitializationError,
            >(InitializationError::NotEnoughAvailableMemory),
            first_fit(usable@, data_size as int, 0) < usable@.len() ==> r == Ok::<
                PhysicalAddress,
                InitializationError,
            >(PhysicalAddress(usable@[first_fit(usable@, data_size as int, 0)].base)),
    {
        let mut i: usize = 0;
        while i < usable.len()
            invariant
                i <= usable@.len(),
                first_fit(usable@, data_size as int, i as int) == first_fit(
                    usable@,
                    data_size as int,
                    0,
                ),
            decreases usable@.len() - i,
        {
            if usable[i].length >= data_size {
                return Ok(PhysicalAddress::from(usable[i].base));
            }
            i = i + 1;
        }
        Err(InitializationError::NotEnoughAvailableMemory)
    }

    /// A state tree of `tree_size` cells, all free but the sentinel.
    fn init_block_tree(tree_size: usize) -> (r: Vec<BlockState>)
        requires
            tree_size >= 1,
        ensures
            r@.len() == tree_size,
            r@[0] == BlockState::Reserved,
            forall|i: int| 1 <= i < tree_size ==> r@[i] == BlockState::Free,
    {
        let mut tree: Vec<BlockState> = Vec::new();
        tree.push(BlockState::Reserved);
        while tree.len() < tree_size
            invariant
                1 <= tree@.len() <= tree_size,
                tree@[0] == BlockState::Reserved,
                forall|i: int| 1 <= i < tree@.len() ==> tree@[i] == BlockState::Free,
            decreases tree_size - tree@.len(),
        {
            tree.push(BlockState::Free);
        }
        tree
    }

    /// Search hints that start each depth `k` at its first node `2^k`.
    fn init_markers(count: u8) -> (r: Vec<usize>)
        requires
            1 <= count <= 64,
            pow2((count - 1) as nat) <= usize::MAX,
        ensures
            r@.len() == count,
            forall|k: int| 0 <= k < count ==> r@[k] == pow2(k as nat),
    {
        let mut markers: Vec<usize> = Vec::new();
        let mut k: u8 = 0;
        while k < count
            invariant
                k <= count <= 64,
                pow2((count - 1) as nat) <= usize::MAX,
                markers@.len() == k,
                forall|j: int| 0 <= j < k ==> markers@[j] == pow2(j as nat),
            decreases count - k,
        {
            proof {
                lemma_pow2_le(k as nat, (count - 1) as nat);
            }
            markers.push(Self::offset_for_order(k));
            k = k + 1;
        }
        markers
    }

    /// Whether leaf `v` sits at a page that `[lo, hi)` covers, for page-aligned bounds.
    proof fn lemma_leaf_range(&self, lo: int, hi: int, v: int)
        requires
            self.wf(),
            lo % (PAGE_SIZE as int) == 0,
            hi % (PAGE_SIZE as int) == 0,
            0 <= v < pow2(self.order()),
        ensures
            (self.leaf_index(lo) <= v < self.leaf_index(hi)) <==> (self.start() + v * PAGE_SIZE
                < self.end() && lo <= self.start() + v * PAGE_SIZE < hi),
            (self.leaf_index(lo) <= v) <==> (self.start() + v * PAGE_SIZE >= self.end() || lo
                <= self.start() + v * PAGE_SIZE),
    {
        let st = self.start() as int;
        let en = self.end() as int;
        let cl = if lo < st { st } else if lo > en { en } else { lo };
        let ch = if hi < st { st } else if hi > en { en } else { hi };
        lemma_leaf_cmp(st, cl, v);
        lemma_leaf_cmp(st, ch, v);
    }

    /// Reserves every page outside the usable entries: the gaps between them and all that
    /// follows the last one.
    fn set_reserved_from_mmap(&mut self, usable: &Vec<MemoryMapEntry>)
        requires
            old(self).wf(),
            usable_map_ok(usable@),
            usable@.len() >= 1,
            old(self).end() == entry_end(usable@.last()),
            old(self).start() >= usable@[0].base,
            forall|v: int|
                0 <= v < pow2(old(self).order()) ==> #[trigger] old(self).tree()[pow2(
                    old(self).order(),
                ) + v] == BlockState::Free,
        ensures
            final(self).wf(),
            final(self).marks() == old(self).marks(),
            final(self).order() == old(self).order(),
            final(self).start() == old(self).start(),
            final(self).end() == old(self).end(),
            old(self).pages_only() ==> final(self).pages_only(),
            forall|v: int|
                0 <= v < pow2(old(self).order()) ==> (#[trigger] final(self).tree()[pow2(
                    old(self).order(),
                ) + v] == BlockState::Reserved) == !in_entries(
                    usable@,
                    old(self).start() + v * PAGE_SIZE,
                    usable@.len() as int,
                ),
    {
        let ghost u = usable@;
        let ghost m = self.order();
        let ghost st = self.start();
        let ghost en = self.end();
        let first = usable[0];
        proof {
            assert(entry_ok(u[0]));
        }
        let mut previous_end: usize = first.base + first.length;
        let mut i: usize = 1;
        while i < usable.len()
            invariant
                self.wf(),
                usable@ == u,
                usable_map_ok(u),
                1 <= i <= u.len(),
                previous_end == entry_end(u[i - 1]),
                self.marks() == old(self).marks(),
                self.order() == m,
                self.start() == st,
                self.end() == en,
                old(self).pages_only() ==> self.pages_only(),
                forall|v: int|
                    0 <= v < pow2(m) ==> (#[trigger] self.tree()[pow2(m) + v] == BlockState::Reserved)
                        == (st + v * PAGE_SIZE < en && in_gaps(u, st + v * PAGE_SIZE, i - 1)),
            decreases u.len() - i,
        {
            let current_start = usable[i].base;
            proof {
                assert(entry_ok(u[i as int]));
                assert(entry_ok(u[i - 1]));
                assert(entry_end(u[i - 1]) <= u[i as int].base);
            }
            let ghost s0 = *self;
            if previous_end < current_start {
                let _ = self.reserve_range(
                    PhysicalAddress::from(previous_end),
                    PhysicalAddress::from(current_start),
                );
                proof {
                    assert(page_down(previous_end as int) == previous_end);
                    assert(page_up(current_start as int) == current_start);
                    assert forall|v: int| 0 <= v < pow2(m) implies (#[trigger] self.tree()[pow2(m)
                        + v] == BlockState::Reserved) == (st + v * PAGE_SIZE < en && in_gaps(
                        u,
                        st + v * PAGE_SIZE,
                        i as int,
                    )) by {
                        s0.lemma_leaf_range(previous_end as int, current_start as int, v);
                    }
                }
            } else {
                proof {
                    assert forall|v: int| 0 <= v < pow2(m) implies (#[trigger] self.tree()[pow2(m)
                        + v] == BlockState::Reserved) == (st + v * PAGE_SIZE < en && in_gaps(
                        u,
                        st + v * PAGE_SIZE,
                        i as int,
                    )) by {}
                }
            }
            let entry = usable[i];
            previous_end = entry.base + entry.length;
            i = i + 1;
        }
        let ghost s1 = *self;
        proof {
            assert(entry_ok(u[u.len() - 1]));
            assert(previous_end == en);
        }
        self.reserve_all_after(PhysicalAddress::from(previous_end));
        proof {
            assert(page_down(previous_end + 1) == previous_end) by (nonlinear_arith)
                requires
                    previous_end % 4096 == 0,
            ;
            assert forall|v: int| 0 <= v < pow2(m) implies (#[trigger] self.tree()[pow2(m) + v]
                == BlockState::Reserved) == !in_entries(u, st + v * PAGE_SIZE, u.len() as int) by {
                s1.lemma_leaf_range(previous_end as int, previous_end as int, v);
                assert(entry_ok(u[0]));
                if u.len() > 1 {
                    assert(entry_end(u[0]) <= u[u.len() - 1].base);
                }
                lemma_gaps_complement(u, st + v * PAGE_SIZE, u.len() as int);
            }
        }
    }

    /// A fresh allocator whose hints, then state tree, sit at `data_start`, in a usable entry of
    /// `room` bytes, managing the pages after them up to `usable_end`.
    fn with_metadata_at(
        data_start: PhysicalAddress,
        room: Ghost<int>,
        usable_start: PhysicalAddress,
        usable_end: PhysicalAddress,
        max_order: u8,
    ) -> (r: Self)
        requires
            max_order < 64,
            PAGE_SIZE * pow2(max_order as nat) >= usable_end.0 - usable_start.0,
            PAGE_SIZE * pow2(max_order as nat) <= 2 * (usable_end.0 - usable_start.0) + PAGE_SIZE,
            usable_start.0 <= data_start.0,
            data_start.0 % PAGE_SIZE == 0,
            room@ >= metadata_size(max_order as nat),
            data_start.0 + room@ <= usable_end.0 <= usize::MAX / 4,
            (data_start.0 + room@) % (PAGE_SIZE as int) == 0,
            usable_end.0 % PAGE_SIZE == 0,
        ensures
            r.wf(),
            r.order() == max_order,
            r.start() == page_up(data_start.0 + metadata_size(max_order as nat)),
            r.end() == usable_end.0,
            r.pages_only(),
            forall|k: int| 0 <= k <= max_order ==> #[trigger] r.marks()[k] == pow2(k as nat),
            forall|v: int|
                0 <= v < pow2(max_order as nat) ==> #[trigger] r.tree()[pow2(max_order as nat) + v]
                    == BlockState::Free,
    {
        proof {
            lemma_pow2_unfold(max_order as nat + 1);
            vstd::arithmetic::power2::lemma_pow2_pos(max_order as nat);
        }
        let tree_size = Self::size_of_tree_for_order(max_order);
        let markers_size = Self::size_of_markers_for_order(max_order);
        let tree_start = data_start.0 + markers_size;
        let region_start = crate::memory::align_up(tree_start + tree_size, PAGE_SIZE);
        proof {
            let e = data_start.0 + room@;
            assert(region_start <= e) by (nonlinear_arith)
                requires
                    region_start % 4096 == 0,
                    e % 4096 == 0,
                    tree_start + tree_size <= region_start < tree_start + tree_size + 4096,
                    tree_start + tree_size <= e,
            ;
            let x = tree_start + tree_size;
            assert(region_start == page_up(x)) by (nonlinear_arith)
                requires
                    region_start % 4096 == 0,
                    x <= region_start < x + 4096,
            ;
        }
        let state_tree = Self::init_block_tree(tree_size);
        let markers = Self::init_markers(max_order + 1);
        let allocator = BuddyAllocator {
            region_start: PhysicalAddress::from(region_start),
            region_end: usable_end,
            max_order,
            markers,
            state_tree,
        };
        proof {
            assert forall|p: int| 1 <= p < pow2(max_order as nat) implies #[trigger] node_ok(
                allocator.tree(),
                p,
            ) by {}
        }
        allocator
    }

    /// Builds the allocator over the usable memory of `memory_map`, with its own metadata
    /// placed at the start of the first usable entry that can hold it, and every page outside
    /// the usable entries reserved.
    #[verifier::rlimit(40)]
    pub fn new_embedded(memory_map: MemoryMap) -> (r: Result<Self, InitializationError>)
        requires
            usable_map_ok(usable_of(memory_map@)),
        ensures
            ({
                let u = usable_of(memory_map@);
                let m = fit_exp((entry_end(u.last()) - u[0].base) as nat, 0, 64);
                let d = first_fit(u, metadata_size(m), 0);
                &&& u.len() == 0 ==> r == Err::<Self, InitializationError>(
                    InitializationError::NoUsableMemory,
                )
                &&& u.len() > 0 && d == u.len() ==> r == Err::<Self, InitializationError>(
                    InitializationError::NotEnoughAvailableMemory,
                )
                &&& u.len() > 0 && d < u.len() ==> (r matches Ok(a) && {
                    &&& a.wf()
                    &&& a.order() == m
                    &&& a.start() == page_up(u[d].base + metadata_size(m))
                    &&& a.end() == entry_end(u.last())
                    &&& a.pages_only()
                    &&& forall|k: int| 0 <= k <= m ==> #[trigger] a.marks()[k] == pow2(k as nat)
                    &&& forall|v: int|
                        0 <= v < pow2(m) ==> (#[trigger] a.tree()[pow2(m) + v]
                            == BlockState::Reserved) == !in_entries(
                            u,
                            a.start() + v * PAGE_SIZE,
                            u.len() as int,
                        )
                })
            }),
    {
        let usable = memory_map.usable_entries();
        let ghost u = usable@;
        let (usable_start, usable_end) = match Self::get_usable_region(&usable) {
            Ok(region) => region,
            Err(e) => {
                return Err(e);
            },
        };
        proof {
            assert(entry_ok(u[0]));
            assert(entry_ok(u[u.len() - 1]));
            if u.len() > 1 {
                assert(entry_end(u[0]) <= u[u.len() - 1].base);
            }
        }
        let max_order = Self::max_order_for_usable_region(usable_start, usable_end);
        proof {
            lemma_pow2_unfold(max_order as nat + 1);
        }
        let tree_size = Self::size_of_tree_for_order(max_order);
        let markers_size = Self::size_of_markers_for_order(max_order);
        let total_size = markers_size + tree_size;
        let data_start = match Self::select_data_start(&usable, total_size) {
            Ok(start) => start,
            Err(e) => {
                return Err(e);
            },
        };
        let ghost d = first_fit(u, total_size as int, 0);
        proof {
            lemma_first_fit(u, total_size as int, 0);
            assert(entry_ok(u[d]));
            if d < u.len() - 1 {
                assert(entry_end(u[d]) <= u[u.len() - 1].base);
            }
            if d > 0 {
                assert(entry_end(u[0]) <= u[d].base);
            }
        }
        let mut allocator = Self::with_metadata_at(
            data_start,
            Ghost(u[d].length as int),
            usable_start,
            usable_end,
            max_order,
        );
        allocator.set_reserved_from_mmap(&usable);
        Ok(allocator)
    }

    /// Depth of the leaves.
    pub fn max_order(&self) -> (r: u8)
        ensures
            r == self.order(),
    {
        self.max_order
    }

    /// First byte of the managed region.
    pub fn region_start(&self) -> (r: PhysicalAddress)
        ensures
            r.0 == self.start(),
    {
        self.region_start
    }

    /// One past the last usable byte.
    pub fn region_end(&self) -> (r: PhysicalAddress)
        ensures
            r.0 == self.end(),
    {
        self.region_end
    }

    /// Number of cells of the state tree.
    pub fn tree_len(&self) -> (r: usize)
        ensures
            r == self.tree().len(),
    {
        self.state_tree.len()
    }

    /// State of node `index`.
    pub fn block_state(&self, index: usize) -> (r: BlockState)
        requires
            index < self.tree().len(),
        ensures
            r == self.tree()[index as int],
    {
        self.state_tree[index]
    }

    /// Search hint of depth `order`.
    pub fn marker(&self, order: u8) -> (r: usize)
        requires
            order < self.marks().len(),
        ensures
            r == self.marks()[order as int],
    {
        self.markers[order as usize]
    }

    /// Whether `allocate_order(order)` finds a free block.
    pub fn can_allocate_order(&self, order: u8) -> (r: bool)
        requires
            self.wf(),
            order <= self.order(),
        ensures
            r == (self.next_free(order as nat) < pow2(order as nat + 1)),
    {
        proof {
            self.lemma_pow2_bounds(order as nat);
            lemma_pow2_unfold(order as nat + 1);
        }
        let first = self.marker_for(order);
        let last = 2 * Self::offset_for_order(order);
        let mut block = first;
        while block < last
            invariant
                self.wf(),
                first <= block,
                last == pow2(order as nat + 1),
                last <= self.tree().len(),
                first == self.search_start(order as nat),
                first_free(self.tree(), block as int, last as int) == self.next_free(order as nat),
            decreases last - block,
        {
            if self.state(block).is_free() {
                return true;
            }
            block = block + 1;
        }
        false
    }
}


proof fn lemma_only_root_above_root(q: int)
    ensures
        !strict_anc(q, 1),
{
    if is_desc(1, q) {
        lemma_desc_ge(1, q);
    }
}

/// Strict ancestors of `b` lie at or above its parent.
proof fn lemma_strict_anc_le_parent(q: int, b: int)
    requires
        strict_anc(q, b),
    ensures
        1 <= q <= b / 2,
        q == b / 2 || strict_anc(q, b / 2),
{
    lemma_desc_ge(b, q);
    lemma_desc_split(b, q);
    if q != b / 2 {
        lemma_desc_ge(b / 2, q);
    }
}

/// Recomputation never leaves an ancestor allocated.
proof fn lemma_recompute_not_allocated(y: Seq<BlockState>, b: int, q: int)
    requires
        1 <= b < y.len(),
        strict_anc(q, b),
    ensures
        recompute(y, b)[q] != BlockState::Allocated,
    decreases b,
{
    if b <= 1 {
        lemma_only_root_above_root(q);
    } else {
        let p = b / 2;
        let y2 = y.update(p, parent_rule(y[2 * p], y[2 * p + 1]));
        lemma_strict_anc_le_parent(q, b);
        lemma_recompute_len(y2, p);
        if q == p {
            assert(!strict_anc(p, p));
            lemma_recompute_frame(y2, p, p);
        } else {
            lemma_recompute_not_allocated(y2, p, q);
        }
    }
}

/// Recomputing the ancestors of `b` in a copy of a well-formed tree that differs only there,
/// at ancestors that the rule governs, gives the tree back.
proof fn lemma_recompute_restores(t: Seq<BlockState>, order: nat, y: Seq<BlockState>, b: int)
    requires
        tree_ok(t, order),
        y.len() == t.len(),
        1 <= b < t.len(),
        forall|q: int| 0 <= q < t.len() && !strict_anc(q, b) ==> #[trigger] y[q] == t[q],
        forall|q: int| #[trigger] strict_anc(q, b) ==> t[q] != BlockState::Allocated,
    ensures
        recompute(y, b) == t,
    decreases b,
{
    lemma_pow2_unfold(order + 1);
    if b <= 1 {
        assert forall|q: int| 0 <= q < t.len() implies y[q] == t[q] by {
            if strict_anc(q, b) {
                lemma_only_root_above_root(q);
            }
        }
        assert(y =~= t);
    } else {
        let p = b / 2;
        let y2 = y.update(p, parent_rule(y[2 * p], y[2 * p + 1]));
        assert(is_desc(p, p));
        assert(strict_anc(p, b));
        if strict_anc(2 * p, b) {
            lemma_strict_anc_le_parent(2 * p, b);
        }
        if strict_anc(2 * p + 1, b) {
            lemma_strict_anc_le_parent(2 * p + 1, b);
        }
        assert(node_ok(t, p));
        assert forall|q: int| 0 <= q < t.len() && !strict_anc(q, p) implies #[trigger] y2[q] == t[q] by {
            if q != p && strict_anc(q, b) {
                lemma_strict_anc_le_parent(q, b);
            }
        }
        assert forall|q: int| #[trigger] strict_anc(q, p) implies t[q] != BlockState::Allocated by {
            lemma_desc_trans(b, p, q);
            lemma_desc_ge(p, q);
            assert(strict_anc(q, b));
        }
        lemma_recompute_restores(t, order, y2, p);
    }
}

/// Giving back a block right after handing it out restores the state tree cell by cell.
pub proof fn lemma_free_undoes_allocate(t: Seq<BlockState>, order: nat, j: int)
    requires
        tree_ok(t, order),
        1 <= j < t.len(),
        t[j] == BlockState::Free,
    ensures
        freed_tree(allocated_tree(t, j), j) == t,
{
    let m = marked(t, j, BlockState::Allocated);
    let x = recompute(m, j);
    let y = marked(x, j, BlockState::Free);
    lemma_recompute_len(m, j);
    assert forall|q: int| 0 <= q < t.len() && !strict_anc(q, j) implies #[trigger] y[q] == t[q] by {
        lemma_recompute_frame(m, j, q);
        if is_desc(q, j) {
            lemma_uniform_subtree(t, order, j, q);
        }
    }
    assert forall|q: int| #[trigger] strict_anc(q, j) implies t[q] != BlockState::Allocated by {
        if t[q] == BlockState::Allocated {
            lemma_desc_ge(j, q);
            lemma_uniform_subtree(t, order, q, j);
        }
    }
    lemma_recompute_restores(t, order, y, j);
}

/// Every internal node that is not allocated has the state that the parent rule gives from
/// its children; an allocated one has both children allocated.
pub proof fn lemma_parent_rule(a: BuddyAllocator, p: int)
    requires
        a.wf(),
        1 <= p < pow2(a.order()),
    ensures
        a.tree()[p] != BlockState::Allocated ==> a.tree()[p] == parent_rule(
            a.tree()[2 * p],
            a.tree()[2 * p + 1],
        ),
        a.tree()[p] == BlockState::Allocated ==> a.tree()[2 * p] == BlockState::Allocated
            && a.tree()[2 * p + 1] == BlockState::Allocated,
{
    assert(node_ok(a.tree(), p));
}

/// Handing out a block moves search hints forward only.
pub proof fn lemma_allocate_hints_grow(a: BuddyAllocator, after: BuddyAllocator, k: nat, r: PhysicalAddress)
    requires
        a.wf(),
        k <= a.order(),
        a.next_free(k) < pow2(k + 1),
        a.allocates(after, k, r),
    ensures
        forall|i: int| 0 <= i < a.marks().len() ==> #[trigger] after.marks()[i] >= a.marks()[i],
        after.marks()[k as int] == a.next_free(k) + 1,
{
    a.lemma_pow2_bounds(k);
    if a.search_start(k) <= pow2(k + 1) {
        lemma_first_free_bounds(a.tree(), a.search_start(k), pow2(k + 1) as int);
    }
    assert forall|i: int| 0 <= i < a.marks().len() implies #[trigger] after.marks()[i] >= a.marks()[i] by {
        if i == k {
            assert(after.marks()[i] == a.next_free(k) + 1);
        }
    }
}

proof fn lemma_first_free_bounds(t: Seq<BlockState>, lo: int, hi: int)
    requires
        lo <= hi,
    ensures
        lo <= first_free(t, lo, hi) <= hi,
    decreases hi - lo,
{
    if lo < hi && t[lo] != BlockState::Free {
        lemma_first_free_bounds(t, lo + 1, hi);
    }
}


proof fn lemma_low_zeros_shift(a: nat, w: nat, m: nat)
    requires
        a <= m,
    ensures
        low_zeros(pow2(a) * w, m) == a + low_zeros(w, (m - a) as nat),
    decreases a,
{
    if a == 0 {
        vstd::arithmetic::power2::lemma2_to64();
        assert(pow2(0) * w == w);
    } else {
        lemma_pow2_unfold(a);
        let v = pow2(a) * w;
        assert(v == 2 * (pow2((a - 1) as nat) * w)) by (nonlinear_arith)
            requires
                v == pow2(a) * w,
                pow2(a) == 2 * pow2((a - 1) as nat),
        ;
        assert(v % 2 == 0 && v / 2 == pow2((a - 1) as nat) * w);
        lemma_low_zeros_shift((a - 1) as nat, w, (m - 1) as nat);
    }
}

proof fn lemma_low_zeros_divides(w: nat, m: nat)
    ensures
        low_zeros(w, m) <= m,
        w % pow2(low_zeros(w, m)) == 0,
    decreases m,
{
    vstd::arithmetic::power2::lemma2_to64();
    if m == 0 || w % 2 == 1 {
    } else {
        lemma_low_zeros_divides(w / 2, (m - 1) as nat);
        let z = low_zeros(w / 2, (m - 1) as nat);
        lemma_pow2_unfold(z + 1);
        vstd::arithmetic::power2::lemma_pow2_pos(z);
        let q = (w / 2) / pow2(z);
        assert(w == pow2(z + 1) * q) by (nonlinear_arith)
            requires
                w % 2 == 0,
                (w / 2) % pow2(z) == 0,
                q == (w / 2) / pow2(z),
                pow2(z + 1) == 2 * pow2(z),
                pow2(z) > 0,
        ;
        vstd::arithmetic::div_mod::lemma_mod_multiples_basic(q as int, pow2(z + 1) as int);
        assert(q * pow2(z + 1) == pow2(z + 1) * q) by (nonlinear_arith);
    }
}

proof fn lemma_desc_pow(n: int, d: nat)
    requires
        n >= 1,
    ensures
        is_desc(n * pow2(d), n),
        n * pow2(d) >= n,
    decreases d,
{
    vstd::arithmetic::power2::lemma2_to64();
    if d > 0 {
        lemma_desc_pow(n, (d - 1) as nat);
        lemma_pow2_unfold(d);
        let x = n * pow2((d - 1) as nat);
        assert(n * pow2(d) == 2 * x) by (nonlinear_arith)
            requires
                x == n * pow2((d - 1) as nat),
                pow2(d) == 2 * pow2((d - 1) as nat),
        ;
        assert((2 * x) / 2 == x);
    }
}

/// From `c`, the walk down the leftmost path reaches `j = c * 2^z` when only `j` is allocated
/// on the way.
proof fn lemma_walk_reaches(t: Seq<BlockState>, c: int, z: nat, j: int)
    requires
        c >= 1,
        j == c * pow2(z),
        j < t.len(),
        t[j] == BlockState::Allocated,
        forall|q: int| #[trigger] strict_anc(q, j) ==> t[q] != BlockState::Allocated,
    ensures
        allocated_below(t, c) == j,
    decreases z,
{
    vstd::arithmetic::power2::lemma2_to64();
    if z == 0 {
        assert(pow2(0) == 1);
        assert(c * pow2(0) == c) by (nonlinear_arith)
            requires
                pow2(0) == 1,
        ;
    } else {
        lemma_pow2_unfold(z);
        assert(j == (2 * c) * pow2((z - 1) as nat)) by (nonlinear_arith)
            requires
                j == c * pow2(z),
                pow2(z) == 2 * pow2((z - 1) as nat),
        ;
        lemma_desc_pow(2 * c, (z - 1) as nat);
        lemma_desc_pow(c, z);
        assert(c != j) by (nonlinear_arith)
            requires
                j == (2 * c) * pow2((z - 1) as nat),
                2 * c * pow2((z - 1) as nat) >= 2 * c,
                c >= 1,
        ;
        assert(strict_anc(c, j));
        lemma_walk_reaches(t, 2 * c, (z - 1) as nat, j);
    }
}

/// Freeing the address that an allocation returned gives back exactly that block and
/// restores the state tree cell by cell.
pub proof fn lemma_address_round_trip(a: BuddyAllocator, after: BuddyAllocator, k: nat, r: PhysicalAddress)
    requires
        a.wf(),
        k <= a.order(),
        a.next_free(k) < pow2(k + 1),
        a.allocates(after, k, r),
    ensures
        after.page_in_span(r),
        after.freed_block(r) == a.next_free(k),
        freed_tree(after.tree(), after.freed_block(r)) == a.tree(),
{
    let m = a.order();
    let j = a.next_free(k);
    let t = a.tree();
    a.lemma_pow2_bounds(k);
    if a.search_start(k) <= pow2(k + 1) {
        lemma_first_free_bounds(t, a.search_start(k), pow2(k + 1) as int);
    }
    lemma_first_free_is_free(t, a.search_start(k), pow2(k + 1) as int);
    lemma_free_undoes_allocate(t, m, j);
    lemma_mark_keeps_ok(t, m, j, BlockState::Allocated);
    lemma_pow2_unfold(k + 1);
    assert(j >= pow2(k));
    let w = (j - pow2(k)) as nat;
    let sh = (m - k) as nat;
    vstd::arithmetic::power2::lemma_pow2_adds(sh, k);
    vstd::arithmetic::power2::lemma_pow2_pos(sh);
    vstd::arithmetic::power2::lemma_pow2_pos(k);
    let v = pow2(sh) * w;
    let p = PAGE_SIZE as int;
    assert(r.0 - a.start() == p * v) by (nonlinear_arith)
        requires
            r.0 == a.start() + (p * pow2(sh)) * w,
            v == pow2(sh) * w,
    ;
    vstd::arithmetic::div_mod::lemma_div_multiples_vanish(v as int, p);
    vstd::arithmetic::div_mod::lemma_mod_multiples_basic(v as int, p);
    assert((p * v) % p == 0) by (nonlinear_arith)
        requires
            (v * p) % p == 0,
    ;
    assert(v < pow2(m)) by (nonlinear_arith)
        requires
            v == pow2(sh) * w,
            w < pow2(k),
            pow2(sh) * pow2(k) == pow2(m),
            pow2(sh) > 0,
    ;
    assert(p * v < p * pow2(m)) by (nonlinear_arith)
        requires
            v < pow2(m),
            p > 0,
    ;
    assert(after.page_in_span(r));
    assert(((r.0 - after.start()) / p) as nat == v);
    lemma_low_zeros_shift(sh, w, m);
    lemma_low_zeros_divides(w, k);
    let z = low_zeros(w, k);
    let lz = low_zeros(v, m);
    assert(lz == sh + z);
    vstd::arithmetic::power2::lemma_pow2_adds(sh, z);
    vstd::arithmetic::power2::lemma_pow2_pos(z);
    vstd::arithmetic::div_mod::lemma_div_denominator(v as int, pow2(sh) as int, pow2(z) as int);
    assert(v / pow2(sh) == w) by (nonlinear_arith)
        requires
            v == pow2(sh) * w,
            pow2(sh) > 0,
    ;
    let c = first_candidate(v, m);
    assert(c == pow2((k - z) as nat) + w / pow2(z));
    vstd::arithmetic::power2::lemma_pow2_adds((k - z) as nat, z);
    vstd::arithmetic::div_mod::lemma_fundamental_div_mod(w as int, pow2(z) as int);
    assert(j == c * pow2(z)) by (nonlinear_arith)
        requires
            c == pow2((k - z) as nat) + w / pow2(z),
            w == pow2(z) * (w / pow2(z)) + w % pow2(z),
            w % pow2(z) == 0,
            pow2((k - z) as nat) * pow2(z) == pow2(k),
            j == pow2(k) + w,
    ;
    vstd::arithmetic::power2::lemma_pow2_pos((k - z) as nat);
    let tt = after.tree();
    assert(is_desc(j, j));
    assert forall|q: int| #[trigger] strict_anc(q, j) implies tt[q] != BlockState::Allocated by {
        lemma_recompute_not_allocated(marked(t, j, BlockState::Allocated), j, q);
    }
    lemma_walk_reaches(tt, c, z, j);
}

proof fn lemma_first_free_is_free(t: Seq<BlockState>, lo: int, hi: int)
    ensures
        first_free(t, lo, hi) < hi ==> t[first_free(t, lo, hi)] == BlockState::Free,
    decreases hi - lo,
{
    if lo < hi && t[lo] != BlockState::Free {
        lemma_first_free_is_free(t, lo + 1, hi);
    }
}


/// Number of free cells of `t` in `[lo, hi)`.
pub open spec fn count_free(t: Seq<BlockState>, lo: int, hi: int) -> nat
    decreases hi - lo,
{
    if lo >= hi {
        0
    } else {
        (if t[lo] == BlockState::Free {
            1nat
        } else {
            0nat
        }) + count_free(t, lo + 1, hi)
    }
}

impl BuddyAllocator {
    /// No node at depth `k` below the search start is free.
    pub open spec fn hint_sound(&self, k: nat) -> bool {
        forall|i: int| pow2(k) <= i < self.search_start(k) ==> #[trigger] self.tree()[i] != BlockState::Free
    }

    /// No block larger than a page is allocated.
    pub open spec fn pages_only(&self) -> bool {
        forall|p: int| 1 <= p < pow2(self.order()) ==> #[trigger] self.tree()[p] != BlockState::Allocated
    }

    /// Number of free pages.
    pub open spec fn free_leaf_count(&self) -> nat {
        count_free(self.tree(), pow2(self.order()) as int, pow2(self.order() + 1) as int)
    }
}

proof fn lemma_count_free_pos(t: Seq<BlockState>, lo: int, hi: int)
    ensures
        count_free(t, lo, hi) > 0 <==> exists|i: int| lo <= i < hi && #[trigger] t[i] == BlockState::Free,
    decreases hi - lo,
{
    if lo < hi {
        lemma_count_free_pos(t, lo + 1, hi);
        if exists|i: int| lo <= i < hi && #[trigger] t[i] == BlockState::Free {
            let i = choose|i: int| lo <= i < hi && #[trigger] t[i] == BlockState::Free;
            if i != lo {
                assert(lo + 1 <= i < hi && t[i] == BlockState::Free);
            }
        }
    }
}

proof fn lemma_count_free_update(t: Seq<BlockState>, u: Seq<BlockState>, lo: int, hi: int, j: int)
    requires
        lo <= j < hi,
        t[j] == BlockState::Free,
        u[j] != BlockState::Free,
        forall|i: int| lo <= i < hi && i != j ==> #[trigger] u[i] == t[i],
    ensures
        count_free(u, lo, hi) + 1 == count_free(t, lo, hi),
    decreases hi - lo,
{
    if lo < j {
        lemma_count_free_update(t, u, lo + 1, hi, j);
    } else {
        lemma_count_free_same(t, u, lo + 1, hi);
    }
}

proof fn lemma_count_free_same(t: Seq<BlockState>, u: Seq<BlockState>, lo: int, hi: int)
    requires
        forall|i: int| lo <= i < hi ==> #[trigger] u[i] == t[i],
    ensures
        count_free(u, lo, hi) == count_free(t, lo, hi),
    decreases hi - lo,
{
    if lo < hi {
        lemma_count_free_same(t, u, lo + 1, hi);
    }
}

proof fn lemma_first_free_skips(t: Seq<BlockState>, lo: int, hi: int, i: int)
    requires
        lo <= i < first_free(t, lo, hi),
    ensures
        t[i] != BlockState::Free,
    decreases hi - lo,
{
    if lo < hi && t[lo] != BlockState::Free && i != lo {
        lemma_first_free_skips(t, lo + 1, hi, i);
    }
}

/// The hints of a new allocator are sound at every depth.
pub proof fn lemma_fresh_hints_sound(a: BuddyAllocator)
    requires
        a.wf(),
        forall|k: int| 0 <= k <= a.order() ==> #[trigger] a.marks()[k] == pow2(k as nat),
    ensures
        forall|k: nat| k <= a.order() ==> #[trigger] a.hint_sound(k),
{
    assert forall|k: nat| k <= a.order() implies #[trigger] a.hint_sound(k) by {
        assert(a.marks()[k as int] == pow2(k));
    }
}

/// With a sound hint, a page can be handed out exactly when some page is free.
pub proof fn lemma_page_available(a: BuddyAllocator)
    requires
        a.wf(),
        a.hint_sound(a.order()),
    ensures
        (a.next_free(a.order()) < pow2(a.order() + 1)) <==> a.free_leaf_count() > 0,
{
    let m = a.order();
    let t = a.tree();
    let lo = a.search_start(m);
    let hi = pow2(m + 1) as int;
    lemma_count_free_pos(t, pow2(m) as int, hi);
    lemma_first_free_is_free(t, lo, hi);
    if lo <= hi {
        lemma_first_free_bounds(t, lo, hi);
    }
    if a.free_leaf_count() > 0 {
        let i = choose|i: int| pow2(m) <= i < hi && #[trigger] t[i] == BlockState::Free;
        if a.next_free(m) >= hi {
            if i >= lo {
                lemma_first_free_skips(t, lo, hi, i);
            }
        }
    }
}

/// Handing out one page uses up exactly one free page and keeps the hint sound.
pub proof fn lemma_page_allocation_step(a: BuddyAllocator, after: BuddyAllocator, r: PhysicalAddress)
    requires
        a.wf(),
        a.hint_sound(a.order()),
        a.next_free(a.order()) < pow2(a.order() + 1),
        a.allocates(after, a.order(), r),
    ensures
        after.hint_sound(after.order()),
        after.free_leaf_count() + 1 == a.free_leaf_count(),
        a.pages_only() ==> after.pages_only(),
{
    let m = a.order();
    let t = a.tree();
    let j = a.next_free(m);
    let lo = a.search_start(m);
    let hi = pow2(m + 1) as int;
    a.lemma_pow2_bounds(m);
    lemma_pow2_unfold(m + 1);
    lemma_first_free_bounds(t, lo, hi);
    lemma_first_free_is_free(t, lo, hi);
    lemma_mark_keeps_ok(t, m, j, BlockState::Allocated);
    let mk = marked(t, j, BlockState::Allocated);
    let tt = after.tree();
    assert forall|i: int| pow2(m) <= i < hi && i != j implies #[trigger] tt[i] == t[i] by {
        if strict_anc(i, j) {
            lemma_strict_anc_le_parent(i, j);
        }
        lemma_recompute_frame(mk, j, i);
        if is_desc(i, j) {
            lemma_desc_ge(i, j);
            if i != j {
                lemma_desc_split(i, j);
            }
        }
    }
    assert(is_desc(j, j));
    lemma_count_free_update(t, tt, pow2(m) as int, hi, j);
    assert(after.search_start(m) == j + 1);
    assert forall|i: int| pow2(m) <= i < after.search_start(m) implies #[trigger] after.tree()[i]
        != BlockState::Free by {
        if i < lo {
            assert(t[i] != BlockState::Free);
        } else if i < j {
            lemma_first_free_skips(t, lo, hi, i);
        }
    }
    if a.pages_only() {
        assert forall|q: int| 1 <= q < pow2(m) implies #[trigger] tt[q] != BlockState::Allocated by {
            if strict_anc(q, j) {
                lemma_recompute_not_allocated(mk, j, q);
            } else {
                lemma_recompute_frame(mk, j, q);
                if is_desc(q, j) {
                    lemma_desc_ge(q, j);
                }
            }
        }
    }
}


/// Giving back a block lowers the hint of its depth to at most its index and leaves the other
/// hints alone.
pub proof fn lemma_free_lowers_hint(a: BuddyAllocator, after: BuddyAllocator, address: PhysicalAddress)
    requires
        a.wf(),
        a.page_in_span(address),
        a.freed_block(address) >= 1,
        a.frees(after, address),
    ensures
        after.marks()[level(a.freed_block(address)) as int] <= a.freed_block(address),
        forall|i: int|
            0 <= i < a.marks().len() && i != level(a.freed_block(address)) ==> #[trigger] after.marks()[i]
                == a.marks()[i],
{
    let b = a.freed_block(address);
    lemma_allocated_below(a.tree(), first_candidate(
        ((address.0 - a.start()) / (PAGE_SIZE as int)) as nat,
        a.order(),
    ));
    lemma_level_bound(a, b);
}

proof fn lemma_level_bound(a: BuddyAllocator, b: int)
    requires
        a.wf(),
        1 <= b < a.tree().len(),
    ensures
        level(b) <= a.order(),
{
    a.lemma_pow2_bounds(0);
    lemma_level_le(b, a.order() + 1);
}

proof fn lemma_level_le(b: int, n: nat)
    requires
        1 <= b < pow2(n),
    ensures
        level(b) < n,
    decreases n,
{
    vstd::arithmetic::power2::lemma2_to64();
    if n > 0 {
        lemma_pow2_unfold(n);
        if b > 1 {
            lemma_level_le(b / 2, (n - 1) as nat);
        }
    }
}


/// When only pages are allocated, giving back the address of an allocated page frees exactly
/// that page: one more page is free, and still only pages are allocated.
pub proof fn lemma_page_free_step(a: BuddyAllocator, after: BuddyAllocator, address: PhysicalAddress)
    requires
        a.wf(),
        a.pages_only(),
        a.page_in_span(address),
        a.tree()[pow2(a.order()) + (address.0 - a.start()) / (PAGE_SIZE as int)]
            == BlockState::Allocated,
        a.frees(after, address),
    ensures
        a.freed_block(address) == pow2(a.order()) + (address.0 - a.start()) / (PAGE_SIZE as int),
        after.free_leaf_count() == a.free_leaf_count() + 1,
        after.pages_only(),
{
    let m = a.order();
    let t = a.tree();
    let p = PAGE_SIZE as int;
    a.lemma_pow2_bounds(m);
    lemma_pow2_unfold(m + 1);
    let v = ((address.0 - a.start()) / p) as nat;
    assert(v < pow2(m)) by (nonlinear_arith)
        requires
            v == (address.0 - a.start()) / p,
            address.0 - a.start() < p * pow2(m),
            address.0 - a.start() >= 0,
            p > 0,
    ;
    let leaf = (pow2(m) + v) as int;
    lemma_low_zeros_divides(v, m);
    let z = low_zeros(v, m);
    vstd::arithmetic::power2::lemma_pow2_adds((m - z) as nat, z);
    vstd::arithmetic::power2::lemma_pow2_pos(z);
    vstd::arithmetic::power2::lemma_pow2_pos((m - z) as nat);
    vstd::arithmetic::div_mod::lemma_fundamental_div_mod(v as int, pow2(z) as int);
    let c = first_candidate(v, m);
    assert(leaf == c * pow2(z)) by (nonlinear_arith)
        requires
            c == pow2((m - z) as nat) + v / pow2(z),
            v == pow2(z) * (v / pow2(z)) + v % pow2(z),
            v % pow2(z) == 0,
            pow2((m - z) as nat) * pow2(z) == pow2(m),
            leaf == pow2(m) + v,
    ;
    assert forall|q: int| #[trigger] strict_anc(q, leaf) implies t[q] != BlockState::Allocated by {
        lemma_strict_anc_le_parent(q, leaf);
    }
    lemma_walk_reaches(t, c, z, leaf);
    let mk = marked(t, leaf, BlockState::Free);
    let tt = after.tree();
    assert(is_desc(leaf, leaf));
    assert forall|i: int| pow2(m) <= i < pow2(m + 1) && i != leaf implies #[trigger] tt[i] == t[i] by {
        if strict_anc(i, leaf) {
            lemma_strict_anc_le_parent(i, leaf);
        }
        lemma_recompute_frame(mk, leaf, i);
        if is_desc(i, leaf) {
            lemma_desc_ge(i, leaf);
            lemma_desc_split(i, leaf);
        }
    }
    lemma_recompute_frame(mk, leaf, leaf);
    lemma_count_free_update(tt, t, pow2(m) as int, pow2(m + 1) as int, leaf);
    assert forall|q: int| 1 <= q < pow2(m) implies #[trigger] tt[q] != BlockState::Allocated by {
        if strict_anc(q, leaf) {
            lemma_recompute_not_allocated(mk, leaf, q);
        } else {
            lemma_recompute_frame(mk, leaf, q);
            if is_desc(q, leaf) {
                lemma_desc_ge(q, leaf);
            }
        }
    }
}


proof fn lemma_same_leaves_below(t1: Seq<BlockState>, t2: Seq<BlockState>, order: nat, p: int)
    requires
        tree_ok(t1, order),
        tree_ok(t2, order),
        forall|q: int| 1 <= q < pow2(order) ==> #[trigger] t1[q] != BlockState::Allocated,
        forall|q: int| 1 <= q < pow2(order) ==> #[trigger] t2[q] != BlockState::Allocated,
        forall|q: int| pow2(order) <= q < pow2(order + 1) ==> #[trigger] t1[q] == t2[q],
        1 <= p < pow2(order + 1),
    ensures
        t1[p] == t2[p],
    decreases pow2(order + 1) - p,
{
    lemma_pow2_unfold(order + 1);
    if p < pow2(order) {
        lemma_same_leaves_below(t1, t2, order, 2 * p);
        lemma_same_leaves_below(t1, t2, order, 2 * p + 1);
        assert(node_ok(t1, p));
        assert(node_ok(t2, p));
    }
}

/// Buddies coalesce completely: two well-formed trees in which no block larger than a page is
/// allocated, and whose pages are in the same states, are the same tree.
pub proof fn lemma_pages_determine_tree(a: BuddyAllocator, b: BuddyAllocator)
    requires
        a.wf(),
        b.wf(),
        a.order() == b.order(),
        a.pages_only(),
        b.pages_only(),
        forall|q: int| pow2(a.order()) <= q < pow2(a.order() + 1) ==> #[trigger] a.tree()[q] == b.tree()[q],
    ensures
        a.tree() == b.tree(),
{
    let m = a.order();
    assert forall|q: int| 0 <= q < a.tree().len() implies a.tree()[q] == b.tree()[q] by {
        if q >= 1 {
            lemma_same_leaves_below(a.tree(), b.tree(), m, q);
        }
    }
    assert(a.tree() =~= b.tree());
}

} // verus!
