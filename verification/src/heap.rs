use vstd::prelude::*;
use crate::util::{align_up, spec_align_up, lemma_mask_is_mod, lemma_pow2_16};

verus! {

/// Where the original program placed its heap.
pub const HEAP_START: u64 = 0x4444_4444_0000;

/// The size of the heap that is taken from the system at start-up.
pub const HEAP_SIZE: usize = 134217728;

/// Bytes that a free-list node occupies at the start of a free region.
pub const NODE_SIZE: usize = 16;

/// Every region handed out or kept free starts at a multiple of this.
pub const BLOCK_ALIGN: usize = 16;

/// A node of the free list: a free region of `size` bytes starting at `start`.
#[derive(Clone, Copy)]
pub struct LinkedNode {
    pub start: usize,
    pub size: usize,
}

impl LinkedNode {
    /// A node that is not placed in memory yet.
    pub fn new(size: usize) -> (r: LinkedNode)
        ensures
            r.start == 0,
            r.size == size,
    {
        LinkedNode { start: 0, size }
    }

    /// The address of the region that this node describes.
    pub fn start_addr(&self) -> (r: usize)
        ensures
            r == self.start,
    {
        self.start
    }

    /// One past the last byte of the region.
    pub fn end_addr(&self) -> (r: usize)
        requires
            self.start + self.size <= usize::MAX,
        ensures
            r == self.start + self.size,
    {
        self.start + self.size
    }
}

/// A region `[start, end)` carved out of a free region.
#[derive(Clone, Copy)]
pub struct Allocation {
    pub start: usize,
    pub end: usize,
}

/// A first-fit free-list allocator.  The free list is kept in list order:
/// the node that a search meets first comes first.
pub struct LinkedListAllocator {
    regions: Vec<LinkedNode>,
}

/// A free node as the allocator keeps it: aligned, large enough to hold
/// its own node, and not wrapping around the address space.
pub open spec fn node_wf(n: LinkedNode) -> bool {
    &&& n.start % 16 == 0
    &&& n.size >= NODE_SIZE
    &&& n.start + n.size <= usize::MAX
}

/// Where an allocation of `size` bytes from the start of `n` ends (rounded up).
pub open spec fn carve_end(n: LinkedNode, size: usize) -> int {
    spec_align_up((n.start + size) as usize, 16)
}

/// A request of `size` bytes can be served from the front of `n`.
pub open spec fn fits(n: LinkedNode, size: usize) -> bool {
    &&& n.start + size <= usize::MAX
    &&& carve_end(n, size) <= n.start + n.size
}

/// `i` is the first node of `s` that can serve `size` bytes.
pub open spec fn is_first_fit(s: Seq<LinkedNode>, size: usize, i: int) -> bool {
    &&& 0 <= i < s.len()
    &&& fits(s[i], size)
    &&& forall|j: int| 0 <= j < i ==> !fits(#[trigger] s[j], size)
}

/// Rounding the end of the carved region never leaves the address space for
/// the nodes that a search visits (those before the first one that fits).
pub open spec fn search_in_range(s: Seq<LinkedNode>, size: usize) -> bool {
    forall|i: int|
        #![trigger s[i]]
        0 <= i < s.len() && (forall|j: int| 0 <= j < i ==> !fits(#[trigger] s[j], size))
            && s[i].start + size <= usize::MAX ==> spec_align_up((s[i].start + size) as usize, 16)
            <= usize::MAX
}

/// The allocation that serving `size` bytes from `n` hands out: the whole
/// region when the rest would be too small to hold a node.
pub open spec fn carved(n: LinkedNode, size: usize) -> Allocation {
    if n.start + n.size - carve_end(n, size) >= NODE_SIZE {
        Allocation { start: n.start, end: carve_end(n, size) as usize }
    } else {
        Allocation { start: n.start, end: (n.start + n.size) as usize }
    }
}

/// The free list after serving `size` bytes from node `i`: the rest of the
/// region stays in place of the node, or the node leaves the list.
pub open spec fn after_carve(s: Seq<LinkedNode>, i: int, size: usize) -> Seq<LinkedNode> {
    let n = s[i];
    let end = carve_end(n, size);
    if n.start + n.size - end >= NODE_SIZE {
        s.update(i, LinkedNode { start: end as usize, size: (n.start + n.size - end) as usize })
    } else {
        s.remove(i)
    }
}

impl View for LinkedListAllocator {
    type V = Seq<LinkedNode>;

    closed spec fn view(&self) -> Seq<LinkedNode> {
        self.regions@
    }
}

impl LinkedListAllocator {
    /// Every node of the free list is well formed.
    pub open spec fn wf(&self) -> bool {
        forall|i: int| 0 <= i < self@.len() ==> node_wf(#[trigger] self@[i])
    }

    /// The number of nodes in the free list.
    pub fn regions_len(&self) -> (r: usize)
        ensures
            r == self@.len(),
    {
        self.regions.len()
    }

    /// The `i`-th node of the free list.
    pub fn region(&self, i: usize) -> (r: LinkedNode)
        requires
            i < self@.len(),
        ensures
            r == self@[i as int],
    {
        self.regions[i]
    }

    /// An allocator with an empty free list.
    pub fn new() -> (r: LinkedListAllocator)
        ensures
            r.wf(),
            r@ == Seq::<LinkedNode>::empty(),
    {
        LinkedListAllocator { regions: Vec::new() }
    }

    /// Hands the region `[heap_start, heap_start + heap_size)` to the allocator.
    pub fn init(&mut self, heap_start: usize, heap_size: usize)
        requires
            old(self).wf(),
            heap_start % 16 == 0,
            heap_size >= NODE_SIZE,
            heap_start + heap_size <= usize::MAX,
        ensures
            final(self).wf(),
            final(self)@ == seq![LinkedNode { start: heap_start, size: heap_size }] + old(self)@,
    {
        self.add_free_memory_region(heap_start, heap_size);
    }

    /// Puts the region `[start, start + size)` at the front of the free list.
    pub fn add_free_memory_region(&mut self, start: usize, size: usize)
        requires
            old(self).wf(),
            start % 16 == 0,
            size >= NODE_SIZE,
            start + size <= usize::MAX,
        ensures
            final(self).wf(),
            final(self)@ == seq![LinkedNode { start: start, size: size }] + old(self)@,
    {
        let mut node = LinkedNode::new(size);
        node.start = start;
        self.regions.insert(0, node);
        assert(self@ =~= seq![LinkedNode { start: start, size: size }] + old(self)@);
    }

    /// Serves `size` bytes from the start of `region`, rounding the end up to
    /// 16; fails when the region is too small or the end overflows.
    fn alloc_from_region(region: &LinkedNode, size: usize) -> (r: Result<Allocation, ()>)
        requires
            node_wf(*region),
            region.start + size <= usize::MAX ==> spec_align_up(
                (region.start + size) as usize,
                16,
            ) <= usize::MAX,
        ensures
            match r {
                Ok(a) => fits(*region, size) && a.start == region.start && a.end == carve_end(
                    *region,
                    size,
                ),
                Err(_) => !fits(*region, size),
            },
    {
        let start = region.start_addr();
        let end_unaligned = match start.checked_add(size) {
            Some(e) => e,
            None => return Err(()),
        };
        proof { lemma_pow2_16(); }
        let end = align_up(end_unaligned, BLOCK_ALIGN);
        if end > region.end_addr() {
            return Err(());
        }
        Ok(Allocation { start, end })
    }

    /// First fit: finds the first free region that can serve `size` bytes,
    /// carves the allocation from its front and keeps the rest in the list
    /// when it can still hold a node.
    pub fn find_region(&mut self, size: usize) -> (r: Option<Allocation>)
        requires
            old(self).wf(),
            search_in_range(old(self)@, size),
        ensures
            final(self).wf(),
            match r {
                None => (forall|i: int| 0 <= i < old(self)@.len() ==> !fits(#[trigger] old(self)@[i], size))
                    && final(self)@ == old(self)@,
                Some(a) => exists|i: int|
                    is_first_fit(old(self)@, size, i) && a == carved(#[trigger] old(self)@[i], size)
                        && final(self)@ == after_carve(old(self)@, i, size),
            },
    {
        let mut i: usize = 0;
        while i < self.regions.len()
            invariant
                self.wf(),
                self@ == old(self)@,
                search_in_range(old(self)@, size),
                0 <= i <= self@.len(),
                forall|j: int| 0 <= j < i ==> !fits(#[trigger] self@[j], size),
            decreases self@.len() - i,
        {
            let region = self.regions[i];
            assert(region == self@[i as int]);
            assert(node_wf(region));
            let res = Self::alloc_from_region(&region, size);
            match res {
                Err(_) => {
                    i = i + 1;
                },
                Ok(alloc) => {
                    let mut alloc = alloc;
                    let region_end = region.end_addr();
                    let excess_size = region_end - alloc.end;
                    if excess_size >= NODE_SIZE {
                        let remainder = LinkedNode { start: alloc.end, size: excess_size };
                        self.regions.set(i, remainder);
                    } else {
                        alloc.end = region_end;
                        self.regions.remove(i);
                    }
                    proof {
                        assert(is_first_fit(old(self)@, size, i as int));
                        assert(self@ =~= after_carve(old(self)@, i as int, size));
                        lemma_pow2_16();
                        lemma_mask_is_mod((region.start + size) as usize, 16);
                        assert forall|j: int| 0 <= j < self@.len() implies node_wf(#[trigger] self@[j]) by {
                            if excess_size >= NODE_SIZE {
                                if j != i {
                                    assert(self@[j] == old(self)@[j]);
                                }
                            } else {
                                if j < i {
                                    assert(self@[j] == old(self)@[j]);
                                } else {
                                    assert(self@[j] == old(self)@[j + 1]);
                                }
                            }
                        }
                    }
                    return Some(alloc);
                },
            }
        }
        None
    }
}

} // verus!
