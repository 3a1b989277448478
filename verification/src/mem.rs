use vstd::prelude::*;
use crate::heap::{
    LinkedListAllocator, LinkedNode, Allocation, NODE_SIZE, BLOCK_ALIGN, fits, is_first_fit,
    carved, after_carve, search_in_range,
};
use crate::util::{align_up, spec_align_up, lemma_mask_is_mod, lemma_pow2_16};

verus! {

/// Bytes of the header that precedes every block handed out by `malloc`.
pub const HEADER_SIZE: usize = 32;

/// The header of a live allocation: the region `[start, start + region_size)`
/// holds the header followed by `alloc_size` usable bytes.
#[derive(Clone, Copy, PartialEq, Eq, Debug, Structural)]
pub struct Block {
    pub start: usize,
    pub alloc_size: usize,
    pub region_size: usize,
}

/// What `malloc` does next: return a pointer (0 for null), or ask the system
/// for `over` more bytes and try again.
#[derive(Clone, Copy, PartialEq, Eq, Debug, Structural)]
pub enum MallocStep {
    Done(usize),
    Grow(usize),
}

/// What `realloc` does with a pointer and a new size.
#[derive(Clone, Copy, PartialEq, Eq, Debug, Structural)]
pub enum ReallocAction {
    /// Free the pointer and return null.
    FreeThenNull,
    /// Allocate the new size as `malloc` does.
    Malloc,
    /// Return null: the pointer carries no allocation header.
    Null,
    /// Return the pointer unchanged: the block is already large enough.
    Keep,
    /// Allocate the new size, copy `copy_len` bytes over, free the old block.
    Move { copy_len: usize },
}

/// The heap: the free list and the headers of the blocks that are handed out.
pub struct Heap {
    free: LinkedListAllocator,
    live: Vec<Block>,
}

/// A header as `malloc` writes it.
pub open spec fn block_wf(b: Block) -> bool {
    &&& b.start % 16 == 0
    &&& b.region_size >= 48
    &&& b.alloc_size == b.region_size - HEADER_SIZE
    &&& b.start + b.region_size <= usize::MAX
}

/// The header that `malloc` writes for an allocation.
pub open spec fn block_of(a: Allocation) -> Block {
    Block {
        start: a.start,
        alloc_size: (a.end - a.start - HEADER_SIZE) as usize,
        region_size: (a.end - a.start) as usize,
    }
}

/// The bytes `[lo, hi)` that a free node covers.
pub open spec fn node_range(n: LinkedNode) -> (int, int) {
    (n.start as int, n.start + n.size)
}

/// The bytes `[lo, hi)` that a live block covers, header included.
pub open spec fn block_range(b: Block) -> (int, int) {
    (b.start as int, b.start + b.region_size)
}

/// Two byte ranges share no byte.
pub open spec fn disjoint(a: (int, int), b: (int, int)) -> bool {
    a.1 <= b.0 || b.1 <= a.0
}

/// No two regions of the heap, free or handed out, share a byte.
pub open spec fn heap_disjoint(free: Seq<LinkedNode>, live: Seq<Block>) -> bool {
    &&& forall|i: int, j: int|
        0 <= i < free.len() && 0 <= j < free.len() && i != j ==> disjoint(
            node_range(#[trigger] free[i]),
            node_range(#[trigger] free[j]),
        )
    &&& forall|i: int, j: int|
        0 <= i < live.len() && 0 <= j < live.len() && i != j ==> disjoint(
            block_range(#[trigger] live[i]),
            block_range(#[trigger] live[j]),
        )
    &&& forall|i: int, j: int|
        0 <= i < free.len() && 0 <= j < live.len() ==> disjoint(
            node_range(#[trigger] free[i]),
            block_range(#[trigger] live[j]),
        )
}

/// The range `[start, start + size)` shares no byte with the heap.
pub open spec fn is_fresh_range(free: Seq<LinkedNode>, live: Seq<Block>, start: int, size: int) -> bool {
    &&& forall|i: int| 0 <= i < free.len() ==> disjoint(node_range(#[trigger] free[i]), (start, start + size))
    &&& forall|i: int| 0 <= i < live.len() ==> disjoint(block_range(#[trigger] live[i]), (start, start + size))
}

/// `i` is the live block whose header starts at `addr`.
pub open spec fn is_block_at(s: Seq<Block>, addr: int, i: int) -> bool {
    0 <= i < s.len() && s[i].start == addr
}

/// Some live block has its header at `addr`.
pub open spec fn has_block_at(s: Seq<Block>, addr: int) -> bool {
    exists|i: int| is_block_at(s, addr, i)
}

/// The size that `malloc` serves for a request of `size` bytes (at least one).
pub open spec fn request(size: u64) -> int {
    if size as usize == 0 { 1 } else { size as usize as int }
}

/// The region size that `malloc` searches for: header plus request, rounded
/// up to 16.
pub open spec fn needed(size: u64) -> int {
    spec_align_up((HEADER_SIZE + request(size)) as usize, 16)
}

/// Rounding up the region size of a request does not overflow (the original
/// stops with an overflow error there).
pub open spec fn malloc_in_range(size: u64) -> bool {
    HEADER_SIZE + request(size) <= usize::MAX ==> needed(size) <= usize::MAX
}

impl Heap {
    /// The free list, in search order.
    pub closed spec fn free_list(&self) -> Seq<LinkedNode> {
        self.free@
    }

    /// The headers of the blocks that are handed out and not freed.
    pub closed spec fn live_blocks(&self) -> Seq<Block> {
        self.live@
    }

    /// The two heaps hold the same free list and the same live blocks.
    pub open spec fn same(&self, other: Heap) -> bool {
        self.free_list() == other.free_list() && self.live_blocks() == other.live_blocks()
    }

    /// The free list is well formed, every header is as `malloc` writes it,
    /// and no two headers share an address.
    pub open spec fn wf(&self) -> bool {
        &&& forall|i: int| 0 <= i < self.free_list().len() ==> crate::heap::node_wf(#[trigger] self.free_list()[i])
        &&& forall|i: int| 0 <= i < self.live_blocks().len() ==> block_wf(#[trigger] self.live_blocks()[i])
        &&& heap_disjoint(self.free_list(), self.live_blocks())
    }

    proof fn lemma_free_wf(&self)
        requires
            self.wf(),
        ensures
            self.free.wf(),
            self.free@ == self.free_list(),
    {
    }

    /// An empty heap: nothing free, nothing handed out.
    pub fn new() -> (r: Heap)
        ensures
            r.wf(),
            r.free_list() == Seq::<LinkedNode>::empty(),
            r.live_blocks() == Seq::<Block>::empty(),
    {
        Heap { free: LinkedListAllocator::new(), live: Vec::new() }
    }

    /// Hands a region of memory to the heap, as a free region at the front of
    /// the free list.
    pub fn add_region(&mut self, start: usize, size: usize)
        requires
            old(self).wf(),
            start % 16 == 0,
            size >= NODE_SIZE,
            start + size <= usize::MAX,
            is_fresh_range(old(self).free_list(), old(self).live_blocks(), start as int, size as int),
        ensures
            final(self).wf(),
            final(self).free_list() == seq![LinkedNode { start: start, size: size }] + old(self).free_list(),
            final(self).live_blocks() == old(self).live_blocks(),
    {
        self.free.add_free_memory_region(start, size);
        proof {
            let f = self.free_list();
            let l = self.live_blocks();
            assert forall|i: int, j: int|
                0 <= i < f.len() && 0 <= j < f.len() && i != j implies disjoint(
                node_range(#[trigger] f[i]),
                node_range(#[trigger] f[j]),
            ) by {
                if i > 0 && j > 0 {
                    assert(f[i] == old(self).free_list()[i - 1]);
                    assert(f[j] == old(self).free_list()[j - 1]);
                } else if i == 0 {
                    assert(f[j] == old(self).free_list()[j - 1]);
                } else {
                    assert(f[i] == old(self).free_list()[i - 1]);
                }
            }
            assert forall|i: int, j: int|
                0 <= i < f.len() && 0 <= j < l.len() implies disjoint(
                node_range(#[trigger] f[i]),
                block_range(#[trigger] l[j]),
            ) by {
                if i > 0 {
                    assert(f[i] == old(self).free_list()[i - 1]);
                }
            }
        }
    }

    /// One step of `malloc(size)`: serves the request from the free list and
    /// returns the address after the header, returns null (0) when the request
    /// cannot be served, or asks for `over` more bytes from the system.
    pub fn malloc_step(&mut self, size: u64) -> (r: MallocStep)
        requires
            old(self).wf(),
            malloc_in_range(size),
        ensures
            final(self).wf(),
            HEADER_SIZE + request(size) > usize::MAX ==> r == MallocStep::Done(0) && final(self).same(*old(self)),
            HEADER_SIZE + request(size) <= usize::MAX && (forall|i: int|
                0 <= i < old(self).free_list().len() ==> !fits(
                    #[trigger] old(self).free_list()[i],
                    needed(size) as usize,
                )) ==> final(self).same(*old(self)) && (if needed(size) + 16 <= usize::MAX
                && needed(size) + 16 <= i64::MAX {
                r == MallocStep::Grow((needed(size) + 16) as usize)
            } else {
                r == MallocStep::Done(0)
            }),
            HEADER_SIZE + request(size) <= usize::MAX && (exists|i: int|
                0 <= i < old(self).free_list().len() && fits(
                    #[trigger] old(self).free_list()[i],
                    needed(size) as usize,
                )) ==> exists|i: int|
                is_first_fit(old(self).free_list(), needed(size) as usize, i) && {
                    let a = carved(#[trigger] old(self).free_list()[i], needed(size) as usize);
                    &&& r == MallocStep::Done((a.start + HEADER_SIZE) as usize)
                    &&& final(self).free_list() == after_carve(
                        old(self).free_list(),
                        i,
                        needed(size) as usize,
                    )
                    &&& final(self).live_blocks() == old(self).live_blocks().push(block_of(a))
                },
    {
        let req0 = size as usize;
        let req = if req0 == 0 { 1 } else { req0 };
        let hdr = HEADER_SIZE;
        let needed_unaligned = match hdr.checked_add(req) {
            Some(v) => v,
            None => return MallocStep::Done(0),
        };
        proof { lemma_pow2_16(); }
        let need = align_up(needed_unaligned, BLOCK_ALIGN);
        proof {
            lemma_mask_is_mod(needed_unaligned, 16);
            assert(need % 16 == 0);
            assert(need >= 48);
            self.lemma_free_wf();
            assert forall|i: int|
                #![trigger self.free@[i]]
                0 <= i < self.free@.len() && (forall|j: int| 0 <= j < i ==> !fits(#[trigger] self.free@[j], need))
                    && self.free@[i].start + need <= usize::MAX implies spec_align_up(
                (self.free@[i].start + need) as usize,
                16,
            ) <= usize::MAX by {
                assert(crate::heap::node_wf(self.free@[i]));
            }
            assert(search_in_range(self.free@, need));
        }
        let found = self.free.find_region(need);
        match found {
            Some(region) => {
                let ghost i = choose|i: int|
                    is_first_fit(old(self).free_list(), need, i) && region == carved(
                        #[trigger] old(self).free_list()[i],
                        need,
                    ) && self.free@ == after_carve(old(self).free_list(), i, need);
                proof {
                    let n = old(self).free_list()[i];
                    assert(crate::heap::node_wf(n));
                    lemma_mask_is_mod((n.start + need) as usize, 16);
                    assert(region.end - region.start >= 48);
                }
                let block = Block {
                    start: region.start,
                    alloc_size: (region.end - region.start) - hdr,
                    region_size: region.end - region.start,
                };
                self.live.push(block);
                proof {
                    assert(self.live_blocks() =~= old(self).live_blocks().push(block_of(region)));
                    lemma_carve_keeps_disjoint(old(self).free_list(), old(self).live_blocks(), i, need);
                }
                return MallocStep::Done(region.start + hdr);
            },
            None => {},
        }
        let min_region = NODE_SIZE;
        let req_region = if need > min_region { need } else { min_region };
        let over = match req_region.checked_add(BLOCK_ALIGN) {
            Some(v) => v,
            None => return MallocStep::Done(0),
        };
        if over as u64 > 0x7fff_ffff_ffff_ffffu64 {
            return MallocStep::Done(0);
        }
        MallocStep::Grow(over)
    }
}

impl Heap {
    /// Tells whether `[start, start + size)` shares no byte with the heap.
    pub fn is_fresh(&self, start: usize, size: usize) -> (r: bool)
        requires
            start + size <= usize::MAX,
        ensures
            r == is_fresh_range(self.free_list(), self.live_blocks(), start as int, size as int),
    {
        let end = start + size;
        let mut i: usize = 0;
        while i < self.free.regions_len()
            invariant
                0 <= i <= self.free_list().len(),
                end == start + size,
                forall|k: int| 0 <= k < i ==> disjoint(node_range(#[trigger] self.free_list()[k]), (start as int, start + size)),
            decreases self.free_list().len() - i,
        {
            let n = self.free.region(i);
            if !(n.start as u128 + n.size as u128 <= start as u128 || end <= n.start) {
                return false;
            }
            i = i + 1;
        }
        let mut j: usize = 0;
        while j < self.live.len()
            invariant
                0 <= j <= self.live_blocks().len(),
                end == start + size,
                forall|k: int| 0 <= k < self.free_list().len() ==> disjoint(node_range(#[trigger] self.free_list()[k]), (start as int, start + size)),
                forall|k: int| 0 <= k < j ==> disjoint(block_range(#[trigger] self.live_blocks()[k]), (start as int, start + size)),
            decreases self.live_blocks().len() - j,
        {
            let b = self.live[j];
            if !(b.start as u128 + b.region_size as u128 <= start as u128 || end <= b.start) {
                return false;
            }
            j = j + 1;
        }
        true
    }

    /// The rest of `malloc` after the system was asked for `over` bytes:
    /// `raw_start` is what the system returned (-1 when it refused).  The
    /// memory from `raw_start` is aligned up to 16 and, when at least a node
    /// remains, put at the front of the free list; the result tells whether
    /// that happened (otherwise `malloc` returns null).
    pub fn grow(&mut self, raw_start: isize, over: usize) -> (r: bool)
        requires
            old(self).wf(),
            over >= 16,
            raw_start != -1 ==> spec_align_up(raw_start as usize, 16) <= usize::MAX
                && raw_start as usize + over <= usize::MAX
                && is_fresh_range(old(self).free_list(), old(self).live_blocks(), raw_start as usize as int, over as int),
        ensures
            final(self).wf(),
            raw_start == -1 ==> !r && final(self).same(*old(self)),
            raw_start != -1 ==> {
                let raw = raw_start as usize;
                let aligned = spec_align_up(raw, 16);
                let usable = over - (aligned - raw);
                &&& usable < NODE_SIZE ==> !r && final(self).same(*old(self))
                &&& usable >= NODE_SIZE ==> r && final(self).free_list() == seq![
                    LinkedNode { start: aligned as usize, size: usable as usize },
                ] + old(self).free_list() && final(self).live_blocks() == old(self).live_blocks()
            },
    {
        if raw_start == -1 {
            return false;
        }
        let raw = raw_start as usize;
        proof {
            lemma_pow2_16();
            lemma_mask_is_mod(raw, 16);
        }
        let aligned_start = align_up(raw, BLOCK_ALIGN);
        let usable = over - (aligned_start - raw);
        if usable < NODE_SIZE {
            return false;
        }
        proof {
            assert forall|i: int| 0 <= i < self.free_list().len() implies disjoint(
                node_range(#[trigger] self.free_list()[i]),
                (aligned_start as int, aligned_start + usable),
            ) by {
                assert(disjoint(node_range(self.free_list()[i]), (raw as int, raw + over)));
            }
            assert forall|i: int| 0 <= i < self.live_blocks().len() implies disjoint(
                block_range(#[trigger] self.live_blocks()[i]),
                (aligned_start as int, aligned_start + usable),
            ) by {
                assert(disjoint(block_range(self.live_blocks()[i]), (raw as int, raw + over)));
            }
        }
        self.add_region(aligned_start, usable);
        true
    }

    /// Whether `grow` may take what the system returned: a refusal, or memory
    /// that lies inside the address space and apart from the heap.
    pub fn grow_in_range(&self, raw_start: isize, over: usize) -> (r: bool)
        ensures
            r == (raw_start != -1 ==> spec_align_up(raw_start as usize, 16) <= usize::MAX
                && raw_start as usize + over <= usize::MAX
                && is_fresh_range(self.free_list(), self.live_blocks(), raw_start as usize as int, over as int)),
    {
        if raw_start == -1 {
            return true;
        }
        let raw = raw_start as usize;
        proof {
            lemma_pow2_16();
            lemma_mask_is_mod(raw, 16);
        }
        if !(raw % 16 == 0 || raw <= usize::MAX - 15) {
            return false;
        }
        match raw.checked_add(over) {
            None => false,
            Some(_) => self.is_fresh(raw, over),
        }
    }

    /// The index of the live block whose header starts at `addr`.
    fn find_block(&self, addr: usize) -> (r: Option<usize>)
        requires
            self.wf(),
        ensures
            match r {
                Some(i) => is_block_at(self.live_blocks(), addr as int, i as int),
                None => !has_block_at(self.live_blocks(), addr as int),
            },
    {
        let mut i: usize = 0;
        while i < self.live.len()
            invariant
                0 <= i <= self.live_blocks().len(),
                forall|k: int| 0 <= k < i ==> (#[trigger] self.live_blocks()[k]).start != addr,
            decreases self.live_blocks().len() - i,
        {
            if self.live[i].start == addr {
                return Some(i);
            }
            i = i + 1;
        }
        None
    }

    /// `free(ptr)`: when a live block has its header right before `ptr`, the
    /// block leaves the live set and its whole region goes to the front of the
    /// free list; null and pointers without such a header are ignored.
    pub fn free(&mut self, ptr: usize)
        requires
            old(self).wf(),
            ptr == 0 || (ptr >= HEADER_SIZE && (ptr - HEADER_SIZE) % 16 == 0),
        ensures
            final(self).wf(),
            ptr == 0 || !has_block_at(old(self).live_blocks(), ptr - HEADER_SIZE) ==> final(self).same(
                *old(self),
            ),
            ptr != 0 && has_block_at(old(self).live_blocks(), ptr - HEADER_SIZE) ==> exists|i: int|
                is_block_at(old(self).live_blocks(), ptr - HEADER_SIZE, i) && final(self).live_blocks()
                    == old(self).live_blocks().remove(i) && final(self).free_list() == seq![
                    LinkedNode { start: (ptr - HEADER_SIZE) as usize, size: #[trigger] old(self).live_blocks()[i].region_size },
                ] + old(self).free_list(),
    {
        if ptr == 0 {
            return;
        }
        let header = ptr - HEADER_SIZE;
        let found = self.find_block(header);
        match found {
            None => {},
            Some(i) => {
                let b = self.live.remove(i);
                proof {
                    let l = old(self).live_blocks();
                    assert(block_wf(l[i as int]));
                    assert forall|x: int| 0 <= x < self.free_list().len() implies disjoint(
                        node_range(#[trigger] self.free_list()[x]),
                        (b.start as int, b.start + b.region_size),
                    ) by {
                        assert(disjoint(node_range(self.free_list()[x]), block_range(l[i as int])));
                    }
                    assert forall|x: int| 0 <= x < self.live_blocks().len() implies disjoint(
                        block_range(#[trigger] self.live_blocks()[x]),
                        (b.start as int, b.start + b.region_size),
                    ) by {
                        let k = if x < i { x } else { x + 1 };
                        assert(self.live_blocks()[x] == l[k]);
                        assert(disjoint(block_range(l[k]), block_range(l[i as int])));
                    }
                    assert forall|x: int, y: int|
                        0 <= x < self.live_blocks().len() && 0 <= y < self.live_blocks().len() && x != y
                            implies disjoint(
                        block_range(#[trigger] self.live_blocks()[x]),
                        block_range(#[trigger] self.live_blocks()[y]),
                    ) by {
                        let kx = if x < i { x } else { x + 1 };
                        let ky = if y < i { y } else { y + 1 };
                        assert(self.live_blocks()[x] == l[kx]);
                        assert(self.live_blocks()[y] == l[ky]);
                    }
                    assert forall|x: int, y: int|
                        0 <= x < self.free_list().len() && 0 <= y < self.live_blocks().len() implies disjoint(
                        node_range(#[trigger] self.free_list()[x]),
                        block_range(#[trigger] self.live_blocks()[y]),
                    ) by {
                        let ky = if y < i { y } else { y + 1 };
                        assert(self.live_blocks()[y] == l[ky]);
                    }
                    assert forall|x: int| 0 <= x < self.live_blocks().len() implies block_wf(#[trigger] self.live_blocks()[x]) by {
                        let k = if x < i { x } else { x + 1 };
                        assert(self.live_blocks()[x] == l[k]);
                    }
                }
                self.add_region(header, b.region_size);
            },
        }
    }

    /// What `realloc(ptr, size)` does: size 0 frees, a null pointer allocates,
    /// a pointer without a header gives null, a block that is large enough is
    /// kept, and otherwise the contents move to a new block.
    pub fn realloc_decide(&self, ptr: usize, size: usize) -> (r: ReallocAction)
        requires
            self.wf(),
            size == 0 || ptr == 0 || ptr >= HEADER_SIZE,
        ensures
            size == 0 ==> r == ReallocAction::FreeThenNull,
            size != 0 && ptr == 0 ==> r == ReallocAction::Malloc,
            size != 0 && ptr != 0 && !has_block_at(self.live_blocks(), ptr - HEADER_SIZE) ==> r
                == ReallocAction::Null,
            size != 0 && ptr != 0 && has_block_at(self.live_blocks(), ptr - HEADER_SIZE) ==> exists|i: int|
                is_block_at(self.live_blocks(), ptr - HEADER_SIZE, i) && (if size <= #[trigger] self.live_blocks()[i].alloc_size {
                    r == ReallocAction::Keep
                } else {
                    r == ReallocAction::Move { copy_len: self.live_blocks()[i].alloc_size }
                }),
    {
        if size == 0 {
            return ReallocAction::FreeThenNull;
        }
        if ptr == 0 {
            return ReallocAction::Malloc;
        }
        let header = ptr - HEADER_SIZE;
        match self.find_block(header) {
            None => ReallocAction::Null,
            Some(i) => {
                let old_alloc_size = self.live[i].alloc_size;
                if size <= old_alloc_size {
                    ReallocAction::Keep
                } else {
                    ReallocAction::Move { copy_len: old_alloc_size }
                }
            },
        }
    }
}

/// The number of bytes that `calloc(count, size)` allocates: `None` when
/// `count * size` does not fit in 64 bits, and at least one byte.
pub fn calloc_total(count: u64, size: u64) -> (r: Option<u64>)
    ensures
        r.is_none() <==> count * size > u64::MAX,
        r.is_some() ==> r.unwrap() == if count * size == 0 { 1 } else { count * size },
{
    if count != 0 && size > u64::MAX / count {
        proof {
            assert(count * size > u64::MAX) by (nonlinear_arith)
                requires count > 0, size > u64::MAX / count;
        }
        return None;
    }
    proof {
        assert(count * size <= u64::MAX) by (nonlinear_arith)
            requires count == 0 || size <= u64::MAX / count;
    }
    let total = count * size;
    if total == 0 {
        Some(1)
    } else {
        Some(total)
    }
}

/// After `grow` has put the memory asked for by a `malloc` step at the front of
/// the free list, the retried request is served from that new region.
pub proof fn lemma_grow_serves_request(heap: Heap, size: u64, raw: usize, over: usize)
    requires
        heap.wf(),
        malloc_in_range(size),
        HEADER_SIZE + request(size) <= usize::MAX,
        over == needed(size) + 16,
        spec_align_up(raw, 16) <= usize::MAX,
        raw + over <= usize::MAX,
        over - (spec_align_up(raw, 16) - raw) >= NODE_SIZE,
    ensures
        is_first_fit(
            seq![LinkedNode { start: spec_align_up(raw, 16) as usize, size: (over - (spec_align_up(raw, 16) - raw)) as usize }]
                + heap.free_list(),
            needed(size) as usize,
            0,
        ),
{
    lemma_pow2_16();
    lemma_mask_is_mod(raw, 16);
    lemma_mask_is_mod((HEADER_SIZE + request(size)) as usize, 16);
    let aligned = spec_align_up(raw, 16);
    let n = LinkedNode { start: aligned as usize, size: (over - (aligned - raw)) as usize };
    let need = needed(size) as usize;
    lemma_mask_is_mod((n.start + need) as usize, 16);
    assert(fits(n, need));
}

/// The first `n` bytes set to `c`, the rest as they were.
pub open spec fn filled(m: Seq<u8>, c: u8, n: int) -> Seq<u8> {
    Seq::new(m.len(), |i: int| if i < n { c } else { m[i] })
}

/// The `n` bytes at `src` copied to `dest`, as one snapshot: every byte of the
/// destination gets the byte that stood at the matching place of the source
/// before the copy.
pub open spec fn moved(m: Seq<u8>, dest: int, src: int, n: int) -> Seq<u8> {
    Seq::new(m.len(), |i: int| if dest <= i < dest + n { m[src + i - dest] } else { m[i] })
}

/// The `n` bytes at `src` copied to `dest` one byte at a time from the front:
/// where the ranges overlap, later bytes read what earlier ones wrote.
pub open spec fn forward_copy(m: Seq<u8>, dest: int, src: int, n: nat) -> Seq<u8>
    decreases n,
{
    if n == 0 {
        m
    } else {
        let p = forward_copy(m, dest, src, (n - 1) as nat);
        p.update(dest + n - 1, p[src + n - 1])
    }
}

/// The difference of the first differing bytes at or after `i` (and before
/// `n`), or 0 when there is none.
pub open spec fn bytes_diff_from(a: Seq<u8>, b: Seq<u8>, i: int, n: int) -> int
    decreases n - i,
{
    if i >= n {
        0
    } else if a[i] != b[i] {
        a[i] - b[i]
    } else {
        bytes_diff_from(a, b, i + 1, n)
    }
}

/// `memset`: sets the first `n` bytes of `buf` to the low byte of `c`.
pub fn memset(buf: &mut [u8], c: i32, n: usize)
    requires
        n <= old(buf)@.len(),
    ensures
        final(buf)@ == filled(old(buf)@, c as u8, n as int),
{
    if n == 0 {
        proof { assert(buf@ =~= filled(old(buf)@, c as u8, 0)); }
        return;
    }
    let byte = c as u8;
    let mut i: usize = 0;
    while i < n
        invariant
            n <= buf@.len(),
            buf@.len() == old(buf)@.len(),
            0 <= i <= n,
            byte == c as u8,
            forall|k: int| 0 <= k < buf@.len() ==> #[trigger] buf@[k] == if k < i { byte } else { old(buf)@[k] },
        decreases n - i,
    {
        buf[i] = byte;
        i = i + 1;
    }
    proof { assert(buf@ =~= filled(old(buf)@, c as u8, n as int)); }
}

/// `memcpy` within one buffer: copies `n` bytes from offset `src` to offset
/// `dest` one byte at a time from the front.
pub fn memcpy(buf: &mut [u8], dest: usize, src: usize, n: usize)
    requires
        dest + n <= old(buf)@.len(),
        src + n <= old(buf)@.len(),
    ensures
        final(buf)@ == forward_copy(old(buf)@, dest as int, src as int, n as nat),
{
    let _len = buf.len();
    let mut i: usize = 0;
    while i < n
        invariant
            dest + n <= old(buf)@.len(),
            src + n <= old(buf)@.len(),
            old(buf)@.len() <= usize::MAX,
            0 <= i <= n,
            buf@ == forward_copy(old(buf)@, dest as int, src as int, i as nat),
            forward_copy(old(buf)@, dest as int, src as int, i as nat).len() == old(buf)@.len(),
        decreases n - i,
    {
        let v = buf[src + i];
        buf[dest + i] = v;
        i = i + 1;
        proof {
            assert(buf@ =~= forward_copy(old(buf)@, dest as int, src as int, i as nat));
        }
    }
}

/// `memmove` within one buffer: the `n` bytes at offset `src` end up at offset
/// `dest` as they were before the call, whether the ranges overlap or not.
pub fn memmove(buf: &mut [u8], dest: usize, src: usize, n: usize)
    requires
        dest + n <= old(buf)@.len(),
        src + n <= old(buf)@.len(),
    ensures
        final(buf)@ == moved(old(buf)@, dest as int, src as int, n as int),
{
    let _len = buf.len();
    if n == 0 || dest == src {
        proof { assert(buf@ =~= moved(old(buf)@, dest as int, src as int, n as int)); }
        return;
    }
    if dest < src || dest >= src + n {
        let mut i: usize = 0;
        while i < n
            invariant
                dest + n <= old(buf)@.len(),
                src + n <= old(buf)@.len(),
                old(buf)@.len() <= usize::MAX,
                dest < src || dest >= src + n,
                buf@.len() == old(buf)@.len(),
                0 <= i <= n,
                forall|k: int| 0 <= k < buf@.len() ==> #[trigger] buf@[k] == if dest <= k < dest + i {
                    old(buf)@[src + k - dest]
                } else {
                    old(buf)@[k]
                },
            decreases n - i,
        {
            let v = buf[src + i];
            buf[dest + i] = v;
            i = i + 1;
        }
    } else {
        let mut i: usize = n;
        while i != 0
            invariant
                dest + n <= old(buf)@.len(),
                src + n <= old(buf)@.len(),
                old(buf)@.len() <= usize::MAX,
                src < dest < src + n,
                buf@.len() == old(buf)@.len(),
                0 <= i <= n,
                forall|k: int| 0 <= k < buf@.len() ==> #[trigger] buf@[k] == if dest + i <= k < dest + n {
                    old(buf)@[src + k - dest]
                } else {
                    old(buf)@[k]
                },
            decreases i,
        {
            i = i - 1;
            let v = buf[src + i];
            buf[dest + i] = v;
        }
    }
    proof { assert(buf@ =~= moved(old(buf)@, dest as int, src as int, n as int)); }
}

/// The difference of the first differing bytes among the first `n`, or 0.
pub open spec fn mem_diff(a: Seq<u8>, b: Seq<u8>, n: usize) -> int {
    bytes_diff_from(a, b, 0, n as int)
}

/// The difference of the first differing bytes among the first `n` of `a`
/// and `b`, or 0 when they agree.
pub fn first_byte_difference(a: &[u8], b: &[u8], n: usize) -> (r: i32)
    requires
        n <= a@.len(),
        n <= b@.len(),
    ensures
        r == mem_diff(a@, b@, n),
{
    let mut i: usize = 0;
    while i < n
        invariant
            n <= a@.len(),
            n <= b@.len(),
            0 <= i <= n,
            bytes_diff_from(a@, b@, 0, n as int) == bytes_diff_from(a@, b@, i as int, n as int),
        decreases n - i,
    {
        let av = a[i];
        let bv = b[i];
        if av != bv {
            return av as i32 - bv as i32;
        }
        i = i + 1;
    }
    0
}

/// `memcmp`: the difference of the first differing bytes among the first
/// `n`, or 0 when they agree.
pub fn memcmp(a: &[u8], b: &[u8], n: usize) -> (r: i32)
    requires
        n <= a@.len(),
        n <= b@.len(),
    ensures
        r == mem_diff(a@, b@, n),
{
    first_byte_difference(a, b, n)
}

/// Copying one byte at a time from the front gives the same bytes as one
/// snapshot copy when the two ranges do not overlap.
pub proof fn lemma_forward_copy_disjoint(m: Seq<u8>, dest: int, src: int, n: nat)
    requires
        0 <= dest,
        0 <= src,
        dest + n <= m.len(),
        src + n <= m.len(),
        dest + n <= src || src + n <= dest,
    ensures
        forward_copy(m, dest, src, n) == moved(m, dest, src, n as int),
    decreases n,
{
    if n > 0 {
        lemma_forward_copy_disjoint(m, dest, src, (n - 1) as nat);
        lemma_forward_copy_len(m, dest, src, (n - 1) as nat);
        assert(forward_copy(m, dest, src, n) =~= moved(m, dest, src, n as int));
    } else {
        assert(m =~= moved(m, dest, src, 0));
    }
}

/// A forward copy keeps the length of the buffer.
pub proof fn lemma_forward_copy_len(m: Seq<u8>, dest: int, src: int, n: nat)
    requires
        0 <= dest,
        dest + n <= m.len(),
    ensures
        forward_copy(m, dest, src, n).len() == m.len(),
    decreases n,
{
    if n > 0 {
        lemma_forward_copy_len(m, dest, src, (n - 1) as nat);
    }
}

/// What `malloc` hands out from a free node for a request of `size` bytes is
/// aligned to 16 and has room for at least `size` bytes after its header.
pub proof fn lemma_malloc_block_fits(n: LinkedNode, size: u64)
    requires
        crate::heap::node_wf(n),
        malloc_in_range(size),
        HEADER_SIZE + request(size) <= usize::MAX,
        fits(n, needed(size) as usize),
    ensures
        (carved(n, needed(size) as usize).start + HEADER_SIZE) % 16 == 0,
        block_of(carved(n, needed(size) as usize)).alloc_size >= request(size),
        block_of(carved(n, needed(size) as usize)).region_size >= needed(size),
{
    lemma_pow2_16();
    lemma_mask_is_mod((HEADER_SIZE + request(size)) as usize, 16);
    let need = needed(size) as usize;
    lemma_mask_is_mod((n.start + need) as usize, 16);
}

/// A request that `malloc` can take without its size arithmetic overflowing.
pub fn request_in_range(size: u64) -> (r: bool)
    ensures
        r == malloc_in_range(size),
{
    let req0 = size as usize;
    let req = if req0 == 0 { 1 } else { req0 };
    match HEADER_SIZE.checked_add(req) {
        None => true,
        Some(v) => {
            proof {
                lemma_pow2_16();
                lemma_mask_is_mod(v, 16);
            }
            v % 16 == 0 || v <= usize::MAX - 15
        },
    }
}

/// In a heap without overlaps, the block that `malloc` just added is the only
/// live block with its header address, so freeing the pointer `malloc`
/// returned takes exactly that block out and leaves the other live blocks as
/// they were.
pub proof fn lemma_malloc_then_free(free: Seq<LinkedNode>, live: Seq<Block>, a: Allocation)
    requires
        heap_disjoint(free, live.push(block_of(a))),
        forall|k: int| 0 <= k < live.push(block_of(a)).len() ==> block_wf(#[trigger] live.push(block_of(a))[k]),
    ensures
        has_block_at(live.push(block_of(a)), a.start as int),
        forall|i: int| is_block_at(live.push(block_of(a)), a.start as int, i) ==> i == live.len() && live.push(block_of(a)).remove(i)
            == live,
{
    let l2 = live.push(block_of(a));
    assert(is_block_at(l2, a.start as int, live.len() as int));
    assert forall|i: int| is_block_at(l2, a.start as int, i) implies i == live.len() && l2.remove(i) == live by {
        if i != live.len() {
            assert(block_wf(l2[i]));
            assert(block_wf(l2[live.len() as int]));
            assert(disjoint(block_range(l2[i]), block_range(l2[live.len() as int])));
        }
        assert(l2.remove(i) =~= live);
    }
}

/// Carving the first fitting free region keeps the heap free of overlaps:
/// the allocation and the rest of the region both lie inside the region.
proof fn lemma_carve_keeps_disjoint(free: Seq<LinkedNode>, live: Seq<Block>, i: int, size: usize)
    requires
        is_first_fit(free, size, i),
        forall|k: int| 0 <= k < free.len() ==> crate::heap::node_wf(#[trigger] free[k]),
        heap_disjoint(free, live),
        size % 16 == 0,
    ensures
        heap_disjoint(after_carve(free, i, size), live.push(block_of(carved(free[i], size)))),
{
    let n = free[i];
    let a = carved(n, size);
    let f2 = after_carve(free, i, size);
    let l2 = live.push(block_of(a));
    let ar = block_range(block_of(a));
    assert(ar.0 == n.start && ar.1 <= n.start + n.size);
    assert forall|x: int, y: int|
        0 <= x < f2.len() && 0 <= y < f2.len() && x != y implies disjoint(
        node_range(#[trigger] f2[x]),
        node_range(#[trigger] f2[y]),
    ) by {
        let kx = if f2.len() == free.len() || x < i { x } else { x + 1 };
        let ky = if f2.len() == free.len() || y < i { y } else { y + 1 };
        assert(disjoint(node_range(free[kx]), node_range(free[ky])));
    }
    assert forall|x: int, y: int|
        0 <= x < l2.len() && 0 <= y < l2.len() && x != y implies disjoint(
        block_range(#[trigger] l2[x]),
        block_range(#[trigger] l2[y]),
    ) by {
        if x < live.len() && y < live.len() {
        } else if x < live.len() {
            assert(disjoint(node_range(free[i]), block_range(live[x])));
        } else {
            assert(disjoint(node_range(free[i]), block_range(live[y])));
        }
    }
    assert forall|x: int, y: int|
        0 <= x < f2.len() && 0 <= y < l2.len() implies disjoint(
        node_range(#[trigger] f2[x]),
        block_range(#[trigger] l2[y]),
    ) by {
        let kx = if f2.len() == free.len() || x < i { x } else { x + 1 };
        if y < live.len() {
            assert(disjoint(node_range(free[kx]), block_range(live[y])));
        } else if kx != i {
            assert(disjoint(node_range(free[kx]), node_range(free[i])));
        }
    }
}

} // verus!
