use vstd::prelude::*;
use crate::ptr::Ptr;
use crate::update::{Predicate, Update};

verus! {

/// Size and alignment asked of an allocation.
#[derive(Clone, Copy, PartialEq, Eq, Structural, Debug)]
pub struct Layout {
    pub size: usize,
    pub align: usize,
}

/// Why an allocation was refused.
#[derive(Clone, Copy, PartialEq, Eq, Structural, Debug)]
pub enum AllocError {
    /// The allocator cannot serve this layout at all.
    UnsupportedLayout,
    /// The layout is served, but no space is left for it now.
    OutOfSpace,
}

/// The pointer starts a fresh allocation of `layout`: it is non-null and
/// aligned to `layout.align`. Its bytes are not initialized.
pub struct Fresh {
    pub layout: Ghost<Layout>,
}

impl Predicate<Ptr> for Fresh {
    open spec fn holds(&self, value: &Ptr) -> bool {
        value.addr != 0 && self.layout@.align > 0 && value.addr % self.layout@.align == 0
    }
}

/// Whether the byte ranges `[a, a + sa)` and `[b, b + sb)` share no byte.
pub open spec fn disjoint(a: int, sa: int, b: int, sb: int) -> bool {
    a + sa <= b || b + sb <= a
}

/// Whether `addr` with `layout` overlaps none of the allocations in `live`.
pub open spec fn disjoint_from_all(live: Map<int, Layout>, addr: int, layout: Layout) -> bool {
    forall|b: int|
        #![trigger live[b]]
        live.contains_key(b) ==> disjoint(addr, layout.size as int, b, live[b].size as int)
}

/// Whether no two allocations in `live` overlap.
pub open spec fn pairwise_disjoint(live: Map<int, Layout>) -> bool {
    forall|a: int, b: int|
        #![trigger live[a], live[b]]
        live.contains_key(a) && live.contains_key(b) && a != b ==> disjoint(
            a,
            live[a].size as int,
            b,
            live[b].size as int,
        )
}

/// Adding an allocation that overlaps none of the live ones keeps the live
/// allocations pairwise disjoint; so, from none live, every sequence of
/// successful `allocate` calls leaves no two live results overlapping.
pub proof fn lemma_disjoint_insert(live: Map<int, Layout>, a: int, layout: Layout)
    requires
        pairwise_disjoint(live),
        !live.contains_key(a),
        disjoint_from_all(live, a, layout),
    ensures
        pairwise_disjoint(live.insert(a, layout)),
{
    let m = live.insert(a, layout);
    assert forall|x: int, y: int|
        #![trigger m[x], m[y]]
        m.contains_key(x) && m.contains_key(y) && x != y implies disjoint(
        x,
        m[x].size as int,
        y,
        m[y].size as int,
    ) by {
        if x != a && y != a {
            assert(live[x] == m[x] && live[y] == m[y]);
        } else if x == a {
            assert(live[y] == m[y]);
        } else {
            assert(live[x] == m[x]);
        }
    }
}

/// Giving back an allocation keeps the remaining live allocations pairwise
/// disjoint.
pub proof fn lemma_disjoint_remove(live: Map<int, Layout>, a: int)
    requires
        pairwise_disjoint(live),
    ensures
        pairwise_disjoint(live.remove(a)),
{
    let m = live.remove(a);
    assert forall|x: int, y: int|
        #![trigger m[x], m[y]]
        m.contains_key(x) && m.contains_key(y) && x != y implies disjoint(
        x,
        m[x].size as int,
        y,
        m[y].size as int,
    ) by {
        assert(live[x] == m[x] && live[y] == m[y]);
    }
}

/// Whether `[addr, addr + size)` lies inside `extent`, given as its first
/// address and its size.
pub open spec fn within(extent: (int, int), addr: int, size: int) -> bool {
    extent.0 <= addr && addr + size <= extent.0 + extent.1
}

/// Hands out small allocations carved from one large owned allocation.
pub trait Allocator: Sized {
    /// The allocator's internal invariant.
    spec fn wf(&self) -> bool;

    /// The allocations handed out and not yet returned, by address.
    spec fn live(&self) -> Map<int, Layout>;

    /// Whether the allocator can ever serve `layout`.
    spec fn supports(&self, layout: Layout) -> bool;

    /// Whether there is space left for `layout` now.
    spec fn has_room(&self, layout: Layout) -> bool;

    /// The address that the next allocation of `layout` gets.
    spec fn next_addr(&self, layout: Layout) -> int;

    /// The large allocation: its first address and its size in bytes.
    spec fn extent(&self) -> (int, int);

    /// Allocates a small allocation of `layout` from the large allocation.
    ///
    /// The result is non-null, aligned, inside the large allocation, and
    /// overlaps no allocation that is still live. On failure nothing changes.
    fn allocate(&mut self, layout: Layout) -> (r: Result<Update<Fresh, Ptr>, AllocError>)
        requires
            old(self).wf(),
        ensures
            final(self).wf(),
            final(self).extent() == old(self).extent(),
            r matches Err(AllocError::UnsupportedLayout) <==> !old(self).supports(layout),
            r matches Err(AllocError::OutOfSpace) <==> old(self).supports(layout)
                && !old(self).has_room(layout),
            r is Err ==> *final(self) == *old(self),
            r matches Ok(p) ==> {
                let a = p.value().addr as int;
                &&& a == old(self).next_addr(layout)
                &&& p.marker().layout@ == layout
                &&& a != 0
                &&& a % layout.align as int == 0
                &&& within(old(self).extent(), a, layout.size as int)
                &&& !old(self).live().contains_key(a)
                &&& disjoint_from_all(old(self).live(), a, layout)
                &&& final(self).live() == old(self).live().insert(a, layout)
            },
    ;

    /// Gives back an allocation that `allocate` returned for `layout` and that
    /// was not given back since.
    fn deallocate(&mut self, ptr: Update<Fresh, Ptr>, layout: Layout)
        requires
            old(self).wf(),
            old(self).live().contains_key(ptr.value().addr as int),
            old(self).live()[ptr.value().addr as int] == layout,
        ensures
            final(self).wf(),
            final(self).extent() == old(self).extent(),
            final(self).live() == old(self).live().remove(ptr.value().addr as int),
    ;
}

/// Bytes in a [`Region`].
pub const REGION_SIZE: usize = 1024;

/// Bytes in one block of a [`Region`].
pub const BLOCK_SIZE: usize = 16;

/// Blocks in a [`Region`].
pub const BLOCK_COUNT: usize = 64;

/// A 1024-byte region split into 64 blocks of 16 bytes; each allocation
/// takes the first free block.
pub struct Region {
    base: usize,
    blocks: Vec<Option<Layout>>,
}

/// Whether a region's blocks can serve `layout`: a size from 1 to 16 and a
/// power of two from 1 to 16 as alignment.
pub open spec fn block_layout(layout: Layout) -> bool {
    &&& 0 < layout.size <= BLOCK_SIZE
    &&& (layout.align == 1 || layout.align == 2 || layout.align == 4 || layout.align == 8
        || layout.align == 16)
}

/// Whether, in a region starting at `base` with allocations `live`, block `i`
/// is the first one that is not handed out.
pub open spec fn first_free(live: Map<int, Layout>, base: int, i: int) -> bool {
    &&& 0 <= i < BLOCK_COUNT
    &&& !live.contains_key(base + BLOCK_SIZE * i)
    &&& forall|j: int| 0 <= j < i ==> #[trigger] live.contains_key(base + BLOCK_SIZE * j)
}

impl Region {
    /// Address of the region's first byte.
    pub closed spec fn base(&self) -> int {
        self.base as int
    }

    /// Address of block `i`.
    pub open spec fn block_addr(&self, i: int) -> int {
        self.base() + BLOCK_SIZE * i
    }

    /// Whether `a` is the address of one of the blocks.
    pub open spec fn is_block_addr(&self, a: int) -> bool {
        self.base() <= a < self.base() + REGION_SIZE && (a - self.base()) % BLOCK_SIZE as int == 0
    }

    /// The block at address `a`.
    pub open spec fn block_of(&self, a: int) -> int {
        (a - self.base()) / BLOCK_SIZE as int
    }

    /// The blocks, each with the layout it was handed out for, if any.
    pub closed spec fn blocks(&self) -> Seq<Option<Layout>> {
        self.blocks@
    }

    /// Makes a region over the 1024 bytes at `base`, with nothing allocated.
    pub fn new(base: usize) -> (r: Self)
        requires
            base != 0,
            base % BLOCK_SIZE == 0,
            base <= usize::MAX - REGION_SIZE,
        ensures
            r.wf(),
            r.extent() == (base as int, REGION_SIZE as int),
            r.live() == Map::<int, Layout>::empty(),
    {
        let mut blocks: Vec<Option<Layout>> = Vec::new();
        let mut i: usize = 0;
        while i < BLOCK_COUNT
            invariant
                i <= BLOCK_COUNT,
                blocks@.len() == i,
                forall|j: int| 0 <= j < i ==> (#[trigger] blocks@[j]) is None,
            decreases BLOCK_COUNT - i,
        {
            blocks.push(None);
            i = i + 1;
        }
        let r = Region { base, blocks };
        assert(r.live() =~= Map::<int, Layout>::empty());
        r
    }
}

impl Allocator for Region {
    open spec fn wf(&self) -> bool {
        &&& self.base() != 0
        &&& self.base() % BLOCK_SIZE as int == 0
        &&& self.base() + REGION_SIZE <= usize::MAX
        &&& self.blocks().len() == BLOCK_COUNT
        &&& forall|i: int|
            0 <= i < BLOCK_COUNT && (#[trigger] self.blocks()[i]) is Some ==> block_layout(
                self.blocks()[i].unwrap(),
            )
    }

    open spec fn live(&self) -> Map<int, Layout> {
        Map::new(
            |a: int| self.is_block_addr(a) && self.blocks()[self.block_of(a)] is Some,
            |a: int| self.blocks()[self.block_of(a)].unwrap(),
        )
    }

    open spec fn supports(&self, layout: Layout) -> bool {
        block_layout(layout)
    }

    open spec fn has_room(&self, layout: Layout) -> bool {
        self.live().dom().len() < BLOCK_COUNT
    }

    open spec fn next_addr(&self, layout: Layout) -> int {
        self.block_addr(choose|i: int| first_free(self.live(), self.base(), i))
    }

    open spec fn extent(&self) -> (int, int) {
        (self.base(), REGION_SIZE as int)
    }

    fn allocate(&mut self, layout: Layout) -> (r: Result<Update<Fresh, Ptr>, AllocError>) {
        let a = layout.align;
        if !(0 < layout.size && layout.size <= BLOCK_SIZE && (a == 1 || a == 2 || a == 4 || a == 8
            || a == 16)) {
            return Err(AllocError::UnsupportedLayout);
        }
        let mut i: usize = 0;
        while i < BLOCK_COUNT
            invariant
                self.wf(),
                self == old(self),
                i <= BLOCK_COUNT,
                forall|j: int| 0 <= j < i ==> (#[trigger] self.blocks()[j]) is Some,
            ensures
                self.wf(),
                self == old(self),
                i <= BLOCK_COUNT,
                forall|j: int| 0 <= j < i ==> (#[trigger] self.blocks()[j]) is Some,
                i < BLOCK_COUNT ==> self.blocks()[i as int] is None,
            decreases BLOCK_COUNT - i,
        {
            if self.blocks[i].is_none() {
                break;
            }
            i = i + 1;
        }
        if i == BLOCK_COUNT {
            proof {
                self.lemma_has_room(layout);
            }
            return Err(AllocError::OutOfSpace);
        }
        proof {
            self.lemma_has_room(layout);
            assert(self.blocks()[i as int] is None);
        }
        let ghost old_live = self.live();
        let ghost base = self.base();
        proof {
            self.lemma_block_live(i as int);
            assert forall|j: int| 0 <= j < i implies #[trigger] old_live.contains_key(
                base + BLOCK_SIZE * j,
            ) by {
                self.lemma_block_live(j);
            }
            assert(first_free(old_live, base, i as int));
            assert forall|k: int| first_free(old_live, base, k) implies k == i by {
                if k > i {
                    assert(old_live.contains_key(base + BLOCK_SIZE * i));
                }
            }
        }
        let addr = self.base + BLOCK_SIZE * i;
        assert(addr as int % a as int == 0) by {
            assert(base % 16 == 0);
        }
        self.blocks.set(i, Some(layout));
        assert(self.live() =~= old_live.insert(addr as int, layout)) by {
            assert forall|x: int| #[trigger] self.live().contains_key(x) == old_live.insert(addr as int, layout).contains_key(x) by {
                if self.is_block_addr(x) && x != addr {
                    assert(self.block_of(x) != i);
                }
            }
        }
        assert forall|b: int| #[trigger] old_live.contains_key(b) implies disjoint(
            addr as int,
            layout.size as int,
            b,
            old_live[b].size as int,
        ) by {
            assert(self.block_of(b) != i);
        }
        Ok(Update::new(Fresh { layout: Ghost(layout) }, Ptr { addr }))
    }

    fn deallocate(&mut self, ptr: Update<Fresh, Ptr>, layout: Layout) {
        let p = ptr.into_value();
        let i = (p.addr - self.base) / BLOCK_SIZE;
        let ghost old_live = self.live();
        self.blocks.set(i, None);
        assert(self.live() =~= old_live.remove(p.addr as int)) by {
            assert forall|x: int| #[trigger] self.live().contains_key(x) == old_live.remove(p.addr as int).contains_key(x) by {
                if self.is_block_addr(x) && x != p.addr {
                    assert(self.block_of(x) != i);
                }
            }
        }
    }
}

/// Number of blocks among the first `k` that are handed out.
pub open spec fn used_count(blocks: Seq<Option<Layout>>, k: int) -> nat
    decreases k,
{
    if k <= 0 {
        0
    } else {
        used_count(blocks, k - 1) + if blocks[k - 1] is Some {
            1nat
        } else {
            0nat
        }
    }
}

/// Counting handed-out blocks: fewer than `k` among the first `k` exactly
/// when one of them is free.
proof fn lemma_used_count(blocks: Seq<Option<Layout>>, k: int)
    requires
        0 <= k <= blocks.len(),
    ensures
        used_count(blocks, k) <= k,
        used_count(blocks, k) < k <==> exists|i: int| 0 <= i < k && (#[trigger] blocks[i]) is None,
    decreases k,
{
    if k > 0 {
        lemma_used_count(blocks, k - 1);
        if blocks[k - 1] is Some && used_count(blocks, k) < k {
            let i = choose|i: int| 0 <= i < k - 1 && (#[trigger] blocks[i]) is None;
            assert(blocks[i] is None);
        }
    }
}

impl Region {
    /// Block `i` is handed out exactly when its address is live, and then for
    /// the layout recorded there.
    proof fn lemma_block_live(&self, i: int)
        requires
            self.wf(),
            0 <= i < BLOCK_COUNT,
        ensures
            self.live().contains_key(self.block_addr(i)) <==> self.blocks()[i] is Some,
            self.blocks()[i] is Some ==> self.live()[self.block_addr(i)] == self.blocks()[i].unwrap(),
    {
        let a = self.block_addr(i);
        assert(self.is_block_addr(a) && self.block_of(a) == i);
    }

    /// Addresses of the handed-out blocks among the first `k`.
    spec fn live_below(&self, k: int) -> Set<int> {
        Set::new(
            |a: int|
                self.is_block_addr(a) && self.block_of(a) < k && self.blocks()[self.block_of(a)] is Some,
        )
    }

    proof fn lemma_live_below(&self, k: int)
        requires
            self.wf(),
            0 <= k <= BLOCK_COUNT,
        ensures
            self.live_below(k).finite(),
            self.live_below(k).len() == used_count(self.blocks(), k),
        decreases k,
    {
        if k == 0 {
            assert(self.live_below(0) =~= Set::<int>::empty());
        } else {
            self.lemma_live_below(k - 1);
            let a = self.block_addr(k - 1);
            assert(self.is_block_addr(a) && self.block_of(a) == k - 1);
            if self.blocks()[k - 1] is Some {
                assert(self.live_below(k) =~= self.live_below(k - 1).insert(a));
            } else {
                assert(self.live_below(k) =~= self.live_below(k - 1));
            }
        }
    }

    /// There is room for one more allocation exactly when a block is free.
    proof fn lemma_has_room(&self, layout: Layout)
        requires
            self.wf(),
        ensures
            self.live().dom().finite(),
            self.has_room(layout) <==> exists|i: int|
                0 <= i < BLOCK_COUNT && (#[trigger] self.blocks()[i]) is None,
    {
        self.lemma_live_below(BLOCK_COUNT as int);
        lemma_used_count(self.blocks(), BLOCK_COUNT as int);
        assert(self.live().dom() =~= self.live_below(BLOCK_COUNT as int)) by {
            assert forall|a: int| #[trigger] self.live().dom().contains(a) implies self.block_of(a) < BLOCK_COUNT by {
                assert(self.is_block_addr(a));
            }
        }
    }
}

/// Two regions over the same bytes with the same live allocations give the
/// next allocation the same address. So once an allocation is given back, the
/// region is as it was before it was made, and allocating the same layout again
/// returns the address that was given back.
pub proof fn lemma_reuse(r1: &Region, r2: &Region, layout: Layout)
    requires
        r1.wf(),
        r2.wf(),
        r1.extent() == r2.extent(),
        r1.live() == r2.live(),
    ensures
        r1.next_addr(layout) == r2.next_addr(layout),
{
}

/// No two live allocations of a region overlap.
pub proof fn lemma_live_disjoint(r: &Region)
    requires
        r.wf(),
    ensures
        pairwise_disjoint(r.live()),
{
    assert forall|a: int, b: int|
        #![trigger r.live()[a], r.live()[b]]
        r.live().contains_key(a) && r.live().contains_key(b) && a != b implies disjoint(
        a,
        r.live()[a].size as int,
        b,
        r.live()[b].size as int,
    ) by {
        assert(block_layout(r.blocks()[r.block_of(a)].unwrap()));
        assert(block_layout(r.blocks()[r.block_of(b)].unwrap()));
    }
}

} // verus!
