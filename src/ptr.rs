use vstd::prelude::*;
use vstd::arithmetic::div_mod::{lemma_div_multiples_vanish, lemma_fundamental_div_mod, lemma_mod_multiples_basic};
use vstd::layout::{align_of, layout_for_type_is_valid, size_of};
use crate::update::{Predicate, Update};

verus! {

/// An address in a [`Heap`]; the address 0 is null.
#[derive(Clone, Copy, PartialEq, Eq, Structural, Debug)]
pub struct Ptr {
    pub addr: usize,
}

/// Distance in bytes between two cells of a heap of `T`: the size of `T`, or
/// its alignment where `T` has size zero. It is a positive multiple of the
/// alignment of `T` and no smaller than its size.
pub open spec fn stride<T>() -> int {
    if size_of::<T>() == 0 {
        align_of::<T>() as int
    } else {
        size_of::<T>() as int
    }
}

/// Address of the cell with index `i` in a heap of `T`: cells start one stride
/// past the null address, one stride apart.
pub open spec fn cell_addr<T>(i: int) -> int {
    (i + 1) * stride::<T>()
}

/// Index of the cell at address `addr` in a heap of `T`.
pub open spec fn cell_index<T>(addr: int) -> int {
    addr / stride::<T>() - 1
}

/// Whether the byte ranges `[a, a + sa)` and `[b, b + sb)` share no byte.
pub open spec fn ranges_disjoint(a: int, sa: int, b: int, sb: int) -> bool {
    a + sa <= b || b + sb <= a
}

/// The pointer is non-null and aligned for `T`.
pub struct NonNullAligned<T> {
    ty: core::marker::PhantomData<T>,
}

impl<T> NonNullAligned<T> {
    /// The marker for pointers to `T`.
    pub fn new() -> Self {
        NonNullAligned { ty: core::marker::PhantomData }
    }
}

impl<T> Predicate<Ptr> for NonNullAligned<T> {
    open spec fn holds(&self, value: &Ptr) -> bool {
        value.addr != 0 && align_of::<T>() > 0 && value.addr as int % align_of::<T>() as int == 0
    }
}

/// The pointer is non-null.
pub struct NonNullness;

impl Predicate<Ptr> for NonNullness {
    open spec fn holds(&self, value: &Ptr) -> bool {
        value.addr != 0
    }
}

/// The pointer is valid for reads in the heap whose cells are `cells`: it is
/// non-null, aligned, and names a cell that holds a value.
pub struct Readable<T> {
    pub cells: Ghost<Seq<Option<T>>>,
}

/// Whether `p` names a cell of `cells` that holds a value.
pub open spec fn readable_in<T>(cells: Seq<Option<T>>, p: Ptr) -> bool {
    &&& p.addr != 0
    &&& p.addr as int % stride::<T>() == 0
    &&& 0 <= cell_index::<T>(p.addr as int) < cells.len()
    &&& cells[cell_index::<T>(p.addr as int)] is Some
}

impl<T> Predicate<Ptr> for Readable<T> {
    open spec fn holds(&self, value: &Ptr) -> bool {
        readable_in(self.cells@, *value)
    }
}

/// Whether cell `k` is where the next value goes in a heap with cells
/// `cells`: the first empty cell, or a new one past the end if none is empty.
pub open spec fn first_empty<T>(cells: Seq<Option<T>>, k: int) -> bool {
    &&& 0 <= k <= cells.len()
    &&& k == cells.len() || cells[k] is None
    &&& forall|j: int| 0 <= j < k ==> (#[trigger] cells[j]) is Some
}

/// Whether a heap of `T` with cells `before` becomes one with cells `after`
/// by placing `v` at address `a`: `a` is non-null, aligned for `T`, the
/// address of the first empty cell (or of a new cell past the end); that cell
/// alone changes, to hold `v`; and its bytes overlap no other filled cell.
pub open spec fn placed<T>(before: Seq<Option<T>>, after: Seq<Option<T>>, v: T, a: int) -> bool {
    let k = cell_index::<T>(a);
    &&& a != 0
    &&& a % align_of::<T>() as int == 0
    &&& a % stride::<T>() == 0
    &&& a == cell_addr::<T>(k)
    &&& first_empty(before, k)
    &&& after == if k == before.len() {
        before.push(Some(v))
    } else {
        before.update(k, Some(v))
    }
    &&& forall|q: int|
        0 <= q < after.len() && q != k && (#[trigger] after[q]) is Some ==> ranges_disjoint(
            cell_addr::<T>(q),
            size_of::<T>() as int,
            a,
            size_of::<T>() as int,
        )
}

/// Facts about a stride: positive, a multiple of the alignment, no smaller
/// than the size.
proof fn lemma_stride<T>()
    requires
        align_of::<T>() != 0,
        size_of::<T>() % align_of::<T>() == 0,
    ensures
        stride::<T>() > 0,
        stride::<T>() >= size_of::<T>(),
        stride::<T>() % align_of::<T>() as int == 0,
{
    if size_of::<T>() == 0 {
        lemma_mod_multiples_basic(1, align_of::<T>() as int);
    }
}

/// Cell addresses: non-null, aligned for `T`, one cell per address, and
/// cells with different indices hold disjoint ranges of `size_of::<T>()` bytes.
proof fn lemma_cell_addr<T>(i: int)
    requires
        0 <= i,
        stride::<T>() > 0,
        stride::<T>() >= size_of::<T>(),
        align_of::<T>() > 0,
        stride::<T>() % align_of::<T>() as int == 0,
    ensures
        cell_addr::<T>(i) > 0,
        cell_addr::<T>(i) % align_of::<T>() as int == 0,
        cell_addr::<T>(i) % stride::<T>() == 0,
        cell_index::<T>(cell_addr::<T>(i)) == i,
        forall|j: int|
            0 <= j && j != i ==> ranges_disjoint(
                cell_addr::<T>(i),
                size_of::<T>() as int,
                #[trigger] cell_addr::<T>(j),
                size_of::<T>() as int,
            ),
{
    let s = stride::<T>();
    let a = align_of::<T>() as int;
    assert((i + 1) * s > 0) by (nonlinear_arith)
        requires
            i >= 0,
            s > 0,
    ;
    lemma_div_multiples_vanish(i + 1, s);
    assert(s * (i + 1) == (i + 1) * s) by (nonlinear_arith);
    lemma_mod_multiples_basic(i + 1, s);
    lemma_fundamental_div_mod(s, a);
    let q = s / a;
    assert((i + 1) * s == ((i + 1) * q) * a) by (nonlinear_arith)
        requires
            s == a * q,
    ;
    lemma_mod_multiples_basic((i + 1) * q, a);
    assert forall|j: int| 0 <= j && j != i implies ranges_disjoint(
        cell_addr::<T>(i),
        size_of::<T>() as int,
        #[trigger] cell_addr::<T>(j),
        size_of::<T>() as int,
    ) by {
        if j < i {
            assert((j + 1) * s + s <= (i + 1) * s) by (nonlinear_arith)
                requires
                    j < i,
                    s > 0,
            ;
        } else {
            assert((i + 1) * s + s <= (j + 1) * s) by (nonlinear_arith)
                requires
                    i < j,
                    s > 0,
            ;
        }
    }
}

/// The stride of a heap of `T`, with the facts about it.
fn cell_stride<T>() -> (r: usize)
    ensures
        r == stride::<T>(),
        stride::<T>() > 0,
        stride::<T>() >= size_of::<T>(),
        align_of::<T>() > 0,
        stride::<T>() % align_of::<T>() as int == 0,
{
    layout_for_type_is_valid::<T>();
    proof {
        lemma_stride::<T>();
    }
    let size = core::mem::size_of::<T>();
    if size == 0 {
        core::mem::align_of::<T>()
    } else {
        size
    }
}

/// An owned store of values of type `T`, each in a cell with an address.
///
/// A cell is filled when a box is turned into a pointer and emptied when the
/// pointer is turned back into a box; an emptied cell is filled again first.
/// A value never moves to another cell.
pub struct Heap<T> {
    cells: Vec<Option<T>>,
}

impl<T> View for Heap<T> {
    type V = Seq<Option<T>>;

    closed spec fn view(&self) -> Seq<Option<T>> {
        self.cells@
    }
}

impl<T> Heap<T> {
    /// An empty heap.
    pub fn new() -> (r: Self)
        ensures
            r@ == Seq::<Option<T>>::empty(),
    {
        Heap { cells: Vec::new() }
    }

    /// Checks that `p` is valid for reads here, and if so returns it with
    /// that proof.
    pub fn check_readable(&self, p: Ptr) -> (r: Option<Update<Readable<T>, Ptr>>)
        ensures
            r is Some <==> readable_in(self@, p),
            r matches Some(u) ==> u.value() == p && u.marker().cells@ == self@,
    {
        let s = cell_stride::<T>();
        if p.addr == 0 || p.addr % s != 0 || p.addr / s == 0 {
            return None;
        }
        let i = p.addr / s - 1;
        if i < self.cells.len() && self.cells[i].is_some() {
            Some(Update::new(Readable { cells: Ghost(self@) }, p))
        } else {
            None
        }
    }
}

/// Takes the value back out of the cell that `ptr` names, as a box, and
/// leaves the cell empty: the one deallocation that matches an [`into_raw`].
pub fn from_raw<T>(heap: &mut Heap<T>, ptr: Update<NonNullAligned<T>, Ptr>) -> (r: Box<T>)
    requires
        readable_in(old(heap)@, ptr.value()),
    ensures
        Some(*r) == old(heap)@[cell_index::<T>(ptr.value().addr as int)],
        final(heap)@ == old(heap)@.update(cell_index::<T>(ptr.value().addr as int), None),
{
    let p = ptr.into_value();
    let i = p.addr / cell_stride::<T>() - 1;
    let ghost before = heap@;
    heap.cells.push(None);
    let taken = heap.cells.swap_remove(i);
    assert(heap@ =~= before.update(i as int, None));
    Box::new(taken.unwrap())
}

/// Consumes a box, moving its value into the first empty cell of `heap` (a
/// new one if none is empty), and returns the cell's address with the proof
/// that it is non-null and aligned for `T`.
///
/// The value's bytes overlap no other value of the heap. Ownership of the value
/// passes to the caller through the pointer.
pub fn into_raw<T>(heap: &mut Heap<T>, b: Box<T>) -> (r: Update<NonNullAligned<T>, Ptr>)
    requires
        (old(heap)@.len() + 2) * stride::<T>() <= usize::MAX,
    ensures
        placed(old(heap)@, final(heap)@, *b, r.value().addr as int),
{
    let s = cell_stride::<T>();
    let n = heap.cells.len();
    let mut k: usize = 0;
    while k < n
        invariant
            heap@ == old(heap)@,
            n == heap@.len(),
            k <= n,
            forall|j: int| 0 <= j < k ==> (#[trigger] heap@[j]) is Some,
        ensures
            heap@ == old(heap)@,
            k <= n,
            forall|j: int| 0 <= j < k ==> (#[trigger] heap@[j]) is Some,
            k < n ==> heap@[k as int] is None,
        decreases n - k,
    {
        if heap.cells[k].is_none() {
            break;
        }
        k = k + 1;
    }
    let ghost before = heap@;
    if k == n {
        heap.cells.push(Some(*b));
    } else {
        heap.cells.set(k, Some(*b));
    }
    proof {
        lemma_cell_addr::<T>(k as int);
        assert((k + 1) * s <= (n + 2) * s) by (nonlinear_arith)
            requires
                k <= n,
                s > 0,
        ;
        assert forall|q: int|
            0 <= q < heap@.len() && q != k && (#[trigger] heap@[q]) is Some implies ranges_disjoint(
            cell_addr::<T>(q),
            size_of::<T>() as int,
            cell_addr::<T>(k as int),
            size_of::<T>() as int,
        ) by {
            assert(ranges_disjoint(
                cell_addr::<T>(k as int),
                size_of::<T>() as int,
                cell_addr::<T>(q),
                size_of::<T>() as int,
            ));
        }
    }
    let addr = (k + 1) * s;
    Update::new(NonNullAligned::new(), Ptr { addr })
}

/// A non-null pointer.
pub struct NonNull {
    ptr: Update<NonNullness, Ptr>,
}

impl NonNull {
    /// The wrapped pointer.
    pub closed spec fn pointer(self) -> Ptr {
        self.ptr.value()
    }

    /// Wraps a pointer already known to be non-null.
    pub fn new_unchecked(ptr: Update<NonNullness, Ptr>) -> (r: Self)
        ensures
            r.pointer() == ptr.value(),
    {
        NonNull { ptr }
    }

    /// Returns the pointer; it is non-null.
    pub fn as_ptr(&self) -> (r: Ptr)
        ensures
            r == self.pointer(),
            r.addr != 0,
    {
        *self.ptr.get()
    }
}

/// Consumes a box, moving its value into `heap` as [`into_raw`] does, and
/// returns the cell's non-null address.
///
/// The non-null and aligned proof of [`into_raw`] is narrowed to non-null.
pub fn into_non_null<T>(heap: &mut Heap<T>, b: Box<T>) -> (r: NonNull)
    requires
        (old(heap)@.len() + 2) * stride::<T>() <= usize::MAX,
    ensures
        placed(old(heap)@, final(heap)@, *b, r.pointer().addr as int),
{
    let ptr = into_raw(heap, b).into_value();
    NonNull::new_unchecked(Update::new(NonNullness, ptr))
}

/// Copies the value out of the cell that `ptr` names, leaving the heap as it
/// is.
pub fn read<T: Copy>(heap: &Heap<T>, ptr: Update<Readable<T>, Ptr>) -> (r: T)
    requires
        ptr.marker().cells@ == heap@,
    ensures
        Some(r) == heap@[cell_index::<T>(ptr.value().addr as int)],
{
    let p = ptr.into_value();
    let i = p.addr / cell_stride::<T>() - 1;
    heap.cells[i].unwrap()
}

/// A value moved into a heap by [`into_raw`] can be read back from the
/// returned address: the address is valid for reads in the new heap, and
/// [`read`] there yields the value itself.
pub proof fn lemma_round_trip<T>(before: Seq<Option<T>>, after: Seq<Option<T>>, v: T, a: int)
    requires
        placed(before, after, v, a),
        a <= usize::MAX,
    ensures
        readable_in(after, Ptr { addr: a as usize }),
        after[cell_index::<T>(a)] == Some(v),
{
}

} // verus!
