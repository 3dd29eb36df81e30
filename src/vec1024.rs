use vstd::prelude::*;

verus! {

/// Capacity of a [`Vec1024`], in bytes.
pub const CAPACITY: usize = 1024;

/// A vector of at most 1024 bytes over owned storage of exactly 1024 bytes.
///
/// One invariant covers the whole object: the storage has 1024 bytes, the
/// length is at most 1024, and the prefix of that length holds the elements.
pub struct Vec1024 {
    storage: Vec<u8>,
    len: usize,
}

impl View for Vec1024 {
    type V = Seq<u8>;

    /// The elements: the initialized prefix of the storage.
    closed spec fn view(&self) -> Seq<u8> {
        self.storage@.subrange(0, self.len as int)
    }
}

impl Vec1024 {
    /// The whole-object invariant.
    pub closed spec fn wf(&self) -> bool {
        &&& self.storage@.len() == CAPACITY
        &&& self.len <= CAPACITY
    }

    /// An empty vector, owning fresh storage of 1024 bytes.
    pub fn new() -> (r: Self)
        ensures
            r.wf(),
            r@ == Seq::<u8>::empty(),
    {
        let storage = vec![0u8; CAPACITY];
        let r = Vec1024 { storage, len: 0 };
        assert(r@ =~= Seq::<u8>::empty());
        r
    }

    /// Number of elements.
    pub fn len(&self) -> (r: usize)
        requires
            self.wf(),
        ensures
            r == self@.len(),
            r <= CAPACITY,
    {
        self.len
    }

    /// Appends `x`: it is written just past the initialized prefix, and only
    /// then does the length grow to cover it.
    pub fn push(&mut self, x: u8)
        requires
            old(self).wf(),
            old(self)@.len() < CAPACITY,
        ensures
            final(self).wf(),
            final(self)@ == old(self)@.push(x),
    {
        let ghost before = self@;
        let at = self.len;
        self.storage.set(at, x);
        assert(self.storage@.subrange(0, at as int) =~= before);
        self.len = at + 1;
        assert(self@ =~= before.push(x));
    }

    /// A copy of the initialized prefix.
    pub fn to_vec(&self) -> (r: Vec<u8>)
        requires
            self.wf(),
        ensures
            r@ == self@,
    {
        let mut out: Vec<u8> = Vec::new();
        let mut i: usize = 0;
        while i < self.len
            invariant
                self.storage@.len() == CAPACITY,
                self.len <= CAPACITY,
                i <= self.len,
                out@ == self@.subrange(0, i as int),
            decreases self.len - i,
        {
            out.push(self.storage[i]);
            i = i + 1;
            assert(out@ =~= self@.subrange(0, i as int));
        }
        assert(self@.subrange(0, self.len as int) =~= self@);
        out
    }
}

/// The elements of a vector that holds `start` after `bytes` are pushed one
/// by one, in order.
pub open spec fn push_each(start: Seq<u8>, bytes: Seq<u8>) -> Seq<u8>
    decreases bytes.len(),
{
    if bytes.len() == 0 {
        start
    } else {
        push_each(start, bytes.drop_last()).push(bytes.last())
    }
}

/// Pushing bytes one by one onto an empty vector yields exactly those bytes,
/// in the order they were pushed.
pub proof fn lemma_push_each(bytes: Seq<u8>)
    requires
        bytes.len() <= CAPACITY,
    ensures
        push_each(Seq::empty(), bytes) == bytes,
    decreases bytes.len(),
{
    if bytes.len() > 0 {
        lemma_push_each(bytes.drop_last());
        assert(bytes.drop_last().push(bytes.last()) =~= bytes);
    }
}

} // verus!
