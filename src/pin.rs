use vstd::prelude::*;
use crate::update::{Predicate, Update};

verus! {

/// The pointee is not moved out of its place unless that is explicitly
/// permitted.
///
/// This is a promise about how the pointer is used, not a property of the
/// pointer's value, so it holds of every value; the operations on [`Pin`]
/// carry it in their contracts.
pub struct Unmoved;

impl<P> Predicate<P> for Unmoved {
    open spec fn holds(&self, value: &P) -> bool {
        true
    }
}

/// A pinned pointer: its pointee stays where it is.
pub struct Pin<P> {
    ptr: Update<Unmoved, P>,
}

impl<P> Pin<P> {
    /// The wrapped pointer.
    pub closed spec fn pointer(self) -> P {
        self.ptr.value()
    }

    /// Pins `ptr`: the caller promises that its pointee is not moved from now on.
    pub fn new_unchecked(ptr: P) -> (r: Self)
        ensures
            r.pointer() == ptr,
    {
        Pin { ptr: Update::new(Unmoved, ptr) }
    }
}

/// Gets a mutable reference to the pinned data.
///
/// The obligation not to move is suspended during the borrow and restored when
/// it ends: whatever is written through the result is, once the borrow ends,
/// the value of the pinned place itself.
pub fn get_unchecked_mut<T>(pin: Pin<&mut T>) -> (r: &mut T)
    ensures
        *r == *pin.pointer(),
        *final(pin.pointer()) == *final(r),
{
    pin.ptr.into_value()
}

} // verus!
