use vstd::prelude::*;

verus! {

/// A predicate over values of type `S`, named by a marker type.
///
/// A marker holds no runtime data of its own (at most ghost state), so a value
/// carrying it has the runtime shape of the value alone.
pub trait Predicate<S> {
    /// Whether `value` satisfies the predicate that this marker stands for.
    spec fn holds(&self, value: &S) -> bool;
}

/// A value of type `S` together with the evidence that it satisfies the
/// predicate named by `P`.
///
/// A live `Update` is itself the proof: the only way to build one is
/// [`Update::new`], which demands that the predicate holds.
pub struct Update<P: Predicate<S>, S> {
    marker: P,
    value: S,
}

impl<P: Predicate<S>, S> Update<P, S> {
    #[verifier::type_invariant]
    spec fn inv(self) -> bool {
        self.marker.holds(&self.value)
    }

    /// The wrapped value.
    pub closed spec fn value(self) -> S {
        self.value
    }

    /// The marker naming the predicate.
    pub closed spec fn marker(self) -> P {
        self.marker
    }

    /// Wraps `value` with `marker`: the caller justifies that the predicate holds.
    pub fn new(marker: P, value: S) -> (r: Self)
        requires
            marker.holds(&value),
        ensures
            r.value() == value,
            r.marker() == marker,
    {
        Update { marker, value }
    }

    /// Reads the wrapped value; the predicate holds of it.
    pub fn get(&self) -> (r: &S)
        ensures
            *r == self.value(),
            self.marker().holds(r),
    {
        proof {
            use_type_invariant(self);
        }
        &self.value
    }

    /// Forgets the proof and returns the wrapped value unchanged.
    pub fn into_value(self) -> (r: S)
        ensures
            r == self.value(),
            self.marker().holds(&r),
    {
        proof {
            use_type_invariant(&self);
        }
        self.value
    }
}

} // verus!
