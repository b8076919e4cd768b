//! A shared handle that holds no value of its own: any two handles of one
//! type are alike.
use vstd::prelude::*;

verus! {

pub struct Rc<T> {
    phantom: core::marker::PhantomData<T>,
}

/// The handle; there is only one value of each handle type.
pub closed spec fn handle<T>() -> Rc<T> {
    Rc { phantom: core::marker::PhantomData }
}

/// Any two handles of one type are equal.
pub proof fn lemma_rc_all_equal<T>(a: Rc<T>, b: Rc<T>)
    ensures
        a == b,
        a == handle::<T>(),
{
}

impl<T> Rc<T> {
    /// A handle.
    pub fn new() -> (r: Rc<T>)
        ensures
            r == handle::<T>(),
    {
        Rc { phantom: core::marker::PhantomData }
    }
}

impl<T> Clone for Rc<T> {
    fn clone(&self) -> (r: Self)
        ensures
            r == *self,
    {
        Rc { phantom: core::marker::PhantomData }
    }
}

} // verus!
