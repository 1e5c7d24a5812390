//! Overflow-checked addition, shared by the code generator and the evaluator.
use vstd::prelude::*;

verus! {

/// Addition that reports overflow instead of wrapping around.
pub trait SafeAdd: Sized {
    /// The sum of `self` and `n`, or `None` where it does not fit the type.
    spec fn spec_safe_add(&self, n: &Self) -> Option<Self>;

    fn safe_add(&self, n: &Self) -> (r: Option<Self>)
        ensures
            r == self.spec_safe_add(n),
    ;
}

impl SafeAdd for usize {
    open spec fn spec_safe_add(&self, n: &usize) -> Option<usize> {
        if *self + *n <= usize::MAX {
            Some((*self + *n) as usize)
        } else {
            None
        }
    }

    fn safe_add(&self, n: &usize) -> (r: Option<usize>) {
        self.checked_add(*n)
    }
}

/// Adds `src` to `dst` in place. On overflow `dst` is left as it was and the
/// error that `f` builds is returned.
pub fn safe_add<T, E, F>(dst: &mut T, src: &T, f: F) -> (r: Result<(), E>) where
    T: SafeAdd,
    F: FnOnce() -> E,
    requires
        f.requires(()),
    ensures
        match old(dst).spec_safe_add(src) {
            Some(v) => r is Ok && *final(dst) == v,
            None => r is Err && *final(dst) == *old(dst) && f.ensures((), r->Err_0),
        },
{
    match dst.safe_add(src) {
        Some(n) => {
            *dst = n;
            Ok(())
        },
        None => Err(f()),
    }
}

} // verus!
