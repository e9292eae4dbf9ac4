//! Checked-addition helpers: the compiler's program counter counts with
//! them, failing fast on overflow instead of wrapping.

use vstd::prelude::*;

verus! {

/// A type whose addition can be tested for overflow before it happens.
pub trait SafeAdd: Sized {
    /// What the checked addition returns: the sum when it is representable,
    /// `None` when it would overflow.
    spec fn spec_safe_add(&self, n: &Self) -> Option<Self>;

    fn safe_add(&self, n: &Self) -> (r: Option<Self>)
        ensures
            r == self.spec_safe_add(n),
    ;
}

impl SafeAdd for usize {
    open spec fn spec_safe_add(&self, n: &Self) -> Option<usize> {
        if *self + *n > usize::MAX {
            None
        } else {
            Some((*self + *n) as usize)
        }
    }

    fn safe_add(&self, n: &Self) -> (r: Option<usize>) {
        self.checked_add(*n)
    }
}

/// Adds `src` to `dst` in place; on overflow leaves `dst` unchanged and
/// returns the error built by `f`.
pub fn safe_add<T: SafeAdd, E, F: Fn() -> E>(dst: &mut T, src: &T, f: F) -> (r: Result<(), E>)
    requires
        f.requires(()),
    ensures
        match old(dst).spec_safe_add(src) {
            Some(sum) => r is Ok && *final(dst) == sum,
            None => r is Err && *final(dst) == *old(dst) && f.ensures((), r->Err_0),
        },
{
    match dst.safe_add(src) {
        Some(n) => {
            *dst = n;
            Ok(())
        },
        None => Err(f()),
    }
}

} // verus!
