use vstd::prelude::*;

use crate::gc::gc_ptr::GcPtr;

verus! {

/// Implemented by every type that the heap can hold: `trace` visits the
/// heap pointers that a value holds, `finalize` runs before the heap lets
/// go of the value.
///
/// `traced` holds of a value that `trace` has been run on, and `finalized`
/// of one that `finalize` has been run on; a type says what they mean for
/// it (a container: that each value it holds is traced, or finalized). A
/// type that does not say leaves them true of every value.
pub trait Trace {
    closed spec fn traced(&self) -> bool {
        true
    }

    closed spec fn finalized(&self) -> bool {
        true
    }

    fn trace(&mut self)
        ensures
            final(self).traced(),
    ;

    fn finalize(&mut self)
        ensures
            final(self).finalized(),
    ;
}

impl Trace for u8 {
    fn trace(&mut self) {
    }

    fn finalize(&mut self) {
    }
}

impl Trace for i8 {
    fn trace(&mut self) {
    }

    fn finalize(&mut self) {
    }
}

impl Trace for u16 {
    fn trace(&mut self) {
    }

    fn finalize(&mut self) {
    }
}

impl Trace for i16 {
    fn trace(&mut self) {
    }

    fn finalize(&mut self) {
    }
}

impl Trace for u32 {
    fn trace(&mut self) {
    }

    fn finalize(&mut self) {
    }
}

impl Trace for i32 {
    fn trace(&mut self) {
    }

    fn finalize(&mut self) {
    }
}

impl Trace for u64 {
    fn trace(&mut self) {
    }

    fn finalize(&mut self) {
    }
}

impl Trace for i64 {
    fn trace(&mut self) {
    }

    fn finalize(&mut self) {
    }
}

impl Trace for usize {
    fn trace(&mut self) {
    }

    fn finalize(&mut self) {
    }
}

impl Trace for isize {
    fn trace(&mut self) {
    }

    fn finalize(&mut self) {
    }
}

impl Trace for &'static str {
    fn trace(&mut self) {
    }

    fn finalize(&mut self) {
    }
}

impl<T: Trace> Trace for Option<T> {
    /// A value held is traced.
    open spec fn traced(&self) -> bool {
        match self {
            Some(x) => x.traced(),
            None => true,
        }
    }

    /// A value held is finalized.
    open spec fn finalized(&self) -> bool {
        match self {
            Some(x) => x.finalized(),
            None => true,
        }
    }

    fn trace(&mut self)
        ensures
            ((*final(self)) is Some) == ((*old(self)) is Some),
            *old(self) matches Some(_) ==> (*final(self))->0.traced(),
            *old(self) is None ==> *final(self) == *old(self),
    {
        if let Some(x) = self {
            x.trace();
        }
    }

    fn finalize(&mut self)
        ensures
            ((*final(self)) is Some) == ((*old(self)) is Some),
            *old(self) matches Some(_) ==> (*final(self))->0.finalized(),
            *old(self) is None ==> *final(self) == *old(self),
    {
        if let Some(x) = self {
            x.finalize();
        }
    }
}

impl<T: Trace, E: Trace> Trace for Result<T, E> {
    /// The value held, `Ok` or `Err`, is traced.
    open spec fn traced(&self) -> bool {
        match self {
            Ok(ok) => ok.traced(),
            Err(err) => err.traced(),
        }
    }

    /// The value held, `Ok` or `Err`, is finalized.
    open spec fn finalized(&self) -> bool {
        match self {
            Ok(ok) => ok.finalized(),
            Err(err) => err.finalized(),
        }
    }

    fn trace(&mut self)
        ensures
            ((*final(self)) is Ok) == ((*old(self)) is Ok),
            (*final(self)) matches Ok(ok) ==> ok.traced(),
            (*final(self)) matches Err(err) ==> err.traced(),
    {
        match self {
            Ok(ok) => ok.trace(),
            Err(err) => err.trace(),
        }
    }

    fn finalize(&mut self)
        ensures
            ((*final(self)) is Ok) == ((*old(self)) is Ok),
            (*final(self)) matches Ok(ok) ==> ok.finalized(),
            (*final(self)) matches Err(err) ==> err.finalized(),
    {
        match self {
            Ok(ok) => ok.finalize(),
            Err(err) => err.finalize(),
        }
    }
}

impl<T: Trace + ?Sized> Trace for Box<T> {
    /// The boxed value is traced.
    open spec fn traced(&self) -> bool {
        (**self).traced()
    }

    /// The boxed value is finalized.
    open spec fn finalized(&self) -> bool {
        (**self).finalized()
    }

    fn trace(&mut self)
        ensures
            (**final(self)).traced(),
    {
        T::trace(&mut **self);
    }

    fn finalize(&mut self)
        ensures
            (**final(self)).finalized(),
    {
        T::finalize(&mut **self);
    }
}

impl<T: Trace> Trace for Vec<T> {
    /// Every element is traced.
    open spec fn traced(&self) -> bool {
        forall|i: int| 0 <= i < self@.len() ==> (#[trigger] self@[i]).traced()
    }

    /// Every element is finalized.
    open spec fn finalized(&self) -> bool {
        forall|i: int| 0 <= i < self@.len() ==> (#[trigger] self@[i]).finalized()
    }

    fn trace(&mut self)
        ensures
            final(self)@.len() == old(self)@.len(),
            forall|i: int| 0 <= i < final(self)@.len() ==> (#[trigger] final(self)@[i]).traced(),
    {
        let n = self.len();
        let mut i: usize = 0;
        while i < n
            invariant
                i <= n,
                self.len() == n,
                forall|j: int| 0 <= j < i ==> (#[trigger] self@[j]).traced(),
            decreases n - i,
        {
            self[i].trace();
            i += 1;
        }
    }

    fn finalize(&mut self)
        ensures
            final(self)@.len() == old(self)@.len(),
            forall|i: int| 0 <= i < final(self)@.len() ==> (#[trigger] final(self)@[i]).finalized(),
    {
        let n = self.len();
        let mut i: usize = 0;
        while i < n
            invariant
                i <= n,
                self.len() == n,
                forall|j: int| 0 <= j < i ==> (#[trigger] self@[j]).finalized(),
            decreases n - i,
        {
            self[i].finalize();
            i += 1;
        }
    }
}

impl<T: Trace> Trace for [T] {
    /// Every element is traced.
    open spec fn traced(&self) -> bool {
        forall|i: int| 0 <= i < self@.len() ==> (#[trigger] self@[i]).traced()
    }

    /// Every element is finalized.
    open spec fn finalized(&self) -> bool {
        forall|i: int| 0 <= i < self@.len() ==> (#[trigger] self@[i]).finalized()
    }

    fn trace(&mut self)
        ensures
            final(self)@.len() == old(self)@.len(),
            forall|i: int| 0 <= i < final(self)@.len() ==> (#[trigger] final(self)@[i]).traced(),
    {
        let n = self.len();
        let mut i: usize = 0;
        while i < n
            invariant
                i <= n,
                self@.len() == n,
                forall|j: int| 0 <= j < i ==> (#[trigger] self@[j]).traced(),
            decreases n - i,
        {
            self[i].trace();
            i += 1;
        }
    }

    fn finalize(&mut self)
        ensures
            final(self)@.len() == old(self)@.len(),
            forall|i: int| 0 <= i < final(self)@.len() ==> (#[trigger] final(self)@[i]).finalized(),
    {
        let n = self.len();
        let mut i: usize = 0;
        while i < n
            invariant
                i <= n,
                self@.len() == n,
                forall|j: int| 0 <= j < i ==> (#[trigger] self@[j]).finalized(),
            decreases n - i,
        {
            self[i].finalize();
            i += 1;
        }
    }
}

/// A pointer reaches its object only through the heap that holds it
/// (`GcPtr::as_mut_dyn_trace`), which a pointer on its own does not have: its
/// own `trace` and `finalize` do nothing. The heap finalizes each object once,
/// in `Gc::destroy`, and a caller that holds the heap traces the object
/// behind a pointer with `ptr.as_mut_dyn_trace(&mut gc).trace()`.
impl<T> Trace for GcPtr<T> {
    fn trace(&mut self) {
    }

    fn finalize(&mut self) {
    }
}

} // verus!
