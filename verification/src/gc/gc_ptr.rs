use vstd::prelude::*;
use core::marker::PhantomData;

use crate::gc::{
    allocatable, header_layout_size, header_layout_size_exec, lemma_object_in_page, round_up,
    value_offset, CompactTypeId, Gc, Trace,
};

verus! {

/// Bytes in a machine word (the size of a pointer).
pub open spec fn word_size() -> int {
    usize::BITS as int / 8
}

/// Bytes in a machine word, computed.
pub fn word_bytes() -> (w: usize)
    ensures
        w == word_size(),
        w == 4 || w == 8,
{
    assert(usize::BITS == 32 || usize::BITS == 64);
    if usize::BITS == 64 {
        8
    } else {
        4
    }
}

/// A multiple of the word size is a multiple of 4, and so even.
pub proof fn lemma_word_multiple(x: int)
    requires
        x % word_size() == 0,
    ensures
        x % 4 == 0,
        x % 2 == 0,
{
    assert(usize::BITS == 32 || usize::BITS == 64);
    if word_size() == 8 {
        assert(x % 8 == 0);
    }
}

/// Flags kept per object; no flag is defined yet.
pub struct GcFlags {}

/// The header that precedes every value in the heap: what the value's
/// vtable tells of it (its size and alignment) and its compact type id.
#[derive(Clone, Copy, Debug, PartialEq, Eq)]
pub struct GcHeader {
    type_id: u32,
    value_size: usize,
    value_align: usize,
}

impl GcHeader {
    pub closed spec fn type_id_spec(self) -> u32 {
        self.type_id
    }

    pub closed spec fn value_size_spec(self) -> usize {
        self.value_size
    }

    pub closed spec fn value_align_spec(self) -> usize {
        self.value_align
    }

    /// The header's size in bytes, including the value: the size of a
    /// `repr(C)` header for a value of this size and alignment.
    pub open spec fn size_spec(self) -> int {
        header_layout_size(self.value_size_spec() as int, self.value_align_spec() as int)
    }

    #[verifier::type_invariant]
    spec fn holdable(self) -> bool {
        allocatable(self.value_size as int, self.value_align as int)
    }

    pub(crate) fn new(type_id: u32, value_size: usize, value_align: usize) -> (h: GcHeader)
        requires
            allocatable(value_size as int, value_align as int),
        ensures
            h.type_id_spec() == type_id,
            h.value_size_spec() == value_size,
            h.value_align_spec() == value_align,
    {
        GcHeader { type_id, value_size, value_align }
    }

    /// Size of header in bytes, including the value.
    pub fn size_of(&self) -> (r: usize)
        ensures
            r == self.size_spec(),
            allocatable(self.value_size_spec() as int, self.value_align_spec() as int),
    {
        proof {
            use_type_invariant(self);
        }
        header_layout_size_exec(self.value_size, self.value_align)
    }

    pub fn type_id(&self) -> (r: u32)
        ensures
            r == self.type_id_spec(),
    {
        self.type_id
    }

    pub fn value_align(&self) -> (r: usize)
        ensures
            r == self.value_align_spec(),
    {
        self.value_align
    }
}

/// A pointer to an object of the heap, by the address of its header.
/// Always aligned to a word.
#[derive(Debug)]
pub struct GcPtr<T> {
    addr: usize,
    marker: PhantomData<T>,
}

impl<T> View for GcPtr<T> {
    type V = usize;

    closed spec fn view(&self) -> usize {
        self.addr
    }
}

impl<T> GcPtr<T> {
    #[verifier::type_invariant]
    spec fn aligned(self) -> bool {
        &&& self.addr != 0
        &&& self.addr as int % word_size() == 0
    }

    pub(crate) fn from_addr(addr: usize) -> (p: GcPtr<T>)
        requires
            addr != 0,
            addr as int % word_size() == 0,
        ensures
            p@ == addr,
    {
        GcPtr { addr, marker: PhantomData }
    }
}

impl<T> Clone for GcPtr<T> {
    fn clone(&self) -> (r: Self)
        ensures
            r@ == self@,
    {
        proof {
            use_type_invariant(self);
        }
        GcPtr { addr: self.addr, marker: PhantomData }
    }
}

impl<T> Copy for GcPtr<T> {
}

#[derive(Debug, Clone, Copy, PartialEq, Eq)]
pub struct IncorrectGcType;


impl<T> GcPtr<T> {
    /// The same pointer, with the type of its value forgotten.
    pub fn untype(self) -> (p: GcPtr<()>)
        ensures
            p@ == self@,
    {
        proof {
            use_type_invariant(&self);
        }
        GcPtr::from_addr(self.addr)
    }

    /// Address of the object's header.
    pub fn as_header_ptr(self) -> (addr: usize)
        ensures
            addr == self@,
            addr != 0,
            addr as int % word_size() == 0,
    {
        proof {
            use_type_invariant(&self);
        }
        self.addr
    }

    /// The object's header.
    pub fn header(self, gc: &Gc) -> (h: GcHeader)
        requires
            gc.wf(),
            gc.header_at(self@ as int) is Some,
        ensures
            gc.header_at(self@ as int) == Some(h),
    {
        gc.header_of(self.addr)
    }

    /// Address of the object's value: past the header's vtable pointer and
    /// type id, rounded up to the value's alignment.
    pub fn as_value_ptr(self, gc: &Gc) -> (addr: usize)
        requires
            gc.wf(),
            gc.header_at(self@ as int) is Some,
        ensures
            addr == round_up(
                self@ + word_size() + 4,
                gc.header_at(self@ as int)->0.value_align_spec() as int,
            ),
            addr == self@ + value_offset(gc.header_at(self@ as int)->0.value_align_spec() as int),
    {
        proof {
            lemma_object_in_page(*gc, self@ as int);
            crate::gc::lemma_allocatable_words(
                gc.header_at(self@ as int)->0.value_size_spec() as int,
                gc.header_at(self@ as int)->0.value_align_spec() as int,
            );
        }
        let header = gc.header_of(self.addr);
        let align = header.value_align();
        let unaligned = self.addr + word_bytes() + 4;
        proof {
            lemma_round_up_shift(self@ as int, word_size() + 4, align as int);
        }
        let rem = unaligned % align;
        if rem == 0 {
            unaligned
        } else {
            unaligned + (align - rem)
        }
    }
}

/// Rounding up past a multiple of the alignment is rounding up the rest.
proof fn lemma_round_up_shift(base: int, x: int, align: int)
    requires
        align == 1 || align == 2 || align == 4 || align == 8,
        align <= word_size(),
        base % word_size() == 0,
        0 <= base,
        0 <= x,
    ensures
        round_up(base + x, align) == base + round_up(x, align),
        (base + x) % align == x % align,
{
    assert(usize::BITS == 32 || usize::BITS == 64);
    assert(base % align == 0) by {
        if word_size() == 4 {
            assert(base % 4 == 0);
        } else {
            assert(base % 8 == 0);
        }
    }
    vstd::arithmetic::div_mod::lemma_add_mod_noop(base, x, align);
    vstd::arithmetic::div_mod::lemma_small_mod((x % align) as nat, align as nat);
}

impl<T> GcPtr<T> {
    /// The object's value, to be traced, finalized or changed in place
    /// through its `Trace` vtable. The heap keeps every object and header,
    /// and every other object keeps its value.
    pub fn as_mut_dyn_trace<'a>(self, gc: &'a mut Gc) -> (r: &'a mut Box<dyn Trace>)
        requires
            old(gc).wf(),
            old(gc).header_at(self@ as int) is Some,
        ensures
            final(gc).wf(),
            final(gc).pages_spec().len() == old(gc).pages_spec().len(),
            final(gc).head_page().bump_spec() == old(gc).head_page().bump_spec(),
            forall|a: int| #[trigger] final(gc).header_at(a) == old(gc).header_at(a),
            old(gc).value_at(self@ as int) == Some(*r),
            final(gc).value_at(self@ as int) == Some(*final(r)),
            forall|a: int| a != self@ ==> #[trigger] final(gc).value_at(a) == old(gc).value_at(a),
    {
        gc.value_mut(self.addr)
    }
}

impl GcPtr<()> {
    /// A pointer to the header at the given address, which must be non-null
    /// and aligned to a word.
    pub fn from_non_null(inner: usize) -> (p: GcPtr<()>)
        requires
            inner != 0,
            inner as int % word_size() == 0,
        ensures
            p@ == inner,
    {
        GcPtr::from_addr(inner)
    }

    /// The same pointer, typed as `T`, when the object's header carries the
    /// given type id; `IncorrectGcType` otherwise.
    pub fn try_type_id<T>(self, gc: &Gc, type_id: u32) -> (r: Result<GcPtr<T>, IncorrectGcType>)
        requires
            gc.wf(),
            gc.header_at(self@ as int) is Some,
        ensures
            gc.header_at(self@ as int)->0.type_id_spec() == type_id ==> (r matches Ok(p) && p@
                == self@),
            gc.header_at(self@ as int)->0.type_id_spec() != type_id ==> r == Err::<GcPtr<T>, _>(
                IncorrectGcType,
            ),
    {
        proof {
            use_type_invariant(&self);
        }
        let header = gc.header_of(self.addr);
        if header.type_id() == type_id {
            Ok(GcPtr::from_addr(self.addr))
        } else {
            Err(IncorrectGcType)
        }
    }

    /// The same pointer, typed as `T`, when the object's header carries the
    /// compact type id of `T`; `IncorrectGcType` otherwise.
    pub fn try_type<T: CompactTypeId>(self, gc: &Gc) -> (r: Result<GcPtr<T>, IncorrectGcType>)
        requires
            gc.wf(),
            gc.header_at(self@ as int) is Some,
        ensures
            (r is Ok) == (gc.header_at(self@ as int)->0.type_id_spec() == T::compact_type_id_spec()),
            r matches Ok(p) ==> p@ == self@,
            r is Err ==> r == Err::<GcPtr<T>, _>(IncorrectGcType),
    {
        let type_id = T::compact_type_id();
        self.try_type_id(gc, type_id)
    }
}

} // verus!
