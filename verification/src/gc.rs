use vstd::prelude::*;

pub mod gc_ptr;
pub mod trace;
pub mod type_id;

pub use gc_ptr::{GcFlags, GcHeader, GcPtr, IncorrectGcType};
pub use trace::Trace;
pub use type_id::{CheckTypeId, CompactTypeId};

use gc_ptr::{lemma_word_multiple, word_bytes, word_size};

verus! {

/// Size and alignment of a page, in bytes.
pub const PAGE_SIZE: usize = 65_536;

/// Bytes taken at the start of a page by its metadata: the link to the
/// next page, an `Option` of a raw pointer (a tag and a pointer, two
/// words), and the bump offset (one word).
pub open spec fn metadata_size() -> int {
    3 * word_size()
}

/// Bytes of a page's metadata, computed.
pub fn metadata_bytes() -> (r: usize)
    ensures
        r == metadata_size(),
{
    3 * word_bytes()
}

/// Bytes of a page that objects can take.
pub open spec fn page_usable_size_spec() -> int {
    PAGE_SIZE - metadata_size()
}

pub fn page_usable_size() -> (r: usize)
    ensures
        r == page_usable_size_spec(),
{
    PAGE_SIZE - metadata_bytes()
}

/// `x` rounded up to a multiple of `a`.
pub open spec fn round_up(x: int, a: int) -> int
    recommends
        a > 0,
{
    if x % a == 0 {
        x
    } else {
        x + (a - x % a)
    }
}

/// Offset of the value inside a header laid out as `repr(C)`: after the
/// vtable pointer and the `u32` type id, at the value's alignment.
pub open spec fn value_offset(align: int) -> int {
    round_up(word_size() + 4, align)
}

/// `size_of::<GcHeader<T>>()` for a value of the given size and alignment:
/// the value's offset plus its size, rounded up to the header's alignment.
pub open spec fn header_layout_size(size: int, align: int) -> int {
    round_up(value_offset(align) + size, if align > word_size() { align } else { word_size() })
}

/// The values the heap can hold: aligned to no more than a word (so that
/// the header, placed at a word boundary, is aligned), with a header that
/// fits in a page.
pub open spec fn allocatable(size: int, align: int) -> bool {
    &&& (align == 1 || align == 2 || align == 4 || align == 8)
    &&& align <= word_size()
    &&& 0 <= size
    &&& header_layout_size(size, align) < page_usable_size_spec()
}

proof fn lemma_word()
    ensures
        word_size() == 4 || word_size() == 8,
        page_usable_size_spec() % word_size() == 0,
        page_usable_size_spec() > 0,
{
    assert(usize::BITS == 32 || usize::BITS == 64);
}

/// The header of a layout the heap can hold takes a whole number of words,
/// at least two, and holds its value.
pub proof fn lemma_allocatable_words(size: int, align: int)
    requires
        allocatable(size, align),
    ensures
        header_layout_size(size, align) % word_size() == 0,
        header_layout_size(size, align) >= 2 * word_size(),
        value_offset(align) + size <= header_layout_size(size, align),
        word_size() + 4 <= value_offset(align),
{
    lemma_word();
    let w = word_size();
    let x = value_offset(align) + size;
    if w == 4 {
        assert(round_up(x, 4) % 4 == 0);
    } else {
        assert(round_up(x, 8) % 8 == 0);
    }
}

/// Rounding up to a positive multiple adds less than that multiple.
proof fn lemma_round_up_bounds(x: int, a: int)
    requires
        a > 0,
    ensures
        x <= round_up(x, a) < x + a,
{
}

/// The heap holds every small value of an ordinary alignment: a layout
/// whose alignment is 1, 2, 4 or 8 bytes and at most a word, and whose
/// size leaves four words of a page's usable area free, has a header that
/// fits in a page, so the heap's admission check accepts it.
pub proof fn lemma_small_layouts_allocatable(size: int, align: int)
    requires
        align == 1 || align == 2 || align == 4 || align == 8,
        align <= word_size(),
        0 <= size,
        size + 4 * word_size() <= page_usable_size_spec(),
    ensures
        allocatable(size, align),
        header_layout_size(size, align) < size + 4 * word_size(),
{
    lemma_word();
    let w = word_size();
    lemma_round_up_bounds(w + 4, align);
    let vo = value_offset(align);
    let a = if align > w {
        align
    } else {
        w
    };
    lemma_round_up_bounds(vo + size, a);
}

/// The layout size of a header, computed.
pub(crate) fn header_layout_size_exec(size: usize, align: usize) -> (r: usize)
    requires
        align == 1 || align == 2 || align == 4 || align == 8,
        align <= word_size(),
        size < page_usable_size_spec(),
    ensures
        r == header_layout_size(size as int, align as int),
{
    proof {
        lemma_word();
    }
    let w = word_bytes();
    let fixed = w + 4;
    let off = if fixed % align == 0 {
        fixed
    } else {
        fixed + (align - fixed % align)
    };
    let end = off + size;
    let a = if align > w {
        align
    } else {
        w
    };
    if end % a == 0 {
        end
    } else {
        end + (a - end % a)
    }
}


/// A page of the heap: `PAGE_SIZE` bytes at an address that is a multiple of
/// `PAGE_SIZE`, with its metadata (the link to the page allocated before it
/// and the bump offset) at the start and its objects after that, one header
/// after another from offset 0 of the data area up to the bump offset.
///
/// The data area is kept as one slot per 4 bytes: the slot of an offset
/// holds the header that starts there, if one does, and the page owns the
/// value of that object in the value slot of the same offset.
pub struct Page {
    next: Option<usize>,
    bump: usize,
    base: usize,
    slots: Vec<Option<GcHeader>>,
    values: Vec<Option<Box<dyn Trace>>>,
    offsets: Ghost<Seq<int>>,
}

impl Page {
    /// The page allocated just before this one, by its place in the heap.
    pub closed spec fn next_spec(self) -> Option<usize> {
        self.next
    }

    /// Bytes of the data area taken by objects.
    pub closed spec fn bump_spec(self) -> int {
        self.bump as int
    }

    /// Address of the page.
    pub closed spec fn base_spec(self) -> int {
        self.base as int
    }

    /// Offsets in the data area of the headers of the page's objects, in
    /// the order in which they were allocated.
    pub closed spec fn offsets(self) -> Seq<int> {
        self.offsets@
    }

    /// The header that starts at the given offset of the data area.
    pub closed spec fn header_at(self, off: int) -> GcHeader {
        self.slots@[off / 4].unwrap()
    }

    /// Whether the page holds a value for the object that starts at the
    /// given offset of the data area.
    pub closed spec fn holds_value(self, off: int) -> bool {
        self.values@[off / 4] is Some
    }

    /// The value of the object that starts at the given offset.
    pub closed spec fn value_at(self, off: int) -> Option<Box<dyn Trace>> {
        self.values@[off / 4]
    }

    /// Address of the data area.
    pub open spec fn data_start(self) -> int {
        self.base_spec() + metadata_size()
    }

    /// Bytes taken by the `i`-th object, header and value.
    pub open spec fn stride(self, i: int) -> int {
        self.header_at(self.offsets()[i]).size_spec()
    }

    /// Addresses of the headers of the page's objects, in allocation order.
    pub open spec fn object_addrs(self) -> Seq<int> {
        self.offsets().map_values(|o: int| self.data_start() + o)
    }

    /// Each object starts at a word boundary inside the used part of the
    /// data area, has its header in the slot of its offset, and holds a
    /// value of a layout the heap can hold.
    #[verifier::opaque]
    pub closed spec fn objects_ok(self) -> bool {
        let offs = self.offsets@;
        forall|i: int|
            0 <= i < offs.len() ==> {
                &&& 0 <= #[trigger] offs[i]
                &&& offs[i] % word_size() == 0
                &&& self.slots@[offs[i] / 4] is Some
                &&& allocatable(
                    self.header_at(offs[i]).value_size_spec() as int,
                    self.header_at(offs[i]).value_align_spec() as int,
                )
                &&& offs[i] + self.stride(i) <= self.bump
            }
    }

    /// Objects do not overlap, and come in the order of their offsets.
    #[verifier::opaque]
    pub closed spec fn ordered(self) -> bool {
        let offs = self.offsets@;
        forall|i: int, j: int|
            #![trigger offs[i], offs[j]]
            0 <= i < j < offs.len() ==> offs[i] + self.stride(i) <= offs[j]
    }

    /// Each object starts where the one before it ends.
    #[verifier::opaque]
    pub closed spec fn chained(self) -> bool {
        let offs = self.offsets@;
        forall|i: int, j: int|
            #![trigger offs[i], offs[j]]
            0 <= i && j == i + 1 && j < offs.len() ==> offs[j] == offs[i] + self.stride(i)
    }

    /// The first object starts at offset 0 and the last one ends at the
    /// bump offset.
    pub closed spec fn ends_ok(self) -> bool {
        let offs = self.offsets@;
        let n = offs.len();
        &&& n == 0 ==> self.bump == 0
        &&& n > 0 ==> offs[0] == 0 && self.bump == offs[n - 1] + self.stride(n - 1)
    }

    /// A slot holds a header exactly when an object starts at its offset.
    #[verifier::opaque]
    pub closed spec fn slots_ok(self) -> bool {
        forall|k: int|
            0 <= k < self.slots@.len() ==> (#[trigger] self.slots@[k] is Some
                <==> self.offsets@.contains(4 * k))
    }

    /// A value slot holds a value exactly when its header slot holds a
    /// header.
    #[verifier::opaque]
    pub closed spec fn values_ok(self) -> bool {
        &&& self.values@.len() == self.slots@.len()
        &&& forall|k: int|
            0 <= k < self.slots@.len() ==> (#[trigger] self.values@[k] is Some
                <==> self.slots@[k] is Some)
    }

    pub closed spec fn shape_ok(self) -> bool {
        &&& self.slots@.len() == page_usable_size_spec() / 4
        &&& self.bump < page_usable_size_spec()
        &&& self.bump as int % word_size() == 0
        &&& self.base as int % PAGE_SIZE as int == 0
        &&& self.base > 0
        &&& self.base + PAGE_SIZE <= usize::MAX + 1
    }

    pub closed spec fn wf(self) -> bool {
        &&& self.shape_ok()
        &&& self.objects_ok()
        &&& self.ordered()
        &&& self.chained()
        &&& self.ends_ok()
        &&& self.slots_ok()
        &&& self.values_ok()
    }
}

/// A fresh page at the given address: no objects, bump offset 0, no link.
fn new_page(base: usize, next: Option<usize>) -> (page: Page)
    requires
        base as int % PAGE_SIZE as int == 0,
        base > 0,
        base + PAGE_SIZE <= usize::MAX + 1,
    ensures
        page.wf(),
        page.base_spec() == base,
        page.next_spec() == next,
        page.bump_spec() == 0,
        page.offsets() == Seq::<int>::empty(),
{
    proof {
        lemma_word();
    }
    let n = page_usable_size() / 4;
    let mut slots: Vec<Option<GcHeader>> = Vec::new();
    let mut values: Vec<Option<Box<dyn Trace>>> = Vec::new();
    let mut i: usize = 0;
    while i < n
        invariant
            i <= n,
            slots@.len() == i,
            values@.len() == i,
            forall|k: int| 0 <= k < i ==> slots@[k] is None,
            forall|k: int| 0 <= k < i ==> values@[k] is None,
        decreases n - i,
    {
        slots.push(None);
        values.push(None);
        i += 1;
    }
    let page = Page {
        next,
        bump: 0,
        base,
        slots,
        values,
        offsets: Ghost(Seq::empty()),
    };
    proof {
        reveal(Page::objects_ok);
        reveal(Page::ordered);
        reveal(Page::chained);
        reveal(Page::slots_ok);
        reveal(Page::values_ok);
    }
    page
}

impl Page {
    /// Places a header and its value at the bump offset, and moves the bump
    /// offset past them.
    fn place<V: Trace + 'static>(&mut self, header: GcHeader, value: V) -> (off: usize)
        requires
            old(self).wf(),
            allocatable(header.value_size_spec() as int, header.value_align_spec() as int),
            old(self).bump_spec() + header.size_spec() < page_usable_size_spec(),
        ensures
            final(self).wf(),
            off == old(self).bump_spec(),
            final(self).offsets() == old(self).offsets().push(off as int),
            final(self).header_at(off as int) == header,
            final(self).value_at(off as int) == Some::<Box<dyn Trace>>(Box::new(value)),
            final(self).object_addrs() == old(self).object_addrs().push(
                old(self).data_start() + off,
            ),
            forall|o: int|
                #![trigger final(self).value_at(o)]
                old(self).offsets().contains(o) ==> final(self).value_at(o) == old(self).value_at(o),
            final(self).bump_spec() == old(self).bump_spec() + header.size_spec(),
            final(self).base_spec() == old(self).base_spec(),
            final(self).next_spec() == old(self).next_spec(),
            forall|o: int| #[trigger] old(self).offsets().contains(o) ==> final(self).header_at(o) == old(self).header_at(o),
    {
        proof {
            lemma_word();
            lemma_allocatable_words(header.value_size_spec() as int, header.value_align_spec() as int);
        }
        let off = self.bump;
        let ghost old_page = *self;
        proof {
            reveal(Page::values_ok);
            lemma_word_multiple(off as int);
        }
        self.slots.set(off / 4, Some(header));
        let mut stored: Option<Box<dyn Trace>> = Some(Box::new(value));
        std::mem::swap(&mut self.values[off / 4], &mut stored);
        self.bump = off + header.size_of();
        self.offsets = Ghost(self.offsets@.push(off as int));
        proof {
            lemma_place_keeps_wf(old_page, *self, off as int, header);
            lemma_place_keeps_values(old_page, *self, off as int);
            assert(self.object_addrs() =~= old_page.object_addrs().push(
                old_page.data_start() + off,
            ));
        }
        off
    }
}


/// Storing a value with the header placed at the bump offset keeps every
/// value slot in step with its header slot, and the other values as they
/// were.
proof fn lemma_place_keeps_values(p: Page, q: Page, off: int)
    requires
        p.wf(),
        off == p.bump,
        0 <= off / 4 < p.slots@.len(),
        q.slots@.len() == p.slots@.len(),
        q.slots@[off / 4] is Some,
        forall|k: int| 0 <= k < p.slots@.len() && k != off / 4 ==> q.slots@[k] == p.slots@[k],
        q.values@.len() == p.values@.len(),
        q.values@[off / 4] is Some,
        forall|k: int| 0 <= k < p.values@.len() && k != off / 4 ==> q.values@[k] == p.values@[k],
    ensures
        q.values_ok(),
        forall|o: int|
            #![trigger q.value_at(o)]
            p.offsets().contains(o) ==> q.value_at(o) == p.value_at(o),
{
    reveal(Page::values_ok);
    assert forall|k: int| 0 <= k < q.slots@.len() implies (#[trigger] q.values@[k] is Some
        <==> q.slots@[k] is Some) by {
        if k != off / 4 {
            assert(p.values@[k] is Some <==> p.slots@[k] is Some);
        }
    }
    assert forall|o: int| #![trigger q.value_at(o)] p.offsets().contains(o) implies q.value_at(o)
        == p.value_at(o) by {
        reveal(Page::objects_ok);
        lemma_word();
        let i = choose|i: int| 0 <= i < p.offsets().len() && p.offsets()[i] == o;
        assert(o + p.stride(i) <= p.bump);
        lemma_allocatable_words(
            p.header_at(o).value_size_spec() as int,
            p.header_at(o).value_align_spec() as int,
        );
        lemma_word_multiple(o);
        lemma_word_multiple(off);
        assert(o / 4 != off / 4);
    }
}

/// Writing a header at the bump offset and moving the bump offset past it
/// keeps a page well formed and leaves the other headers as they were.
#[verifier::spinoff_prover]
#[verifier::rlimit(40)]
proof fn lemma_place_keeps_wf(p: Page, q: Page, off: int, header: GcHeader)
    requires
        p.wf(),
        off == p.bump,
        allocatable(header.value_size_spec() as int, header.value_align_spec() as int),
        q.slots@ == p.slots@.update(off / 4, Some(header)),
        q.offsets@ == p.offsets@.push(off),
        q.bump == off + header.size_spec(),
        q.bump < page_usable_size_spec(),
        q.base == p.base,
    ensures
        q.shape_ok(),
        q.objects_ok(),
        q.ordered(),
        q.chained(),
        q.ends_ok(),
        q.slots_ok(),
        q.header_at(off) == header,
        forall|o: int| #[trigger] p.offsets().contains(o) ==> q.header_at(o) == p.header_at(o),
{
    lemma_word();
    lemma_allocatable_words(header.value_size_spec() as int, header.value_align_spec() as int);
    let po = p.offsets@;
    let qo = q.offsets@;
    let n = qo.len();
    lemma_word_multiple(off);
    assert(off / 4 < q.slots@.len());
    assert(q.header_at(off) == header);
    assert(q.stride(n - 1) == header.size_spec());
    assert forall|i: int| 0 <= i < n - 1 implies #[trigger] qo[i] == po[i] && q.header_at(
        qo[i],
    ) == p.header_at(po[i]) && q.stride(i) == p.stride(i) && po[i] + p.stride(i) <= p.bump by {
        reveal(Page::objects_ok);
        assert(po[i] + p.stride(i) <= p.bump);
        assert(po[i] % word_size() == 0);
        lemma_word_multiple(po[i]);
        assert(po[i] / 4 != off / 4);
    }
    assert(q.objects_ok()) by {
        reveal(Page::objects_ok);
        assert forall|i: int|
            0 <= i < n implies {
                &&& 0 <= #[trigger] qo[i]
                &&& qo[i] % word_size() == 0
                &&& q.slots@[qo[i] / 4] is Some
                &&& allocatable(
                    q.header_at(qo[i]).value_size_spec() as int,
                    q.header_at(qo[i]).value_align_spec() as int,
                )
                &&& qo[i] + q.stride(i) <= q.bump
            } by {
            if i < n - 1 {
                assert(qo[i] == po[i]);
                assert(p.slots@[po[i] / 4] is Some);
            }
        }
    }
    assert(q.ordered()) by {
        reveal(Page::ordered);
        assert forall|i: int, j: int|
            #![trigger qo[i], qo[j]]
            0 <= i < j < n implies qo[i] + q.stride(i) <= qo[j] by {
            assert(qo[i] == po[i]);
            if j < n - 1 {
                assert(qo[j] == po[j]);
                assert(po[i] + p.stride(i) <= po[j]);
            }
        }
    }
    assert(q.chained()) by {
        reveal(Page::chained);
        assert forall|i: int, j: int|
            #![trigger qo[i], qo[j]]
            0 <= i && j == i + 1 && j < n implies qo[j] == qo[i] + q.stride(i) by {
            assert(qo[i] == po[i]);
            if j < n - 1 {
                assert(qo[j] == po[j]);
                assert(po[j] == po[i] + p.stride(i));
            }
        }
    }
    assert(q.ends_ok()) by {
        if n > 1 {
            assert(qo[0] == po[0]);
        }
    }
    assert(q.slots_ok()) by {
        reveal(Page::slots_ok);
        reveal(Page::objects_ok);
        assert forall|k: int| 0 <= k < q.slots@.len() implies (#[trigger] q.slots@[k] is Some
            <==> qo.contains(4 * k)) by {
            if k != off / 4 {
                assert(p.slots@[k] is Some <==> po.contains(4 * k));
                if qo.contains(4 * k) {
                    let i = choose|i: int| 0 <= i < n && qo[i] == 4 * k;
                    assert(i != n - 1);
                    assert(po[i] == 4 * k);
                }
                if po.contains(4 * k) {
                    let i = choose|i: int| 0 <= i < n - 1 && po[i] == 4 * k;
                    assert(qo[i] == 4 * k);
                }
            } else {
                assert(qo[n - 1] == 4 * k);
            }
        }
    }
    assert forall|o: int| #[trigger] p.offsets().contains(o) implies q.header_at(o) == p.header_at(
        o,
    ) by {
        let i = choose|i: int| 0 <= i < n - 1 && po[i] == o;
        assert(qo[i] == o);
    }
}


/// Address of the `k`-th page allocated: pages sit one after another from
/// the first multiple of `PAGE_SIZE` that is not null.
pub open spec fn page_base(k: int) -> int {
    (k + 1) * PAGE_SIZE
}

/// How many pages the address space has room for.
pub open spec fn page_capacity() -> int {
    (usize::MAX + 1) / PAGE_SIZE as int - 1
}

/// The page and data offset of an address, from the page's alignment.
pub open spec fn page_of(addr: int) -> int {
    addr / PAGE_SIZE as int - 1
}

pub open spec fn offset_of(addr: int) -> int {
    addr % PAGE_SIZE as int - metadata_size()
}

/// An address in the `k`-th page is found again from its page's alignment.
proof fn lemma_page_address(k: int, off: int)
    requires
        0 <= k,
        0 <= off,
        metadata_size() + off < PAGE_SIZE,
    ensures
        page_of(page_base(k) + metadata_size() + off) == k,
        offset_of(page_base(k) + metadata_size() + off) == off,
{
    let a = page_base(k) + metadata_size() + off;
    assert(a == (k + 1) * 65536 + (metadata_size() + off));
    vstd::arithmetic::div_mod::lemma_fundamental_div_mod_converse(
        a,
        65536,
        k + 1,
        metadata_size() + off,
    );
}

/// The heap ("Gc context"): its pages in the order in which they were
/// allocated. The newest, the head, takes new objects; each page links to
/// the one allocated before it.
pub struct Gc {
    pages: Vec<Page>,
    head: usize,
}

impl Gc {
    pub closed spec fn pages_spec(self) -> Seq<Page> {
        self.pages@
    }

    /// The page that takes new objects.
    pub open spec fn head_page(self) -> Page {
        self.pages_spec().last()
    }

    pub closed spec fn wf(self) -> bool {
        let n = self.pages@.len();
        &&& 1 <= n <= page_capacity()
        &&& self.head == n - 1
        &&& forall|k: int|
            0 <= k < n ==> {
                &&& (#[trigger] self.pages@[k]).wf()
                &&& self.pages@[k].base_spec() == page_base(k)
                &&& self.pages@[k].next_spec() == if k == 0 {
                    None::<usize>
                } else {
                    Some((k - 1) as usize)
                }
            }
    }

    /// The header of the object whose header starts at `addr`, if there is
    /// such an object.
    pub open spec fn header_at(self, addr: int) -> Option<GcHeader> {
        let k = page_of(addr);
        let off = offset_of(addr);
        if 0 <= k < self.pages_spec().len() && self.pages_spec()[k].offsets().contains(off) {
            Some(self.pages_spec()[k].header_at(off))
        } else {
            None
        }
    }

    /// The value of the object whose header starts at `addr`, if there is
    /// such an object.
    pub closed spec fn value_at(self, addr: int) -> Option<Box<dyn Trace>> {
        let k = page_of(addr);
        let off = offset_of(addr);
        if 0 <= k < self.pages_spec().len() && self.pages_spec()[k].offsets().contains(off) {
            self.pages_spec()[k].value_at(off)
        } else {
            None
        }
    }

    /// Whether the heap holds a value for the object whose header starts at
    /// `addr`.
    pub open spec fn holds_value(self, addr: int) -> bool {
        self.value_at(addr) is Some
    }

    /// Whether the heap can take an object of the given stride: the head
    /// page has room for it, or the address space has room for one more
    /// page.
    pub open spec fn has_room(self, stride: int) -> bool {
        ||| self.head_page().bump_spec() + stride < page_usable_size_spec()
        ||| self.pages_spec().len() < page_capacity()
    }

    pub fn new() -> (gc: Gc)
        ensures
            gc.wf(),
            gc.pages_spec().len() == 1,
            gc.head_page().offsets().len() == 0,
            gc.head_page().bump_spec() == 0,
            gc.head_page().base_spec() == page_base(0),
            gc.head_page().next_spec() is None,
            forall|a: int| gc.header_at(a) is None,
    {
        proof {
            lemma_word();
            assert(page_capacity() >= 1);
        }
        let mut pages: Vec<Page> = Vec::new();
        pages.push(new_page(PAGE_SIZE, None));
        Gc { pages, head: 0 }
    }

    /// The header of the object whose header starts at `addr`.
    pub(crate) fn header_of(&self, addr: usize) -> (h: GcHeader)
        requires
            self.wf(),
            self.header_at(addr as int) is Some,
        ensures
            self.header_at(addr as int) == Some(h),
    {
        proof {
            lemma_word();
            let k = page_of(addr as int);
            let page = self.pages@[k];
            assert(page.wf());
            reveal(Page::objects_ok);
            let i = choose|i: int| 0 <= i < page.offsets@.len() && page.offsets@[i] == offset_of(addr as int);
            assert(0 <= page.offsets@[i]);
        }
        let k = addr / PAGE_SIZE - 1;
        let off = addr % PAGE_SIZE - metadata_bytes();
        let page = &self.pages[k];
        proof {
            assert(page.wf());
            reveal(Page::slots_ok);
            let i = choose|i: int| 0 <= i < page.offsets@.len() && page.offsets@[i] == off;
            reveal(Page::objects_ok);
            assert(page.slots@[page.offsets@[i] / 4] is Some);
        }
        page.slots[off / 4].unwrap()
    }
}


impl Gc {
    /// Allocates `value` in the heap under the given type id.
    ///
    /// The header goes at the bump offset of the head page when it fits
    /// there (the object must end strictly before the end of the page's
    /// data area); otherwise a new page becomes the head, linked to the old
    /// one, and the object goes at its start.
    #[verifier::spinoff_prover]
    #[verifier::rlimit(80)]
    pub fn alloc_with_type_id<T: Trace + 'static>(&mut self, value: T, type_id: u32) -> (p: GcPtr<T>)
        requires
            old(self).wf(),
            allocatable(
                vstd::layout::size_of::<T>() as int,
                vstd::layout::align_of::<T>() as int,
            ),
            old(self).has_room(
                header_layout_size(
                    vstd::layout::size_of::<T>() as int,
                    vstd::layout::align_of::<T>() as int,
                ),
            ),
        ensures
            final(self).wf(),
            old(self).header_at(p@ as int) is None,
            final(self).header_at(p@ as int) matches Some(h) && h.type_id_spec() == type_id
                && h.value_size_spec() == vstd::layout::size_of::<T>()
                && h.value_align_spec() == vstd::layout::align_of::<T>(),
            forall|a: int| a != p@ ==> #[trigger] final(self).header_at(a) == old(self).header_at(a),
            final(self).value_at(p@ as int) == Some::<Box<dyn Trace>>(Box::new(value)),
            forall|a: int| a != p@ ==> #[trigger] final(self).value_at(a) == old(self).value_at(a),
            ({
                let head = old(self).head_page();
                let n = old(self).pages_spec().len();
                let stride = header_layout_size(
                    vstd::layout::size_of::<T>() as int,
                    vstd::layout::align_of::<T>() as int,
                );
                if head.bump_spec() + stride < page_usable_size_spec() {
                    &&& final(self).pages_spec().len() == n
                    &&& p@ == head.data_start() + head.bump_spec()
                    &&& final(self).head_page().bump_spec() == head.bump_spec() + stride
                    &&& final(self).head_page().base_spec() == head.base_spec()
                    &&& final(self).head_page().next_spec() == head.next_spec()
                    &&& final(self).head_page().object_addrs() == head.object_addrs().push(p@ as int)
                    &&& forall|k: int|
                        0 <= k < n - 1 ==> #[trigger] final(self).pages_spec()[k] == old(
                            self,
                        ).pages_spec()[k]
                } else {
                    &&& final(self).pages_spec().len() == n + 1
                    &&& p@ == page_base(n as int) + metadata_size()
                    &&& final(self).head_page().bump_spec() == stride
                    &&& final(self).head_page().base_spec() == page_base(n as int)
                    &&& final(self).head_page().next_spec() == Some((n - 1) as usize)
                    &&& final(self).head_page().object_addrs() == seq![p@ as int]
                    &&& forall|k: int|
                        0 <= k < n ==> #[trigger] final(self).pages_spec()[k] == old(
                            self,
                        ).pages_spec()[k]
                }
            }),
    {
        proof {
            lemma_word();
        }
        let size = core::mem::size_of::<T>();
        let align = core::mem::align_of::<T>();
        let stride = header_layout_size_exec(size, align);
        let head = self.head;
        proof {
            assert(self.pages@[head as int].wf());
            assert(self.pages@.last() == self.pages@[head as int]);
        }
        let bumped = self.pages[head].bump + stride;
        if bumped >= page_usable_size() {
            self.push_page();
        }
        let header = GcHeader::new(type_id, size, align);
        let addr = self.place_in_head(header, value);
        GcPtr::from_addr(addr)
    }
}

impl Gc {
    /// Makes a fresh page the head, linked to the old head.
    fn push_page(&mut self)
        requires
            old(self).wf(),
            old(self).pages_spec().len() < page_capacity(),
        ensures
            final(self).wf(),
            final(self).pages_spec() == old(self).pages_spec().push(final(self).head_page()),
            final(self).head_page().base_spec() == page_base(old(self).pages_spec().len() as int),
            final(self).head_page().bump_spec() == 0,
            final(self).head_page().offsets().len() == 0,
            final(self).head_page().next_spec() == Some((old(self).pages_spec().len() - 1) as usize),
            forall|a: int| #[trigger] final(self).header_at(a) == old(self).header_at(a),
            forall|a: int| #[trigger] final(self).value_at(a) == old(self).value_at(a),
    {
        proof {
            lemma_word();
        }
        let head = self.head;
        let ghost old_gc = *self;
        let page = new_page(PAGE_SIZE * (head + 2), Some(head));
        self.pages.push(page);
        self.head = head + 1;
        proof {
            let n = old_gc.pages@.len();
            assert forall|k: int| 0 <= k < n + 1 implies {
                &&& (#[trigger] self.pages@[k]).wf()
                &&& self.pages@[k].base_spec() == page_base(k)
                &&& self.pages@[k].next_spec() == if k == 0 {
                    None::<usize>
                } else {
                    Some((k - 1) as usize)
                }
            } by {
                if k < n {
                    assert(self.pages@[k] == old_gc.pages@[k]);
                }
            }
            assert(self.pages@ =~= old_gc.pages@.push(self.pages@.last()));
            assert forall|a: int| #[trigger] self.header_at(a) == old_gc.header_at(a) by {
                let k = page_of(a);
                if 0 <= k < n {
                    assert(self.pages@[k] == old_gc.pages@[k]);
                }
            }
            assert forall|a: int| #[trigger] self.value_at(a) == old_gc.value_at(a) by {
                let k = page_of(a);
                if 0 <= k < n {
                    assert(self.pages@[k] == old_gc.pages@[k]);
                }
            }
        }
    }

    /// Places a header and its value at the bump offset of the head page.
    #[verifier::spinoff_prover]
    fn place_in_head<V: Trace + 'static>(&mut self, header: GcHeader, value: V) -> (addr: usize)
        requires
            old(self).wf(),
            allocatable(header.value_size_spec() as int, header.value_align_spec() as int),
            old(self).head_page().bump_spec() + header.size_spec() < page_usable_size_spec(),
        ensures
            final(self).wf(),
            addr == old(self).head_page().data_start() + old(self).head_page().bump_spec(),
            old(self).header_at(addr as int) is None,
            final(self).header_at(addr as int) == Some(header),
            final(self).value_at(addr as int) == Some::<Box<dyn Trace>>(Box::new(value)),
            forall|a: int| a != addr ==> #[trigger] final(self).header_at(a) == old(self).header_at(a),
            forall|a: int| a != addr ==> #[trigger] final(self).value_at(a) == old(self).value_at(a),
            final(self).pages_spec().len() == old(self).pages_spec().len(),
            forall|k: int|
                0 <= k < old(self).pages_spec().len() - 1 ==> #[trigger] final(self).pages_spec()[k]
                    == old(self).pages_spec()[k],
            final(self).head_page().object_addrs() == old(self).head_page().object_addrs().push(
                addr as int,
            ),
            final(self).head_page().bump_spec() == old(self).head_page().bump_spec()
                + header.size_spec(),
            final(self).head_page().base_spec() == old(self).head_page().base_spec(),
            final(self).head_page().next_spec() == old(self).head_page().next_spec(),
    {
        proof {
            lemma_word();
        }
        let head = self.head;
        let ghost old_gc = *self;
        proof {
            assert(self.pages@[head as int].wf());
            assert(self.pages@.last() == self.pages@[head as int]);
        }
        let off = self.pages[head].place(header, value);
        let base = self.pages[head].base;
        let addr = base + metadata_bytes() + off;
        proof {
            lemma_alloc_frame(old_gc, old_gc, *self, head as int, off as int, header);
            lemma_alloc_values(
                old_gc,
                old_gc,
                *self,
                head as int,
                off as int,
                Some::<Box<dyn Trace>>(Box::new(value)),
            );
            assert(self.pages@.last() == self.pages@[head as int]);
            assert(base == page_base(head as int));
            assert(addr == page_base(head as int) + metadata_size() + off);
        }
        addr
    }
}


/// The values of an allocation: the new object holds a value and every other
/// address keeps the value it had.
proof fn lemma_alloc_values(
    old_gc: Gc,
    mid: Gc,
    new: Gc,
    head: int,
    off: int,
    v: Option<Box<dyn Trace>>,
)
    requires
        old_gc.wf(),
        head == mid.head,
        0 <= head < mid.pages@.len(),
        mid.pages@ == old_gc.pages@ || ({
            let n = old_gc.pages@.len();
            &&& mid.pages@.len() == n + 1
            &&& mid.head == n
            &&& mid.pages@.subrange(0, n as int) == old_gc.pages@
            &&& mid.pages@[n as int].base_spec() == page_base(n as int)
            &&& mid.pages@[n as int].offsets().len() == 0
        }),
        new.pages@.len() == mid.pages@.len(),
        forall|k: int| 0 <= k < mid.pages@.len() && k != head ==> new.pages@[k] == mid.pages@[k],
        ({
            let p = mid.pages@[head];
            let q = new.pages@[head];
            &&& p.base_spec() == page_base(head)
            &&& q.offsets() == p.offsets().push(off)
            &&& q.value_at(off) == v
            &&& v is Some
            &&& forall|o: int|
                #![trigger q.value_at(o)]
                p.offsets().contains(o) ==> q.value_at(o) == p.value_at(o)
        }),
        metadata_size() + off < PAGE_SIZE,
        0 <= off,
    ensures
        ({
            let addr = page_base(head) + metadata_size() + off;
            &&& new.value_at(addr) == v
            &&& forall|a: int| a != addr ==> #[trigger] new.value_at(a) == old_gc.value_at(a)
        }),
{
    lemma_word();
    let n = old_gc.pages@.len();
    let m = mid.pages@.len();
    let addr = page_base(head) + metadata_size() + off;
    lemma_page_address(head, off);
    let p = mid.pages@[head];
    let q = new.pages@[head];
    assert(q.offsets().contains(off)) by {
        assert(q.offsets()[p.offsets().len() as int] == off);
    }
    assert forall|a: int| a != addr implies #[trigger] new.value_at(a) == old_gc.value_at(a) by {
        let k = page_of(a);
        let o = offset_of(a);
        if 0 <= k < m {
            if k != head {
                if k < n {
                    if mid.pages@ != old_gc.pages@ {
                        assert(mid.pages@[k] == mid.pages@.subrange(0, n as int)[k]);
                    }
                }
            } else {
                if o == off {
                    assert(a == page_base(k) + metadata_size() + o) by {
                        vstd::arithmetic::div_mod::lemma_fundamental_div_mod(a, 65536);
                    }
                } else {
                    assert(q.offsets().contains(o) == p.offsets().contains(o)) by {
                        if q.offsets().contains(o) {
                            let i = choose|i: int| 0 <= i < q.offsets().len() && q.offsets()[i] == o;
                            assert(p.offsets()[i] == o);
                        }
                        if p.offsets().contains(o) {
                            let i = choose|i: int| 0 <= i < p.offsets().len() && p.offsets()[i] == o;
                            assert(q.offsets()[i] == o);
                        }
                    }
                    if p.offsets().contains(o) {
                        assert(q.value_at(o) == p.value_at(o));
                    }
                    if head < n {
                        if mid.pages@ != old_gc.pages@ {
                            assert(mid.pages@[k] == mid.pages@.subrange(0, n as int)[k]);
                        }
                    }
                }
            }
        }
    }
}

/// The frame of an allocation: the page that took the object gained exactly
/// that object, every other page stayed as it was, and a page that was added
/// is the new head.
proof fn lemma_alloc_frame(old_gc: Gc, mid: Gc, new: Gc, head: int, off: int, header: GcHeader)
    requires
        old_gc.wf(),
        head == mid.head,
        mid.head == new.head,
        mid.pages@ == old_gc.pages@ || ({
            let n = old_gc.pages@.len();
            &&& mid.pages@.len() == n + 1
            &&& n < page_capacity()
            &&& mid.head == n
            &&& mid.pages@.subrange(0, n as int) == old_gc.pages@
            &&& mid.pages@[n as int].wf()
            &&& mid.pages@[n as int].base_spec() == page_base(n as int)
            &&& mid.pages@[n as int].next_spec() == Some((n - 1) as usize)
            &&& mid.pages@[n as int].offsets().len() == 0
        }),
        mid.pages@ == old_gc.pages@ ==> mid.head == old_gc.head,
        new.pages@.len() == mid.pages@.len(),
        forall|k: int| 0 <= k < mid.pages@.len() && k != head ==> new.pages@[k] == mid.pages@[k],
        ({
            let p = mid.pages@[head];
            let q = new.pages@[head];
            &&& q.wf()
            &&& off == p.bump_spec()
            &&& q.offsets() == p.offsets().push(off)
            &&& q.header_at(off) == header
            &&& q.base_spec() == p.base_spec()
            &&& q.next_spec() == p.next_spec()
            &&& forall|o: int| #[trigger] p.offsets().contains(o) ==> q.header_at(o) == p.header_at(o)
        }),
        metadata_size() + off < PAGE_SIZE,
        0 <= off,
    ensures
        new.wf(),
        ({
            let addr = page_base(head) + metadata_size() + off;
            &&& old_gc.header_at(addr) is None
            &&& new.header_at(addr) == Some(header)
            &&& forall|a: int| a != addr ==> #[trigger] new.header_at(a) == old_gc.header_at(a)
        }),
{
    lemma_word();
    let n = old_gc.pages@.len();
    let m = mid.pages@.len();
    let addr = page_base(head) + metadata_size() + off;
    assert(mid.wf()) by {
        if mid.pages@ != old_gc.pages@ {
            assert forall|k: int| 0 <= k < m implies {
                &&& (#[trigger] mid.pages@[k]).wf()
                &&& mid.pages@[k].base_spec() == page_base(k)
                &&& mid.pages@[k].next_spec() == if k == 0 {
                    None::<usize>
                } else {
                    Some((k - 1) as usize)
                }
            } by {
                if k < n {
                    assert(mid.pages@[k] == mid.pages@.subrange(0, n as int)[k]);
                }
            }
        }
    }
    assert(new.wf());
    lemma_page_address(head, off);
    let p = mid.pages@[head];
    assert(p.base_spec() == page_base(head));
    assert(!p.offsets().contains(off)) by {
        reveal(Page::objects_ok);
        if p.offsets().contains(off) {
            let i = choose|i: int| 0 <= i < p.offsets().len() && p.offsets()[i] == off;
            assert(p.offsets()[i] + p.stride(i) <= p.bump_spec());
            assert(p.stride(i) > 0);
        }
    }
    assert(new.pages@[head].offsets().contains(off)) by {
        assert(new.pages@[head].offsets()[p.offsets().len() as int] == off);
    }
    assert forall|a: int| a != addr implies #[trigger] new.header_at(a) == old_gc.header_at(a) by {
        let k = page_of(a);
        let o = offset_of(a);
        if 0 <= k < m {
            if k != head {
                if k < n {
                    if mid.pages@ != old_gc.pages@ {
                        assert(mid.pages@[k] == mid.pages@.subrange(0, n as int)[k]);
                    }
                }
            } else {
                if o == off {
                    assert(a == page_base(k) + metadata_size() + o) by {
                        vstd::arithmetic::div_mod::lemma_fundamental_div_mod(a, 65536);
                    }
                } else {
                    let q = new.pages@[head];
                    assert(q.offsets().contains(o) == p.offsets().contains(o)) by {
                        if q.offsets().contains(o) {
                            let i = choose|i: int| 0 <= i < q.offsets().len() && q.offsets()[i] == o;
                            assert(p.offsets()[i] == o);
                        }
                        if p.offsets().contains(o) {
                            let i = choose|i: int| 0 <= i < p.offsets().len() && p.offsets()[i] == o;
                            assert(q.offsets()[i] == o);
                        }
                    }
                    if head < n {
                        if mid.pages@ != old_gc.pages@ {
                            assert(mid.pages@[k] == mid.pages@.subrange(0, n as int)[k]);
                        }
                    }
                }
            }
        }
    }
    assert(old_gc.header_at(addr) is None) by {
        if head < n && mid.pages@ != old_gc.pages@ {
            assert(mid.pages@[head] == mid.pages@.subrange(0, n as int)[head]);
        }
    }
}


impl Gc {
    /// Allocates `value` in the heap under the compact type id of `T`, as
    /// `alloc_with_type_id` does with that id.
    pub fn allocate<T: Trace + CompactTypeId + 'static>(&mut self, value: T) -> (p: GcPtr<T>)
        requires
            old(self).wf(),
            allocatable(
                vstd::layout::size_of::<T>() as int,
                vstd::layout::align_of::<T>() as int,
            ),
            old(self).has_room(
                header_layout_size(
                    vstd::layout::size_of::<T>() as int,
                    vstd::layout::align_of::<T>() as int,
                ),
            ),
        ensures
            final(self).wf(),
            old(self).header_at(p@ as int) is None,
            final(self).header_at(p@ as int) matches Some(h) && h.type_id_spec() == T::compact_type_id_spec()
                && h.value_size_spec() == vstd::layout::size_of::<T>()
                && h.value_align_spec() == vstd::layout::align_of::<T>(),
            forall|a: int| a != p@ ==> #[trigger] final(self).header_at(a) == old(self).header_at(a),
            final(self).value_at(p@ as int) == Some::<Box<dyn Trace>>(Box::new(value)),
            forall|a: int| a != p@ ==> #[trigger] final(self).value_at(a) == old(self).value_at(a),
            ({
                let head = old(self).head_page();
                let n = old(self).pages_spec().len();
                let stride = header_layout_size(
                    vstd::layout::size_of::<T>() as int,
                    vstd::layout::align_of::<T>() as int,
                );
                if head.bump_spec() + stride < page_usable_size_spec() {
                    &&& final(self).pages_spec().len() == n
                    &&& p@ == head.data_start() + head.bump_spec()
                    &&& final(self).head_page().bump_spec() == head.bump_spec() + stride
                    &&& final(self).head_page().base_spec() == head.base_spec()
                    &&& final(self).head_page().next_spec() == head.next_spec()
                    &&& final(self).head_page().object_addrs() == head.object_addrs().push(p@ as int)
                    &&& forall|k: int|
                        0 <= k < n - 1 ==> #[trigger] final(self).pages_spec()[k] == old(
                            self,
                        ).pages_spec()[k]
                } else {
                    &&& final(self).pages_spec().len() == n + 1
                    &&& p@ == page_base(n as int) + metadata_size()
                    &&& final(self).head_page().bump_spec() == stride
                    &&& final(self).head_page().base_spec() == page_base(n as int)
                    &&& final(self).head_page().next_spec() == Some((n - 1) as usize)
                    &&& final(self).head_page().object_addrs() == seq![p@ as int]
                    &&& forall|k: int|
                        0 <= k < n ==> #[trigger] final(self).pages_spec()[k] == old(
                            self,
                        ).pages_spec()[k]
                }
            }),
    {
        let type_id = T::compact_type_id();
        self.alloc_with_type_id(value, type_id)
    }

    /// The pages, newest first, by following each page's link to the one
    /// allocated before it.
    pub fn page_iter(&self) -> (it: PageIter<'_>)
        requires
            self.wf(),
        ensures
            it.wf(),
            it.remaining() == self.pages_spec().reverse(),
    {
        let it = PageIter { pages: &self.pages, current: Some(self.head) };
        proof {
            assert(it.remaining() =~= self.pages_spec().reverse());
        }
        it
    }
}

/// Walks the pages of a heap, newest first.
pub struct PageIter<'a> {
    pages: &'a Vec<Page>,
    current: Option<usize>,
}

impl<'a> PageIter<'a> {
    pub closed spec fn wf(self) -> bool {
        &&& forall|k: int|
            0 <= k < self.pages@.len() ==> {
                &&& (#[trigger] self.pages@[k]).wf()
                &&& self.pages@[k].next_spec() == if k == 0 {
                    None::<usize>
                } else {
                    Some((k - 1) as usize)
                }
            }
        &&& self.current matches Some(k) ==> k < self.pages@.len()
    }

    /// The pages still to come, in the order in which they come.
    pub closed spec fn remaining(self) -> Seq<Page> {
        match self.current {
            Some(k) => Seq::new((k + 1) as nat, |i: int| self.pages@[k - i]),
            None => Seq::empty(),
        }
    }

    /// The next page, if any is left.
    pub fn next(&mut self) -> (r: Option<&'a Page>)
        requires
            old(self).wf(),
        ensures
            final(self).wf(),
            old(self).remaining().len() == 0 ==> r is None && final(self).remaining().len() == 0,
            old(self).remaining().len() > 0 ==> (r matches Some(page) && *page == old(
                self,
            ).remaining()[0] && final(self).remaining() == old(self).remaining().drop_first()),
            r matches Some(page) ==> page.wf(),
    {
        match self.current.take() {
            Some(k) => {
                let page = &self.pages[k];
                self.current = page.next;
                proof {
                    assert(self.remaining() =~= old(self).remaining().drop_first());
                }
                Some(page)
            },
            None => None,
        }
    }
}

impl Page {
    /// The page's objects, in allocation order, by walking the data area
    /// header by header.
    pub fn gc_iter(&self) -> (it: GcIter<'_>)
        requires
            self.wf(),
        ensures
            it.wf(),
            it.remaining() == self.object_addrs(),
    {
        proof {
            lemma_word();
        }
        let start = self.base + metadata_bytes();
        let it = GcIter { page: self, start, end: start + self.bump, pos: Ghost(0) };
        proof {
            if self.offsets@.len() > 0 {
                assert(self.offsets@[0] == 0);
            }
            assert(it.remaining() =~= self.object_addrs());
        }
        it
    }
}

/// Walks the objects of a page from the start of its data area: each
/// header tells how far the next one is.
pub struct GcIter<'a> {
    page: &'a Page,
    start: usize,
    end: usize,
    pos: Ghost<int>,
}

impl<'a> GcIter<'a> {
    pub closed spec fn wf(self) -> bool {
        let page = *self.page;
        let n = page.offsets@.len();
        &&& page.wf()
        &&& 0 <= self.pos@ <= n
        &&& self.end == page.data_start() + page.bump
        &&& self.start == if self.pos@ < n {
            page.data_start() + page.offsets@[self.pos@]
        } else {
            self.end as int
        }
    }

    /// Addresses of the headers still to come, in the order in which they
    /// come.
    pub closed spec fn remaining(self) -> Seq<int> {
        self.page.object_addrs().subrange(self.pos@, self.page.offsets@.len() as int)
    }

    /// The next object, if any is left.
    pub fn next(&mut self) -> (r: Option<GcPtr<()>>)
        requires
            old(self).wf(),
        ensures
            final(self).wf(),
            old(self).remaining().len() == 0 ==> r is None && final(self).remaining().len() == 0,
            old(self).remaining().len() > 0 ==> (r matches Some(p) && p@ == old(
                self,
            ).remaining()[0] && final(self).remaining() == old(self).remaining().drop_first()),
    {
        proof {
            lemma_word();
        }
        let ghost page = *self.page;
        let ghost n = page.offsets@.len();
        let ghost pos = self.pos@;
        if self.start >= self.end {
            proof {
                if pos < n {
                    lemma_walk_step(page, pos);
                }
                assert(self.remaining().len() == 0);
            }
            return None;
        }
        proof {
            assert(pos < n);
            lemma_walk_step(page, pos);
        }
        let data = self.page.base + metadata_bytes();
        let off = self.start - data;
        let header = self.page.slots[off / 4].unwrap();
        let ptr = GcPtr::from_addr(self.start);
        self.start = self.start + header.size_of();
        self.pos = Ghost(pos + 1);
        proof {
            assert(self.remaining() =~= old(self).remaining().drop_first());
        }
        Some(ptr)
    }
}


/// One step of a page walk: the object at position `pos` has its header in
/// its slot, starts at a word boundary of the page and ends where the next
/// object starts, or at the bump offset if it is the last.
proof fn lemma_walk_step(page: Page, pos: int)
    requires
        page.wf(),
        0 <= pos < page.offsets@.len(),
    ensures
        page.slots@[page.offsets@[pos] / 4] is Some,
        0 <= page.offsets@[pos],
        page.offsets@[pos] % word_size() == 0,
        page.offsets@[pos] % 4 == 0,
        page.base as int % word_size() == 0,
        page.stride(pos) > 0,
        page.offsets@[pos] + page.stride(pos) <= page.bump,
        pos + 1 < page.offsets@.len() ==> page.offsets@[pos + 1] == page.offsets@[pos]
            + page.stride(pos),
        pos + 1 == page.offsets@.len() ==> page.offsets@[pos] + page.stride(pos) == page.bump,
{
    lemma_word();
    reveal(Page::objects_ok);
    reveal(Page::chained);
    lemma_word_multiple(page.offsets@[pos]);
    lemma_allocatable_words(
        page.header_at(page.offsets@[pos]).value_size_spec() as int,
        page.header_at(page.offsets@[pos]).value_align_spec() as int,
    );
    assert(page.base as int % 65536 == 0);
    if pos + 1 < page.offsets@.len() {
        assert(page.offsets@[pos + 1] == page.offsets@[pos] + page.stride(pos));
    }
}

/// Every object of a heap starts at a non-null word boundary of its page,
/// holds a value of a layout the heap can hold, and ends before the end of
/// its page's data area.
pub proof fn lemma_object_in_page(gc: Gc, addr: int)
    requires
        gc.wf(),
        gc.header_at(addr) is Some,
    ensures
        ({
            let h = gc.header_at(addr)->0;
            let k = page_of(addr);
            &&& addr > 0
            &&& addr % word_size() == 0
            &&& allocatable(h.value_size_spec() as int, h.value_align_spec() as int)
            &&& page_base(k) + metadata_size() <= addr
            &&& addr + h.size_spec() < page_base(k) + PAGE_SIZE
            &&& page_base(k) + PAGE_SIZE <= usize::MAX + 1
        }),
{
    lemma_word();
    let k = page_of(addr);
    let off = offset_of(addr);
    let page = gc.pages@[k];
    assert(page.wf());
    reveal(Page::objects_ok);
    let i = choose|i: int| 0 <= i < page.offsets@.len() && page.offsets@[i] == off;
    assert(page.offsets@[i] + page.stride(i) <= page.bump);
    vstd::arithmetic::div_mod::lemma_fundamental_div_mod(addr, 65536);
    assert(addr == page_base(k) + metadata_size() + off);
    assert(page_base(k) % word_size() == 0) by {
        assert(page_base(k) % 65536 == 0) by {
            vstd::arithmetic::div_mod::lemma_mod_multiples_basic(k + 1, 65536);
        }
    }
    assert(addr % word_size() == 0) by {
        if word_size() == 4 {
            assert(off % 4 == 0);
        } else {
            assert(off % 8 == 0);
        }
    }
}


/// No two objects of a heap share a byte: headers and values included, the
/// bytes of two different objects are disjoint.
pub proof fn lemma_objects_disjoint(gc: Gc, a: int, b: int)
    requires
        gc.wf(),
        gc.header_at(a) is Some,
        gc.header_at(b) is Some,
        a < b,
    ensures
        a + gc.header_at(a)->0.size_spec() <= b,
{
    lemma_word();
    lemma_object_in_page(gc, a);
    lemma_object_in_page(gc, b);
    let ka = page_of(a);
    let kb = page_of(b);
    vstd::arithmetic::div_mod::lemma_fundamental_div_mod(a, 65536);
    vstd::arithmetic::div_mod::lemma_fundamental_div_mod(b, 65536);
    if ka == kb {
        let page = gc.pages@[ka];
        assert(page.wf());
        let oa = offset_of(a);
        let ob = offset_of(b);
        let i = choose|i: int| 0 <= i < page.offsets@.len() && page.offsets@[i] == oa;
        let j = choose|j: int| 0 <= j < page.offsets@.len() && page.offsets@[j] == ob;
        reveal(Page::ordered);
        if j < i {
            assert(page.offsets@[j] + page.stride(j) <= page.offsets@[i]);
            reveal(Page::objects_ok);
            assert(page.stride(j) > 0);
        }
        assert(i < j);
        assert(page.offsets@[i] + page.stride(i) <= page.offsets@[j]);
    } else {
        if kb < ka {
            assert((kb + 1) * 65536 + 65536 <= (ka + 1) * 65536);
        }
        assert(ka < kb);
        assert((ka + 1) * 65536 + 65536 <= (kb + 1) * 65536);
    }
}

/// A page's objects come in allocation order at increasing addresses, so
/// walking a page meets each of them once.
pub proof fn lemma_page_walk_distinct(page: Page)
    requires
        page.wf(),
    ensures
        page.object_addrs().no_duplicates(),
        forall|i: int, j: int|
            0 <= i < j < page.object_addrs().len() ==> page.object_addrs()[i]
                < page.object_addrs()[j],
{
    reveal(Page::ordered);
    reveal(Page::objects_ok);
    let s = page.object_addrs();
    assert forall|i: int, j: int| 0 <= i < j < s.len() implies s[i] < s[j] by {
        assert(page.offsets@[i] + page.stride(i) <= page.offsets@[j]);
        assert(page.stride(i) > 0);
    }
}

/// Walking the pages (`page_iter`) and each page's objects (`gc_iter`)
/// meets exactly the objects of the heap: an address is that of an object
/// when, and only when, some page's walk meets it.
pub proof fn lemma_walk_covers_heap(gc: Gc, a: int)
    requires
        gc.wf(),
    ensures
        gc.header_at(a) is Some <==> exists|k: int|
            0 <= k < gc.pages_spec().len() && (#[trigger] gc.pages_spec()[k]).object_addrs().contains(
                a,
            ),
{
    lemma_word();
    if gc.header_at(a) is Some {
        let k = page_of(a);
        let page = gc.pages@[k];
        let off = offset_of(a);
        let i = choose|i: int| 0 <= i < page.offsets@.len() && page.offsets@[i] == off;
        vstd::arithmetic::div_mod::lemma_fundamental_div_mod(a, 65536);
        assert(page.object_addrs()[i] == a);
        assert(gc.pages_spec()[k].object_addrs().contains(a));
    }
    if exists|k: int|
        0 <= k < gc.pages_spec().len() && (#[trigger] gc.pages_spec()[k]).object_addrs().contains(a) {
        let k = choose|k: int|
            0 <= k < gc.pages_spec().len() && (#[trigger] gc.pages_spec()[k]).object_addrs().contains(
                a,
            );
        let page = gc.pages@[k];
        assert(page.wf());
        let i = choose|i: int| 0 <= i < page.object_addrs().len() && page.object_addrs()[i] == a;
        let off = page.offsets@[i];
        reveal(Page::objects_ok);
        assert(0 <= off && off + page.stride(i) <= page.bump);
        lemma_page_address(k, off);
        assert(page.offsets@.contains(off));
    }
}


impl Page {
    /// Finalizes the page's values in allocation order, letting go of each
    /// one right after its `finalize`: afterwards the page holds no value,
    /// and its objects' headers and its links stay as they were. `done`
    /// gives, for each value slot that held a value, that value as its
    /// `finalize` left it.
    fn finalize_values(&mut self) -> (done: Ghost<Seq<Option<Box<dyn Trace>>>>)
        ensures
            done@.len() == old(self).values@.len(),
            forall|k: int|
                0 <= k < done@.len() ==> ((#[trigger] done@[k]) is Some) == (old(
                    self,
                ).values@[k] is Some),
            forall|k: int|
                0 <= k < done@.len() ==> (#[trigger] done@[k] matches Some(v) ==> (*v).finalized()),
            final(self).next_spec() == old(self).next_spec(),
            final(self).values@.len() == old(self).values@.len(),
            forall|k: int| 0 <= k < final(self).values@.len() ==> final(self).values@[k] is None,
            final(self).offsets() == old(self).offsets(),
            final(self).slots@ == old(self).slots@,
            final(self).bump_spec() == old(self).bump_spec(),
            final(self).base_spec() == old(self).base_spec(),
    {
        let mut i: usize = 0;
        let ghost mut done: Seq<Option<Box<dyn Trace>>> = Seq::empty();
        while i < self.values.len()
            invariant
                done.len() == i,
                forall|k: int|
                    0 <= k < i ==> ((#[trigger] done[k]) is Some) == (old(self).values@[k] is Some),
                forall|k: int| 0 <= k < i ==> (#[trigger] done[k] matches Some(v) ==> (*v).finalized()),
                forall|k: int| i <= k < self.values@.len() ==> self.values@[k] == old(self).values@[k],
                self.next == old(self).next,
                self.offsets == old(self).offsets,
                self.slots@ == old(self).slots@,
                self.bump == old(self).bump,
                self.base == old(self).base,
                self.values@.len() == old(self).values@.len(),
                i <= self.values@.len(),
                forall|k: int| 0 <= k < i ==> self.values@[k] is None,
            decreases self.values@.len() - i,
        {
            let taken = self.values[i].take();
            match taken {
                Some(mut value) => {
                    value.finalize();
                    let ghost finished = Some(value);
                    proof {
                        done = done.push(finished);
                    }
                },
                None => {
                    proof {
                        done = done.push(None);
                    }
                },
            }
            i += 1;
        }
        Ghost(done)
    }
}

impl Gc {
    /// Lets go of the heap: walks the pages newest first, following each
    /// page's link to the one before it, and finalizes every object of each
    /// page in allocation order before the page goes.
    ///
    /// The heap is gone afterwards, so what the walk did is told by
    /// `finalized`, a ghost record: page by page and value slot by value
    /// slot, each value that was finalized, as its `finalize` left it. Every
    /// object of every page that held a value has its value there, finalized,
    /// and no object that held none has one.
    pub fn destroy(self) -> (finalized: Ghost<Seq<Seq<Option<Box<dyn Trace>>>>>)
        requires
            self.wf(),
        ensures
            finalized@.len() == self.pages_spec().len(),
            forall|a: int|
                #![trigger self.value_at(a)]
                self.header_at(a) is Some ==> {
                    &&& (finalized@[page_of(a)][offset_of(a) / 4] is Some) == self.holds_value(a)
                    &&& finalized@[page_of(a)][offset_of(a) / 4] matches Some(v) ==> (*v).finalized()
                },
    {
        let mut gc = self;
        gc.finalize_all()
    }

    /// Finalizes every object of the heap, walking the pages newest first by
    /// their links: afterwards every object is still there with its header,
    /// and the heap holds no value for any of them (each was taken out,
    /// finalized and let go).
    ///
    /// `done` gives, page by page and value slot by value slot, each value
    /// that was taken out, as its `finalize` left it: there is one for
    /// exactly the objects that held a value, on every page.
    fn finalize_all(&mut self) -> (done: Ghost<Seq<Seq<Option<Box<dyn Trace>>>>>)
        requires
            old(self).wf(),
        ensures
            final(self).pages_spec().len() == old(self).pages_spec().len(),
            done@.len() == old(self).pages_spec().len(),
            forall|a: int|
                #![trigger final(self).header_at(a)]
                #![trigger final(self).value_at(a)]
                old(self).header_at(a) is Some ==> final(self).header_at(a) == old(self).header_at(a)
                    && final(self).value_at(a) is None,
            forall|a: int|
                #![trigger old(self).value_at(a)]
                old(self).header_at(a) is Some ==> {
                    &&& (done@[page_of(a)][offset_of(a) / 4] is Some) == old(self).holds_value(a)
                    &&& done@[page_of(a)][offset_of(a) / 4] matches Some(v) ==> (*v).finalized()
                },
    {
        let ghost mut fins: Seq<Seq<Option<Box<dyn Trace>>>> = Seq::new(
            self.pages@.len() as nat,
            |k: int| Seq::empty(),
        );
        let ghost old_gc = *self;
        let ghost n = self.pages@.len();
        let mut current: Option<usize> = Some(self.head);
        while current.is_some()
            invariant
                n == old_gc.pages@.len(),
                old_gc.wf(),
                self.pages@.len() == n,
                current matches Some(k) ==> k < n,
                forall|k: int|
                    0 <= k < n ==> (#[trigger] self.pages@[k]).next_spec() == if k == 0 {
                        None::<usize>
                    } else {
                        Some((k - 1) as usize)
                    },
                forall|k: int|
                    0 <= k < n ==> {
                        &&& (#[trigger] self.pages@[k]).offsets() == old_gc.pages@[k].offsets()
                        &&& self.pages@[k].slots@ == old_gc.pages@[k].slots@
                        &&& self.pages@[k].values@.len() == old_gc.pages@[k].values@.len()
                    },
                fins.len() == n,
                forall|k: int|
                    0 <= k < n && (match current {
                        Some(c) => k <= c,
                        None => false,
                    }) ==> (#[trigger] self.pages@[k]).values@ == old_gc.pages@[k].values@,
                forall|k: int, j: int|
                    0 <= k < n && (match current {
                        Some(c) => c < k,
                        None => true,
                    }) && 0 <= j < old_gc.pages@[k].values@.len() ==> {
                        &&& fins[k].len() == old_gc.pages@[k].values@.len()
                        &&& ((#[trigger] fins[k][j]) is Some) == (old_gc.pages@[k].values@[j] is Some)
                        &&& fins[k][j] matches Some(v) ==> (*v).finalized()
                    },
                forall|k: int, j: int|
                    0 <= k < n && (match current {
                        Some(c) => c < k,
                        None => true,
                    }) && 0 <= j < self.pages@[k].values@.len() ==> (#[trigger] self.pages@[k].values@[j]) is None,
            decreases
                match current {
                    Some(k) => k + 1,
                    None => 0,
                },
        {
            let k = current.unwrap();
            proof {
                assert(old_gc.pages@[k as int].wf());
            }
            let ghost before = self.pages@;
            let ghost fins_before = fins;
            let page_done = self.pages[k].finalize_values();
            proof {
                fins = fins.update(k as int, page_done@);
                assert(self.pages@[k as int].next_spec() == before[k as int].next_spec());
                assert forall|j: int| 0 <= j < n implies (#[trigger] self.pages@[j]).next_spec()
                    == before[j].next_spec() by {}
            }
            current = self.pages[k].next;
            proof {
                assert(before[k as int].values@ == old_gc.pages@[k as int].values@);
                assert forall|kk: int, j: int|
                    0 <= kk < n && k <= kk && 0 <= j < old_gc.pages@[kk].values@.len() implies {
                        &&& fins[kk].len() == old_gc.pages@[kk].values@.len()
                        &&& ((#[trigger] fins[kk][j]) is Some) == (old_gc.pages@[kk].values@[j] is Some)
                        &&& fins[kk][j] matches Some(v) ==> (*v).finalized()
                    } by {
                    if kk == k {
                        assert(page_done@[j] == fins[kk][j]);
                    } else {
                        assert(fins_before[kk][j] == fins[kk][j]);
                    }
                }
            }
        }
        proof {
            assert forall|a: int| old_gc.header_at(a) is Some implies self.header_at(a) == old_gc.header_at(a)
                && self.value_at(a) is None by {
                let k = page_of(a);
                let off = offset_of(a);
                let page = old_gc.pages@[k];
                assert(page.wf());
                reveal(Page::objects_ok);
                reveal(Page::values_ok);
                let i = choose|i: int| 0 <= i < page.offsets@.len() && page.offsets@[i] == off;
                lemma_walk_step(page, i);
                assert(0 <= off / 4 < page.slots@.len());
                assert(self.pages@[k].values@[off / 4] is None);
            }
            assert forall|a: int|
                #![trigger old_gc.value_at(a)]
                old_gc.header_at(a) is Some implies {
                &&& (fins[page_of(a)][offset_of(a) / 4] is Some) == old_gc.holds_value(a)
                &&& fins[page_of(a)][offset_of(a) / 4] matches Some(v) ==> (*v).finalized()
            } by {
                let k = page_of(a);
                let off = offset_of(a);
                let page = old_gc.pages@[k];
                assert(page.wf());
                reveal(Page::objects_ok);
                reveal(Page::values_ok);
                let i = choose|i: int| 0 <= i < page.offsets@.len() && page.offsets@[i] == off;
                lemma_walk_step(page, i);
                assert(0 <= off / 4 < page.slots@.len());
            }
        }
        Ghost(fins)
    }
}


/// An object's value lies inside the object: it starts past the header's
/// vtable pointer and type id and ends where the header's size, value
/// included, says the object ends.
pub proof fn lemma_value_inside_object(gc: Gc, addr: int)
    requires
        gc.wf(),
        gc.header_at(addr) is Some,
    ensures
        ({
            let h = gc.header_at(addr)->0;
            &&& addr + word_size() + 4 <= addr + value_offset(h.value_align_spec() as int)
            &&& addr + value_offset(h.value_align_spec() as int) + h.value_size_spec() <= addr
                + h.size_spec()
        }),
{
    let h = gc.header_at(addr)->0;
    lemma_object_in_page(gc, addr);
    lemma_allocatable_words(h.value_size_spec() as int, h.value_align_spec() as int);
}


/// The pages of a heap sit one after another in the address space in the
/// order in which they were allocated, each linked to the one before it.
pub proof fn lemma_page_layout(gc: Gc)
    requires
        gc.wf(),
    ensures
        1 <= gc.pages_spec().len() <= page_capacity(),
        forall|k: int|
            0 <= k < gc.pages_spec().len() ==> {
                &&& (#[trigger] gc.pages_spec()[k]).base_spec() == page_base(k)
                &&& gc.pages_spec()[k].next_spec() == if k == 0 {
                    None::<usize>
                } else {
                    Some((k - 1) as usize)
                }
            },
{
}


/// Changing the values of a page, and no value slot from full to empty or
/// back, keeps the page well formed.
proof fn lemma_values_change_keeps_wf(p: Page, q: Page)
    requires
        p.wf(),
        q.next == p.next,
        q.bump == p.bump,
        q.base == p.base,
        q.slots@ == p.slots@,
        q.offsets@ == p.offsets@,
        q.values@.len() == p.values@.len(),
        forall|k: int| 0 <= k < p.values@.len() ==> (#[trigger] q.values@[k] is Some) == (p.values@[k] is Some),
    ensures
        q.wf(),
        forall|o: int| #[trigger] q.header_at(o) == p.header_at(o),
{
    reveal(Page::objects_ok);
    reveal(Page::ordered);
    reveal(Page::chained);
    reveal(Page::slots_ok);
    reveal(Page::values_ok);
    assert forall|i: int| 0 <= i < p.offsets@.len() implies q.stride(i) == p.stride(i) by {}
}

/// Every object of a heap has its value held by the heap.
pub proof fn lemma_objects_hold_values(gc: Gc, addr: int)
    requires
        gc.wf(),
        gc.header_at(addr) is Some,
    ensures
        gc.holds_value(addr),
{
    let k = page_of(addr);
    let off = offset_of(addr);
    let page = gc.pages@[k];
    assert(page.wf());
    reveal(Page::objects_ok);
    reveal(Page::values_ok);
    let i = choose|i: int| 0 <= i < page.offsets@.len() && page.offsets@[i] == off;
    assert(page.slots@[off / 4] is Some);
    assert(0 <= off / 4 < page.slots@.len()) by {
        lemma_word();
        assert(off + page.stride(i) <= page.bump);
    }
}

impl Gc {
    /// The value of the object whose header starts at `addr`, to be changed
    /// in place. The heap keeps its objects and their headers; the object
    /// keeps a value.
    #[verifier::spinoff_prover]
    pub(crate) fn value_mut(&mut self, addr: usize) -> (r: &mut Box<dyn Trace>)
        requires
            old(self).wf(),
            old(self).header_at(addr as int) is Some,
        ensures
            final(self).wf(),
            final(self).pages_spec().len() == old(self).pages_spec().len(),
            final(self).head_page().bump_spec() == old(self).head_page().bump_spec(),
            forall|a: int| #[trigger] final(self).header_at(a) == old(self).header_at(a),
            final(self).holds_value(addr as int),
            old(self).value_at(addr as int) == Some(*r),
            final(self).value_at(addr as int) == Some(*final(r)),
            forall|a: int| a != addr ==> #[trigger] final(self).value_at(a) == old(self).value_at(a),
    {
        proof {
            lemma_word();
            lemma_objects_hold_values(*self, addr as int);
            let k = page_of(addr as int);
            let page = self.pages@[k];
            assert(page.wf());
            reveal(Page::objects_ok);
            reveal(Page::values_ok);
            let i = choose|i: int| 0 <= i < page.offsets@.len() && page.offsets@[i] == offset_of(addr as int);
            assert(0 <= page.offsets@[i]);
            assert(page.offsets@[i] + page.stride(i) <= page.bump);
        }
        let k = addr / PAGE_SIZE - 1;
        let off = addr % PAGE_SIZE - metadata_bytes();
        let ghost old_gc = *self;
        let ghost fin_gc = *final(self);
        let page = &mut self.pages[k];
        let slot = &mut page.values[off / 4];
        let b = slot.as_mut().unwrap();
        proof {
            lemma_values_change_keeps_wf(old_gc.pages@[k as int], fin_gc.pages@[k as int]);
        }
        b
    }
}


/// What `can_allocate` answers `true` for: a small value of an ordinary
/// alignment (see `lemma_small_layouts_allocatable`) is admitted by a heap
/// whose head page has four words to spare beyond the value's size, or
/// whose address space has room for one more page. A fresh heap, whose head
/// page is empty, admits every such value.
pub proof fn lemma_small_layouts_admitted(gc: Gc, size: int, align: int)
    requires
        gc.wf(),
        align == 1 || align == 2 || align == 4 || align == 8,
        align <= word_size(),
        0 <= size,
        size + 4 * word_size() <= page_usable_size_spec(),
        gc.head_page().bump_spec() + size + 4 * word_size() <= page_usable_size_spec()
            || gc.pages_spec().len() < page_capacity(),
    ensures
        allocatable(size, align),
        gc.has_room(header_layout_size(size, align)),
{
    lemma_small_layouts_allocatable(size, align);
}

/// The page capacity of the address space, computed.
fn page_capacity_exec() -> (r: usize)
    ensures
        r == page_capacity(),
{
    assert(usize::BITS == 32 || usize::BITS == 64);
    proof {
        if usize::BITS == 64 {
            assert(usize::MAX == 0xffff_ffff_ffff_ffff);
        } else {
            assert(usize::MAX == 0xffff_ffff);
        }
    }
    usize::MAX / PAGE_SIZE
}

impl Gc {
    /// Whether `allocate` can take a value of type `T` now: its layout is
    /// one the heap can hold, and the head page or the address space has
    /// room for it.
    pub fn can_allocate<T>(&self) -> (r: bool)
        requires
            self.wf(),
        ensures
            r == (allocatable(
                vstd::layout::size_of::<T>() as int,
                vstd::layout::align_of::<T>() as int,
            ) && self.has_room(
                header_layout_size(
                    vstd::layout::size_of::<T>() as int,
                    vstd::layout::align_of::<T>() as int,
                ),
            )),
    {
        proof {
            lemma_word();
        }
        let size = core::mem::size_of::<T>();
        let align = core::mem::align_of::<T>();
        if !(align == 1 || align == 2 || align == 4 || align == 8) || align > word_bytes() {
            return false;
        }
        let usable = page_usable_size();
        if size >= usable {
            proof {
                assert(header_layout_size(size as int, align as int) >= size);
            }
            return false;
        }
        let stride = header_layout_size_exec(size, align);
        if stride >= usable {
            return false;
        }
        let head = self.head;
        proof {
            assert(self.pages@[head as int].wf());
            assert(self.pages@.last() == self.pages@[head as int]);
        }
        self.pages[head].bump + stride < usable || self.pages.len() < page_capacity_exec()
    }
}


/// A page is walked header by header with no gap: the first object starts
/// at the start of the data area, each next one where the one before it
/// ends (its header's size, value included), and the last one ends at the
/// bump offset, which lies inside the data area.
pub proof fn lemma_page_walk_contiguous(page: Page)
    requires
        page.wf(),
    ensures
        0 <= page.bump_spec() < page_usable_size_spec(),
        page.object_addrs().len() == 0 ==> page.bump_spec() == 0,
        page.object_addrs().len() > 0 ==> page.object_addrs()[0] == page.data_start(),
        page.object_addrs().len() > 0 ==> page.object_addrs().last() + page.stride(
            page.object_addrs().len() - 1,
        ) == page.data_start() + page.bump_spec(),
        forall|i: int, j: int|
            #![trigger page.object_addrs()[i], page.object_addrs()[j]]
            0 <= i && j == i + 1 && j < page.object_addrs().len() ==> page.object_addrs()[j]
                == page.object_addrs()[i] + page.stride(i),
{
    reveal(Page::chained);
    let a = page.object_addrs();
    let offs = page.offsets@;
    assert forall|i: int, j: int|
        #![trigger a[i], a[j]]
        0 <= i && j == i + 1 && j < a.len() implies a[j] == a[i] + page.stride(i) by {
        assert(offs[j] == offs[i] + page.stride(i));
    }
}

} // verus!
