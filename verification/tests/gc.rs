use std::sync::atomic::{AtomicBool, Ordering};
use std::sync::Arc;

use wjs::{CompactTypeId, Gc, GcPtr, IncorrectGcType, Trace, PAGE_SIZE};

pub struct TestGcItem {
    x: usize,
}

impl Trace for TestGcItem {
    fn trace(&mut self) {
        self.x.trace();
    }
    fn finalize(&mut self) {
        self.x.finalize();
    }
}

impl CompactTypeId for TestGcItem {
    fn compact_type_id() -> u32 {
        1
    }
    fn compact_type_id_spec() -> u32 {
        1
    }
}

pub struct Other(u64);

impl Trace for Other {
    fn trace(&mut self) {}
    fn finalize(&mut self) {}
}

impl CompactTypeId for Other {
    fn compact_type_id() -> u32 {
        2
    }
    fn compact_type_id_spec() -> u32 {
        2
    }
}

fn word() -> usize {
    std::mem::size_of::<usize>()
}

#[test]
fn test_alloc() {
    let mut gc = Gc::new();

    let _ptr = gc.allocate(TestGcItem { x: 42 });
}

#[test]
fn test_alloc_many() {
    let mut gc = Gc::new();

    for x in 0..10_000 {
        let _ptr = gc.allocate(TestGcItem { x });
    }
}

#[test]
fn test_new_and_cast() {
    let mut gc = Gc::new();

    let a = gc.allocate(TestGcItem { x: 42 }).untype();

    let _b: GcPtr<TestGcItem> = a.try_type(&gc).unwrap();
}

#[test]
fn test_page_iter() {
    let mut gc = Gc::new();

    for x in 0..10_000 {
        let _ptr = gc.allocate(TestGcItem { x });
    }

    let mut pages = gc.page_iter();
    while let Some(page) = pages.next() {
        let mut objects = page.gc_iter();
        while let Some(ptr) = objects.next() {
            let _: GcPtr<TestGcItem> = ptr.try_type(&gc).unwrap();
        }
    }
}

#[test]
fn test_gc_drop() {
    struct Foo(Arc<AtomicBool>);

    impl CompactTypeId for Foo {
        fn compact_type_id() -> u32 {
            3
        }
        fn compact_type_id_spec() -> u32 {
            3
        }
    }

    impl Trace for Foo {
        fn trace(&mut self) {}
        fn finalize(&mut self) {}
    }

    impl Drop for Foo {
        fn drop(&mut self) {
            self.0.store(true, Ordering::SeqCst);
        }
    }

    let a = Arc::new(AtomicBool::new(false));
    {
        let mut gc = Gc::new();
        let _ptr = gc.allocate(Foo(a.clone()));
    }

    assert_eq!(a.load(Ordering::SeqCst), true);
}

#[test]
fn test_nested_gc_ptr() {
    struct Foo(Option<GcPtr<Foo>>);

    impl Trace for Foo {
        fn trace(&mut self) {
            self.0.trace();
        }
        fn finalize(&mut self) {
            self.0.finalize();
        }
    }

    impl CompactTypeId for Foo {
        fn compact_type_id() -> u32 {
            4
        }
        fn compact_type_id_spec() -> u32 {
            4
        }
    }

    let mut gc = Gc::new();
    let a = gc.allocate(Foo(None));
    let b = gc.allocate(Foo(Some(a)));

    drop(b);
}

#[test]
fn objects_follow_each_other_from_the_first_page() {
    let mut gc = Gc::new();
    let a = gc.allocate(TestGcItem { x: 1 });
    let b = gc.allocate(TestGcItem { x: 2 });
    let w = word();
    assert_eq!(a.as_header_ptr(), PAGE_SIZE + 3 * w);
    assert_eq!(b.as_header_ptr(), a.as_header_ptr() + 3 * w);
    assert_eq!(a.as_header_ptr() % w, 0);
}

#[test]
fn value_follows_vtable_and_type_id() {
    let mut gc = Gc::new();
    let a = gc.allocate(TestGcItem { x: 1 });
    let w = word();
    assert_eq!(a.as_value_ptr(&gc), a.as_header_ptr() + 2 * w);
}

#[test]
fn cast_to_another_type_fails() {
    let mut gc = Gc::new();
    let a = gc.allocate(TestGcItem { x: 1 }).untype();
    let r: Result<GcPtr<Other>, IncorrectGcType> = a.try_type(&gc);
    assert_eq!(r.err(), Some(IncorrectGcType));
    let ok: GcPtr<TestGcItem> = a.try_type(&gc).unwrap();
    assert_eq!(ok.as_header_ptr(), a.as_header_ptr());
}

#[test]
fn cast_by_type_id() {
    let mut gc = Gc::new();
    let a = gc.alloc_with_type_id(Other(5), 77).untype();
    assert!(a.try_type_id::<Other>(&gc, 77).is_ok());
    assert_eq!(a.try_type_id::<Other>(&gc, 78).err(), Some(IncorrectGcType));
}

#[test]
fn a_full_page_starts_a_new_one() {
    let mut gc = Gc::new();
    let w = word();
    let stride = 3 * w;
    let usable = PAGE_SIZE - 3 * w;
    // an object fits while it ends strictly before the end of the data area
    let per_page = (usable - 1) / stride;
    let mut last = gc.allocate(TestGcItem { x: 0 });
    for x in 1..per_page {
        last = gc.allocate(TestGcItem { x });
    }
    assert!(last.as_header_ptr() < 2 * PAGE_SIZE);
    let next = gc.allocate(TestGcItem { x: per_page });
    assert_eq!(next.as_header_ptr(), 2 * PAGE_SIZE + 3 * w);

    let mut pages = gc.page_iter();
    let newest = pages.next().unwrap();
    let mut objects = newest.gc_iter();
    assert_eq!(objects.next().unwrap().as_header_ptr(), next.as_header_ptr());
    assert!(objects.next().is_none());
    let oldest = pages.next().unwrap();
    let mut count = 0;
    let mut objects = oldest.gc_iter();
    while let Some(_) = objects.next() {
        count += 1;
    }
    assert_eq!(count, per_page);
    assert!(pages.next().is_none());
}

#[test]
fn walking_meets_every_object_once_in_order() {
    let mut gc = Gc::new();
    let mut made = Vec::new();
    for x in 0..5000 {
        made.push(gc.allocate(TestGcItem { x }).as_header_ptr());
    }
    let mut seen = Vec::new();
    let mut pages = gc.page_iter();
    let mut page_list = Vec::new();
    while let Some(page) = pages.next() {
        page_list.push(page);
    }
    for page in page_list.iter().rev() {
        let mut objects = page.gc_iter();
        while let Some(p) = objects.next() {
            seen.push(p.as_header_ptr());
        }
    }
    assert_eq!(seen, made);
}

#[test]
fn header_size_includes_value() {
    let mut gc = Gc::new();
    let _ = gc.allocate(TestGcItem { x: 1 });
    let mut pages = gc.page_iter();
    let page = pages.next().unwrap();
    let mut objects = page.gc_iter();
    let p = objects.next().unwrap();
    let _: GcPtr<TestGcItem> = p.try_type(&gc).unwrap();
    assert_eq!(p.as_header_ptr(), PAGE_SIZE + 3 * word());
}

#[test]
fn destroy_finalizes_every_object() {
    struct Counted(Arc<std::sync::atomic::AtomicUsize>);

    impl CompactTypeId for Counted {
        fn compact_type_id() -> u32 {
            5
        }
        fn compact_type_id_spec() -> u32 {
            5
        }
    }

    impl Trace for Counted {
        fn trace(&mut self) {}
        fn finalize(&mut self) {
            self.0.fetch_add(1, Ordering::SeqCst);
        }
    }

    let n = Arc::new(std::sync::atomic::AtomicUsize::new(0));
    let mut gc = Gc::new();
    for _ in 0..3000 {
        gc.allocate(Counted(n.clone()));
    }
    assert_eq!(n.load(Ordering::SeqCst), 0);
    gc.destroy();
    assert_eq!(n.load(Ordering::SeqCst), 3000);
    assert_eq!(Arc::strong_count(&n), 1);
}

#[test]
fn from_non_null_points_at_the_same_header() {
    let mut gc = Gc::new();
    let a = gc.allocate(TestGcItem { x: 9 });
    let p = GcPtr::from_non_null(a.as_header_ptr());
    let _: GcPtr<TestGcItem> = p.try_type(&gc).unwrap();
}

struct Small {
    x: u32,
}

impl Trace for Small {
    fn trace(&mut self) {
        self.x.trace();
    }
    fn finalize(&mut self) {}
}

impl CompactTypeId for Small {
    fn compact_type_id() -> u32 {
        6
    }
    fn compact_type_id_spec() -> u32 {
        6
    }
}

#[test]
fn header_size_is_the_layout_size() {
    let mut gc = Gc::new();
    let a = gc.allocate(Small { x: 7 });
    let b = gc.allocate(Byte(7));
    let c = gc.allocate(TestGcItem { x: 1 });
    let w = word();
    let a_size = a.header(&gc).size_of();
    let b_size = b.header(&gc).size_of();
    let c_size = c.header(&gc).size_of();
    if w == 8 {
        assert_eq!(a_size, 16);
        assert_eq!(b_size, 16);
        assert_eq!(c_size, 24);
    }
    assert_eq!(b.as_header_ptr(), a.as_header_ptr() + a_size);
    assert_eq!(c.as_header_ptr(), b.as_header_ptr() + b_size);
    assert_eq!(a.as_value_ptr(&gc), a.as_header_ptr() + w + 4);
    let mut pages = gc.page_iter();
    let page = pages.next().unwrap();
    let mut objects = page.gc_iter();
    let mut seen = Vec::new();
    while let Some(p) = objects.next() {
        seen.push(p.as_header_ptr());
    }
    assert_eq!(seen, vec![a.as_header_ptr(), b.as_header_ptr(), c.as_header_ptr()]);
}

struct Byte(u8);

impl Trace for Byte {
    fn trace(&mut self) {}
    fn finalize(&mut self) {}
}

impl CompactTypeId for Byte {
    fn compact_type_id() -> u32 {
        7
    }
    fn compact_type_id_spec() -> u32 {
        7
    }
}

#[test]
fn can_allocate_tells_the_layouts_the_heap_holds() {
    let gc = Gc::new();
    assert!(gc.can_allocate::<TestGcItem>());
    assert!(gc.can_allocate::<Byte>());
    assert!(!gc.can_allocate::<[u8; 70_000]>());
    if std::mem::align_of::<u128>() > word() {
        assert!(!gc.can_allocate::<u128>());
    }
}

struct Recorded {
    x: usize,
    seen: Arc<std::sync::Mutex<Vec<usize>>>,
}

impl Trace for Recorded {
    fn trace(&mut self) {
        self.seen.lock().unwrap().push(self.x);
    }
    fn finalize(&mut self) {}
}

impl CompactTypeId for Recorded {
    fn compact_type_id() -> u32 {
        8
    }
    fn compact_type_id_spec() -> u32 {
        8
    }
}

#[test]
fn values_are_read_back_through_the_walk() {
    let seen = Arc::new(std::sync::Mutex::new(Vec::new()));
    let mut gc = Gc::new();
    for x in 0..10_000 {
        gc.allocate(Recorded { x, seen: seen.clone() });
    }
    let mut counts = Vec::new();
    let mut ptrs = Vec::new();
    let mut pages = gc.page_iter();
    while let Some(page) = pages.next() {
        let mut objects = page.gc_iter();
        let mut n = 0;
        while let Some(p) = objects.next() {
            ptrs.push(p);
            n += 1;
        }
        counts.push(n);
    }
    for p in ptrs {
        p.as_mut_dyn_trace(&mut gc).trace();
    }
    let seen = seen.lock().unwrap().clone();
    let mut expected = Vec::new();
    let per = counts[1];
    let pages = counts.len();
    for k in (0..pages).rev() {
        let start = k * per;
        let end = if k + 1 == pages { 10_000 } else { start + per };
        expected.extend(start..end);
    }
    assert_eq!(seen, expected);
}

#[test]
fn ten_thousand_items_fill_four_pages() {
    let mut gc = Gc::new();
    for x in 0..10_000 {
        gc.allocate(TestGcItem { x });
    }
    let mut counts = Vec::new();
    let mut pages = gc.page_iter();
    while let Some(page) = pages.next() {
        let mut objects = page.gc_iter();
        let mut n = 0;
        while let Some(_) = objects.next() {
            n += 1;
        }
        counts.push(n);
    }
    if word() == 8 {
        assert_eq!(counts, vec![1813, 2729, 2729, 2729]);
    }
    assert_eq!(counts.iter().sum::<usize>(), 10_000);
}
