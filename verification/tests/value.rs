use std::convert::{TryFrom, TryInto};

use wjs::value::{smi_bits, smi_max, smi_min};
use wjs::{CompactTypeId, Gc, GcPtr, InvalidSmi, JsValue, Trace};

struct Number(f64);

impl Trace for Number {
    fn trace(&mut self) {}
    fn finalize(&mut self) {}
}

impl CompactTypeId for Number {
    fn compact_type_id() -> u32 {
        0
    }
    fn compact_type_id_spec() -> u32 {
        0
    }
}

#[test]
fn test_smi() {
    let v: JsValue = (-1).try_into().unwrap();
    assert_eq!(v.expect_smi(), Some(-1));
}

#[test]
fn test_gc_ptr() {
    let mut gc = Gc::new();

    let a = gc.allocate(Number(5.0));
    let v: JsValue = a.into();
    let u: GcPtr<()> = v.expect_gc_ptr().expect("wasn't able to decode `GcPtr<()>`");
    let _: GcPtr<Number> = GcPtr::try_type(u, &gc).expect("failed to cast back to `GcPtr<f64>`");
}

#[test]
fn smi_range_depends_on_word_size() {
    if usize::BITS == 64 {
        assert_eq!(smi_bits(), 32);
        assert_eq!(smi_min(), i32::MIN);
        assert_eq!(smi_max(), i32::MAX);
    } else {
        assert_eq!(smi_bits(), 31);
        assert_eq!(smi_min(), -(1 << 30));
        assert_eq!(smi_max(), (1 << 30) - 1);
    }
}

#[test]
fn smis_round_trip() {
    for v in [0, 1, -1, 42, -42, 12345678, smi_min(), smi_max()] {
        let j = JsValue::try_from(v).unwrap();
        assert!(j.is_smi());
        assert!(!j.is_pointer());
        assert_eq!(j.expect_smi(), Some(v));
        assert!(j.expect_gc_ptr().is_none());
    }
}

#[test]
fn out_of_range_smi_is_refused() {
    if usize::BITS == 32 {
        assert_eq!(JsValue::try_from(1 << 30).err(), Some(InvalidSmi));
        assert_eq!(JsValue::try_from(-(1 << 30) - 1).err(), Some(InvalidSmi));
    } else {
        assert!(JsValue::try_from(i32::MAX).is_ok());
        assert!(JsValue::try_from(i32::MIN).is_ok());
    }
}

#[test]
fn pointer_words_round_trip() {
    let mut gc = Gc::new();
    let a = gc.allocate(Number(1.5));
    let b = gc.allocate(Number(2.5));
    for p in [a, b] {
        let v = JsValue::from(p);
        assert!(v.is_pointer());
        assert!(!v.is_smi());
        assert_eq!(v.expect_smi(), None);
        assert_eq!(v.expect_gc_ptr().unwrap().as_header_ptr(), p.as_header_ptr());
    }
}
