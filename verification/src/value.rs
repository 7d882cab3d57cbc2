use vstd::prelude::*;
use std::convert::TryFrom;

use crate::gc::gc_ptr::{lemma_word_multiple, word_size, GcPtr};

verus! {

/// Bits of a small integer ("smi"): 32 on 64-bit targets, 31 on 32-bit ones.
pub open spec fn smi_bits_spec() -> int {
    if usize::BITS == 64 {
        32
    } else {
        31
    }
}

/// The factor by which a small integer is shifted into a value word.
pub open spec fn smi_scale() -> int {
    if usize::BITS == 64 {
        0x1_0000_0000
    } else {
        2
    }
}

/// The least small integer, `-2^(SMI_BITS - 1)`.
pub open spec fn smi_min_spec() -> int {
    if usize::BITS == 64 {
        -0x8000_0000
    } else {
        -0x4000_0000
    }
}

/// The greatest small integer, `2^(SMI_BITS - 1) - 1`.
pub open spec fn smi_max_spec() -> int {
    -(smi_min_spec() + 1)
}

/// A word read as a two's complement signed number.
pub open spec fn signed(b: usize) -> int {
    if b <= isize::MAX {
        b as int
    } else {
        b as int - usize::MAX - 1
    }
}

/// The word that holds the small integer `v`: `v` shifted left, the bits
/// that leave the word dropped.
pub open spec fn smi_encode(v: int) -> usize {
    ((v * smi_scale()) % (usize::MAX + 1)) as usize
}

/// The small integer that a word holds: the word read as a signed number,
/// shifted right arithmetically (that is, divided rounding down).
pub open spec fn smi_value(b: usize) -> int {
    signed(b) / smi_scale()
}

pub fn smi_bits() -> (b: u8)
    ensures
        b == smi_bits_spec(),
{
    if usize::BITS == 64 {
        32
    } else {
        31
    }
}

fn smi_shift() -> (s: u32)
    ensures
        usize::BITS == 64 ==> s == 32,
        usize::BITS != 64 ==> s == 1,
{
    if usize::BITS == 64 {
        32
    } else {
        1
    }
}

pub fn smi_min() -> (m: i32)
    ensures
        m == smi_min_spec(),
{
    let shift = (smi_bits() - 1) as u32;
    assert((((-1i32) as u32) << 31u32) as i32 == -0x8000_0000i32) by (bit_vector);
    assert((((-1i32) as u32) << 30u32) as i32 == -0x4000_0000i32) by (bit_vector);
    (((-1i32) as u32) << shift) as i32
}

pub fn smi_max() -> (m: i32)
    ensures
        m == smi_max_spec(),
{
    -(smi_min() + 1)
}

/// A value word: a small integer shifted left, with its lowest bit clear,
/// or the address of a heap object's header with its lowest bit set. This
/// relies on the bottom bits of every heap pointer being zero.
#[derive(Clone, Copy)]
pub struct JsValue(usize);

impl View for JsValue {
    type V = usize;

    closed spec fn view(&self) -> usize {
        self.0
    }
}

#[derive(Debug, Clone, Copy, PartialEq, Eq)]
pub struct InvalidSmi;

impl JsValue {
    #[verifier::type_invariant]
    spec fn tagged(self) -> bool {
        self.0 % 2 == 1 ==> self.0 > 1 && (self.0 - 1) as int % word_size() == 0
    }

    pub fn is_smi(self) -> (r: bool)
        ensures
            r == (self@ % 2 == 0),
    {
        let b = self.0;
        assert((b & 1usize == 0usize) == (b % 2 == 0)) by (bit_vector);
        self.0 & 0b1 == 0
    }

    pub fn is_pointer(self) -> (r: bool)
        ensures
            r == (self@ % 2 == 1),
    {
        !self.is_smi()
    }

    /// The small integer, if the word holds one.
    pub fn expect_smi(self) -> (r: Option<i32>)
        ensures
            self@ % 2 == 0 ==> r == Some(smi_value(self@) as i32),
            self@ % 2 == 1 ==> r is None,
            r matches Some(v) ==> v as int == smi_value(self@),
    {
        if self.is_smi() {
            let b = self.0;
            let shift = smi_shift();
            let v = ((b as isize) >> shift) as i32;
            assert(usize::BITS == 64 && shift == 32u32 ==> (((b as isize) >> shift) as i32) as int == (
            if b <= ((!0usize) >> 1usize) {
                b as int
            } else {
                b as int - 0x1_0000_0000_0000_0000
            }) / 0x1_0000_0000) by (bit_vector);
            assert(usize::BITS == 32 && shift == 1u32 ==> (((b as isize) >> shift) as i32) as int == (
            if b <= 0x7fff_ffffusize {
                b as int
            } else {
                b as int - 0x1_0000_0000
            }) / 2) by (bit_vector);
            proof {
                assert(usize::BITS == 32 || usize::BITS == 64);
                if usize::BITS == 64 {
                    assert(shift == 32);
                    assert(usize::MAX == 0xffff_ffff_ffff_ffff);
                    assert(v as int == signed(b) / 0x1_0000_0000);
                } else {
                    assert(shift == 1);
                    assert(usize::MAX == 0xffff_ffff);
                    assert(isize::MAX == 0x7fff_ffff);
                    assert(v as int == signed(b) / 2);
                }
                assert(v as int == smi_value(b));
            }
            Some(v)
        } else {
            None
        }
    }

    /// The heap pointer, if the word holds one.
    pub fn expect_gc_ptr(self) -> (r: Option<GcPtr<()>>)
        ensures
            self@ % 2 == 1 ==> (r matches Some(p) && p@ == self@ - 1),
            self@ % 2 == 0 ==> r is None,
    {
        proof {
            use_type_invariant(&self);
        }
        if self.is_pointer() {
            let b = self.0;
            assert(b % 2 == 1 ==> b & !1usize == (b - 1) as usize) by (bit_vector);
            Some(GcPtr::from_non_null(self.0 & !0b1))
        } else {
            None
        }
    }
}

impl TryFrom<i32> for JsValue {
    type Error = InvalidSmi;

    /// The value word of a small integer, when `v` lies in the small
    /// integer range.
    fn try_from(v: i32) -> (r: Result<JsValue, InvalidSmi>)
        ensures
            smi_min_spec() <= v <= smi_max_spec() ==> (r matches Ok(j) && j@ == smi_encode(
                v as int,
            )),
            !(smi_min_spec() <= v <= smi_max_spec()) ==> r == Err::<JsValue, _>(InvalidSmi),
    {
        if v >= smi_min() && v <= smi_max() {
            let shift = smi_shift();
            let b = (v as usize) << shift;
            assert(usize::BITS == 64 && shift == 32u32 ==> ((v as usize) << shift) as int == (v as int
                * 0x1_0000_0000) % 0x1_0000_0000_0000_0000) by (bit_vector);
            assert(usize::BITS == 32 && shift == 1u32 ==> ((v as usize) << shift) as int == (v as int
                * 2) % 0x1_0000_0000) by (bit_vector);
            proof {
                lemma_smi_even(v as int);
            }
            Ok(JsValue(b))
        } else {
            Err(InvalidSmi)
        }
    }
}

impl vstd::std_specs::convert::TryFromSpecImpl<i32> for JsValue {
    open spec fn obeys_try_from_spec() -> bool {
        true
    }

    closed spec fn try_from_spec(v: i32) -> Result<JsValue, InvalidSmi> {
        if smi_min_spec() <= v <= smi_max_spec() {
            Ok(JsValue(smi_encode(v as int)))
        } else {
            Err(InvalidSmi)
        }
    }
}

impl<T> From<GcPtr<T>> for JsValue {
    /// The value word of a heap pointer: its address with the lowest bit
    /// set.
    fn from(ptr: GcPtr<T>) -> (r: JsValue)
        ensures
            r@ == ptr@ + 1,
    {
        let addr = ptr.as_header_ptr();
        proof {
            assert(usize::BITS == 32 || usize::BITS == 64);
            lemma_word_multiple(addr as int);
        }
        assert(addr % 2 == 0 ==> addr | 1usize == (addr + 1) as usize) by (bit_vector);
        JsValue(addr | 0b1)
    }
}

impl<T> vstd::std_specs::convert::FromSpecImpl<GcPtr<T>> for JsValue {
    open spec fn obeys_from_spec() -> bool {
        true
    }

    closed spec fn from_spec(ptr: GcPtr<T>) -> JsValue {
        JsValue((ptr@ + 1) as usize)
    }
}

/// A small integer's word has its lowest bit clear.
proof fn lemma_smi_even(v: int)
    ensures
        smi_encode(v) % 2 == 0,
{
    assert(usize::BITS == 32 || usize::BITS == 64);
    let m = usize::MAX + 1;
    if usize::BITS == 64 {
        assert(m == 0x1_0000_0000_0000_0000);
        vstd::arithmetic::div_mod::lemma_fundamental_div_mod(v * 0x1_0000_0000, m);
    } else {
        assert(m == 0x1_0000_0000);
        vstd::arithmetic::div_mod::lemma_fundamental_div_mod(v * 2, m);
    }
}


/// A small integer comes back unchanged from its word, and its word is
/// never a pointer word.
pub proof fn lemma_smi_roundtrip(v: int)
    requires
        smi_min_spec() <= v <= smi_max_spec(),
    ensures
        smi_encode(v) % 2 == 0,
        smi_value(smi_encode(v)) == v,
{
    lemma_smi_even(v);
    assert(usize::BITS == 32 || usize::BITS == 64);
    if usize::BITS == 64 {
        let x = v * 0x1_0000_0000;
        let m: int = 0x1_0000_0000_0000_0000;
        assert(usize::MAX == 0xffff_ffff_ffff_ffff);
        assert(isize::MAX == 0x7fff_ffff_ffff_ffff);
        if v >= 0 {
            vstd::arithmetic::div_mod::lemma_small_mod(x as nat, m as nat);
            assert(smi_encode(v) == x);
        } else {
            vstd::arithmetic::div_mod::lemma_fundamental_div_mod_converse(x, m, -1, x + m);
            assert(smi_encode(v) == x + m);
        }
        assert(signed(smi_encode(v)) == x);
        vstd::arithmetic::div_mod::lemma_fundamental_div_mod_converse(x, 0x1_0000_0000, v, 0);
    } else {
        let x = v * 2;
        let m: int = 0x1_0000_0000;
        assert(usize::MAX == 0xffff_ffff);
        assert(isize::MAX == 0x7fff_ffff);
        if v >= 0 {
            vstd::arithmetic::div_mod::lemma_small_mod(x as nat, m as nat);
            assert(smi_encode(v) == x);
        } else {
            vstd::arithmetic::div_mod::lemma_fundamental_div_mod_converse(x, m, -1, x + m);
            assert(smi_encode(v) == x + m);
        }
        assert(signed(smi_encode(v)) == x);
        vstd::arithmetic::div_mod::lemma_fundamental_div_mod_converse(x, 2, v, 0);
    }
}

/// The word of a heap pointer (its address, aligned to a word, plus one)
/// is a pointer word, never a small integer's word, and gives the address
/// back.
pub proof fn lemma_pointer_roundtrip(addr: int)
    requires
        0 < addr,
        addr % word_size() == 0,
    ensures
        (addr + 1) % 2 == 1,
        (addr + 1) - 1 == addr,
        forall|v: int| smi_min_spec() <= v <= smi_max_spec() ==> smi_encode(v) != addr + 1,
{
    assert(usize::BITS == 32 || usize::BITS == 64);
    lemma_word_multiple(addr);
    assert forall|v: int| smi_min_spec() <= v <= smi_max_spec() implies smi_encode(v) != addr + 1 by {
        lemma_smi_even(v);
    }
}

} // verus!
