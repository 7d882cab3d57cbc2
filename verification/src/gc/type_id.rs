use vstd::prelude::*;

verus! {

/// Implemented for `()` once for each type id handed out, so that two types
/// cannot be given the same id.
pub trait CheckTypeId<const N: u32> {
}

/// Id 0 is taken by numbers, the one type with an id of its own in the
/// engine itself; ids handed out to other types start at 1.
impl CheckTypeId<0> for () {
}

/// A small number that names a type of the heap; every type that the heap
/// holds has its own. `compact_type_id_spec` names the id in contracts and
/// `compact_type_id` returns it: an impl gives both the same constant.
pub trait CompactTypeId {
    spec fn compact_type_id_spec() -> u32;

    fn compact_type_id() -> (id: u32)
        ensures
            id == Self::compact_type_id_spec(),
    ;
}

} // verus!
