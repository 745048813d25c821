//! The id-to-address bimap, as seen by the verified code.
use bimap::BiHashMap;
use vstd::prelude::*;

verus! {

/// bimap's `BiHashMap`, held opaquely: what it holds is named by `bindings`.
#[verifier::external_type_specification]
#[verifier::external_body]
#[verifier::reject_recursive_types(L)]
#[verifier::reject_recursive_types(R)]
#[verifier::reject_recursive_types(LS)]
#[verifier::reject_recursive_types(RS)]
pub struct ExBiHashMap<L, R, LS, RS>(BiHashMap<L, R, LS, RS>);

/// The id-to-address pairs that a bimap holds.
pub uninterp spec fn bindings(m: BiHashMap<u16, String>) -> Map<u16, Seq<char>>;

/// Relies on `BiHashMap::new`: an empty bimap.
#[verifier::external_body]
pub(crate) fn table_new() -> (r: BiHashMap<u16, String>)
    ensures
        bindings(r).dom() == Set::<u16>::empty(),
{
    BiHashMap::new()
}

/// The pairs of `b` after binding `id` to `addr`: any pair that held `id` or
/// `addr` before gives way to the new one.
pub open spec fn rebind(b: Map<u16, Seq<char>>, id: u16, addr: Seq<char>) -> Map<u16, Seq<char>> {
    Map::new(
        |k: u16| k == id || (b.contains_key(k) && b[k] != addr),
        |k: u16|
            if k == id {
                addr
            } else {
                b[k]
            },
    )
}

/// Relies on `BiHashMap::contains_left`.
#[verifier::external_body]
pub(crate) fn table_contains_id(m: &BiHashMap<u16, String>, id: u16) -> (r: bool)
    ensures
        r == bindings(*m).contains_key(id),
{
    m.contains_left(&id)
}

/// Relies on `BiHashMap::get_by_left`: the address bound to `id`, if any.
#[verifier::external_body]
pub(crate) fn table_address_of(m: &BiHashMap<u16, String>, id: u16) -> (r: Option<String>)
    ensures
        match r {
            Some(a) => bindings(*m).contains_key(id) && bindings(*m)[id] == a@,
            None => !bindings(*m).contains_key(id),
        },
{
    m.get_by_left(&id).cloned()
}

/// Relies on `BiHashMap::get_by_right`: the id bound to `addr`, if any.
#[verifier::external_body]
pub(crate) fn table_id_of(m: &BiHashMap<u16, String>, addr: &String) -> (r: Option<u16>)
    ensures
        match r {
            Some(id) => bindings(*m).contains_key(id) && bindings(*m)[id] == addr@,
            None => forall|k: u16| #[trigger]
                bindings(*m).contains_key(k) ==> bindings(*m)[k] != addr@,
        },
{
    m.get_by_right(addr).copied()
}

/// Relies on `BiHashMap::insert`, which first removes the pairs that hold
/// either value, then adds the new pair.
#[verifier::external_body]
pub(crate) fn table_insert(m: &mut BiHashMap<u16, String>, id: u16, addr: String)
    ensures
        bindings(*final(m)) == rebind(bindings(*old(m)), id, addr@),
{
    m.insert(id, addr);
}

/// Relies on `BiHashMap::remove_by_left`: the pair that holds `id` goes.
#[verifier::external_body]
pub(crate) fn table_remove(m: &mut BiHashMap<u16, String>, id: u16)
    ensures
        bindings(*final(m)) == bindings(*old(m)).remove(id),
{
    m.remove_by_left(&id);
}

/// Relies on `BiHashMap::left_values`: every bound id once, in the map's
/// own (unspecified) order.
#[verifier::external_body]
pub(crate) fn table_ids(m: &BiHashMap<u16, String>) -> (r: Vec<u16>)
    ensures
        r@.to_set() == bindings(*m).dom(),
        r@.no_duplicates(),
{
    m.left_values().copied().collect()
}

} // verus!
