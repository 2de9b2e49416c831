//! Storage identifiers: random ones for new entities, and name-based ones that
//! map a human-chosen key to the same identifier on every machine and run.
use vstd::prelude::*;
use crate::address::{render, LuhmannId};

verus! {

/// A node identifier: the 128 bits of a UUID, most significant byte first.
pub type NodeId = u128;

/// An edge identifier, laid out as `NodeId`.
pub type EdgeId = u128;

/// The namespace of name-based identifiers (the UUID 6ba7b810-9dad-11d1-80b4-00c04fd430c8).
pub const ID_NAMESPACE: u128 = 0x6ba7b810_9dad_11d1_80b4_00c04fd430c8;

/// The version-5 (SHA-1, name-based) UUID of `name` under `namespace`.
pub uninterp spec fn name_based_id(namespace: u128, name: Seq<char>) -> u128;

/// Relies on `uuid::Uuid::new_v5`: the identifier is a function of the
/// namespace and of the name's bytes alone.
#[verifier::external_body]
fn uuid_v5(namespace: u128, name: &str) -> (r: u128)
    ensures
        r == name_based_id(namespace, name@),
{
    uuid::Uuid::new_v5(&uuid::Uuid::from_u128(namespace), name.as_bytes()).as_u128()
}

/// Relies on `uuid::Uuid::new_v4`: a fresh random identifier; nothing is
/// promised of its value.
#[verifier::external_body]
pub(crate) fn random_id() -> (r: u128) {
    uuid::Uuid::new_v4().as_u128()
}

/// The storage identifier of the key `s`.
pub fn string_to_node_id(s: &str) -> (r: NodeId)
    ensures
        r == name_based_id(ID_NAMESPACE, s@),
{
    uuid_v5(ID_NAMESPACE, s)
}

/// The storage identifier of an address: that of its text form.
pub fn luhmann_to_node_id(id: &LuhmannId) -> (r: NodeId)
    ensures
        r == name_based_id(ID_NAMESPACE, render(id@)),
{
    let text = id.to_string();
    string_to_node_id(text.as_str())
}

/// Deriving an identifier is a pure function of the key: equal keys give
/// equal identifiers, whenever and wherever they are derived.
pub proof fn derive_id_deterministic(k1: Seq<char>, k2: Seq<char>)
    requires
        k1 == k2,
    ensures
        name_based_id(ID_NAMESPACE, k1) == name_based_id(ID_NAMESPACE, k2),
{
}

} // verus!
