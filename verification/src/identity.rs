//! Account identities.
//!
//! An identity is an opaque handle: the pool only ever asks whether two of
//! them are the same account. It is kept as the bytes of the account's
//! canonical text form, so two identities are the same account exactly when
//! their bytes agree.

use vstd::prelude::*;

verus! {

/// Tells whether two byte strings hold the same bytes.
pub fn bytes_equal(a: &Vec<u8>, b: &Vec<u8>) -> (same: bool)
    ensures
        same == (a@ == b@),
{
    if a.len() != b.len() {
        return false;
    }
    let mut i: usize = 0;
    while i < a.len()
        invariant
            a.len() == b.len(),
            i <= a.len(),
            a@.take(i as int) == b@.take(i as int),
        decreases a.len() - i,
    {
        if a[i] != b[i] {
            return false;
        }
        assert(a@.take(i + 1) == a@.take(i as int).push(a@[i as int]));
        assert(b@.take(i + 1) == b@.take(i as int).push(b@[i as int]));
        i += 1;
    }
    assert(a@ == a@.take(a.len() as int));
    assert(b@ == b@.take(b.len() as int));
    true
}

/// Copies a byte string.
pub fn bytes_copy(a: &Vec<u8>) -> (copy: Vec<u8>)
    ensures
        copy@ == a@,
{
    let mut copy: Vec<u8> = Vec::with_capacity(a.len());
    let mut i: usize = 0;
    while i < a.len()
        invariant
            i <= a.len(),
            copy@ == a@.take(i as int),
        decreases a.len() - i,
    {
        copy.push(a[i]);
        assert(a@.take(i + 1) == a@.take(i as int).push(a@[i as int]));
        i += 1;
    }
    assert(a@ == a@.take(a.len() as int));
    copy
}

/// The identity of an account: a participant, the administrator, or the
/// asset that a pool accepts.
#[derive(Debug)]
pub struct Address {
    key: Vec<u8>,
}

impl View for Address {
    type V = Seq<u8>;

    closed spec fn view(&self) -> Seq<u8> {
        self.key@
    }
}

impl Address {
    /// The identity whose canonical form is `key`.
    pub fn new(key: Vec<u8>) -> (id: Address)
        ensures
            id@ == key@,
    {
        Address { key }
    }

    /// The bytes of the canonical form.
    pub fn as_bytes(&self) -> (key: &Vec<u8>)
        ensures
            key@ == self@,
    {
        &self.key
    }

    /// Tells whether `self` and `other` name the same account.
    pub fn same(&self, other: &Address) -> (same: bool)
        ensures
            same == (self@ == other@),
    {
        bytes_equal(&self.key, &other.key)
    }
}

impl Clone for Address {
    fn clone(&self) -> (copy: Address)
        ensures
            copy@ == self@,
    {
        Address { key: bytes_copy(&self.key) }
    }
}

impl PartialEq for Address {
    fn eq(&self, other: &Address) -> (same: bool) {
        bytes_equal(&self.key, &other.key)
    }
}

impl Eq for Address {}

impl vstd::std_specs::cmp::PartialEqSpecImpl for Address {
    open spec fn obeys_eq_spec() -> bool {
        true
    }

    open spec fn eq_spec(&self, other: &Address) -> bool {
        self@ == other@
    }
}

} // verus!
