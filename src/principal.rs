use vstd::prelude::*;

verus! {

/// The bytes of the identity written as `s` in the textual form of principals, or `None` where
/// `s` is not such a form.
pub uninterp spec fn principal_text_bytes(s: Seq<char>) -> Option<Seq<u8>>;

/// Relies on `candid::Principal::from_text` (from the ic_principal crate): it parses the textual
/// form, checksum included, into at most 29 bytes, or fails.
#[verifier::external_body]
fn principal_bytes_from_text(text: &str) -> (r: Option<Vec<u8>>)
    ensures
        r.is_some() == principal_text_bytes(text@).is_some(),
        r matches Some(b) ==> b@ == principal_text_bytes(text@)->Some_0 && b@.len() <= 29,
{
    candid::Principal::from_text(text).ok().map(|p| p.as_slice().to_vec())
}

/// An external identity, held as the raw bytes that identify it.
#[derive(Debug)]
pub struct Principal {
    pub bytes: Vec<u8>,
}

impl View for Principal {
    type V = Seq<u8>;

    open spec fn view(&self) -> Seq<u8> {
        self.bytes@
    }
}

impl Principal {
    pub fn from_bytes(bytes: Vec<u8>) -> (r: Principal)
        ensures
            r@ == bytes@,
    {
        Principal { bytes }
    }

    /// The identity written as `text` in the textual form of principals.
    pub fn from_text(text: &str) -> (r: Option<Principal>)
        ensures
            r.is_some() == principal_text_bytes(text@).is_some(),
            r matches Some(p) ==> p@ == principal_text_bytes(text@)->Some_0,
    {
        match principal_bytes_from_text(text) {
            Some(bytes) => Some(Principal { bytes }),
            None => None,
        }
    }

    /// Whether two identities are the same.
    pub fn same_as(&self, other: &Principal) -> (r: bool)
        ensures
            r == (self@ == other@),
    {
        let n = self.bytes.len();
        if n != other.bytes.len() {
            return false;
        }
        let mut i: usize = 0;
        while i < n
            invariant
                n == self@.len(),
                n == other@.len(),
                0 <= i <= n,
                forall|j: int| 0 <= j < i ==> self@[j] == other@[j],
            decreases n - i,
        {
            if self.bytes[i] != other.bytes[i] {
                return false;
            }
            i = i + 1;
        }
        assert(self@ =~= other@);
        true
    }

    /// A copy of this identity.
    pub fn copy(&self) -> (r: Principal)
        ensures
            r@ == self@,
    {
        let mut bytes: Vec<u8> = Vec::new();
        let mut i: usize = 0;
        while i < self.bytes.len()
            invariant
                0 <= i <= self@.len(),
                bytes@ == self@.subrange(0, i as int),
            decreases self@.len() - i,
        {
            bytes.push(self.bytes[i]);
            i = i + 1;
            assert(bytes@ =~= self@.subrange(0, i as int));
        }
        assert(bytes@ =~= self@);
        Principal { bytes }
    }
}

} // verus!
