//! Bytes as they cross between host and guest.

use vstd::prelude::*;

use base64::engine::general_purpose::STANDARD;
use base64::Engine;

verus! {

/// The text that `base64`'s standard engine encodes bytes as.
pub uninterp spec fn base64_text(data: Seq<u8>) -> Seq<char>;

/// The bytes that `base64`'s standard engine decodes a text to, if it is such an encoding.
pub uninterp spec fn base64_bytes(text: Seq<char>) -> Option<Seq<u8>>;

/// Encodes bytes with `Engine::encode` of `base64::engine::general_purpose::STANDARD`. The text
/// depends on the bytes alone, and decoding it gives the bytes back.
#[verifier::external_body]
pub(crate) fn base64_encode(data: &[u8]) -> (r: String)
    requires
        data@.len() <= usize::MAX / 4,
    ensures
        r@ == base64_text(data@),
        base64_bytes(r@) == Some(data@),
{
    STANDARD.encode(data)
}

/// Decodes a text with `Engine::decode` of `base64::engine::general_purpose::STANDARD`. The
/// result depends on the text alone; which texts are refused is left unsaid.
#[verifier::external_body]
pub(crate) fn base64_decode(text: &str) -> (r: Option<Vec<u8>>)
    ensures
        match r {
            Some(bytes) => base64_bytes(text@) == Some(bytes@),
            None => base64_bytes(text@) is None,
        },
{
    STANDARD.decode(text).ok()
}

/// The bytes of a message to the guest, which may not grow beyond a cap.
#[derive(Debug)]
pub struct BoundedBytes {
    bytes: Vec<u8>,
    cap: usize,
}

impl BoundedBytes {
    #[verifier::type_invariant]
    spec fn wf(self) -> bool {
        self.bytes@.len() <= self.cap
    }

    pub closed spec fn view(&self) -> Seq<u8> {
        self.bytes@
    }

    pub closed spec fn cap(&self) -> nat {
        self.cap as nat
    }

    pub fn new(cap: usize) -> (r: Self)
        ensures
            r@ == Seq::<u8>::empty(),
            r.cap() == cap,
    {
        BoundedBytes { bytes: Vec::new(), cap }
    }

    /// Adds bytes, all of them or none.
    pub fn write(&mut self, data: &[u8]) -> (r: bool)
        ensures
            r == (old(self)@.len() + data@.len() <= old(self).cap()),
            final(self)@ == if r {
                old(self)@ + data@
            } else {
                old(self)@
            },
            final(self).cap() == old(self).cap(),
    {
        proof {
            use_type_invariant(&*self);
        }
        if data.len() > self.cap - self.bytes.len() {
            return false;
        }
        let mut swapped = BoundedBytes::new(self.cap);
        std::mem::swap(self, &mut swapped);
        let BoundedBytes { mut bytes, cap } = swapped;
        crate::bytes::extend(&mut bytes, data);
        *self = BoundedBytes { bytes, cap };
        true
    }

    pub fn into_bytes(self) -> (r: Vec<u8>)
        ensures
            r@ == self@,
            r@.len() <= self.cap(),
    {
        proof {
            use_type_invariant(&self);
        }
        self.bytes
    }
}

} // verus!
