//! The probe signature: an opaque byte string acting as a shared identifier
//! that gates beacon answers. Equality is byte-exact.

use crate::bytes::{safe_format_bytes, safe_format_bytes_spec};
use vstd::prelude::*;
use vstd::slice::slice_to_vec;
use vstd::string::{StrSliceExecFns, StringSliceAdditionalSpecFns};

verus! {

/// Signature string sent by a scanner; a beacon answers only when it
/// byte-exactly equals an accepted signature. It must be no longer than the
/// beacon's receive buffer, or truncation makes it unmatchable.
#[derive(Debug, Clone, PartialEq)]
pub struct Signature(pub Vec<u8>);

impl View for Signature {
    type V = Seq<u8>;

    open spec fn view(&self) -> Seq<u8> {
        self.0@
    }
}

impl DeepView for Signature {
    type V = Seq<u8>;

    open spec fn deep_view(&self) -> Seq<u8> {
        self.view()
    }
}

impl Signature {
    /// A signature holding the UTF-8 bytes of the given text.
    pub fn from(text: &str) -> (r: Self)
        ensures
            r@ == text.spec_bytes(),
    {
        Signature(text.as_bytes_vec())
    }

    /// A signature holding a copy of the given bytes.
    pub fn from_bytes(bytes: &[u8]) -> (r: Self)
        ensures
            r@ == bytes@,
    {
        Signature(slice_to_vec(bytes))
    }

    /// Renders the signature as readable text; never fails.
    pub fn safe_format(&self) -> (r: String)
        ensures
            r@ == safe_format_bytes_spec(self@),
    {
        safe_format_bytes(self.0.as_slice())
    }
}

} // verus!
