//! Content addresses: a fixed-size hash plus the byte length of the content
//! it names.  A digest identifies either the canonical form of an execution
//! request or a stored blob.

use vstd::prelude::*;

verus! {

/// Mathematical form of a [`Digest`].
pub ghost struct DigestView {
    pub fingerprint: Seq<u8>,
    pub size: u64,
}

impl DigestView {
    /// A digest is well formed when its fingerprint has exactly the width
    /// of the content hash.
    pub open spec fn wf(self) -> bool {
        self.fingerprint.len() == crate::FINGERPRINT_LEN
    }
}

/// A content hash together with the length in bytes of the content it
/// names.  Used both as a cache key and as a reference to an immutable
/// byte blob.
#[derive(Clone, Debug, PartialEq, Eq)]
pub struct Digest {
    pub fingerprint: Vec<u8>,
    pub size: u64,
}

impl View for Digest {
    type V = DigestView;

    open spec fn view(&self) -> DigestView {
        DigestView { fingerprint: self.fingerprint@, size: self.size }
    }
}

impl Digest {
    /// Well-formedness of the executable value, stated over its view.
    pub open spec fn wf(&self) -> bool {
        self@.wf()
    }
}

} // verus!
