//! Byte-blob nodes: construction, typed read and typed overwrite.

use vstd::prelude::*;

use crate::error::PlistError;
use crate::{fresh_id, lemma_view_unfold, NodeOrigin, OwnershipState, PNode, Plist, PlistType, PlistValue};
use vstd::slice::slice_to_vec;

verus! {

broadcast use lemma_view_unfold;

impl Plist {
    /// Returns a new owning node with byte-blob kind holding a copy of the
    /// given bytes.
    pub fn new_data(data: &[u8]) -> (r: Plist)
        ensures
            r@ == (PNode::Blob { bytes: data@ }),
            r.wf(),
            r.owning(),
    {
        Plist {
            value: PlistValue::Data(slice_to_vec(data)),
            plist_type: PlistType::Data,
            ownership: OwnershipState::Owning,
            origin: NodeOrigin::Detached,
            id: fresh_id(),
        }
    }

    /// Returns a copy of the blob's bytes; any other kind is refused.
    pub fn get_data_val(&self) -> (r: Result<Vec<u8>, PlistError>)
        ensures
            self@ is Blob ==> r is Ok && r->Ok_0@ == self@->bytes,
            !(self@ is Blob) ==> r == Err::<Vec<u8>, PlistError>(PlistError::InvalidArg),
    {
        match &self.value {
            PlistValue::Data(bytes) => Ok(slice_to_vec(bytes.as_slice())),
            _ => Err(PlistError::InvalidArg),
        }
    }

    /// Overwrites the contents of a blob node in place with a copy of the
    /// given bytes; any other kind is refused and left unchanged.
    pub fn set_data_val(&mut self, val: &[u8]) -> (r: Result<(), PlistError>)
        ensures
            old(self)@ is Blob ==> r == Ok::<(), PlistError>(()) && final(self)@ == (
            PNode::Blob { bytes: val@ }),
            !(old(self)@ is Blob) ==> r == Err::<(), PlistError>(PlistError::InvalidArg)
                && *final(self) == *old(self),
            final(self).cached_kind() == old(self).cached_kind(),
            final(self).owning() == old(self).owning(),
            old(self).wf() ==> final(self).wf(),
    {
        match &self.value {
            PlistValue::Data(_) => {
                self.value = PlistValue::Data(slice_to_vec(val));
                Ok(())
            },
            _ => Err(PlistError::InvalidArg),
        }
    }
}

} // verus!
