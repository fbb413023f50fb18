//! Unique-identifier nodes: construction, typed read and typed overwrite.

use vstd::prelude::*;

use crate::error::PlistError;
use crate::{fresh_id, lemma_view_unfold, NodeOrigin, OwnershipState, PNode, Plist, PlistType, PlistValue};

verus! {

broadcast use lemma_view_unfold;

impl Plist {
    /// Returns a new owning node with unique-identifier kind and the given
    /// value.
    pub fn new_uid(uid: u64) -> (r: Plist)
        ensures
            r@ == (PNode::Uid { uid }),
            r.wf(),
            r.owning(),
    {
        Plist {
            value: PlistValue::Uid(uid),
            plist_type: PlistType::Uid,
            ownership: OwnershipState::Owning,
            origin: NodeOrigin::Detached,
            id: fresh_id(),
        }
    }

    /// Returns the value of the unique identifier; any other kind is
    /// refused.
    pub fn get_uid_val(&self) -> (r: Result<u64, PlistError>)
        ensures
            self@ is Uid ==> r == Ok::<u64, PlistError>(self@->uid),
            !(self@ is Uid) ==> r == Err::<u64, PlistError>(PlistError::InvalidArg),
    {
        match &self.value {
            PlistValue::Uid(u) => Ok(*u),
            _ => Err(PlistError::InvalidArg),
        }
    }

    /// Overwrites the value of a unique-identifier node in place; any other
    /// kind is refused and left unchanged.
    pub fn set_uid_val(&mut self, val: u64) -> (r: Result<(), PlistError>)
        ensures
            old(self)@ is Uid ==> r == Ok::<(), PlistError>(()) && final(self)@ == (
            PNode::Uid { uid: val }),
            !(old(self)@ is Uid) ==> r == Err::<(), PlistError>(PlistError::InvalidArg)
                && *final(self) == *old(self),
            final(self).cached_kind() == old(self).cached_kind(),
            final(self).owning() == old(self).owning(),
            old(self).wf() ==> final(self).wf(),
    {
        match &self.value {
            PlistValue::Uid(_) => {
                self.value = PlistValue::Uid(val);
                Ok(())
            },
            _ => Err(PlistError::InvalidArg),
        }
    }
}

} // verus!
