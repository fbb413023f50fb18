//! Boolean nodes: construction, typed read and typed overwrite.

use vstd::prelude::*;

use crate::error::PlistError;
use crate::{fresh_id, lemma_view_unfold, NodeOrigin, OwnershipState, PNode, Plist, PlistType, PlistValue};

verus! {

broadcast use lemma_view_unfold;

impl Plist {
    /// Returns a new owning node with boolean kind and the given value.
    pub fn new_bool(val: bool) -> (r: Plist)
        ensures
            r@ == (PNode::Bool { b: val }),
            r.wf(),
            r.owning(),
    {
        Plist {
            value: PlistValue::Boolean(val),
            plist_type: PlistType::Boolean,
            ownership: OwnershipState::Owning,
            origin: NodeOrigin::Detached,
            id: fresh_id(),
        }
    }

    /// Returns the value of the boolean; any other kind is refused.
    pub fn get_bool_val(&self) -> (r: Result<bool, PlistError>)
        ensures
            self@ is Bool ==> r == Ok::<bool, PlistError>(self@->b),
            !(self@ is Bool) ==> r == Err::<bool, PlistError>(PlistError::InvalidArg),
    {
        match &self.value {
            PlistValue::Boolean(b) => Ok(*b),
            _ => Err(PlistError::InvalidArg),
        }
    }

    /// Overwrites the value of a boolean node in place; any other kind is
    /// refused and left unchanged.
    pub fn set_bool_val(&mut self, val: bool) -> (r: Result<(), PlistError>)
        ensures
            old(self)@ is Bool ==> r == Ok::<(), PlistError>(()) && final(self)@ == (
            PNode::Bool { b: val }),
            !(old(self)@ is Bool) ==> r == Err::<(), PlistError>(PlistError::InvalidArg)
                && *final(self) == *old(self),
            final(self).cached_kind() == old(self).cached_kind(),
            final(self).owning() == old(self).owning(),
            old(self).wf() ==> final(self).wf(),
    {
        match &self.value {
            PlistValue::Boolean(_) => {
                self.value = PlistValue::Boolean(val);
                Ok(())
            },
            _ => Err(PlistError::InvalidArg),
        }
    }
}

} // verus!
