//! Integer nodes: construction, typed read and typed overwrite.  Integers
//! are carried as unsigned 64-bit values.

use vstd::prelude::*;

use crate::error::PlistError;
use crate::{fresh_id, lemma_view_unfold, NodeOrigin, OwnershipState, PNode, Plist, PlistType, PlistValue};

verus! {

broadcast use lemma_view_unfold;

impl Plist {
    /// Returns a new owning node with integer kind and the given value.
    pub fn new_uint(uint: u64) -> (r: Plist)
        ensures
            r@ == (PNode::Int { i: uint }),
            r.wf(),
            r.owning(),
    {
        Plist {
            value: PlistValue::Integer(uint),
            plist_type: PlistType::Integer,
            ownership: OwnershipState::Owning,
            origin: NodeOrigin::Detached,
            id: fresh_id(),
        }
    }

    /// Returns the value of the integer; any other kind is refused.
    pub fn get_uint_val(&self) -> (r: Result<u64, PlistError>)
        ensures
            self@ is Int ==> r == Ok::<u64, PlistError>(self@->i),
            !(self@ is Int) ==> r == Err::<u64, PlistError>(PlistError::InvalidArg),
    {
        match &self.value {
            PlistValue::Integer(i) => Ok(*i),
            _ => Err(PlistError::InvalidArg),
        }
    }

    /// Overwrites the value of an integer node in place; any other kind is
    /// refused and left unchanged.
    pub fn set_uint_val(&mut self, val: u64) -> (r: Result<(), PlistError>)
        ensures
            old(self)@ is Int ==> r == Ok::<(), PlistError>(()) && final(self)@ == (
            PNode::Int { i: val }),
            !(old(self)@ is Int) ==> r == Err::<(), PlistError>(PlistError::InvalidArg)
                && *final(self) == *old(self),
            final(self).cached_kind() == old(self).cached_kind(),
            final(self).owning() == old(self).owning(),
            old(self).wf() ==> final(self).wf(),
    {
        match &self.value {
            PlistValue::Integer(_) => {
                self.value = PlistValue::Integer(val);
                Ok(())
            },
            _ => Err(PlistError::InvalidArg),
        }
    }
}

} // verus!
