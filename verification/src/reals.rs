//! Real nodes: construction, typed read and typed overwrite.
//!
//! A real value is carried as the bit pattern of its IEEE-754 double
//! representation, so that the node model and the wire codecs stay exact;
//! converting between the bit pattern and a floating-point number is the
//! caller's concern at the boundary.

use vstd::prelude::*;

use crate::error::PlistError;
use crate::{fresh_id, lemma_view_unfold, NodeOrigin, OwnershipState, PNode, Plist, PlistType, PlistValue};

verus! {

broadcast use lemma_view_unfold;

impl Plist {
    /// Returns a new owning node with real kind carrying the given IEEE-754
    /// double bit pattern.
    pub fn new_real(bits: u64) -> (r: Plist)
        ensures
            r@ == (PNode::Real { bits }),
            r.wf(),
            r.owning(),
    {
        Plist {
            value: PlistValue::Real(bits),
            plist_type: PlistType::Real,
            ownership: OwnershipState::Owning,
            origin: NodeOrigin::Detached,
            id: fresh_id(),
        }
    }

    /// Returns the bit pattern of the real value; any other kind is
    /// refused.
    pub fn get_real_val(&self) -> (r: Result<u64, PlistError>)
        ensures
            self@ is Real ==> r == Ok::<u64, PlistError>(self@->bits),
            !(self@ is Real) ==> r == Err::<u64, PlistError>(PlistError::InvalidArg),
    {
        match &self.value {
            PlistValue::Real(bits) => Ok(*bits),
            _ => Err(PlistError::InvalidArg),
        }
    }

    /// Overwrites the value of a real node in place with the given IEEE-754
    /// double bit pattern; any other kind is refused and left unchanged.
    pub fn set_real_val(&mut self, bits: u64) -> (r: Result<(), PlistError>)
        ensures
            old(self)@ is Real ==> r == Ok::<(), PlistError>(()) && final(self)@ == (
            PNode::Real { bits }),
            !(old(self)@ is Real) ==> r == Err::<(), PlistError>(PlistError::InvalidArg)
                && *final(self) == *old(self),
            final(self).cached_kind() == old(self).cached_kind(),
            final(self).owning() == old(self).owning(),
            old(self).wf() ==> final(self).wf(),
    {
        match &self.value {
            PlistValue::Real(_) => {
                self.value = PlistValue::Real(bits);
                Ok(())
            },
            _ => Err(PlistError::InvalidArg),
        }
    }
}

} // verus!
