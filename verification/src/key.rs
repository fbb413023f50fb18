//! Key nodes: the key of a dictionary entry, surfaced as a node of its own
//! kind.

use vstd::prelude::*;
use vstd::string::*;

use crate::error::PlistError;
use crate::{
    NodeOrigin,
    fresh_id, lemma_view_unfold, no_nul, OwnershipState, PNode, Plist, PlistType, PlistValue,
};

verus! {

broadcast use lemma_view_unfold;

impl Plist {
    /// Returns a new owning node with key kind holding a copy of the given
    /// text, which must not embed the NUL terminator.
    pub fn new_key(key: &str) -> (r: Plist)
        requires
            no_nul(key@),
        ensures
            r@ == (PNode::Key { k: key@ }),
            r.wf(),
            r.owning(),
    {
        Plist {
            value: PlistValue::KeyName(String::from_str(key)),
            plist_type: PlistType::Key,
            ownership: OwnershipState::Owning,
            origin: NodeOrigin::Detached,
            id: fresh_id(),
        }
    }

    /// Returns a copy of the key's text; any other kind is refused.
    pub fn get_key_val(&self) -> (r: Result<String, PlistError>)
        ensures
            self@ is Key ==> r is Ok && r->Ok_0@ == self@->k,
            !(self@ is Key) ==> r == Err::<String, PlistError>(PlistError::InvalidArg),
    {
        match &self.value {
            PlistValue::KeyName(k) => Ok(k.clone()),
            _ => Err(PlistError::InvalidArg),
        }
    }

    /// Overwrites the text of a key node in place; the text must not embed
    /// the NUL terminator, and any other kind is refused and left
    /// unchanged.
    pub fn set_key_val(&mut self, key: &str) -> (r: Result<(), PlistError>)
        requires
            no_nul(key@),
        ensures
            old(self)@ is Key ==> r == Ok::<(), PlistError>(()) && final(self)@ == (
            PNode::Key { k: key@ }),
            !(old(self)@ is Key) ==> r == Err::<(), PlistError>(PlistError::InvalidArg)
                && *final(self) == *old(self),
            final(self).cached_kind() == old(self).cached_kind(),
            final(self).owning() == old(self).owning(),
            old(self).wf() ==> final(self).wf(),
    {
        match &self.value {
            PlistValue::KeyName(_) => {
                self.value = PlistValue::KeyName(String::from_str(key));
                Ok(())
            },
            _ => Err(PlistError::InvalidArg),
        }
    }
}

} // verus!
