//! String nodes: construction, typed read and typed overwrite.
//!
//! The underlying textual representation is terminator-delimited, so a
//! string payload never embeds the NUL character.

use vstd::prelude::*;
use vstd::string::*;

use crate::error::PlistError;
use crate::{
    NodeOrigin,
    fresh_id, lemma_view_unfold, no_nul, OwnershipState, PNode, Plist, PlistType, PlistValue,
};

verus! {

broadcast use lemma_view_unfold;

impl Plist {
    /// Returns a new owning node with string kind holding a copy of the
    /// given text, which must not embed the NUL terminator.
    pub fn new_string(string: &str) -> (r: Plist)
        requires
            no_nul(string@),
        ensures
            r@ == (PNode::Text { t: string@ }),
            r.wf(),
            r.owning(),
    {
        Plist {
            value: PlistValue::Text(String::from_str(string)),
            plist_type: PlistType::String,
            ownership: OwnershipState::Owning,
            origin: NodeOrigin::Detached,
            id: fresh_id(),
        }
    }

    /// Returns a copy of the string's text; any other kind is refused.
    pub fn get_string_val(&self) -> (r: Result<String, PlistError>)
        ensures
            self@ is Text ==> r is Ok && r->Ok_0@ == self@->t,
            !(self@ is Text) ==> r == Err::<String, PlistError>(PlistError::InvalidArg),
    {
        match &self.value {
            PlistValue::Text(t) => Ok(t.clone()),
            _ => Err(PlistError::InvalidArg),
        }
    }

    /// Overwrites the text of a string node in place; the text must not
    /// embed the NUL terminator, and any other kind is refused and left
    /// unchanged.
    pub fn set_string_val(&mut self, val: &str) -> (r: Result<(), PlistError>)
        requires
            no_nul(val@),
        ensures
            old(self)@ is Text ==> r == Ok::<(), PlistError>(()) && final(self)@ == (
            PNode::Text { t: val@ }),
            !(old(self)@ is Text) ==> r == Err::<(), PlistError>(PlistError::InvalidArg)
                && *final(self) == *old(self),
            final(self).cached_kind() == old(self).cached_kind(),
            final(self).owning() == old(self).owning(),
            old(self).wf() ==> final(self).wf(),
    {
        match &self.value {
            PlistValue::Text(_) => {
                self.value = PlistValue::Text(String::from_str(val));
                Ok(())
            },
            _ => Err(PlistError::InvalidArg),
        }
    }
}

} // verus!
