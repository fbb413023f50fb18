//! Lazy traversal over a composite node's children: the elements of an
//! array, or the key/value entries of a dictionary.
//!
//! The cursor owns the node it traverses, so its resources are released
//! with the iterator whether traversal ends by exhaustion or early; every
//! step yields a borrowed-alias handle.  Iteration is finite and is not
//! restartable once exhausted.

use vstd::prelude::*;

use crate::{lemma_view_unfold, NodeOrigin, PNode, Plist};

verus! {

broadcast use lemma_view_unfold;

/// A traversal cursor over a composite node's children.
pub struct PlistIterator {
    pub(crate) plist: Plist,
    pub(crate) pos: usize,
}

/// One step of a traversal: the child node, and for dictionary entries the
/// key it is stored under.
pub struct PlistItem {
    pub plist: Plist,
    pub key: Option<String>,
}

impl PlistIterator {
    /// The value of the node being traversed.
    pub closed spec fn source(self) -> PNode {
        self.plist@
    }

    /// Whether the traversed node was well-formed.
    pub closed spec fn source_wf(self) -> bool {
        self.plist.wf()
    }

    /// The cursor's position: how many children were already yielded.
    pub closed spec fn cursor(self) -> int {
        self.pos as int
    }

    /// How many children the traversal yields in total.
    pub open spec fn total(self) -> int {
        if self.source() is Arr {
            self.source()->items.len() as int
        } else if self.source() is Dict {
            self.source()->entries.len() as int
        } else {
            0
        }
    }

    /// A cursor is valid on arrays and dictionaries only.
    pub open spec fn wf(self) -> bool {
        self.source() is Arr || self.source() is Dict
    }

    /// Yields the next child, or `None` once the children are exhausted:
    /// a traversal yields each child exactly once, in order, and then
    /// stops for good.  An array's children come without keys; a
    /// dictionary's children carry the key they are stored under.  Every
    /// yielded handle is a borrowed alias: dropping it leaves the
    /// traversed node's storage alone.
    pub fn next(&mut self) -> (r: Option<PlistItem>)
        requires
            old(self).wf(),
        ensures
            final(self).source() == old(self).source(),
            final(self).source_wf() == old(self).source_wf(),
            final(self).wf(),
            old(self).cursor() < old(self).total() ==> {
                &&& r is Some
                &&& final(self).cursor() == old(self).cursor() + 1
                &&& !r->0.plist.owning()
                &&& (old(self).source_wf() ==> r->0.plist.wf())
                &&& (old(self).source() is Arr ==> r->0.plist@ == old(self).source()->items[old(
                    self,
                ).cursor()] && r->0.key is None)
                &&& (old(self).source() is Dict ==> r->0.plist@ == old(self).source()->entries[old(
                    self,
                ).cursor()].1 && r->0.key is Some && r->0.key->0@ == old(self).source()->entries[old(
                    self,
                ).cursor()].0)
            },
            old(self).cursor() >= old(self).total() ==> r is None && *final(self) == *old(self),
    {
        match &self.plist.value {
            crate::PlistValue::Array(items) => {
                proof {
                    assert(self.plist@->items == crate::views_of(items@));
                    crate::lemma_views_of_len(items@);
                }
                if self.pos < items.len() {
                    proof {
                        crate::lemma_views_of_index(items@, self.pos as int);
                        if self.plist.wf() {
                            assert(items@[self.pos as int].wf());
                        }
                    }
                    let item = items[self.pos].alias_copy(
                        NodeOrigin::ArrayEntry { idx: self.pos as u32 },
                    );
                    self.pos = self.pos + 1;
                    Some(PlistItem { plist: item, key: None })
                } else {
                    None
                }
            },
            crate::PlistValue::Dictionary(entries) => {
                proof {
                    assert(self.plist@->entries == crate::entry_views_of(entries@));
                    crate::lemma_entry_views_of_len(entries@);
                }
                if self.pos < entries.len() {
                    proof {
                        crate::lemma_entry_views_of_index(entries@, self.pos as int);
                        if self.plist.wf() {
                            assert(entries@[self.pos as int].1.wf());
                        }
                    }
                    let key = entries[self.pos].0.clone();
                    let item = entries[self.pos].1.alias_copy(
                        NodeOrigin::DictEntry { key: key.clone() },
                    );
                    self.pos = self.pos + 1;
                    Some(PlistItem { plist: item, key: Some(key) })
                } else {
                    None
                }
            },
            _ => None,
        }
    }
}

impl Plist {
    /// Begins a traversal over this node's children, consuming the handle:
    /// the cursor owns the node for the traversal's whole lifetime.  Only
    /// arrays and dictionaries can be traversed; that is this call's
    /// precondition, so callers kind-check first.
    pub fn into_iter(self) -> (r: PlistIterator)
        requires
            self@ is Arr || self@ is Dict,
        ensures
            r.source() == self@,
            r.source_wf() == self.wf(),
            r.cursor() == 0,
            r.wf(),
    {
        PlistIterator { plist: self, pos: 0 }
    }
}

} // verus!
