//! Array nodes: ordered containers of child nodes.
//!
//! Inserting a node into an array adopts it: the call consumes the handle,
//! so the array becomes the sole owner of the adopted subtree and no other
//! handle can release it.  Reading an entry yields a borrowed-alias handle
//! that mirrors the entry's value while the array keeps its own storage.

use vstd::prelude::*;

use crate::error::PlistError;
use crate::{
    fresh_id, item_count, lemma_view_unfold, lemma_views_of_index, lemma_views_of_insert,
    lemma_views_of_len, lemma_views_of_push, lemma_views_of_remove, lemma_views_of_update,
    node_count, node_view, views_of, NodeOrigin, OwnershipState, PNode, Plist, PlistType,
    PlistValue,
};

verus! {

broadcast use {lemma_view_unfold, lemma_views_of_len, lemma_views_of_index};

impl Plist {
    /// Returns a new owning node with array kind, empty.
    pub fn new_array() -> (r: Plist)
        ensures
            r@ == (PNode::Arr { items: Seq::empty() }),
            r.wf(),
            r.owning(),
    {
        Plist {
            value: PlistValue::Array(Vec::new()),
            plist_type: PlistType::Array,
            ownership: OwnershipState::Owning,
            origin: NodeOrigin::Detached,
            id: fresh_id(),
        }
    }

    /// Returns the number of elements in the array; any other kind is
    /// refused.
    pub fn array_get_size(&self) -> (r: Result<u32, PlistError>)
        requires
            self@ is Arr ==> self@->items.len() <= u32::MAX,
        ensures
            self@ is Arr ==> r == Ok::<u32, PlistError>(self@->items.len() as u32),
            !(self@ is Arr) ==> r == Err::<u32, PlistError>(PlistError::InvalidArg),
    {
        match &self.value {
            PlistValue::Array(items) => {
                proof {
                    assert(self@->items == views_of(items@));
                    lemma_views_of_len(items@);
                }
                Ok(items.len() as u32)
            },
            _ => Err(PlistError::InvalidArg),
        }
    }

    /// Returns a borrowed-alias handle mirroring the element at the given
    /// index.  The array keeps sole ownership of its entry, so the handle
    /// can be dropped freely without touching the array's storage.  A
    /// non-array node or an out-of-range index is refused.
    pub fn array_get_item(&self, index: u32) -> (r: Result<Plist, PlistError>)
        ensures
            self@ is Arr && index < self@->items.len() ==> {
                &&& r is Ok
                &&& r->Ok_0@ == self@->items[index as int]
                &&& !r->Ok_0.owning()
                &&& r->Ok_0.node_origin() == (NodeOrigin::ArrayEntry { idx: index })
                &&& (self.wf() ==> r->Ok_0.wf())
            },
            !(self@ is Arr && index < self@->items.len()) ==> r == Err::<Plist, PlistError>(
                PlistError::InvalidArg,
            ),
    {
        match &self.value {
            PlistValue::Array(items) => {
                proof {
                    assert(self@->items == views_of(items@));
                    lemma_views_of_len(items@);
                }
                if (index as usize) < items.len() {
                    let r = items[index as usize].alias_copy(NodeOrigin::ArrayEntry { idx: index });
                    proof {
                        lemma_views_of_index(items@, index as int);
                    }
                    Ok(r)
                } else {
                    Err(PlistError::InvalidArg)
                }
            },
            _ => Err(PlistError::InvalidArg),
        }
    }

    /// Returns the index this handle was extracted from, when it was read
    /// out of an array; a handle with any other origin is refused.
    pub fn array_get_item_index(&self) -> (r: Result<u32, PlistError>)
        ensures
            self.node_origin() is ArrayEntry ==> r == Ok::<u32, PlistError>(
                self.node_origin()->idx,
            ),
            !(self.node_origin() is ArrayEntry) ==> r == Err::<u32, PlistError>(
                PlistError::InvalidArg,
            ),
    {
        match &self.origin {
            NodeOrigin::ArrayEntry { idx } => Ok(*idx),
            _ => Err(PlistError::InvalidArg),
        }
    }

    /// Overwrites the element at the given index, adopting the new item's
    /// subtree and releasing the previous element's storage.  A non-array
    /// node or an out-of-range index is refused; the item is then merely
    /// discarded.
    #[verifier::loop_isolation(false)]
    pub fn array_set_item(&mut self, item: Plist, index: u32) -> (r: Result<(), PlistError>)
        ensures
            old(self)@ is Arr && index < old(self)@->items.len() ==> r == Ok::<(), PlistError>(())
                && final(self)@ == (PNode::Arr {
                items: old(self)@->items.update(index as int, item@),
            }),
            !(old(self)@ is Arr && index < old(self)@->items.len()) ==> r == Err::<(),
            PlistError>(PlistError::InvalidArg) && *final(self) == *old(self),
            final(self).cached_kind() == old(self).cached_kind(),
            final(self).owning() == old(self).owning(),
            old(self).wf() && item.wf() ==> final(self).wf(),
    {
        match &mut self.value {
            PlistValue::Array(items) => {
                proof {
                    assert(old(self)@->items == views_of(items@));
                    lemma_views_of_len(items@);
                }
                if (index as usize) < items.len() {
                    let ghost old_items = items@;
                    items.remove(index as usize);
                    items.insert(index as usize, item);
                    proof {
                        assert(items@ =~= old_items.update(index as int, item));
                        lemma_views_of_update(old_items, index as int, item);
                        assert(old(self)@->items == views_of(old_items));
                        assert(self@->items == views_of(items@));
                        assert(self@ =~= (PNode::Arr {
                            items: old(self)@->items.update(index as int, item@),
                        }));
                    }
                    Ok(())
                } else {
                    Err(PlistError::InvalidArg)
                }
            },
            _ => Err(PlistError::InvalidArg),
        }
    }

    /// Appends the item to the array, adopting its subtree: the call
    /// consumes the handle, so the array is the sole owner of the new
    /// entry's storage.  A non-array node is refused; the item is then
    /// merely discarded.
    #[verifier::loop_isolation(false)]
    pub fn array_append_item(&mut self, item: Plist) -> (r: Result<(), PlistError>)
        ensures
            old(self)@ is Arr ==> r == Ok::<(), PlistError>(()) && final(self)@ == (PNode::Arr {
                items: old(self)@->items.push(item@),
            }),
            !(old(self)@ is Arr) ==> r == Err::<(), PlistError>(PlistError::InvalidArg)
                && *final(self) == *old(self),
            final(self).cached_kind() == old(self).cached_kind(),
            final(self).owning() == old(self).owning(),
            old(self).wf() && item.wf() ==> final(self).wf(),
    {
        match &mut self.value {
            PlistValue::Array(items) => {
                proof {
                    assert(old(self)@->items == views_of(items@));
                    lemma_views_of_len(items@);
                }
                let ghost old_items = items@;
                items.push(item);
                proof {
                    lemma_views_of_push(old_items, item);
                    assert(old(self)@->items == views_of(old_items));
                    assert(self@->items == views_of(items@));
                    assert(self@ =~= (PNode::Arr { items: old(self)@->items.push(item@) }));
                }
                Ok(())
            },
            _ => Err(PlistError::InvalidArg),
        }
    }

    /// Inserts the item at the given index, shifting later elements up and
    /// adopting the item's subtree.  A non-array node or an index past the
    /// end is refused; the item is then merely discarded.
    #[verifier::loop_isolation(false)]
    pub fn array_insert_item(&mut self, item: Plist, index: u32) -> (r: Result<(), PlistError>)
        ensures
            old(self)@ is Arr && index <= old(self)@->items.len() ==> r == Ok::<(), PlistError>(())
                && final(self)@ == (PNode::Arr {
                items: old(self)@->items.insert(index as int, item@),
            }),
            !(old(self)@ is Arr && index <= old(self)@->items.len()) ==> r == Err::<(),
            PlistError>(PlistError::InvalidArg) && *final(self) == *old(self),
            final(self).cached_kind() == old(self).cached_kind(),
            final(self).owning() == old(self).owning(),
            old(self).wf() && item.wf() ==> final(self).wf(),
    {
        match &mut self.value {
            PlistValue::Array(items) => {
                proof {
                    assert(old(self)@->items == views_of(items@));
                    lemma_views_of_len(items@);
                }
                if (index as usize) <= items.len() {
                    let ghost old_items = items@;
                    items.insert(index as usize, item);
                    proof {
                        lemma_views_of_insert(old_items, index as int, item);
                        assert(old(self)@->items == views_of(old_items));
                        assert(self@->items == views_of(items@));
                        assert(self@ =~= (PNode::Arr {
                            items: old(self)@->items.insert(index as int, item@),
                        }));
                    }
                    Ok(())
                } else {
                    Err(PlistError::InvalidArg)
                }
            },
            _ => Err(PlistError::InvalidArg),
        }
    }

    /// Detaches and releases the element at the given index, shifting later
    /// elements down.  A non-array node or an out-of-range index is
    /// refused.
    #[verifier::loop_isolation(false)]
    pub fn array_remove_item(&mut self, index: u32) -> (r: Result<(), PlistError>)
        ensures
            old(self)@ is Arr && index < old(self)@->items.len() ==> r == Ok::<(), PlistError>(())
                && final(self)@ == (PNode::Arr {
                items: old(self)@->items.remove(index as int),
            }),
            !(old(self)@ is Arr && index < old(self)@->items.len()) ==> r == Err::<(),
            PlistError>(PlistError::InvalidArg) && *final(self) == *old(self),
            final(self).cached_kind() == old(self).cached_kind(),
            final(self).owning() == old(self).owning(),
            old(self).wf() ==> final(self).wf(),
    {
        match &mut self.value {
            PlistValue::Array(items) => {
                proof {
                    assert(old(self)@->items == views_of(items@));
                    lemma_views_of_len(items@);
                }
                if (index as usize) < items.len() {
                    let ghost old_items = items@;
                    items.remove(index as usize);
                    proof {
                        lemma_views_of_remove(old_items, index as int);
                        assert(old(self)@->items == views_of(old_items));
                        assert(self@->items == views_of(items@));
                        assert(self@ =~= (PNode::Arr {
                            items: old(self)@->items.remove(index as int),
                        }));
                    }
                    Ok(())
                } else {
                    Err(PlistError::InvalidArg)
                }
            },
            _ => Err(PlistError::InvalidArg),
        }
    }
}

/// Law (ownership without double release): adopting a node into an array
/// moves the responsibility for the node's whole subtree into the array in
/// one step.  The storage units owned through the array after the append
/// are exactly its previous units plus the adopted node's units: every
/// unit is owned exactly once, none twice and none is lost; the adopting
/// caller's handle was consumed by the append.
pub proof fn lemma_append_moves_storage(arr: PNode, c: PNode)
    requires
        arr is Arr,
    ensures
        node_count(PNode::Arr { items: arr->items.push(c) }) == node_count(arr) + node_count(c),
{
    assert(arr->items.push(c).drop_last() =~= arr->items);
}

/// Law (insertion order): appending to an array keeps every existing
/// element at its index and places the appended value at the old size, so
/// appending values and then reading indices back in order reproduces the
/// insertion order.
pub proof fn lemma_append_order(items: Seq<PNode>, c: PNode)
    ensures
        items.push(c).len() == items.len() + 1,
        items.push(c)[items.len() as int] == c,
        forall|j: int| 0 <= j < items.len() ==> #[trigger] items.push(c)[j] == items[j],
{
}

proof fn lemma_item_count_remove(items: Seq<PNode>, i: int)
    requires
        0 <= i < items.len(),
    ensures
        item_count(items.remove(i)) + node_count(items[i]) == item_count(items),
    decreases items.len(),
{
    if i == items.len() - 1 {
        assert(items.remove(i) =~= items.drop_last());
        assert(items.last() == items[i]);
    } else {
        lemma_item_count_remove(items.drop_last(), i);
        assert(items.remove(i).drop_last() =~= items.drop_last().remove(i));
        assert(items.remove(i).last() == items.last());
        assert(item_count(items.remove(i)) == item_count(items.drop_last().remove(i))
            + node_count(items.last()));
    }
}

/// Law (ownership without leak, release on detach): removing an element
/// detaches exactly that element's subtree from the array's storage.  The
/// units owned through the array afterwards, plus the removed element's
/// units, are exactly the units owned before: the detached subtree is
/// released once and the rest stays intact.
pub proof fn lemma_remove_releases_storage(arr: PNode, i: int)
    requires
        arr is Arr,
        0 <= i < arr->items.len(),
    ensures
        node_count(PNode::Arr { items: arr->items.remove(i) }) + node_count(arr->items[i])
            == node_count(arr),
{
    lemma_item_count_remove(arr->items, i);
}

} // verus!
