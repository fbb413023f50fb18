//! Dictionary nodes: keyed containers of child nodes with unique keys, in
//! insertion order.
//!
//! Setting a key adopts the item: the call consumes the handle, and when
//! the key already exists the previous value's storage is released with
//! the replacement.  Reading an entry yields a borrowed-alias handle
//! stamped with the key it was read under.

use vstd::prelude::*;
use vstd::string::*;

use crate::error::PlistError;
use crate::{
    entry_count, entry_views_of, fresh_id, keys_unique, lemma_entry_views_of_index,
    lemma_entry_views_of_len, lemma_entry_views_of_push, lemma_entry_views_of_remove,
    lemma_entry_views_of_update, lemma_view_unfold, no_nul, node_count, node_view, NodeOrigin,
    OwnershipState, PNode, Plist, PlistType, PlistValue,
};

verus! {

broadcast use {lemma_view_unfold, lemma_entry_views_of_len, lemma_entry_views_of_index};

/// The value stored under a key: the first entry whose key matches, if
/// any.  Under unique keys it is the only one.
pub open spec fn dict_lookup(entries: Seq<(Seq<char>, PNode)>, key: Seq<char>) -> Option<PNode>
    decreases entries.len(),
{
    if entries.len() == 0 {
        Option::None
    } else if entries[0].0 == key {
        Option::Some(entries[0].1)
    } else {
        dict_lookup(entries.drop_first(), key)
    }
}

/// The entries after setting a key: the first entry with that key is
/// replaced in place, or a new entry is appended when the key is absent.
pub open spec fn dict_set(
    entries: Seq<(Seq<char>, PNode)>,
    key: Seq<char>,
    v: PNode,
) -> Seq<(Seq<char>, PNode)>
    decreases entries.len(),
{
    if entries.len() == 0 {
        seq![(key, v)]
    } else if entries[0].0 == key {
        seq![(key, v)] + entries.drop_first()
    } else {
        seq![entries[0]] + dict_set(entries.drop_first(), key, v)
    }
}

/// The entries after removing a key: the first entry with that key is
/// dropped; absent keys leave the entries unchanged.
pub open spec fn dict_remove(
    entries: Seq<(Seq<char>, PNode)>,
    key: Seq<char>,
) -> Seq<(Seq<char>, PNode)>
    decreases entries.len(),
{
    if entries.len() == 0 {
        entries
    } else if entries[0].0 == key {
        entries.drop_first()
    } else {
        seq![entries[0]] + dict_remove(entries.drop_first(), key)
    }
}

/// The entries after merging another dictionary in: each of the other's
/// entries is set in order, overwriting keys already present.
pub open spec fn dict_merge_spec(
    entries: Seq<(Seq<char>, PNode)>,
    other: Seq<(Seq<char>, PNode)>,
) -> Seq<(Seq<char>, PNode)>
    decreases other.len(),
{
    if other.len() == 0 {
        entries
    } else {
        dict_merge_spec(dict_set(entries, other[0].0, other[0].1), other.drop_first())
    }
}

proof fn lemma_dict_lookup_found(entries: Seq<(Seq<char>, PNode)>, key: Seq<char>, i: int)
    requires
        0 <= i < entries.len(),
        entries[i].0 == key,
        forall|j: int| 0 <= j < i ==> (#[trigger] entries[j]).0 != key,
    ensures
        dict_lookup(entries, key) == Option::Some(entries[i].1),
    decreases i,
{
    if i > 0 {
        lemma_dict_lookup_found(entries.drop_first(), key, i - 1);
    }
}

proof fn lemma_dict_lookup_not_found(entries: Seq<(Seq<char>, PNode)>, key: Seq<char>)
    requires
        forall|j: int| 0 <= j < entries.len() ==> (#[trigger] entries[j]).0 != key,
    ensures
        dict_lookup(entries, key) is None,
    decreases entries.len(),
{
    if entries.len() > 0 {
        lemma_dict_lookup_not_found(entries.drop_first(), key);
    }
}

proof fn lemma_dict_set_found(entries: Seq<(Seq<char>, PNode)>, key: Seq<char>, v: PNode, i: int)
    requires
        0 <= i < entries.len(),
        entries[i].0 == key,
        forall|j: int| 0 <= j < i ==> (#[trigger] entries[j]).0 != key,
    ensures
        dict_set(entries, key, v) == entries.update(i, (key, v)),
    decreases i,
{
    if i == 0 {
        assert(dict_set(entries, key, v) =~= entries.update(0, (key, v)));
    } else {
        lemma_dict_set_found(entries.drop_first(), key, v, i - 1);
        assert(seq![entries[0]] + entries.drop_first().update(i - 1, (key, v)) =~= entries.update(
            i,
            (key, v),
        ));
    }
}

proof fn lemma_dict_set_not_found(entries: Seq<(Seq<char>, PNode)>, key: Seq<char>, v: PNode)
    requires
        forall|j: int| 0 <= j < entries.len() ==> (#[trigger] entries[j]).0 != key,
    ensures
        dict_set(entries, key, v) == entries.push((key, v)),
    decreases entries.len(),
{
    if entries.len() == 0 {
        assert(dict_set(entries, key, v) =~= entries.push((key, v)));
    } else {
        lemma_dict_set_not_found(entries.drop_first(), key, v);
        assert(seq![entries[0]] + entries.drop_first().push((key, v)) =~= entries.push((key, v)));
    }
}

proof fn lemma_dict_remove_found(entries: Seq<(Seq<char>, PNode)>, key: Seq<char>, i: int)
    requires
        0 <= i < entries.len(),
        entries[i].0 == key,
        forall|j: int| 0 <= j < i ==> (#[trigger] entries[j]).0 != key,
    ensures
        dict_remove(entries, key) == entries.remove(i),
    decreases i,
{
    if i == 0 {
        assert(dict_remove(entries, key) =~= entries.remove(0));
    } else {
        lemma_dict_remove_found(entries.drop_first(), key, i - 1);
        assert(seq![entries[0]] + entries.drop_first().remove(i - 1) =~= entries.remove(i));
    }
}

proof fn lemma_dict_remove_not_found(entries: Seq<(Seq<char>, PNode)>, key: Seq<char>)
    requires
        forall|j: int| 0 <= j < entries.len() ==> (#[trigger] entries[j]).0 != key,
    ensures
        dict_remove(entries, key) == entries,
    decreases entries.len(),
{
    if entries.len() == 0 {
    } else {
        lemma_dict_remove_not_found(entries.drop_first(), key);
        assert(seq![entries[0]] + entries.drop_first() =~= entries);
    }
}

/// The position of the first entry whose key equals `key`, if any.
#[verifier::loop_isolation(false)]
pub(crate) fn find_key(entries: &Vec<(String, Plist)>, key: &String) -> (r: Option<usize>)
    ensures
        r is Some ==> r->0 < entries@.len() && entries@[r->0 as int].0@ == key@ && forall|j: int|
            0 <= j < r->0 ==> (#[trigger] entries@[j]).0@ != key@,
        r is None ==> forall|j: int|
            0 <= j < entries@.len() ==> (#[trigger] entries@[j]).0@ != key@,
{
    let mut idx: usize = 0;
    while idx < entries.len()
        invariant
            0 <= idx <= entries@.len(),
            forall|j: int| 0 <= j < idx ==> (#[trigger] entries@[j]).0@ != key@,
        decreases entries@.len() - idx,
    {
        if entries[idx].0 == *key {
            return Some(idx);
        }
        idx += 1;
    }
    None
}

impl Plist {
    /// Returns a new owning node with dictionary kind, empty.
    pub fn new_dict() -> (r: Plist)
        ensures
            r@ == (PNode::Dict { entries: Seq::empty() }),
            r.wf(),
            r.owning(),
    {
        Plist {
            value: PlistValue::Dictionary(Vec::new()),
            plist_type: PlistType::Dictionary,
            ownership: OwnershipState::Owning,
            origin: NodeOrigin::Detached,
            id: fresh_id(),
        }
    }

    /// Returns the number of entries in the dictionary; any other kind is
    /// refused.
    pub fn dict_get_size(&self) -> (r: Result<u32, PlistError>)
        requires
            self@ is Dict ==> self@->entries.len() <= u32::MAX,
        ensures
            self@ is Dict ==> r == Ok::<u32, PlistError>(self@->entries.len() as u32),
            !(self@ is Dict) ==> r == Err::<u32, PlistError>(PlistError::InvalidArg),
    {
        match &self.value {
            PlistValue::Dictionary(entries) => {
                proof {
                    assert(self@->entries == entry_views_of(entries@));
                }
                Ok(entries.len() as u32)
            },
            _ => Err(PlistError::InvalidArg),
        }
    }

    /// Returns the key this handle was extracted under, when it was read
    /// out of a dictionary; a handle with any other origin is refused.
    pub fn dict_get_item_key(&self) -> (r: Result<String, PlistError>)
        ensures
            self.node_origin() is DictEntry ==> r is Ok && r->Ok_0@ == self.node_origin()->key@,
            !(self.node_origin() is DictEntry) ==> r == Err::<String, PlistError>(
                PlistError::InvalidArg,
            ),
    {
        match &self.origin {
            NodeOrigin::DictEntry { key } => Ok(key.clone()),
            _ => Err(PlistError::InvalidArg),
        }
    }

    /// Returns the key this handle was extracted under as a key-kind node;
    /// a handle with any other origin is refused.
    pub fn dict_item_get_key(&self) -> (r: Result<Plist, PlistError>)
        ensures
            self.node_origin() is DictEntry ==> r is Ok && r->Ok_0@ == (PNode::Key {
                k: self.node_origin()->key@,
            }) && (no_nul(self.node_origin()->key@) ==> r->Ok_0.wf()),
            !(self.node_origin() is DictEntry) ==> r == Err::<Plist, PlistError>(
                PlistError::InvalidArg,
            ),
    {
        match &self.origin {
            NodeOrigin::DictEntry { key } => Ok(
                Plist {
                    value: PlistValue::KeyName(key.clone()),
                    plist_type: PlistType::Key,
                    ownership: OwnershipState::Owning,
                    origin: NodeOrigin::Detached,
                    id: fresh_id(),
                },
            ),
            _ => Err(PlistError::InvalidArg),
        }
    }

    /// Returns a borrowed-alias handle mirroring the value stored under
    /// the given key.  The dictionary keeps sole ownership of its entry.
    /// A non-dictionary node or an absent key is refused.
    #[verifier::loop_isolation(false)]
    pub fn dict_get_item(&self, key: &str) -> (r: Result<Plist, PlistError>)
        requires
            no_nul(key@),
        ensures
            self@ is Dict && dict_lookup(self@->entries, key@) is Some ==> {
                &&& r is Ok
                &&& r->Ok_0@ == dict_lookup(self@->entries, key@)->0
                &&& !r->Ok_0.owning()
                &&& r->Ok_0.node_origin() is DictEntry
                &&& r->Ok_0.node_origin()->key@ == key@
                &&& (self.wf() ==> r->Ok_0.wf())
            },
            !(self@ is Dict && dict_lookup(self@->entries, key@) is Some) ==> r == Err::<Plist,
            PlistError>(PlistError::InvalidArg),
    {
        match &self.value {
            PlistValue::Dictionary(entries) => {
                proof {
                    assert(self@->entries == entry_views_of(entries@));
                }
                let key_owned = String::from_str(key);
                match find_key(entries, &key_owned) {
                    Some(i) => {
                        proof {
                            lemma_dict_lookup_found(entry_views_of(entries@), key@, i as int);
                            if self.wf() {
                                assert(entries@[i as int].1.wf());
                            }
                        }
                        Ok(
                            entries[i].1.alias_copy(NodeOrigin::DictEntry { key: key_owned }),
                        )
                    },
                    None => {
                        proof {
                            lemma_dict_lookup_not_found(entry_views_of(entries@), key@);
                        }
                        Err(PlistError::InvalidArg)
                    },
                }
            },
            _ => Err(PlistError::InvalidArg),
        }
    }

    /// Sets the item under the given key, adopting the item's subtree: the
    /// call consumes the handle.  When the key is already present its
    /// previous value's storage is released with the replacement; keys
    /// stay unique.  A non-dictionary node is refused; the item is then
    /// merely discarded.
    #[verifier::loop_isolation(false)]
    #[verifier::rlimit(60)]
    pub fn dict_set_item(&mut self, key: &str, item: Plist) -> (r: Result<(), PlistError>)
        requires
            no_nul(key@),
        ensures
            old(self)@ is Dict ==> r == Ok::<(), PlistError>(()) && final(self)@ == (PNode::Dict {
                entries: dict_set(old(self)@->entries, key@, item@),
            }),
            !(old(self)@ is Dict) ==> r == Err::<(), PlistError>(PlistError::InvalidArg)
                && *final(self) == *old(self),
            final(self).cached_kind() == old(self).cached_kind(),
            final(self).owning() == old(self).owning(),
            old(self).wf() && item.wf() ==> final(self).wf(),
    {
        match &mut self.value {
            PlistValue::Dictionary(entries) => {
                proof {
                    assert(old(self)@->entries == entry_views_of(entries@));
                }
                let ghost old_entries = entries@;
                let key_owned = String::from_str(key);
                match find_key(entries, &key_owned) {
                    Some(i) => {
                        entries.remove(i);
                        entries.insert(i, (key_owned, item));
                        proof {
                            assert(entries@ =~= old_entries.update(
                                i as int,
                                (key_owned, item),
                            ));
                            lemma_entry_views_of_update(old_entries, i as int, (key_owned, item));
                            lemma_dict_set_found(
                                entry_views_of(old_entries),
                                key@,
                                item@,
                                i as int,
                            );
                            assert(self@ =~= (PNode::Dict {
                                entries: dict_set(old(self)@->entries, key@, item@),
                            }));
                            if old(self).wf() && item.wf() {
                                let nv = entry_views_of(entries@);
                                let ov = entry_views_of(old_entries);
                                assert(ov[i as int].0 == key@);
                                assert forall|j: int, l: int|
                                    0 <= j < l < nv.len() implies nv[j].0 != nv[l].0 by {
                                    assert(nv[j].0 == ov[j].0);
                                    assert(nv[l].0 == ov[l].0);
                                }
                                assert(keys_unique(nv));
                                assert forall|j: int|
                                    0 <= j < entries@.len() implies no_nul(
                                    (#[trigger] entries@[j]).0@,
                                ) && entries@[j].1.wf() by {
                                    if j != i {
                                        assert(entries@[j] == old_entries[j]);
                                    }
                                }
                                assert(self.wf());
                            }
                        }
                    },
                    None => {
                        entries.push((key_owned, item));
                        proof {
                            lemma_entry_views_of_push(old_entries, (key_owned, item));
                            lemma_dict_set_not_found(entry_views_of(old_entries), key@, item@);
                            assert(self@ =~= (PNode::Dict {
                                entries: dict_set(old(self)@->entries, key@, item@),
                            }));
                            if old(self).wf() && item.wf() {
                                let nv = entry_views_of(entries@);
                                let ov = entry_views_of(old_entries);
                                assert forall|j: int, l: int|
                                    0 <= j < l < nv.len() implies nv[j].0 != nv[l].0 by {
                                    if l < ov.len() {
                                        assert(nv[j].0 == ov[j].0);
                                        assert(nv[l].0 == ov[l].0);
                                    } else {
                                        assert(nv[j].0 == ov[j].0);
                                        assert(ov[j].0 == old_entries[j].0@);
                                        assert(nv[l].0 == key@);
                                    }
                                }
                                assert(keys_unique(nv));
                                assert forall|j: int|
                                    0 <= j < entries@.len() implies no_nul(
                                    (#[trigger] entries@[j]).0@,
                                ) && entries@[j].1.wf() by {
                                    if j < old_entries.len() {
                                        assert(entries@[j] == old_entries[j]);
                                    }
                                }
                                assert(self.wf());
                            }
                        }
                    },
                }
                Ok(())
            },
            _ => Err(PlistError::InvalidArg),
        }
    }

    /// Inserts the item under the given key; the same replace-or-append
    /// adoption as [`Plist::dict_set_item`], under the insertion entry
    /// point's own name.
    pub fn dict_insert_item(&mut self, key: &str, item: Plist) -> (r: Result<(), PlistError>)
        requires
            no_nul(key@),
        ensures
            old(self)@ is Dict ==> r == Ok::<(), PlistError>(()) && final(self)@ == (PNode::Dict {
                entries: dict_set(old(self)@->entries, key@, item@),
            }),
            !(old(self)@ is Dict) ==> r == Err::<(), PlistError>(PlistError::InvalidArg)
                && *final(self) == *old(self),
            final(self).cached_kind() == old(self).cached_kind(),
            final(self).owning() == old(self).owning(),
            old(self).wf() && item.wf() ==> final(self).wf(),
    {
        self.dict_set_item(key, item)
    }

    /// Detaches and releases the entry under the given key; an absent key
    /// leaves the dictionary unchanged.  A non-dictionary node is refused.
    #[verifier::loop_isolation(false)]
    pub fn dict_remove_item(&mut self, key: &str) -> (r: Result<(), PlistError>)
        requires
            no_nul(key@),
        ensures
            old(self)@ is Dict ==> r == Ok::<(), PlistError>(()) && final(self)@ == (PNode::Dict {
                entries: dict_remove(old(self)@->entries, key@),
            }),
            !(old(self)@ is Dict) ==> r == Err::<(), PlistError>(PlistError::InvalidArg)
                && *final(self) == *old(self),
            final(self).cached_kind() == old(self).cached_kind(),
            final(self).owning() == old(self).owning(),
            old(self).wf() ==> final(self).wf(),
    {
        match &mut self.value {
            PlistValue::Dictionary(entries) => {
                proof {
                    assert(old(self)@->entries == entry_views_of(entries@));
                }
                let ghost old_entries = entries@;
                let key_owned = String::from_str(key);
                match find_key(entries, &key_owned) {
                    Some(i) => {
                        entries.remove(i);
                        proof {
                            lemma_entry_views_of_remove(old_entries, i as int);
                            lemma_dict_remove_found(entry_views_of(old_entries), key@, i as int);
                            assert(self@ =~= (PNode::Dict {
                                entries: dict_remove(old(self)@->entries, key@),
                            }));
                        }
                    },
                    None => {
                        proof {
                            lemma_dict_remove_not_found(entry_views_of(old_entries), key@);
                            assert(self@ =~= (PNode::Dict {
                                entries: dict_remove(old(self)@->entries, key@),
                            }));
                        }
                    },
                }
                Ok(())
            },
            _ => Err(PlistError::InvalidArg),
        }
    }

    /// Merges another dictionary into this one: every entry of the other
    /// dictionary is set in order, overwriting values of keys already
    /// present.  The other dictionary's storage is fully adopted: the call
    /// consumes its handle.  A non-dictionary on either side is refused;
    /// the other handle is then merely discarded.
    #[verifier::loop_isolation(false)]
    pub fn dict_merge(&mut self, dict: Plist) -> (r: Result<(), PlistError>)
        requires
            dict.wf(),
        ensures
            old(self)@ is Dict && dict@ is Dict ==> r == Ok::<(), PlistError>(()) && final(self)@
                == (PNode::Dict {
                entries: dict_merge_spec(old(self)@->entries, dict@->entries),
            }),
            !(old(self)@ is Dict && dict@ is Dict) ==> r == Err::<(), PlistError>(
                PlistError::InvalidArg,
            ) && *final(self) == *old(self),
            final(self).cached_kind() == old(self).cached_kind(),
            final(self).owning() == old(self).owning(),
            old(self).wf() ==> final(self).wf(),
    {
        let self_is_dict = match &self.value {
            PlistValue::Dictionary(_) => true,
            _ => false,
        };
        if !self_is_dict {
            return Err(PlistError::InvalidArg);
        }
        let mut other = match dict.value {
            PlistValue::Dictionary(entries) => entries,
            _ => {
                return Err(PlistError::InvalidArg);
            },
        };
        let ghost other_views = entry_views_of(other@);
        let ghost start = self@->entries;
        let mut step: usize = 0;
        proof {
            assert(dict@->entries == other_views);
        }
        while other.len() > 0
            invariant
                self@ is Dict,
                self.cached_kind() == old(self).cached_kind(),
                self.owning() == old(self).owning(),
                old(self).wf() ==> self.wf(),
                dict_merge_spec(start, other_views) == dict_merge_spec(
                    self@->entries,
                    entry_views_of(other@),
                ),
                forall|j: int|
                    0 <= j < other@.len() ==> no_nul((#[trigger] other@[j]).0@)
                        && other@[j].1.wf(),
            decreases other@.len(),
        {
            let ghost pre_other = other@;
            let (k, v) = other.remove(0);
            proof {
                lemma_entry_views_of_remove(pre_other, 0);
                assert(entry_views_of(pre_other)[0] == (k@, v@));
                assert(entry_views_of(other@) =~= entry_views_of(pre_other).drop_first());
            }
            let rr = self.dict_set_item(k.as_str(), v);
            proof {
                assert(rr is Ok);
            }
        }
        proof {
            assert(entry_views_of(other@) =~= Seq::<(Seq<char>, PNode)>::empty());
            assert(dict_merge_spec(start, other_views) == self@->entries);
            assert(self@ =~= (PNode::Dict {
                entries: dict_merge_spec(old(self)@->entries, dict@->entries),
            }));
        }
        Ok(())
    }
}

/// Law (ownership without double release): adopting a node into a
/// dictionary under a fresh key moves the responsibility for the node's
/// whole subtree into the dictionary in one step.  The storage units owned
/// through the dictionary after the insertion are exactly its previous
/// units plus the adopted node's units: every unit is owned exactly once,
/// none twice and none is lost; the adopting caller's handle was consumed
/// by the insertion.
pub proof fn lemma_dict_insert_moves_storage(d: PNode, key: Seq<char>, c: PNode)
    requires
        d is Dict,
        dict_lookup(d->entries, key) is None,
    ensures
        node_count(PNode::Dict { entries: dict_set(d->entries, key, c) }) == node_count(d)
            + node_count(c),
{
    lemma_dict_set_no_match_count(d->entries, key, c);
}

proof fn lemma_dict_set_no_match_count(entries: Seq<(Seq<char>, PNode)>, key: Seq<char>, c: PNode)
    requires
        dict_lookup(entries, key) is None,
    ensures
        entry_count(dict_set(entries, key, c)) == entry_count(entries) + node_count(c),
    decreases entries.len(),
{
    if entries.len() == 0 {
        assert(dict_set(entries, key, c) =~= entries.push((key, c)));
        assert(entries.push((key, c)).drop_last() =~= entries);
    } else {
        assert(entries[0].0 != key);
        lemma_dict_set_no_match_count(entries.drop_first(), key, c);
        lemma_entry_count_cons(entries[0], dict_set(entries.drop_first(), key, c));
        lemma_entry_count_cons(entries[0], entries.drop_first());
        assert(seq![entries[0]] + entries.drop_first() =~= entries);
    }
}

proof fn lemma_entry_count_cons(e: (Seq<char>, PNode), rest: Seq<(Seq<char>, PNode)>)
    ensures
        entry_count(seq![e] + rest) == node_count(e.1) + entry_count(rest),
    decreases rest.len(),
{
    if rest.len() == 0 {
        assert(seq![e] + rest =~= seq![e]);
        assert(seq![e].drop_last() =~= Seq::<(Seq<char>, PNode)>::empty());
        assert(entry_count(seq![e].drop_last()) == 0);
        assert(seq![e].last() == e);
        assert(entry_count(seq![e]) == node_count(e.1));
        assert(entry_count(rest) == 0);
    } else {
        let s = seq![e] + rest;
        assert(s.drop_last() =~= seq![e] + rest.drop_last());
        assert(s.last() == rest.last());
        lemma_entry_count_cons(e, rest.drop_last());
        assert(entry_count(s) == entry_count(s.drop_last()) + node_count(s.last().1));
        assert(entry_count(rest) == entry_count(rest.drop_last()) + node_count(rest.last().1));
    }
}

/// Law (keyed read after write): looking a key up after setting it finds
/// exactly the value just set, and every other key's binding is
/// untouched.
pub proof fn lemma_dict_set_lookup(
    entries: Seq<(Seq<char>, PNode)>,
    key: Seq<char>,
    v: PNode,
    probe: Seq<char>,
)
    ensures
        probe == key ==> dict_lookup(dict_set(entries, key, v), probe) == Option::Some(v),
        probe != key ==> dict_lookup(dict_set(entries, key, v), probe) == dict_lookup(
            entries,
            probe,
        ),
    decreases entries.len(),
{
    reveal_with_fuel(dict_lookup, 3);
    reveal_with_fuel(dict_set, 3);
    if entries.len() == 0 {
        assert(dict_set(entries, key, v) =~= seq![(key, v)]);
        assert(seq![(key, v)].drop_first() =~= Seq::<(Seq<char>, PNode)>::empty());
    } else if entries[0].0 == key {
        assert(dict_set(entries, key, v) == seq![(key, v)] + entries.drop_first());
        assert((seq![(key, v)] + entries.drop_first()).drop_first() =~= entries.drop_first());
    } else {
        lemma_dict_set_lookup(entries.drop_first(), key, v, probe);
        let d = seq![entries[0]] + dict_set(entries.drop_first(), key, v);
        assert(dict_set(entries, key, v) == d);
        assert(d.drop_first() =~= dict_set(entries.drop_first(), key, v));
        assert(d[0] == entries[0]);
    }
}

/// Law (dictionary size under set): setting a key that is already bound
/// keeps the number of entries; setting a fresh key grows it by one.
pub proof fn lemma_dict_set_len(entries: Seq<(Seq<char>, PNode)>, key: Seq<char>, v: PNode)
    ensures
        dict_lookup(entries, key) is Some ==> dict_set(entries, key, v).len() == entries.len(),
        dict_lookup(entries, key) is None ==> dict_set(entries, key, v).len() == entries.len()
            + 1,
    decreases entries.len(),
{
    if entries.len() == 0 {
    } else if entries[0].0 == key {
    } else {
        lemma_dict_set_len(entries.drop_first(), key, v);
    }
}

/// Law (merge): after merging another dictionary in, every key bound in
/// the other dictionary is bound to the other's value, and every other
/// key keeps its previous binding.
pub proof fn lemma_merge_lookup(
    entries: Seq<(Seq<char>, PNode)>,
    other: Seq<(Seq<char>, PNode)>,
    probe: Seq<char>,
)
    requires
        keys_unique(other),
    ensures
        dict_lookup(other, probe) is Some ==> dict_lookup(dict_merge_spec(entries, other), probe)
            == dict_lookup(other, probe),
        dict_lookup(other, probe) is None ==> dict_lookup(dict_merge_spec(entries, other), probe)
            == dict_lookup(entries, probe),
    decreases other.len(),
{
    if other.len() == 0 {
    } else {
        let k0 = other[0].0;
        let v0 = other[0].1;
        let rest = other.drop_first();
        assert(keys_unique(rest)) by {
            assert forall|j: int, l: int| 0 <= j < l < rest.len() implies rest[j].0 != rest[l].0
                by {
                assert(rest[j] == other[j + 1]);
                assert(rest[l] == other[l + 1]);
            }
        }
        lemma_merge_lookup(dict_set(entries, k0, v0), rest, probe);
        lemma_dict_set_lookup(entries, k0, v0, probe);
        if probe == k0 {
            assert(dict_lookup(other, probe) == Option::Some(v0));
            assert forall|j: int| 0 <= j < rest.len() implies (#[trigger] rest[j]).0 != probe by {
                assert(rest[j] == other[j + 1]);
            }
            lemma_dict_lookup_not_found(rest, probe);
        }
    }
}

/// Law (release on overwrite): setting a key that is already bound swaps
/// the storage of the old value for the storage of the new one.  The
/// units owned through the dictionary afterwards, plus the replaced
/// value's units, are exactly the previous units plus the new value's
/// units: the replaced subtree is released with the overwrite, once.
pub proof fn lemma_overwrite_releases_storage(d: PNode, key: Seq<char>, v: PNode)
    requires
        d is Dict,
        dict_lookup(d->entries, key) is Some,
    ensures
        node_count(PNode::Dict { entries: dict_set(d->entries, key, v) }) + node_count(
            dict_lookup(d->entries, key)->0,
        ) == node_count(d) + node_count(v),
{
    lemma_dict_set_match_count(d->entries, key, v);
}

proof fn lemma_dict_set_match_count(entries: Seq<(Seq<char>, PNode)>, key: Seq<char>, v: PNode)
    requires
        dict_lookup(entries, key) is Some,
    ensures
        entry_count(dict_set(entries, key, v)) + node_count(dict_lookup(entries, key)->0)
            == entry_count(entries) + node_count(v),
    decreases entries.len(),
{
    if entries[0].0 == key {
        assert(dict_set(entries, key, v) == seq![(key, v)] + entries.drop_first());
        lemma_entry_count_cons((key, v), entries.drop_first());
        lemma_entry_count_cons(entries[0], entries.drop_first());
        assert(seq![entries[0]] + entries.drop_first() =~= entries);
    } else {
        lemma_dict_set_match_count(entries.drop_first(), key, v);
        lemma_entry_count_cons(entries[0], dict_set(entries.drop_first(), key, v));
        lemma_entry_count_cons(entries[0], entries.drop_first());
        assert(seq![entries[0]] + entries.drop_first() =~= entries);
    }
}

} // verus!
