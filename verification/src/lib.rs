//! A typed, ownership-aware in-memory model for hierarchical property-list
//! data: booleans, integers, reals, dates, byte blobs, strings, unique
//! identifiers, ordered arrays and keyed dictionaries, encodable to and
//! decodable from a textual and a compact binary wire representation.
//!
//! Every node carries a type tag fixed at construction and an ownership
//! state.  Inserting a node into an array or dictionary transfers ownership
//! of the node's subtree into the container: the insertion consumes the
//! handle, so the storage is owned exactly once afterwards.  Extraction from
//! a container yields a handle in the borrowed-alias state, whose contents
//! mirror the entry it was read from while the container keeps sole
//! ownership of its own storage.

use vstd::prelude::*;

pub mod error;
pub mod iterator;
pub mod array;
pub mod binary;
pub mod boolean;
pub mod data;
pub mod date;
pub mod dictionary;
pub mod key;
pub mod path;
pub mod render;
pub mod string;
pub mod integer;
pub mod reals;
pub mod xml;
pub mod uid;

use error::PlistError;

verus! {

/// The type tag of a node, fixed at construction.
#[derive(Debug, PartialEq, Eq, Structural, Clone, Copy)]
pub enum PlistType {
    Boolean,
    Integer,
    Real,
    Date,
    Data,
    String,
    Array,
    Dictionary,
    Unknown,
    Key,
    Uid,
    Null,
}

/// The ownership state of a node handle.
///
/// An `Owning` handle is the sole owner of its subtree's storage.  A
/// `BorrowedAlias` handle mirrors storage whose owner is a container (or the
/// tree it was extracted from) and therefore must not be treated as the
/// owner of the entry it was read from.
#[derive(Debug, PartialEq, Eq, Structural, Clone, Copy)]
pub enum OwnershipState {
    Owning,
    BorrowedAlias,
}

/// Where a handle was extracted from: detached, or an entry of an array or
/// a dictionary.  Extraction records the position or key so that the entry
/// can be identified later; mutating the container afterwards may make the
/// record stale, as it describes the moment of extraction.
#[derive(Debug)]
pub enum NodeOrigin {
    Detached,
    ArrayEntry { idx: u32 },
    DictEntry { key: String },
}

/// The kind-dependent payload of a node.
#[derive(Debug)]
pub enum PlistValue {
    Boolean(bool),
    Integer(u64),
    /// IEEE-754 bit pattern of the real value.
    Real(u64),
    /// Whole seconds and sub-second microseconds past the Mac epoch
    /// (2001-01-01T00:00:00Z).
    Date(i32, i32),
    Data(Vec<u8>),
    Text(String),
    KeyName(String),
    Uid(u64),
    Array(Vec<Plist>),
    Dictionary(Vec<(String, Plist)>),
}

/// A node of the hierarchical data model.
///
/// `plist_type` is the snapshot of the node's kind taken at construction;
/// [`Plist::get_node_type`] reads the authoritative tag from the payload.
#[derive(Debug)]
pub struct Plist {
    pub(crate) value: PlistValue,
    pub plist_type: PlistType,
    pub(crate) ownership: OwnershipState,
    pub(crate) origin: NodeOrigin,
    pub(crate) id: u32,
}

/// The mathematical value of a node: its kind and payload, with children in
/// insertion order.  Ownership state and the diagnostic identity are not
/// part of the value, so structural equality is equality of `PNode`s.
#[verifier::ext_equal]
pub enum PNode {
    Bool { b: bool },
    Int { i: u64 },
    Real { bits: u64 },
    Date { sec: i32, usec: i32 },
    Blob { bytes: Seq<u8> },
    Text { t: Seq<char> },
    Key { k: Seq<char> },
    Uid { uid: u64 },
    Arr { items: Seq<PNode> },
    Dict { entries: Seq<(Seq<char>, PNode)> },
}

/// The type tag of a mathematical node value.
pub open spec fn kind_of(n: PNode) -> PlistType {
    match n {
        PNode::Bool { .. } => PlistType::Boolean,
        PNode::Int { .. } => PlistType::Integer,
        PNode::Real { .. } => PlistType::Real,
        PNode::Date { .. } => PlistType::Date,
        PNode::Blob { .. } => PlistType::Data,
        PNode::Text { .. } => PlistType::String,
        PNode::Key { .. } => PlistType::Key,
        PNode::Uid { .. } => PlistType::Uid,
        PNode::Arr { .. } => PlistType::Array,
        PNode::Dict { .. } => PlistType::Dictionary,
    }
}

/// Whether a character sequence is free of the NUL terminator character,
/// which the underlying textual representations cannot embed.
pub open spec fn no_nul(s: Seq<char>) -> bool {
    forall|j: int| 0 <= j < s.len() ==> s[j] != '\0'
}

/// Whether the keys of a dictionary entry sequence are pairwise distinct.
pub open spec fn keys_unique(entries: Seq<(Seq<char>, PNode)>) -> bool {
    forall|j: int, l: int| 0 <= j < l < entries.len() ==> entries[j].0 != entries[l].0
}

/// Well-formedness of a mathematical node value: date payloads are
/// normalized, text payloads embed no NUL terminator, and dictionary keys
/// are unique, recursively through the tree.
pub open spec fn pnode_wf(n: PNode) -> bool
    decreases n,
{
    match n {
        PNode::Date { sec, usec } => 0 <= sec && 0 <= usec < 1000000,
        PNode::Text { t } => no_nul(t),
        PNode::Key { k } => no_nul(k),
        PNode::Arr { items } => forall|j: int|
            0 <= j < items.len() ==> pnode_wf(#[trigger] items[j]),
        PNode::Dict { entries } => keys_unique(entries) && forall|j: int|
            0 <= j < entries.len() ==> no_nul(#[trigger] entries[j].0) && pnode_wf(entries[j].1),
        _ => true,
    }
}

/// The mathematical value of a node handle.
pub open(crate) spec fn node_view(p: Plist) -> PNode
    decreases p,
{
    value_view(p.value)
}

/// The mathematical value of a payload.
pub open(crate) spec fn value_view(v: PlistValue) -> PNode
    decreases v,
{
    match v {
        PlistValue::Boolean(b) => PNode::Bool { b },
        PlistValue::Integer(i) => PNode::Int { i },
        PlistValue::Real(bits) => PNode::Real { bits },
        PlistValue::Date(sec, usec) => PNode::Date { sec, usec },
        PlistValue::Data(bytes) => PNode::Blob { bytes: bytes@ },
        PlistValue::Text(t) => PNode::Text { t: t@ },
        PlistValue::KeyName(k) => PNode::Key { k: k@ },
        PlistValue::Uid(uid) => PNode::Uid { uid },
        PlistValue::Array(items) => PNode::Arr { items: views_of(items@) },
        PlistValue::Dictionary(entries) => PNode::Dict { entries: entry_views_of(entries@) },
    }
}

/// The mathematical values of a sequence of nodes, in order.
pub open(crate) spec fn views_of(items: Seq<Plist>) -> Seq<PNode>
    decreases items,
{
    if items.len() == 0 {
        Seq::empty()
    } else {
        views_of(items.drop_last()).push(node_view(items.last()))
    }
}

/// The mathematical values of a sequence of keyed entries, in order.
pub open(crate) spec fn entry_views_of(entries: Seq<(String, Plist)>) -> Seq<(Seq<char>, PNode)>
    decreases entries,
{
    if entries.len() == 0 {
        Seq::empty()
    } else {
        entry_views_of(entries.drop_last()).push(
            (entries.last().0@, node_view(entries.last().1)),
        )
    }
}

/// Well-formedness of a payload: date fields normalized, no NUL in text,
/// dictionary keys unique, recursively through the tree.
pub open(crate) spec fn value_wf(v: PlistValue) -> bool
    decreases v,
{
    match v {
        PlistValue::Date(sec, usec) => 0 <= sec && 0 <= usec < 1000000,
        PlistValue::Text(t) => no_nul(t@),
        PlistValue::KeyName(k) => no_nul(k@),
        PlistValue::Array(items) => forall|j: int|
            0 <= j < items@.len() ==> (#[trigger] items@[j]).wf(),
        PlistValue::Dictionary(entries) => {
            &&& keys_unique(entry_views_of(entries@))
            &&& forall|j: int|
                0 <= j < entries@.len() ==> no_nul((#[trigger] entries@[j]).0@)
                    && entries@[j].1.wf()
        },
        _ => true,
    }
}

impl View for Plist {
    type V = PNode;

    closed spec fn view(&self) -> PNode {
        node_view(*self)
    }
}

/// The view of a handle is the mathematical value of its payload.
pub broadcast proof fn lemma_view_unfold(p: Plist)
    ensures
        #[trigger] p.view() == node_view(p),
{
}

pub broadcast proof fn lemma_views_of_len(items: Seq<Plist>)
    ensures
        (#[trigger] views_of(items)).len() == items.len(),
    decreases items,
{
    if items.len() > 0 {
        lemma_views_of_len(items.drop_last());
    }
}

pub broadcast proof fn lemma_views_of_index(items: Seq<Plist>, j: int)
    requires
        0 <= j < items.len(),
    ensures
        #[trigger] views_of(items)[j] == items[j]@,
    decreases items,
{
    lemma_views_of_len(items);
    if j < items.len() - 1 {
        lemma_views_of_index(items.drop_last(), j);
    } else {
        assert(items.last() == items[j]);
    }
}

pub broadcast proof fn lemma_entry_views_of_len(entries: Seq<(String, Plist)>)
    ensures
        (#[trigger] entry_views_of(entries)).len() == entries.len(),
    decreases entries,
{
    if entries.len() > 0 {
        lemma_entry_views_of_len(entries.drop_last());
    }
}

pub broadcast proof fn lemma_entry_views_of_index(entries: Seq<(String, Plist)>, j: int)
    requires
        0 <= j < entries.len(),
    ensures
        #[trigger] entry_views_of(entries)[j] == (entries[j].0@, entries[j].1@),
    decreases entries,
{
    lemma_entry_views_of_len(entries);
    if j < entries.len() - 1 {
        lemma_entry_views_of_index(entries.drop_last(), j);
    } else {
        assert(entries.last() == entries[j]);
    }
}

impl Plist {
    /// Well-formedness of a node handle: the cached type tag matches the
    /// payload, and the payload is well-formed, recursively through the
    /// tree.
    pub open(crate) spec fn wf(self) -> bool
        decreases self,
    {
        self.plist_type == kind_of(self@) && value_wf(self.value)
    }

    /// A well-formed handle has a well-formed mathematical value.
    pub proof fn lemma_wf_view(self)
        requires
            self.wf(),
        ensures
            pnode_wf(self@),
        decreases self,
    {
        broadcast use lemma_views_of_len, lemma_views_of_index, lemma_entry_views_of_len, lemma_entry_views_of_index;

        match self.value {
            PlistValue::Array(items) => {
                assert forall|j: int| 0 <= j < self@->items.len() implies pnode_wf(
                    #[trigger] self@->items[j],
                ) by {
                    lemma_views_of_len(items@);
                    lemma_views_of_index(items@, j);
                    items@[j].lemma_wf_view();
                }
            },
            PlistValue::Dictionary(entries) => {
                assert forall|j: int| 0 <= j < self@->entries.len() implies no_nul(
                    #[trigger] self@->entries[j].0,
                ) && pnode_wf(self@->entries[j].1) by {
                    lemma_entry_views_of_len(entries@);
                    lemma_entry_views_of_index(entries@, j);
                    entries@[j].1.lemma_wf_view();
                }
            },
            _ => {},
        }
    }

    /// Whether this handle is the sole owner of its subtree's storage.
    pub closed spec fn owning(self) -> bool {
        self.ownership == OwnershipState::Owning
    }

    /// The snapshot of the node's kind taken at construction.
    pub open(crate) spec fn cached_kind(self) -> PlistType {
        self.plist_type
    }

    /// Where this handle was extracted from.
    pub open(crate) spec fn node_origin(self) -> NodeOrigin {
        self.origin
    }

    /// Whether this handle is the sole owner of its subtree's storage.
    pub fn is_owning(&self) -> (r: bool)
        ensures
            r == self.owning(),
    {
        self.ownership == OwnershipState::Owning
    }

    /// Gets the type of the node from the authoritative payload tag.
    pub fn get_node_type(&self) -> (r: PlistType)
        ensures
            r == kind_of(self@),
    {
        match &self.value {
            PlistValue::Boolean(_) => PlistType::Boolean,
            PlistValue::Integer(_) => PlistType::Integer,
            PlistValue::Real(_) => PlistType::Real,
            PlistValue::Date(_, _) => PlistType::Date,
            PlistValue::Data(_) => PlistType::Data,
            PlistValue::Text(_) => PlistType::String,
            PlistValue::KeyName(_) => PlistType::Key,
            PlistValue::Uid(_) => PlistType::Uid,
            PlistValue::Array(_) => PlistType::Array,
            PlistValue::Dictionary(_) => PlistType::Dictionary,
        }
    }

    /// Releases the handle without releasing the subtree storage it aliases.
    ///
    /// The counterpart of adoption: once a node's storage has been, or is
    /// about to be, owned by another holder, the leftover handle is disposed
    /// of through this no-op sink, which consumes it without another
    /// release.  Idempotent by construction: the handle is gone afterwards.
    pub fn false_drop(self) {
    }

    /// Deep-copies the subtree rooted at this node; the result is an
    /// independent, detached owning node with the same value.
    #[verifier::loop_isolation(false)]
    pub fn clone(&self) -> (r: Plist)
        ensures
            r@ == self@,
            r.owning(),
            r.node_origin() is Detached,
            r.cached_kind() == self.cached_kind(),
            self.wf() ==> r.wf(),
        decreases *self,
    {
        broadcast use lemma_views_of_len, lemma_views_of_index, lemma_entry_views_of_len, lemma_entry_views_of_index;

        let value = match &self.value {
            PlistValue::Boolean(b) => PlistValue::Boolean(*b),
            PlistValue::Integer(i) => PlistValue::Integer(*i),
            PlistValue::Real(bits) => PlistValue::Real(*bits),
            PlistValue::Date(sec, usec) => PlistValue::Date(*sec, *usec),
            PlistValue::Data(bytes) => PlistValue::Data(
                vstd::slice::slice_to_vec(bytes.as_slice()),
            ),
            PlistValue::Text(t) => PlistValue::Text(t.clone()),
            PlistValue::KeyName(k) => PlistValue::KeyName(k.clone()),
            PlistValue::Uid(uid) => PlistValue::Uid(*uid),
            PlistValue::Array(items) => {
                let mut out: Vec<Plist> = Vec::new();
                let mut idx: usize = 0;
                while idx < items.len()
                    invariant
                        idx <= items@.len(),
                        out@.len() == idx,
                        forall|j: int| 0 <= j < idx ==> (#[trigger] out@[j])@ == items@[j]@,
                        forall|j: int|
                            0 <= j < idx ==> (items@[j].wf() ==> (#[trigger] out@[j]).wf()),
                    decreases items@.len() - idx,
                {
                    proof {
                        assert(self.value->Array_0 == *items);
                        assert(decreases_to!(*self => self.value->Array_0@[idx as int]));
                        assert(decreases_to!(*self => items@[idx as int]));
                    }
                    let c = items[idx].clone();
                    out.push(c);
                    idx += 1;
                }
                proof {
                    assert(views_of(out@) =~= views_of(items@));
                }
                PlistValue::Array(out)
            },
            PlistValue::Dictionary(entries) => {
                let mut out: Vec<(String, Plist)> = Vec::new();
                let mut idx: usize = 0;
                while idx < entries.len()
                    invariant
                        idx <= entries@.len(),
                        out@.len() == idx,
                        forall|j: int|
                            0 <= j < idx ==> (#[trigger] out@[j]).0 == entries@[j].0 && out@[j].1@
                                == entries@[j].1@,
                        forall|j: int|
                            0 <= j < idx ==> (entries@[j].1.wf() ==> (
                            #[trigger] out@[j]).1.wf()),
                    decreases entries@.len() - idx,
                {
                    proof {
                        assert(self.value->Dictionary_0 == *entries);
                        assert(decreases_to!(*self => self.value->Dictionary_0@[idx as int].1));
                        assert(decreases_to!(*self => entries@[idx as int].1));
                    }
                    let k = entries[idx].0.clone();
                    let v = entries[idx].1.clone();
                    out.push((k, v));
                    idx += 1;
                }
                proof {
                    assert(entry_views_of(out@) =~= entry_views_of(entries@));
                }
                PlistValue::Dictionary(out)
            },
        };
        let r = Plist {
            value,
            plist_type: self.plist_type,
            ownership: OwnershipState::Owning,
            origin: NodeOrigin::Detached,
            id: fresh_id(),
        };
        proof {
            assert(r@ =~= self@);
        }
        r
    }

    /// An extracted handle: a borrowed-alias copy of this node's value,
    /// stamped with where it was read from.
    pub(crate) fn alias_copy(&self, origin: NodeOrigin) -> (r: Plist)
        ensures
            r@ == self@,
            !r.owning(),
            r.node_origin() == origin,
            r.cached_kind() == self.cached_kind(),
            self.wf() ==> r.wf(),
    {
        let mut c = self.clone();
        c.ownership = OwnershipState::BorrowedAlias;
        c.origin = origin;
        c
    }
}

/// The number of nodes in the subtree of a mathematical node value: the
/// units of storage a handle owning that value is responsible for.
pub open spec fn node_count(n: PNode) -> nat
    decreases n,
{
    match n {
        PNode::Arr { items } => 1 + item_count(items),
        PNode::Dict { entries } => 1 + entry_count(entries),
        _ => 1,
    }
}

/// The total number of nodes in a sequence of subtrees.
pub open spec fn item_count(items: Seq<PNode>) -> nat
    decreases items,
{
    if items.len() == 0 {
        0
    } else {
        item_count(items.drop_last()) + node_count(items.last())
    }
}

/// The total number of nodes in a sequence of keyed subtrees.
pub open spec fn entry_count(entries: Seq<(Seq<char>, PNode)>) -> nat
    decreases entries,
{
    if entries.len() == 0 {
        0
    } else {
        entry_count(entries.drop_last()) + node_count(entries.last().1)
    }
}

pub proof fn lemma_views_of_push(items: Seq<Plist>, p: Plist)
    ensures
        views_of(items.push(p)) == views_of(items).push(node_view(p)),
{
    assert(items.push(p).drop_last() =~= items);
    assert(views_of(items.push(p)) =~= views_of(items).push(node_view(p)));
}

pub proof fn lemma_views_of_update(items: Seq<Plist>, j: int, p: Plist)
    requires
        0 <= j < items.len(),
    ensures
        views_of(items.update(j, p)) == views_of(items).update(j, node_view(p)),
{
    broadcast use lemma_views_of_len, lemma_views_of_index, lemma_view_unfold;

    assert(views_of(items.update(j, p)) =~= views_of(items).update(j, node_view(p)));
}

pub proof fn lemma_views_of_insert(items: Seq<Plist>, j: int, p: Plist)
    requires
        0 <= j <= items.len(),
    ensures
        views_of(items.insert(j, p)) == views_of(items).insert(j, node_view(p)),
{
    broadcast use lemma_views_of_len, lemma_views_of_index, lemma_view_unfold;

    assert(views_of(items.insert(j, p)) =~= views_of(items).insert(j, node_view(p)));
}

pub proof fn lemma_views_of_remove(items: Seq<Plist>, j: int)
    requires
        0 <= j < items.len(),
    ensures
        views_of(items.remove(j)) == views_of(items).remove(j),
{
    broadcast use lemma_views_of_len, lemma_views_of_index, lemma_view_unfold;

    assert(views_of(items.remove(j)) =~= views_of(items).remove(j));
}

pub proof fn lemma_entry_views_of_push(entries: Seq<(String, Plist)>, e: (String, Plist))
    ensures
        entry_views_of(entries.push(e)) == entry_views_of(entries).push(
            (e.0@, node_view(e.1)),
        ),
{
    assert(entries.push(e).drop_last() =~= entries);
    assert(entry_views_of(entries.push(e)) =~= entry_views_of(entries).push(
        (e.0@, node_view(e.1)),
    ));
}

pub proof fn lemma_entry_views_of_update(entries: Seq<(String, Plist)>, j: int, e: (String, Plist))
    requires
        0 <= j < entries.len(),
    ensures
        entry_views_of(entries.update(j, e)) == entry_views_of(entries).update(
            j,
            (e.0@, node_view(e.1)),
        ),
{
    broadcast use lemma_entry_views_of_len, lemma_entry_views_of_index, lemma_view_unfold;

    assert(entry_views_of(entries.update(j, e)) =~= entry_views_of(entries).update(
        j,
        (e.0@, node_view(e.1)),
    ));
}

pub proof fn lemma_entry_views_of_remove(entries: Seq<(String, Plist)>, j: int)
    requires
        0 <= j < entries.len(),
    ensures
        entry_views_of(entries.remove(j)) == entry_views_of(entries).remove(j),
{
    broadcast use lemma_entry_views_of_len, lemma_entry_views_of_index, lemma_view_unfold;

    assert(entry_views_of(entries.remove(j)) =~= entry_views_of(entries).remove(j));
}

/// Whether two byte vectors hold the same bytes.
fn eq_bytes(a: &Vec<u8>, b: &Vec<u8>) -> (r: bool)
    ensures
        r == (a@ == b@),
{
    if a.len() != b.len() {
        return false;
    }
    let mut idx: usize = 0;
    while idx < a.len()
        invariant
            0 <= idx <= a@.len(),
            a@.len() == b@.len(),
            forall|j: int| 0 <= j < idx ==> a@[j] == b@[j],
        decreases a@.len() - idx,
    {
        if a[idx] != b[idx] {
            return false;
        }
        idx += 1;
    }
    proof {
        assert(a@ =~= b@);
    }
    true
}

/// Whether two handles carry the same mathematical value: kind, payload
/// and children, ignoring ownership state and identity.
#[verifier::loop_isolation(false)]
#[verifier::rlimit(60)]
fn eq_node(a: &Plist, b: &Plist) -> (r: bool)
    ensures
        r == (a@ == b@),
    decreases *a,
{
    broadcast use {lemma_views_of_len, lemma_views_of_index, lemma_entry_views_of_len, lemma_entry_views_of_index};

    match (&a.value, &b.value) {
        (PlistValue::Boolean(x), PlistValue::Boolean(y)) => *x == *y,
        (PlistValue::Integer(x), PlistValue::Integer(y)) => *x == *y,
        (PlistValue::Real(x), PlistValue::Real(y)) => *x == *y,
        (PlistValue::Date(s1, u1), PlistValue::Date(s2, u2)) => *s1 == *s2 && *u1 == *u2,
        (PlistValue::Data(x), PlistValue::Data(y)) => eq_bytes(x, y),
        (PlistValue::Text(x), PlistValue::Text(y)) => *x == *y,
        (PlistValue::KeyName(x), PlistValue::KeyName(y)) => *x == *y,
        (PlistValue::Uid(x), PlistValue::Uid(y)) => *x == *y,
        (PlistValue::Array(xs), PlistValue::Array(ys)) => {
            if xs.len() != ys.len() {
                proof {
                    assert(a@->items == views_of(xs@));
                    assert(b@->items == views_of(ys@));
                    assert(a@->items.len() != b@->items.len());
                }
                false
            } else {
                proof {
                    assert(a@->items == views_of(xs@));
                    assert(b@->items == views_of(ys@));
                }
                let mut idx: usize = 0;
                let mut same: bool = true;
                while same && idx < xs.len()
                    invariant
                        0 <= idx <= xs@.len(),
                        xs@.len() == ys@.len(),
                        a@->items == views_of(xs@),
                        b@->items == views_of(ys@),
                        same ==> forall|j: int| 0 <= j < idx ==> a@->items[j] == b@->items[j],
                        !same ==> a@ != b@,
                        !same ==> idx == xs@.len(),
                    decreases xs@.len() - idx,
                {
                    proof {
                        assert(a.value->Array_0 == *xs);
                        assert(decreases_to!(*a => a.value->Array_0@[idx as int]));
                        assert(decreases_to!(*a => xs@[idx as int]));
                        assert(a@->items == views_of(xs@));
                        assert(b@->items == views_of(ys@));
                        lemma_views_of_index(xs@, idx as int);
                        lemma_views_of_index(ys@, idx as int);
                    }
                    if !eq_node(&xs[idx], &ys[idx]) {
                        proof {
                            assert(a@->items[idx as int] != b@->items[idx as int]);
                        }
                        same = false;
                        idx = xs.len();
                    } else {
                        idx += 1;
                    }
                }
                proof {
                    if same {
                        assert(a@->items =~= b@->items);
                        assert(a@ =~= b@);
                    }
                }
                same
            }
        },
        (PlistValue::Dictionary(xs), PlistValue::Dictionary(ys)) => {

            if xs.len() != ys.len() {
                proof {
                    assert(a@->entries == entry_views_of(xs@));
                    assert(b@->entries == entry_views_of(ys@));
                    assert(a@->entries.len() != b@->entries.len());
                }
                false
            } else {
                proof {
                    assert(a@->entries == entry_views_of(xs@));
                    assert(b@->entries == entry_views_of(ys@));
                }
                let mut idx: usize = 0;
                let mut same: bool = true;
                while same && idx < xs.len()
                    invariant
                        0 <= idx <= xs@.len(),
                        xs@.len() == ys@.len(),
                        a@->entries == entry_views_of(xs@),
                        b@->entries == entry_views_of(ys@),
                        same ==> forall|j: int| 0 <= j < idx ==> a@->entries[j] == b@->entries[j],
                        !same ==> a@ != b@,
                        !same ==> idx == xs@.len(),
                    decreases xs@.len() - idx,
                {
                    proof {
                        assert(a.value->Dictionary_0 == *xs);
                        assert(decreases_to!(*a => a.value->Dictionary_0@[idx as int].1));
                        assert(decreases_to!(*a => xs@[idx as int].1));
                        assert(a@->entries == entry_views_of(xs@));
                        assert(b@->entries == entry_views_of(ys@));
                        lemma_entry_views_of_index(xs@, idx as int);
                        lemma_entry_views_of_index(ys@, idx as int);
                    }
                    let keys_same = xs[idx].0 == ys[idx].0;
                    if !keys_same || !eq_node(&xs[idx].1, &ys[idx].1) {
                        proof {
                            assert(a@->entries[idx as int] != b@->entries[idx as int]);
                        }
                        same = false;
                        idx = xs.len();
                    } else {
                        idx += 1;
                    }
                }
                proof {
                    if same {
                        assert(a@->entries =~= b@->entries);
                        assert(a@ =~= b@);
                    }
                }
                same
            }
        },
        _ => {
            proof {
                assert(kind_of(a@) != kind_of(b@));
            }
            false
        },
    }
}

impl Plist {
    /// Compares two nodes for structural value equality: kind, payload and
    /// children, not identity.
    pub fn compare_node_values(node_l: Plist, node_r: Plist) -> (r: bool)
        ensures
            r == (node_l@ == node_r@),
    {
        eq_node(&node_l, &node_r)
    }
}

/// Relies on `rand::random` for the diagnostic correlation identifier
/// assigned to each node at construction.  Nothing is promised of the
/// value: it is never used for equality, hashing or ownership decisions.
pub assume_specification<T>[ rand::random::<T> ]() -> (r: T)
    where
        rand::distributions::Standard: rand::distributions::Distribution<T>,
;

/// A fresh diagnostic identifier for a newly constructed node.
pub(crate) fn fresh_id() -> u32 {
    rand::random::<u32>()
}

/// A new detached owning node from a payload and its type tag.
pub(crate) fn make_node(value: PlistValue, t: PlistType) -> (r: Plist)
    ensures
        r@ == value_view(value),
        r.owning(),
        r.node_origin() is Detached,
        r.cached_kind() == t,
        r.wf() == (t == kind_of(value_view(value)) && value_wf(value)),
{
    Plist {
        value,
        plist_type: t,
        ownership: OwnershipState::Owning,
        origin: NodeOrigin::Detached,
        id: fresh_id(),
    }
}

/// The type tag denoted by a codec type code.
pub open spec fn spec_type_from_code(code: u32) -> PlistType {
    if code == 0 {
        PlistType::Boolean
    } else if code == 1 {
        PlistType::Integer
    } else if code == 2 {
        PlistType::Real
    } else if code == 3 {
        PlistType::String
    } else if code == 4 {
        PlistType::Array
    } else if code == 5 {
        PlistType::Dictionary
    } else if code == 6 {
        PlistType::Date
    } else if code == 7 {
        PlistType::Data
    } else if code == 8 {
        PlistType::Key
    } else if code == 9 {
        PlistType::Uid
    } else if code == 10 {
        PlistType::Null
    } else {
        PlistType::Unknown
    }
}

impl PlistType {
    /// Maps a codec type code to the tag it denotes.
    pub fn from_code(code: u32) -> (r: PlistType)
        ensures
            r == spec_type_from_code(code),
    {
        match code {
            0 => PlistType::Boolean,
            1 => PlistType::Integer,
            2 => PlistType::Real,
            3 => PlistType::String,
            4 => PlistType::Array,
            5 => PlistType::Dictionary,
            6 => PlistType::Date,
            7 => PlistType::Data,
            8 => PlistType::Key,
            9 => PlistType::Uid,
            10 => PlistType::Null,
            _ => PlistType::Unknown,
        }
    }
}

} // verus!
