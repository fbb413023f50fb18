//! The compact binary wire representation.
//!
//! A buffer holds a four-byte magic prefix and then one node.  Each node
//! is a tag byte followed by its payload: fixed-width little-endian words
//! for the scalar kinds, a 32-bit length prefix for byte and text
//! payloads, and a 32-bit count followed by the children for the
//! composite kinds; a dictionary entry is a length-prefixed key followed
//! by its value node.  Decoding accepts exactly the well-formed buffers
//! of this shape and inverts encoding.

use vstd::bytes::*;
use vstd::prelude::*;
use vstd::slice::{slice_index_get, slice_subrange, slice_to_vec};
use vstd::string::*;
use vstd::utf8::{decode_utf8, encode_utf8, valid_utf8};

use crate::error::PlistError;
use crate::{
    entry_views_of, keys_unique, lemma_entry_views_of_index, lemma_entry_views_of_len,
    lemma_view_unfold, lemma_views_of_index, lemma_views_of_len, make_node, no_nul, views_of,
    PNode, Plist, PlistType, PlistValue,
};

verus! {

broadcast use {lemma_view_unfold, lemma_views_of_len, lemma_views_of_index, lemma_entry_views_of_len, lemma_entry_views_of_index};

/// The four magic bytes that open a binary-encoded buffer.
pub open spec fn magic_seq() -> Seq<u8> {
    seq![0x70u8, 0x6cu8, 0x30u8, 0x31u8]
}

/// The binary encoding of a node.
pub open spec fn ser_node(n: PNode) -> Seq<u8>
    decreases n,
{
    match n {
        PNode::Bool { b } => seq![1u8, (if b { 1u8 } else { 0u8 })],
        PNode::Int { i } => seq![2u8] + spec_u64_to_le_bytes(i),
        PNode::Real { bits } => seq![3u8] + spec_u64_to_le_bytes(bits),
        PNode::Date { sec, usec } => seq![4u8] + spec_u32_to_le_bytes(sec as u32)
            + spec_u32_to_le_bytes(usec as u32),
        PNode::Blob { bytes } => seq![5u8] + spec_u32_to_le_bytes(bytes.len() as u32) + bytes,
        PNode::Text { t } => seq![6u8] + spec_u32_to_le_bytes(encode_utf8(t).len() as u32)
            + encode_utf8(t),
        PNode::Key { k } => seq![7u8] + spec_u32_to_le_bytes(encode_utf8(k).len() as u32)
            + encode_utf8(k),
        PNode::Uid { uid } => seq![8u8] + spec_u64_to_le_bytes(uid),
        PNode::Arr { items } => seq![9u8] + spec_u32_to_le_bytes(items.len() as u32) + ser_items(
            items,
        ),
        PNode::Dict { entries } => seq![10u8] + spec_u32_to_le_bytes(entries.len() as u32)
            + ser_entries(entries),
    }
}

/// The binary encoding of a sequence of nodes, in order.
pub open spec fn ser_items(items: Seq<PNode>) -> Seq<u8>
    decreases items,
{
    if items.len() == 0 {
        Seq::empty()
    } else {
        ser_node(items[0]) + ser_items(items.drop_first())
    }
}

/// The binary encoding of a sequence of dictionary entries, in order.
pub open spec fn ser_entries(entries: Seq<(Seq<char>, PNode)>) -> Seq<u8>
    decreases entries,
{
    if entries.len() == 0 {
        Seq::empty()
    } else {
        spec_u32_to_le_bytes(encode_utf8(entries[0].0).len() as u32) + encode_utf8(entries[0].0)
            + ser_node(entries[0].1) + ser_entries(entries.drop_first())
    }
}

/// Whether a node fits the wire format's 32-bit length and count fields.
pub open spec fn fits_wire(n: PNode) -> bool
    decreases n,
{
    match n {
        PNode::Blob { bytes } => bytes.len() <= u32::MAX,
        PNode::Text { t } => encode_utf8(t).len() <= u32::MAX,
        PNode::Key { k } => encode_utf8(k).len() <= u32::MAX,
        PNode::Arr { items } => items.len() <= u32::MAX && forall|j: int|
            0 <= j < items.len() ==> fits_wire(#[trigger] items[j]),
        PNode::Dict { entries } => entries.len() <= u32::MAX && forall|j: int|
            0 <= j < entries.len() ==> encode_utf8((#[trigger] entries[j]).0).len() <= u32::MAX
                && fits_wire(entries[j].1),
        _ => true,
    }
}

proof fn lemma_ser_items_snoc(items: Seq<PNode>, i: int)
    requires
        0 <= i < items.len(),
    ensures
        ser_items(items.take(i + 1)) == ser_items(items.take(i)) + ser_node(items[i]),
    decreases i,
{
    if i == 0 {
        reveal_with_fuel(ser_items, 2);
        assert(items.take(1) =~= seq![items[0]]);
        assert(items.take(1).drop_first() =~= Seq::<PNode>::empty());
        assert(ser_items(items.take(1)) =~= ser_node(items[0]));
        assert(items.take(0) =~= Seq::<PNode>::empty());
        assert(ser_items(items.take(0)) + ser_node(items[0]) =~= ser_node(items[0]));
    } else {
        let rest = items.drop_first();
        lemma_ser_items_snoc(rest, i - 1);
        assert(items.take(i + 1).drop_first() =~= rest.take(i));
        assert(items.take(i).drop_first() =~= rest.take(i - 1));
        assert(items.take(i + 1)[0] == items[0]);
        assert(items.take(i)[0] == items[0]);
        assert(rest[i - 1] == items[i]);
        assert(ser_items(items.take(i + 1)) == ser_node(items[0]) + ser_items(rest.take(i)));
        assert(ser_items(items.take(i)) == ser_node(items[0]) + ser_items(rest.take(i - 1)));
        assert(ser_node(items[0]) + (ser_items(rest.take(i - 1)) + ser_node(items[i])) =~= (
        ser_node(items[0]) + ser_items(rest.take(i - 1))) + ser_node(items[i]));
    }
}

proof fn lemma_ser_entries_snoc(entries: Seq<(Seq<char>, PNode)>, i: int)
    requires
        0 <= i < entries.len(),
    ensures
        ser_entries(entries.take(i + 1)) == ser_entries(entries.take(i)) + spec_u32_to_le_bytes(
            encode_utf8(entries[i].0).len() as u32,
        ) + encode_utf8(entries[i].0) + ser_node(entries[i].1),
    decreases i,
{
    let e = spec_u32_to_le_bytes(encode_utf8(entries[i].0).len() as u32) + encode_utf8(
        entries[i].0,
    ) + ser_node(entries[i].1);
    if i == 0 {
        reveal_with_fuel(ser_entries, 2);
        assert(entries.take(1) =~= seq![entries[0]]);
        assert(entries.take(1).drop_first() =~= Seq::<(Seq<char>, PNode)>::empty());
        assert(entries.take(0) =~= Seq::<(Seq<char>, PNode)>::empty());
        assert(ser_entries(entries.take(1)) =~= ser_entries(entries.take(0)) + e);
    } else {
        let rest = entries.drop_first();
        lemma_ser_entries_snoc(rest, i - 1);
        assert(entries.take(i + 1).drop_first() =~= rest.take(i));
        assert(entries.take(i).drop_first() =~= rest.take(i - 1));
        assert(entries.take(i + 1)[0] == entries[0]);
        assert(entries.take(i)[0] == entries[0]);
        assert(rest[i - 1] == entries[i]);
        let h = spec_u32_to_le_bytes(encode_utf8(entries[0].0).len() as u32) + encode_utf8(
            entries[0].0,
        ) + ser_node(entries[0].1);
        assert(ser_entries(entries.take(i + 1)) == h + ser_entries(rest.take(i)));
        assert(ser_entries(entries.take(i)) == h + ser_entries(rest.take(i - 1)));
        assert(h + (ser_entries(rest.take(i - 1)) + e) =~= (h + ser_entries(rest.take(i - 1)))
            + e);
        assert(ser_entries(entries.take(i + 1)) =~= ser_entries(entries.take(i)) + e);
    }
}

/// Serializes one node onto the end of the buffer.  Succeeds exactly when
/// the node fits the wire format's 32-bit fields.
#[verifier::loop_isolation(false)]
#[verifier::rlimit(80)]
fn ser_exec(p: &Plist, out: &mut Vec<u8>) -> (ok: bool)
    ensures
        ok <==> fits_wire(p@),
        ok ==> final(out)@ == old(out)@ + ser_node(p@),
    decreases *p,
{
    match &p.value {
        PlistValue::Boolean(b) => {
            out.push(1u8);
            out.push(if *b { 1u8 } else { 0u8 });
            proof {
                assert(out@ =~= old(out)@ + ser_node(p@));
            }
            true
        },
        PlistValue::Integer(i) => {
            out.push(2u8);
            let mut w = u64_to_le_bytes(*i);
            out.append(&mut w);
            proof {
                assert(out@ =~= old(out)@ + ser_node(p@));
            }
            true
        },
        PlistValue::Real(bits) => {
            out.push(3u8);
            let mut w = u64_to_le_bytes(*bits);
            out.append(&mut w);
            proof {
                assert(out@ =~= old(out)@ + ser_node(p@));
            }
            true
        },
        PlistValue::Date(sec, usec) => {
            out.push(4u8);
            let mut w1 = u32_to_le_bytes(*sec as u32);
            out.append(&mut w1);
            let mut w2 = u32_to_le_bytes(*usec as u32);
            out.append(&mut w2);
            proof {
                assert(out@ =~= old(out)@ + ser_node(p@));
            }
            true
        },
        PlistValue::Data(bytes) => {
            if bytes.len() > (u32::MAX as usize) {
                return false;
            }
            out.push(5u8);
            let mut w = u32_to_le_bytes(bytes.len() as u32);
            out.append(&mut w);
            let mut payload = slice_to_vec(bytes.as_slice());
            out.append(&mut payload);
            proof {
                assert(out@ =~= old(out)@ + ser_node(p@));
            }
            true
        },
        PlistValue::Text(t) => {
            let bytes = t.as_str().as_bytes_vec();
            if bytes.len() > (u32::MAX as usize) {
                return false;
            }
            out.push(6u8);
            let mut w = u32_to_le_bytes(bytes.len() as u32);
            out.append(&mut w);
            let mut payload = bytes;
            out.append(&mut payload);
            proof {
                assert(out@ =~= old(out)@ + ser_node(p@));
            }
            true
        },
        PlistValue::KeyName(k) => {
            let bytes = k.as_str().as_bytes_vec();
            if bytes.len() > (u32::MAX as usize) {
                return false;
            }
            out.push(7u8);
            let mut w = u32_to_le_bytes(bytes.len() as u32);
            out.append(&mut w);
            let mut payload = bytes;
            out.append(&mut payload);
            proof {
                assert(out@ =~= old(out)@ + ser_node(p@));
            }
            true
        },
        PlistValue::Uid(uid) => {
            out.push(8u8);
            let mut w = u64_to_le_bytes(*uid);
            out.append(&mut w);
            proof {
                assert(out@ =~= old(out)@ + ser_node(p@));
            }
            true
        },
        PlistValue::Array(items) => {
            proof {
                assert(p@->items == views_of(items@));
            }
            if items.len() > (u32::MAX as usize) {
                return false;
            }
            out.push(9u8);
            let mut w = u32_to_le_bytes(items.len() as u32);
            out.append(&mut w);
            let ghost base = out@;
            let ghost views = views_of(items@);
            let mut idx: usize = 0;
            while idx < items.len()
                invariant
                    0 <= idx <= items@.len(),
                    out@ == base + ser_items(views.take(idx as int)),
                    forall|j: int| 0 <= j < idx ==> fits_wire(#[trigger] views[j]),
                decreases items@.len() - idx,
            {
                proof {
                    assert(p.value->Array_0 == *items);
                    assert(decreases_to!(*p => p.value->Array_0@[idx as int]));
                    assert(decreases_to!(*p => items@[idx as int]));
                }
                let ok = ser_exec(&items[idx], out);
                if !ok {
                    proof {
                        assert(!fits_wire(views[idx as int]));
                        assert(!fits_wire(p@));
                    }
                    return false;
                }
                proof {
                    lemma_ser_items_snoc(views, idx as int);
                    assert(base + ser_items(views.take(idx as int)) + ser_node(views[idx as int])
                        =~= base + ser_items(views.take(idx as int + 1)));
                }
                idx += 1;
            }
            proof {
                assert(views.take(items@.len() as int) =~= views);
                assert(fits_wire(p@));
            }
            true
        },
        PlistValue::Dictionary(entries) => {
            proof {
                assert(p@->entries == entry_views_of(entries@));
            }
            if entries.len() > (u32::MAX as usize) {
                return false;
            }
            out.push(10u8);
            let mut w = u32_to_le_bytes(entries.len() as u32);
            out.append(&mut w);
            let ghost base = out@;
            let ghost views = entry_views_of(entries@);
            let mut idx: usize = 0;
            while idx < entries.len()
                invariant
                    0 <= idx <= entries@.len(),
                    out@ == base + ser_entries(views.take(idx as int)),
                    forall|j: int|
                        0 <= j < idx ==> encode_utf8((#[trigger] views[j]).0).len() <= u32::MAX
                            && fits_wire(views[j].1),
                decreases entries@.len() - idx,
            {
                proof {
                    assert(p.value->Dictionary_0 == *entries);
                    assert(decreases_to!(*p => p.value->Dictionary_0@[idx as int].1));
                    assert(decreases_to!(*p => entries@[idx as int].1));
                }
                let kbytes = entries[idx].0.as_str().as_bytes_vec();
                if kbytes.len() > (u32::MAX as usize) {
                    proof {
                        assert(encode_utf8(views[idx as int].0).len() > u32::MAX);
                        assert(!fits_wire(p@));
                    }
                    return false;
                }
                let mut kw = u32_to_le_bytes(kbytes.len() as u32);
                out.append(&mut kw);
                let mut kpayload = kbytes;
                out.append(&mut kpayload);
                let ok = ser_exec(&entries[idx].1, out);
                if !ok {
                    proof {
                        assert(!fits_wire(views[idx as int].1));
                        assert(!fits_wire(p@));
                    }
                    return false;
                }
                proof {
                    lemma_ser_entries_snoc(views, idx as int);
                    assert(out@ =~= base + ser_entries(views.take(idx as int + 1)));
                }
                idx += 1;
            }
            proof {
                assert(views.take(entries@.len() as int) =~= views);
                assert(fits_wire(p@));
            }
            true
        },
    }
}

/// The node decoded at a position of a buffer, with the position after
/// it: the buffer must hold, at that position, exactly one node of the
/// wire shape, with normalized date fields, valid terminator-free text
/// and unique dictionary keys.
pub open spec fn parse_at(s: Seq<u8>, pos: int) -> Option<(PNode, int)>
    decreases s.len() - pos, 0int,
{
    if pos < 0 || pos >= s.len() {
        Option::None
    } else {
        let tag = s[pos];
        if tag == 1 {
            if pos + 2 <= s.len() && (s[pos + 1] == 0 || s[pos + 1] == 1) {
                Option::Some((PNode::Bool { b: s[pos + 1] == 1 }, pos + 2))
            } else {
                Option::None
            }
        } else if tag == 2 {
            if pos + 9 <= s.len() {
                Option::Some(
                    (
                        PNode::Int { i: spec_u64_from_le_bytes(s.subrange(pos + 1, pos + 9)) },
                        pos + 9,
                    ),
                )
            } else {
                Option::None
            }
        } else if tag == 3 {
            if pos + 9 <= s.len() {
                Option::Some(
                    (
                        PNode::Real { bits: spec_u64_from_le_bytes(s.subrange(pos + 1, pos + 9)) },
                        pos + 9,
                    ),
                )
            } else {
                Option::None
            }
        } else if tag == 4 {
            if pos + 9 <= s.len() {
                let secu = spec_u32_from_le_bytes(s.subrange(pos + 1, pos + 5));
                let usecu = spec_u32_from_le_bytes(s.subrange(pos + 5, pos + 9));
                if secu <= (i32::MAX as u32) && usecu < 1000000 {
                    Option::Some((PNode::Date { sec: secu as i32, usec: usecu as i32 }, pos + 9))
                } else {
                    Option::None
                }
            } else {
                Option::None
            }
        } else if tag == 5 {
            if pos + 5 <= s.len() {
                let n = spec_u32_from_le_bytes(s.subrange(pos + 1, pos + 5)) as int;
                if pos + 5 + n <= s.len() {
                    Option::Some((PNode::Blob { bytes: s.subrange(pos + 5, pos + 5 + n) }, pos + 5
                        + n))
                } else {
                    Option::None
                }
            } else {
                Option::None
            }
        } else if tag == 6 || tag == 7 {
            if pos + 5 <= s.len() {
                let n = spec_u32_from_le_bytes(s.subrange(pos + 1, pos + 5)) as int;
                if pos + 5 + n <= s.len() {
                    let bytes = s.subrange(pos + 5, pos + 5 + n);
                    if valid_utf8(bytes) && no_nul(decode_utf8(bytes)) {
                        if tag == 6 {
                            Option::Some((PNode::Text { t: decode_utf8(bytes) }, pos + 5 + n))
                        } else {
                            Option::Some((PNode::Key { k: decode_utf8(bytes) }, pos + 5 + n))
                        }
                    } else {
                        Option::None
                    }
                } else {
                    Option::None
                }
            } else {
                Option::None
            }
        } else if tag == 8 {
            if pos + 9 <= s.len() {
                Option::Some(
                    (
                        PNode::Uid { uid: spec_u64_from_le_bytes(s.subrange(pos + 1, pos + 9)) },
                        pos + 9,
                    ),
                )
            } else {
                Option::None
            }
        } else if tag == 9 {
            if pos + 5 <= s.len() {
                let cnt = spec_u32_from_le_bytes(s.subrange(pos + 1, pos + 5)) as int;
                let rr = parse_items(s, pos + 5, cnt);
                if rr is Some {
                    Option::Some((PNode::Arr { items: (rr->0).0 }, (rr->0).1))
                } else {
                    Option::None
                }
            } else {
                Option::None
            }
        } else if tag == 10 {
            if pos + 5 <= s.len() {
                let cnt = spec_u32_from_le_bytes(s.subrange(pos + 1, pos + 5)) as int;
                let rr = parse_entries(s, pos + 5, cnt);
                if rr is Some && keys_unique((rr->0).0) {
                    Option::Some((PNode::Dict { entries: (rr->0).0 }, (rr->0).1))
                } else {
                    Option::None
                }
            } else {
                Option::None
            }
        } else {
            Option::None
        }
    }
}

/// The given number of consecutive nodes decoded at a position, with the
/// position after them.
pub open spec fn parse_items(s: Seq<u8>, pos: int, count: int) -> Option<(Seq<PNode>, int)>
    decreases s.len() - pos, count,
{
    if count <= 0 {
        Option::Some((Seq::empty(), pos))
    } else if pos < 0 || pos >= s.len() {
        Option::None
    } else {
        let rr = parse_at(s, pos);
        if rr is Some {
            let np = (rr->0).1;
            if pos < np <= s.len() {
                let rest = parse_items(s, np, count - 1);
                if rest is Some {
                    Option::Some((seq![(rr->0).0] + (rest->0).0, (rest->0).1))
                } else {
                    Option::None
                }
            } else {
                Option::None
            }
        } else {
            Option::None
        }
    }
}

/// The given number of consecutive dictionary entries decoded at a
/// position, with the position after them.
pub open spec fn parse_entries(s: Seq<u8>, pos: int, count: int) -> Option<
    (Seq<(Seq<char>, PNode)>, int),
>
    decreases s.len() - pos, count,
{
    if count <= 0 {
        Option::Some((Seq::empty(), pos))
    } else if pos < 0 || pos + 4 > s.len() {
        Option::None
    } else {
        let klen = spec_u32_from_le_bytes(s.subrange(pos, pos + 4)) as int;
        if pos + 4 + klen <= s.len() {
            let kb = s.subrange(pos + 4, pos + 4 + klen);
            if valid_utf8(kb) && no_nul(decode_utf8(kb)) {
                let rr = parse_at(s, pos + 4 + klen);
                if rr is Some {
                    let np = (rr->0).1;
                    if pos < np <= s.len() {
                        let rest = parse_entries(s, np, count - 1);
                        if rest is Some {
                            Option::Some(
                                (seq![(decode_utf8(kb), (rr->0).0)] + (rest->0).0, (rest->0).1),
                            )
                        } else {
                            Option::None
                        }
                    } else {
                        Option::None
                    }
                } else {
                    Option::None
                }
            } else {
                Option::None
            }
        } else {
            Option::None
        }
    }
}

/// The node held by a whole binary-encoded buffer: the magic prefix, one
/// node, and nothing after it.
pub open spec fn parse_bin(s: Seq<u8>) -> Option<PNode> {
    if s.len() >= 4 && s.subrange(0, 4) == magic_seq() {
        let rr = parse_at(s, 4);
        if rr is Some && (rr->0).1 == s.len() {
            Option::Some((rr->0).0)
        } else {
            Option::None
        }
    } else {
        Option::None
    }
}

/// Relies on `String::from_utf8`: it succeeds exactly on valid UTF-8
/// input, and then returns the string holding that input's decoding.
#[verifier::external_body]
pub(crate) fn string_from_utf8(v: Vec<u8>) -> (r: Option<String>)
    ensures
        r is Some <==> valid_utf8(v@),
        r is Some ==> r->0@ == decode_utf8(v@),
{
    String::from_utf8(v).ok()
}

/// Whether the text is free of the NUL terminator character.
#[verifier::loop_isolation(false)]
pub(crate) fn check_no_nul(s: &str) -> (r: bool)
    ensures
        r == no_nul(s@),
{
    let n = s.unicode_len();
    let mut idx: usize = 0;
    while idx < n
        invariant
            0 <= idx <= n,
            n == s@.len(),
            forall|j: int| 0 <= j < idx ==> s@[j] != '\0',
        decreases n - idx,
    {
        if s.get_char(idx) == '\0' {
            return false;
        }
        idx += 1;
    }
    true
}

/// Reads a 32-bit little-endian word.
fn read_u32(bin: &Vec<u8>, pos: usize) -> (r: u32)
    requires
        pos + 4 <= bin@.len(),
    ensures
        r == spec_u32_from_le_bytes(bin@.subrange(pos as int, pos as int + 4)),
{
    // binds the buffer's length to usize, which bounds the position sum
    let n: usize = bin.len();
    u32_from_le_bytes(slice_subrange(bin.as_slice(), pos, pos + 4))
}

/// Reads a 64-bit little-endian word.
fn read_u64(bin: &Vec<u8>, pos: usize) -> (r: u64)
    requires
        pos + 8 <= bin@.len(),
    ensures
        r == spec_u64_from_le_bytes(bin@.subrange(pos as int, pos as int + 8)),
{
    // binds the buffer's length to usize, which bounds the position sum
    let n: usize = bin.len();
    u64_from_le_bytes(slice_subrange(bin.as_slice(), pos, pos + 8))
}

/// Joins a decoded prefix onto the outcome of decoding the following
/// nodes.
pub open spec fn cons_items(prefix: Seq<PNode>, rest: Option<(Seq<PNode>, int)>) -> Option<
    (Seq<PNode>, int),
> {
    if rest is Some {
        Option::Some((prefix + (rest->0).0, (rest->0).1))
    } else {
        Option::None
    }
}

/// Joins a decoded prefix onto the outcome of decoding the following
/// dictionary entries.
pub open spec fn cons_entries(
    prefix: Seq<(Seq<char>, PNode)>,
    rest: Option<(Seq<(Seq<char>, PNode)>, int)>,
) -> Option<(Seq<(Seq<char>, PNode)>, int)> {
    if rest is Some {
        Option::Some((prefix + (rest->0).0, (rest->0).1))
    } else {
        Option::None
    }
}

/// Decodes one node at a position of the buffer.
#[verifier::loop_isolation(false)]
#[verifier::rlimit(100)]
fn parse_exec(bin: &Vec<u8>, pos: usize) -> (r: Option<(Plist, usize)>)
    ensures
        r is Some <==> parse_at(bin@, pos as int) is Some,
        r is Some ==> {
            &&& (r->0).0@ == (parse_at(bin@, pos as int)->0).0
            &&& (r->0).1 as int == (parse_at(bin@, pos as int)->0).1
            &&& pos < (r->0).1 <= bin@.len()
            &&& (r->0).0.wf()
            &&& (r->0).0.owning()
        },
    decreases bin@.len() - pos,
{
    let n: usize = bin.len();
    if pos >= n {
        return None;
    }
    let tag = bin[pos];
    if tag == 1 {
        if n - pos >= 2 {
            let b = bin[pos + 1];
            if b == 0 || b == 1 {
                Some((make_node(PlistValue::Boolean(b == 1), PlistType::Boolean), pos + 2))
            } else {
                None
            }
        } else {
            None
        }
    } else if tag == 2 {
        if n - pos >= 9 {
            let v = read_u64(bin, pos + 1);
            Some((make_node(PlistValue::Integer(v), PlistType::Integer), pos + 9))
        } else {
            None
        }
    } else if tag == 3 {
        if n - pos >= 9 {
            let v = read_u64(bin, pos + 1);
            Some((make_node(PlistValue::Real(v), PlistType::Real), pos + 9))
        } else {
            None
        }
    } else if tag == 4 {
        if n - pos >= 9 {
            let secu = read_u32(bin, pos + 1);
            let usecu = read_u32(bin, pos + 5);
            if secu <= (i32::MAX as u32) && usecu < 1000000 {
                Some(
                    (
                        make_node(
                            PlistValue::Date(secu as i32, usecu as i32),
                            PlistType::Date,
                        ),
                        pos + 9,
                    ),
                )
            } else {
                None
            }
        } else {
            None
        }
    } else if tag == 5 {
        if n - pos >= 5 {
            let blen = read_u32(bin, pos + 1);
            if (n - pos - 5) >= (blen as usize) {
                let payload = slice_to_vec(
                    slice_subrange(bin.as_slice(), pos + 5, pos + 5 + (blen as usize)),
                );
                Some(
                    (
                        make_node(PlistValue::Data(payload), PlistType::Data),
                        pos + 5 + (blen as usize),
                    ),
                )
            } else {
                None
            }
        } else {
            None
        }
    } else if tag == 6 || tag == 7 {
        if n - pos >= 5 {
            let blen = read_u32(bin, pos + 1);
            if (n - pos - 5) >= (blen as usize) {
                let payload = slice_to_vec(
                    slice_subrange(bin.as_slice(), pos + 5, pos + 5 + (blen as usize)),
                );
                match string_from_utf8(payload) {
                    Some(text) => {
                        if check_no_nul(text.as_str()) {
                            let node = if tag == 6 {
                                make_node(PlistValue::Text(text), PlistType::String)
                            } else {
                                make_node(PlistValue::KeyName(text), PlistType::Key)
                            };
                            Some((node, pos + 5 + (blen as usize)))
                        } else {
                            None
                        }
                    },
                    None => None,
                }
            } else {
                None
            }
        } else {
            None
        }
    } else if tag == 8 {
        if n - pos >= 9 {
            let v = read_u64(bin, pos + 1);
            Some((make_node(PlistValue::Uid(v), PlistType::Uid), pos + 9))
        } else {
            None
        }
    } else if tag == 9 {
        if n - pos >= 5 {
            let cnt = read_u32(bin, pos + 1);
            let ghost base = pos as int + 5;
            let mut items: Vec<Plist> = Vec::new();
            let mut cur: usize = pos + 5;
            let mut k: u32 = 0;
            proof {
                assert(views_of(items@) =~= Seq::<PNode>::empty());
                assert(cons_items(views_of(items@), parse_items(bin@, cur as int, cnt as int))
                    =~= parse_items(bin@, base, cnt as int));
            }
            while k < cnt
                invariant
                    pos + 5 <= cur <= bin@.len(),
                    k <= cnt,
                    items@.len() == k,
                    forall|j: int|
                        0 <= j < items@.len() ==> (#[trigger] items@[j]).wf()
                            && items@[j].owning(),
                    parse_items(bin@, base, cnt as int) == cons_items(
                        views_of(items@),
                        parse_items(bin@, cur as int, (cnt - k) as int),
                    ),
                decreases cnt - k,
            {
                let ghost pre_views = views_of(items@);
                match parse_exec(bin, cur) {
                    None => {
                        proof {
                            assert(parse_items(bin@, cur as int, (cnt - k) as int) is None);
                            assert(parse_items(bin@, base, cnt as int) is None);
                            assert(parse_at(bin@, pos as int) is None);
                        }
                        return None;
                    },
                    Some((node, np)) => {
                        proof {
                            assert(parse_items(bin@, cur as int, (cnt - k) as int)
                                == cons_items(
                                seq![node@],
                                parse_items(bin@, np as int, (cnt - k - 1) as int),
                            ));
                            crate::lemma_views_of_push(items@, node);
                            if parse_items(bin@, np as int, (cnt - k - 1) as int) is Some {
                                let rest = parse_items(
                                    bin@,
                                    np as int,
                                    (cnt - k - 1) as int,
                                );
                                assert(pre_views + (seq![node@] + (rest->0).0) =~= (
                                pre_views.push(node@)) + (rest->0).0);
                            }
                        }
                        items.push(node);
                        cur = np;
                        k = k + 1;
                    },
                }
            }
            proof {
                assert(parse_items(bin@, cur as int, 0int) == Option::Some(
                    (Seq::<PNode>::empty(), cur as int),
                ));
                assert(views_of(items@) + Seq::<PNode>::empty() =~= views_of(items@));
                assert(parse_items(bin@, base, cnt as int) == Option::Some(
                    (views_of(items@), cur as int),
                ));
            }
            let node = make_node(PlistValue::Array(items), PlistType::Array);
            proof {
                assert(node@ =~= (parse_at(bin@, pos as int)->0).0);
            }
            Some((node, cur))
        } else {
            None
        }
    } else if tag == 10 {
        if n - pos >= 5 {
            let cnt = read_u32(bin, pos + 1);
            let ghost base = pos as int + 5;
            let mut entries: Vec<(String, Plist)> = Vec::new();
            let mut cur: usize = pos + 5;
            let mut k: u32 = 0;
            proof {
                assert(entry_views_of(entries@) =~= Seq::<(Seq<char>, PNode)>::empty());
                assert(cons_entries(
                    entry_views_of(entries@),
                    parse_entries(bin@, cur as int, cnt as int),
                ) =~= parse_entries(bin@, base, cnt as int));
            }
            while k < cnt
                invariant
                    pos + 5 <= cur <= bin@.len(),
                    k <= cnt,
                    entries@.len() == k,
                    forall|j: int|
                        0 <= j < entries@.len() ==> no_nul((#[trigger] entries@[j]).0@)
                            && entries@[j].1.wf() && entries@[j].1.owning(),
                    keys_unique(entry_views_of(entries@)),
                    parse_entries(bin@, base, cnt as int) == cons_entries(
                        entry_views_of(entries@),
                        parse_entries(bin@, cur as int, (cnt - k) as int),
                    ),
                decreases cnt - k,
            {
                let ghost pre_views = entry_views_of(entries@);
                let ghost m = (cnt - k) as int;
                if n - cur < 4 {
                    proof {
                        assert(parse_entries(bin@, cur as int, m) is None);
                        assert(parse_at(bin@, pos as int) is None);
                    }
                    return None;
                }
                let klen = read_u32(bin, cur);
                if (n - cur - 4) < (klen as usize) {
                    proof {
                        assert(parse_entries(bin@, cur as int, m) is None);
                        assert(parse_at(bin@, pos as int) is None);
                    }
                    return None;
                }
                let kpayload = slice_to_vec(
                    slice_subrange(bin.as_slice(), cur + 4, cur + 4 + (klen as usize)),
                );
                let kstr = match string_from_utf8(kpayload) {
                    Some(t) => t,
                    None => {
                        proof {
                            assert(parse_entries(bin@, cur as int, m) is None);
                            assert(parse_at(bin@, pos as int) is None);
                        }
                        return None;
                    },
                };
                if !check_no_nul(kstr.as_str()) {
                    proof {
                        assert(parse_entries(bin@, cur as int, m) is None);
                        assert(parse_at(bin@, pos as int) is None);
                    }
                    return None;
                }
                let vstart: usize = cur + 4 + (klen as usize);
                match parse_exec(bin, vstart) {
                    None => {
                        proof {
                            assert(parse_entries(bin@, cur as int, m) is None);
                            assert(parse_at(bin@, pos as int) is None);
                        }
                        return None;
                    },
                    Some((node, np)) => {
                        proof {
                            assert(parse_entries(bin@, cur as int, m) == cons_entries(
                                seq![(kstr@, node@)],
                                parse_entries(bin@, np as int, m - 1),
                            ));
                        }
                        match crate::dictionary::find_key(&entries, &kstr) {
                            Some(di) => {
                                proof {
                                    crate::lemma_entry_views_of_index(entries@, di as int);
                                    assert(pre_views[di as int].0 == kstr@);
                                    let inner = parse_entries(bin@, cur as int, m);
                                    let full = parse_entries(bin@, base, cnt as int);
                                    if full is Some {
                                        assert(inner is Some);
                                        let es = (full->0).0;
                                        assert(es == pre_views + (inner->0).0);
                                        assert((inner->0).0[0] == (kstr@, node@));
                                        assert(es[di as int] == pre_views[di as int]);
                                        assert(es[pre_views.len() as int] == (kstr@, node@));
                                        assert(!keys_unique(es));
                                    }
                                    assert(parse_at(bin@, pos as int) is None);
                                }
                                return None;
                            },
                            None => {
                                proof {
                                    crate::lemma_entry_views_of_push(entries@, (kstr, node));
                                    if parse_entries(bin@, np as int, m - 1) is Some {
                                        let rest = parse_entries(bin@, np as int, m - 1);
                                        assert(pre_views + (seq![(kstr@, node@)] + (
                                        rest->0).0) =~= (pre_views.push((kstr@, node@))) + (
                                        rest->0).0);
                                    }
                                    assert forall|j: int, l: int|
                                        0 <= j < l < pre_views.push((kstr@, node@)).len() implies (
                                    pre_views.push((kstr@, node@))[j]).0 != (pre_views.push(
                                        (kstr@, node@),
                                    )[l]).0 by {
                                        if l < pre_views.len() {
                                        } else {
                                            assert(pre_views[j].0 != kstr@);
                                        }
                                    }
                                }
                                entries.push((kstr, node));
                                cur = np;
                                k = k + 1;
                            },
                        }
                    },
                }
            }
            proof {
                assert(parse_entries(bin@, cur as int, 0int) == Option::Some(
                    (Seq::<(Seq<char>, PNode)>::empty(), cur as int),
                ));
                assert(entry_views_of(entries@) + Seq::<(Seq<char>, PNode)>::empty()
                    =~= entry_views_of(entries@));
                assert(parse_entries(bin@, base, cnt as int) == Option::Some(
                    (entry_views_of(entries@), cur as int),
                ));
            }
            let node = make_node(PlistValue::Dictionary(entries), PlistType::Dictionary);
            proof {
                assert(node@ =~= (parse_at(bin@, pos as int)->0).0);
            }
            Some((node, cur))
        } else {
            None
        }
    } else {
        None
    }
}

impl Plist {
    /// Serializes the subtree rooted at this node into the compact binary
    /// wire representation.  Succeeds exactly when every length and count
    /// in the subtree fits the format's 32-bit fields, which any tree
    /// that fits in memory does in practice.
    pub fn to_bin(&self) -> (r: Result<Vec<u8>, PlistError>)
        ensures
            r is Ok <==> fits_wire(self@),
            r is Ok ==> r->Ok_0@ == magic_seq() + ser_node(self@),
            !fits_wire(self@) ==> r == Err::<Vec<u8>, PlistError>(PlistError::NoMem),
    {
        let mut out: Vec<u8> = Vec::new();
        out.push(0x70u8);
        out.push(0x6cu8);
        out.push(0x30u8);
        out.push(0x31u8);
        proof {
            assert(out@ =~= magic_seq());
        }
        if ser_exec(self, &mut out) {
            Ok(out)
        } else {
            Err(PlistError::NoMem)
        }
    }
}

/// Whether a byte buffer opens with the binary format's magic prefix, the
/// mark of a binary-encoded tree.
pub open spec fn is_binary_bytes(s: Seq<u8>) -> bool {
    s.len() >= 4 && s.subrange(0, 4) == magic_seq()
}

/// Whether the buffer opens with the binary format's magic prefix.
pub(crate) fn has_magic(bytes: &[u8]) -> (r: bool)
    ensures
        r == is_binary_bytes(bytes@),
{
    if bytes.len() < 4 {
        return false;
    }
    let r = *slice_index_get(bytes, 0) == 0x70u8 && *slice_index_get(bytes, 1) == 0x6cu8
        && *slice_index_get(bytes, 2) == 0x30u8 && *slice_index_get(bytes, 3) == 0x31u8;
    proof {
        if r {
            assert(bytes@.subrange(0, 4) =~= magic_seq());
        } else {
            if bytes@.subrange(0, 4) == magic_seq() {
                assert(bytes@.subrange(0, 4)[0] == bytes@[0]);
                assert(bytes@.subrange(0, 4)[1] == bytes@[1]);
                assert(bytes@.subrange(0, 4)[2] == bytes@[2]);
                assert(bytes@.subrange(0, 4)[3] == bytes@[3]);
                assert(magic_seq()[0] == 0x70u8);
                assert(magic_seq()[1] == 0x6cu8);
                assert(magic_seq()[2] == 0x30u8);
                assert(magic_seq()[3] == 0x31u8);
            }
        }
    }
    r
}

impl Plist {
    /// Decodes a binary-encoded buffer into an owning node tree.  Succeeds
    /// exactly on buffers that open with the magic prefix and then hold
    /// one well-formed node and nothing else; a missing or wrong prefix is
    /// a format error, anything wrong after it a parse error.
    pub fn from_bin(bin: Vec<u8>) -> (r: Result<Plist, PlistError>)
        ensures
            r is Ok <==> parse_bin(bin@) is Some,
            r is Ok ==> r->Ok_0@ == parse_bin(bin@)->0 && r->Ok_0.wf() && r->Ok_0.owning(),
            r is Err ==> r->Err_0 == (if is_binary_bytes(bin@) {
                PlistError::Parse
            } else {
                PlistError::Format
            }),
    {
        let n: usize = bin.len();
        if !has_magic(bin.as_slice()) {
            return Err(PlistError::Format);
        }
        match parse_exec(&bin, 4) {
            Some((node, np)) => {
                if np == n {
                    Ok(node)
                } else {
                    Err(PlistError::Parse)
                }
            },
            None => Err(PlistError::Parse),
        }
    }

    /// Queries whether this node is a byte blob whose payload is a
    /// binary-encoded tree, recognized by the magic prefix.
    pub fn is_binary(&self) -> (r: bool)
        ensures
            r == (self@ is Blob && is_binary_bytes(self@->bytes)),
    {
        match &self.value {
            PlistValue::Data(bytes) => has_magic(bytes.as_slice()),
            _ => false,
        }
    }
}

proof fn lemma_ser_node_len_pos(n: PNode)
    ensures
        ser_node(n).len() >= 1,
{
    lemma_auto_spec_u64_to_from_le_bytes();
    lemma_auto_spec_u32_to_from_le_bytes();
}

/// Law (round trip): decoding at the position where a well-formed node
/// was encoded yields that node back, and consumes exactly its encoding.
proof fn lemma_parse_ser(n: PNode, s: Seq<u8>, pos: int)
    requires
        crate::pnode_wf(n),
        fits_wire(n),
        0 <= pos,
        pos + ser_node(n).len() <= s.len(),
        s.subrange(pos, pos + ser_node(n).len() as int) == ser_node(n),
    ensures
        parse_at(s, pos) == Option::Some((n, pos + ser_node(n).len() as int)),
    decreases n,
{
    lemma_auto_spec_u64_to_from_le_bytes();
    lemma_auto_spec_u32_to_from_le_bytes();
    broadcast use {vstd::utf8::encode_utf8_valid_utf8, vstd::utf8::encode_utf8_decode_utf8};

    let w = ser_node(n);
    assert forall|j: int| pos <= j < pos + w.len() implies #[trigger] s[j] == w[j - pos] by {
        assert(s.subrange(pos, pos + w.len() as int)[j - pos] == s[j]);
    }
    match n {
        PNode::Bool { b } => {
            assert(s[pos] == 1u8);
            assert(s[pos + 1] == (if b { 1u8 } else { 0u8 }));
        },
        PNode::Int { i } => {
            assert(s[pos] == 2u8);
            assert(s.subrange(pos + 1, pos + 9) =~= spec_u64_to_le_bytes(i));
        },
        PNode::Real { bits } => {
            assert(s[pos] == 3u8);
            assert(s.subrange(pos + 1, pos + 9) =~= spec_u64_to_le_bytes(bits));
        },
        PNode::Date { sec, usec } => {
            assert(s[pos] == 4u8);
            assert(s.subrange(pos + 1, pos + 5) =~= spec_u32_to_le_bytes(sec as u32));
            assert(s.subrange(pos + 5, pos + 9) =~= spec_u32_to_le_bytes(usec as u32));
            assert(spec_u32_from_le_bytes(s.subrange(pos + 1, pos + 5)) == sec as u32);
            assert((sec as u32) as i32 == sec);
            assert((usec as u32) as i32 == usec);
        },
        PNode::Uid { uid } => {
            assert(s[pos] == 8u8);
            assert(s.subrange(pos + 1, pos + 9) =~= spec_u64_to_le_bytes(uid));
        },
        PNode::Blob { bytes } => {
            assert(s[pos] == 5u8);
            assert(s.subrange(pos + 1, pos + 5) =~= spec_u32_to_le_bytes(bytes.len() as u32));
            assert(spec_u32_from_le_bytes(s.subrange(pos + 1, pos + 5)) == bytes.len() as u32);
            assert(s.subrange(pos + 5, pos + 5 + bytes.len() as int) =~= bytes);
        },
        PNode::Text { t } => {
            let eb = encode_utf8(t);
            assert(s[pos] == 6u8);
            assert(s.subrange(pos + 1, pos + 5) =~= spec_u32_to_le_bytes(eb.len() as u32));
            assert(s.subrange(pos + 5, pos + 5 + eb.len() as int) =~= eb);
            assert(valid_utf8(eb));
            assert(decode_utf8(eb) == t);
        },
        PNode::Key { k } => {
            let eb = encode_utf8(k);
            assert(s[pos] == 7u8);
            assert(s.subrange(pos + 1, pos + 5) =~= spec_u32_to_le_bytes(eb.len() as u32));
            assert(s.subrange(pos + 5, pos + 5 + eb.len() as int) =~= eb);
            assert(valid_utf8(eb));
            assert(decode_utf8(eb) == k);
        },
        PNode::Arr { items } => {
            assert(s[pos] == 9u8);
            assert(s.subrange(pos + 1, pos + 5) =~= spec_u32_to_le_bytes(items.len() as u32));
            assert(spec_u32_from_le_bytes(s.subrange(pos + 1, pos + 5)) == items.len() as u32);
            let body = ser_items(items);
            assert(w.len() == 5 + body.len());
            assert forall|j: int| 0 <= j < body.len() implies s.subrange(
                pos + 5,
                pos + 5 + body.len() as int,
            )[j] == body[j] by {
                assert(w[5 + j] == body[j]);
            }
            assert(s.subrange(pos + 5, pos + 5 + body.len() as int) =~= body);
            lemma_parse_ser_items(items, s, pos + 5);
            assert(parse_items(s, pos + 5, items.len() as int) == Option::Some(
                (items, pos + 5 + body.len() as int),
            ));
        },
        PNode::Dict { entries } => {
            assert(s[pos] == 10u8);
            assert(s.subrange(pos + 1, pos + 5) =~= spec_u32_to_le_bytes(entries.len() as u32));
            assert(spec_u32_from_le_bytes(s.subrange(pos + 1, pos + 5)) == entries.len() as u32);
            let body = ser_entries(entries);
            assert(w.len() == 5 + body.len());
            assert forall|j: int| 0 <= j < body.len() implies s.subrange(
                pos + 5,
                pos + 5 + body.len() as int,
            )[j] == body[j] by {
                assert(w[5 + j] == body[j]);
            }
            assert(s.subrange(pos + 5, pos + 5 + body.len() as int) =~= body);
            lemma_parse_ser_entries(entries, s, pos + 5);
            assert(parse_entries(s, pos + 5, entries.len() as int) == Option::Some(
                (entries, pos + 5 + body.len() as int),
            ));
            assert(keys_unique(entries));
        },
    }
}

proof fn lemma_parse_ser_items(items: Seq<PNode>, s: Seq<u8>, pos: int)
    requires
        forall|j: int|
            0 <= j < items.len() ==> crate::pnode_wf(#[trigger] items[j]) && fits_wire(items[j]),
        0 <= pos,
        pos + ser_items(items).len() <= s.len(),
        s.subrange(pos, pos + ser_items(items).len() as int) == ser_items(items),
    ensures
        parse_items(s, pos, items.len() as int) == Option::Some(
            (items, pos + ser_items(items).len() as int),
        ),
    decreases items,
{
    if items.len() == 0 {
        assert(items =~= Seq::<PNode>::empty());
    } else {
        let first = items[0];
        let rest = items.drop_first();
        let w0 = ser_node(first);
        let wr = ser_items(rest);
        let w = ser_items(items);
        assert(w == w0 + wr);
        assert forall|j: int| pos <= j < pos + w.len() implies #[trigger] s[j] == w[j - pos] by {
            assert(s.subrange(pos, pos + w.len() as int)[j - pos] == s[j]);
        }
        assert forall|j: int| 0 <= j < w0.len() implies s.subrange(
            pos,
            pos + w0.len() as int,
        )[j] == w0[j] by {
            assert(s.subrange(pos, pos + w0.len() as int)[j] == s[pos + j]);
            assert(w[j] == w0[j]);
        }
        assert(s.subrange(pos, pos + w0.len() as int) =~= w0);
        lemma_parse_ser(first, s, pos);
        lemma_ser_node_len_pos(first);
        let np = pos + w0.len() as int;
        assert forall|j: int| 0 <= j < wr.len() implies s.subrange(
            np,
            np + wr.len() as int,
        )[j] == wr[j] by {
            assert(s.subrange(np, np + wr.len() as int)[j] == s[np + j]);
            assert(w[w0.len() + j] == wr[j]);
        }
        assert(s.subrange(np, np + wr.len() as int) =~= wr);
        assert forall|j: int| 0 <= j < rest.len() implies crate::pnode_wf(#[trigger] rest[j])
            && fits_wire(rest[j]) by {
            assert(rest[j] == items[j + 1]);
        }
        lemma_parse_ser_items(rest, s, np);
        assert(seq![first] + rest =~= items);
    }
}

proof fn lemma_parse_ser_entries(entries: Seq<(Seq<char>, PNode)>, s: Seq<u8>, pos: int)
    requires
        forall|j: int|
            0 <= j < entries.len() ==> crate::pnode_wf((#[trigger] entries[j]).1) && fits_wire(
                entries[j].1,
            ) && crate::no_nul(entries[j].0) && encode_utf8(entries[j].0).len() <= u32::MAX,
        0 <= pos,
        pos + ser_entries(entries).len() <= s.len(),
        s.subrange(pos, pos + ser_entries(entries).len() as int) == ser_entries(entries),
    ensures
        parse_entries(s, pos, entries.len() as int) == Option::Some(
            (entries, pos + ser_entries(entries).len() as int),
        ),
    decreases entries,
{
    lemma_auto_spec_u32_to_from_le_bytes();
    broadcast use {vstd::utf8::encode_utf8_valid_utf8, vstd::utf8::encode_utf8_decode_utf8};

    if entries.len() == 0 {
        assert(entries =~= Seq::<(Seq<char>, PNode)>::empty());
    } else {
        let key = entries[0].0;
        let v = entries[0].1;
        let rest = entries.drop_first();
        let eb = encode_utf8(key);
        let wk = spec_u32_to_le_bytes(eb.len() as u32) + eb;
        let w0 = ser_node(v);
        let wr = ser_entries(rest);
        let w = ser_entries(entries);
        assert(w == wk + w0 + wr);
        assert forall|j: int| pos <= j < pos + w.len() implies #[trigger] s[j] == w[j - pos] by {
            assert(s.subrange(pos, pos + w.len() as int)[j - pos] == s[j]);
        }
        assert forall|j: int| 0 <= j < wk.len() implies #[trigger] w[j] == wk[j] by {
            assert((wk + w0)[j] == wk[j]);
            assert(((wk + w0) + wr)[j] == (wk + w0)[j]);
        }
        assert(s.subrange(pos, pos + 4) =~= spec_u32_to_le_bytes(eb.len() as u32));
        assert(spec_u32_from_le_bytes(s.subrange(pos, pos + 4)) == eb.len() as u32);
        assert(s.subrange(pos + 4, pos + 4 + eb.len() as int) =~= eb);
        assert(valid_utf8(eb));
        assert(decode_utf8(eb) == key);
        let vstart = pos + 4 + eb.len() as int;
        assert forall|j: int| 0 <= j < w0.len() implies s.subrange(
            vstart,
            vstart + w0.len() as int,
        )[j] == w0[j] by {
            assert(s.subrange(vstart, vstart + w0.len() as int)[j] == s[vstart + j]);
            assert((wk + w0)[wk.len() + j] == w0[j]);
            assert(((wk + w0) + wr)[wk.len() + j] == (wk + w0)[wk.len() + j]);
            assert(w[wk.len() + j] == w0[j]);
        }
        assert(s.subrange(vstart, vstart + w0.len() as int) =~= w0);
        lemma_parse_ser(v, s, vstart);
        lemma_ser_node_len_pos(v);
        let np = vstart + w0.len() as int;
        assert forall|j: int| 0 <= j < wr.len() implies s.subrange(
            np,
            np + wr.len() as int,
        )[j] == wr[j] by {
            assert(s.subrange(np, np + wr.len() as int)[j] == s[np + j]);
            assert(((wk + w0) + wr)[(wk + w0).len() + j] == wr[j]);
            assert(w[wk.len() + w0.len() + j] == wr[j]);
        }
        assert(s.subrange(np, np + wr.len() as int) =~= wr);
        assert forall|j: int| 0 <= j < rest.len() implies crate::pnode_wf((#[trigger] rest[j]).1)
            && fits_wire(rest[j].1) && crate::no_nul(rest[j].0) && encode_utf8(
            rest[j].0,
        ).len() <= u32::MAX by {
            assert(rest[j] == entries[j + 1]);
        }
        lemma_parse_ser_entries(rest, s, np);
        assert(seq![(key, v)] + rest =~= entries);
    }
}

/// Law (round trip): a well-formed node that fits the wire format's
/// fields decodes from its own binary encoding back to itself.  Scalar
/// nodes always fit, so for every constructible scalar node the decode of
/// the encode is the node itself, under structural equality.
pub proof fn lemma_bin_round_trip(n: PNode)
    requires
        crate::pnode_wf(n),
        fits_wire(n),
    ensures
        parse_bin(magic_seq() + ser_node(n)) == Option::Some(n),
{
    let s = magic_seq() + ser_node(n);
    assert(s.subrange(0, 4) =~= magic_seq());
    assert forall|j: int| 0 <= j < ser_node(n).len() implies s.subrange(
        4,
        4 + ser_node(n).len() as int,
    )[j] == ser_node(n)[j] by {
        assert(s[4 + j] == ser_node(n)[j]);
    }
    assert(s.subrange(4, 4 + ser_node(n).len() as int) =~= ser_node(n));
    lemma_parse_ser(n, s, 4);
}

} // verus!
