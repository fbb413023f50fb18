//! The textual wire representation: one node as a compact XML element.
//!
//! Booleans are the empty elements `<true/>` and `<false/>`; integers,
//! unique identifiers and the bit patterns of reals are decimal text;
//! dates carry their seconds and microseconds past the Mac epoch as two
//! decimal fields separated by a dot; byte blobs are lowercase
//! hexadecimal; strings and keys escape `&`, `<` and `>`; arrays and
//! dictionaries nest their children, a dictionary value preceded by its
//! `<key>` element.  No whitespace stands between elements: decoding
//! accepts exactly this shape and inverts encoding.

use vstd::prelude::*;
use vstd::string::*;

use crate::error::PlistError;
use crate::path::{all_digits, digit_val, digits_value, is_digit};
use crate::render::{dec_seq, digit_char};
use crate::{lemma_view_unfold, no_nul, PNode, Plist, PlistValue};

verus! {

broadcast use {lemma_view_unfold, crate::lemma_views_of_len, crate::lemma_views_of_index, crate::lemma_entry_views_of_len, crate::lemma_entry_views_of_index};

/// The lowercase hexadecimal digit character for a value below sixteen.
pub open spec fn hex_char(d: int) -> char {
    if d < 10 {
        digit_char(d)
    } else {
        ((87 + d) as u8) as char
    }
}

/// The lowercase hexadecimal rendering of bytes, two digits per byte.
pub open spec fn hex_of(bytes: Seq<u8>) -> Seq<char>
    decreases bytes.len(),
{
    if bytes.len() == 0 {
        Seq::empty()
    } else {
        seq![hex_char(bytes[0] as int / 16), hex_char(bytes[0] as int % 16)] + hex_of(
            bytes.drop_first(),
        )
    }
}

/// The escaping of one character of text content.
pub open spec fn esc_char(c: char) -> Seq<char> {
    if c == '&' {
        "&amp;"@
    } else if c == '<' {
        "&lt;"@
    } else if c == '>' {
        "&gt;"@
    } else {
        seq![c]
    }
}

/// The escaping of text content.
pub open spec fn esc(s: Seq<char>) -> Seq<char>
    decreases s.len(),
{
    if s.len() == 0 {
        Seq::empty()
    } else {
        esc_char(s[0]) + esc(s.drop_first())
    }
}

/// The textual encoding of a node.
pub open spec fn xml_node(n: PNode) -> Seq<char>
    decreases n,
{
    match n {
        PNode::Bool { b } => if b {
            "<true/>"@
        } else {
            "<false/>"@
        },
        PNode::Int { i } => "<integer>"@ + dec_seq(i as int) + "</integer>"@,
        PNode::Real { bits } => "<real>"@ + dec_seq(bits as int) + "</real>"@,
        PNode::Date { sec, usec } => "<date>"@ + dec_seq(sec as int) + "."@ + dec_seq(usec as int)
            + "</date>"@,
        PNode::Blob { bytes } => "<data>"@ + hex_of(bytes) + "</data>"@,
        PNode::Text { t } => "<string>"@ + esc(t) + "</string>"@,
        PNode::Key { k } => "<key>"@ + esc(k) + "</key>"@,
        PNode::Uid { uid } => "<uid>"@ + dec_seq(uid as int) + "</uid>"@,
        PNode::Arr { items } => "<array>"@ + xml_items(items) + "</array>"@,
        PNode::Dict { entries } => "<dict>"@ + xml_entries(entries) + "</dict>"@,
    }
}

/// The textual encodings of an array's children, in order.
pub open spec fn xml_items(items: Seq<PNode>) -> Seq<char>
    decreases items,
{
    if items.len() == 0 {
        Seq::empty()
    } else {
        xml_node(items[0]) + xml_items(items.drop_first())
    }
}

/// The textual encodings of a dictionary's entries, each a key element
/// followed by the value's encoding, in order.
pub open spec fn xml_entries(entries: Seq<(Seq<char>, PNode)>) -> Seq<char>
    decreases entries,
{
    if entries.len() == 0 {
        Seq::empty()
    } else {
        "<key>"@ + esc(entries[0].0) + "</key>"@ + xml_node(entries[0].1) + xml_entries(
            entries.drop_first(),
        )
    }
}

/// The lowercase hexadecimal digit as a borrowed one-character string.
fn hex_str(d: u8) -> (r: &'static str)
    requires
        d < 16,
    ensures
        r@ == seq![hex_char(d as int)],
{
    proof {
        reveal_strlit("a");
        reveal_strlit("b");
        reveal_strlit("c");
        reveal_strlit("d");
        reveal_strlit("e");
        reveal_strlit("f");
    }
    if d < 10 {
        crate::render::dec_digit_str(d as u64)
    } else {
        match d {
            10 => "a",
            11 => "b",
            12 => "c",
            13 => "d",
            14 => "e",
            _ => "f",
        }
    }
}

proof fn lemma_hex_of_snoc(bytes: Seq<u8>, i: int)
    requires
        0 <= i < bytes.len(),
    ensures
        hex_of(bytes.take(i + 1)) == hex_of(bytes.take(i)) + seq![
            hex_char(bytes[i] as int / 16),
            hex_char(bytes[i] as int % 16),
        ],
    decreases i,
{
    let e = seq![hex_char(bytes[i] as int / 16), hex_char(bytes[i] as int % 16)];
    if i == 0 {
        reveal_with_fuel(hex_of, 2);
        assert(bytes.take(1) =~= seq![bytes[0]]);
        assert(bytes.take(1).drop_first() =~= Seq::<u8>::empty());
        assert(bytes.take(0) =~= Seq::<u8>::empty());
        assert(hex_of(bytes.take(1)) =~= hex_of(bytes.take(0)) + e);
    } else {
        let rest = bytes.drop_first();
        lemma_hex_of_snoc(rest, i - 1);
        assert(bytes.take(i + 1).drop_first() =~= rest.take(i));
        assert(bytes.take(i).drop_first() =~= rest.take(i - 1));
        assert(bytes.take(i + 1)[0] == bytes[0]);
        assert(bytes.take(i)[0] == bytes[0]);
        assert(rest[i - 1] == bytes[i]);
        let h = seq![hex_char(bytes[0] as int / 16), hex_char(bytes[0] as int % 16)];
        assert(h + (hex_of(rest.take(i - 1)) + e) =~= (h + hex_of(rest.take(i - 1))) + e);
        assert(hex_of(bytes.take(i + 1)) =~= hex_of(bytes.take(i)) + e);
    }
}

proof fn lemma_esc_snoc(s: Seq<char>, i: int)
    requires
        0 <= i < s.len(),
    ensures
        esc(s.take(i + 1)) == esc(s.take(i)) + esc_char(s[i]),
    decreases i,
{
    if i == 0 {
        reveal_with_fuel(esc, 2);
        assert(s.take(1) =~= seq![s[0]]);
        assert(s.take(1).drop_first() =~= Seq::<char>::empty());
        assert(s.take(0) =~= Seq::<char>::empty());
        assert(esc(s.take(1)) =~= esc(s.take(0)) + esc_char(s[0]));
    } else {
        let rest = s.drop_first();
        lemma_esc_snoc(rest, i - 1);
        assert(s.take(i + 1).drop_first() =~= rest.take(i));
        assert(s.take(i).drop_first() =~= rest.take(i - 1));
        assert(s.take(i + 1)[0] == s[0]);
        assert(s.take(i)[0] == s[0]);
        assert(rest[i - 1] == s[i]);
        assert(esc_char(s[0]) + (esc(rest.take(i - 1)) + esc_char(s[i])) =~= (esc_char(s[0]) + esc(
            rest.take(i - 1),
        )) + esc_char(s[i]));
        assert(esc(s.take(i + 1)) =~= esc(s.take(i)) + esc_char(s[i]));
    }
}

/// Appends the escaped text content onto the buffer.
#[verifier::loop_isolation(false)]
fn append_escaped(out: &mut String, t: &str)
    ensures
        final(out)@ == old(out)@ + esc(t@),
{
    let n = t.unicode_len();
    let mut idx: usize = 0;
    while idx < n
        invariant
            0 <= idx <= n,
            n == t@.len(),
            out@ == old(out)@ + esc(t@.take(idx as int)),
        decreases n - idx,
    {
        let c = t.get_char(idx);
        if c == '&' {
            out.append("&amp;");
        } else if c == '<' {
            out.append("&lt;");
        } else if c == '>' {
            out.append("&gt;");
        } else {
            let piece = t.substring_char(idx, idx + 1);
            proof {
                assert(piece@ =~= seq![t@[idx as int]]);
            }
            out.append(piece);
        }
        proof {
            lemma_esc_snoc(t@, idx as int);
            assert(out@ =~= old(out)@ + esc(t@.take(idx as int + 1)));
        }
        idx += 1;
    }
    proof {
        assert(t@.take(n as int) =~= t@);
    }
}

/// Serializes one node onto the end of the buffer.
#[verifier::loop_isolation(false)]
#[verifier::rlimit(80)]
fn xml_exec(p: &Plist, out: &mut String)
    requires
        p.wf(),
    ensures
        final(out)@ == old(out)@ + xml_node(p@),
    decreases *p,
{
    match &p.value {
        PlistValue::Boolean(b) => {
            if *b {
                out.append("<true/>");
            } else {
                out.append("<false/>");
            }
        },
        PlistValue::Integer(i) => {
            out.append("<integer>");
            let d = crate::render::u64_to_dec(*i);
            out.append(d.as_str());
            out.append("</integer>");
            proof {
                assert(out@ =~= old(out)@ + xml_node(p@));
            }
        },
        PlistValue::Real(bits) => {
            out.append("<real>");
            let d = crate::render::u64_to_dec(*bits);
            out.append(d.as_str());
            out.append("</real>");
            proof {
                assert(out@ =~= old(out)@ + xml_node(p@));
            }
        },
        PlistValue::Date(sec, usec) => {
            out.append("<date>");
            let d1 = crate::render::u64_to_dec(*sec as u64);
            out.append(d1.as_str());
            out.append(".");
            let d2 = crate::render::u64_to_dec(*usec as u64);
            out.append(d2.as_str());
            out.append("</date>");
            proof {
                assert(out@ =~= old(out)@ + xml_node(p@));
            }
        },
        PlistValue::Data(bytes) => {
            out.append("<data>");
            let ghost mid = out@;
            let mut idx: usize = 0;
            while idx < bytes.len()
                invariant
                    0 <= idx <= bytes@.len(),
                    out@ == mid + hex_of(bytes@.take(idx as int)),
                decreases bytes@.len() - idx,
            {
                let b = bytes[idx];
                out.append(hex_str(b / 16));
                out.append(hex_str(b % 16));
                proof {
                    lemma_hex_of_snoc(bytes@, idx as int);
                    assert(out@ =~= mid + hex_of(bytes@.take(idx as int + 1)));
                }
                idx += 1;
            }
            out.append("</data>");
            proof {
                assert(bytes@.take(bytes@.len() as int) =~= bytes@);
                assert(out@ =~= old(out)@ + xml_node(p@));
            }
        },
        PlistValue::Text(t) => {
            out.append("<string>");
            append_escaped(out, t.as_str());
            out.append("</string>");
            proof {
                assert(out@ =~= old(out)@ + xml_node(p@));
            }
        },
        PlistValue::KeyName(k) => {
            out.append("<key>");
            append_escaped(out, k.as_str());
            out.append("</key>");
            proof {
                assert(out@ =~= old(out)@ + xml_node(p@));
            }
        },
        PlistValue::Uid(uid) => {
            out.append("<uid>");
            let d = crate::render::u64_to_dec(*uid);
            out.append(d.as_str());
            out.append("</uid>");
            proof {
                assert(out@ =~= old(out)@ + xml_node(p@));
            }
        },
        PlistValue::Array(items) => {
            proof {
                assert(p@->items == crate::views_of(items@));
            }
            let ghost views = crate::views_of(items@);
            out.append("<array>");
            let ghost mid = out@;
            let mut idx: usize = 0;
            while idx < items.len()
                invariant
                    0 <= idx <= items@.len(),
                    out@ == mid + xml_items(views.take(idx as int)),
                decreases items@.len() - idx,
            {
                proof {
                    assert(p.value->Array_0 == *items);
                    assert(decreases_to!(*p => p.value->Array_0@[idx as int]));
                    assert(decreases_to!(*p => items@[idx as int]));
                    crate::lemma_views_of_index(items@, idx as int);
                }
                xml_exec(&items[idx], out);
                proof {
                    lemma_xml_items_snoc(views, idx as int);
                    assert(out@ =~= mid + xml_items(views.take(idx as int + 1)));
                }
                idx += 1;
            }
            out.append("</array>");
            proof {
                assert(views.take(items@.len() as int) =~= views);
                assert(out@ =~= old(out)@ + xml_node(p@));
            }
        },
        PlistValue::Dictionary(entries) => {
            proof {
                assert(p@->entries == crate::entry_views_of(entries@));
            }
            let ghost views = crate::entry_views_of(entries@);
            out.append("<dict>");
            let ghost mid = out@;
            let mut idx: usize = 0;
            while idx < entries.len()
                invariant
                    0 <= idx <= entries@.len(),
                    out@ == mid + xml_entries(views.take(idx as int)),
                decreases entries@.len() - idx,
            {
                proof {
                    assert(p.value->Dictionary_0 == *entries);
                    assert(decreases_to!(*p => p.value->Dictionary_0@[idx as int].1));
                    assert(decreases_to!(*p => entries@[idx as int].1));
                    crate::lemma_entry_views_of_index(entries@, idx as int);
                }
                out.append("<key>");
                append_escaped(out, entries[idx].0.as_str());
                out.append("</key>");
                xml_exec(&entries[idx].1, out);
                proof {
                    lemma_xml_entries_snoc(views, idx as int);
                    assert(out@ =~= mid + xml_entries(views.take(idx as int + 1)));
                }
                idx += 1;
            }
            out.append("</dict>");
            proof {
                assert(views.take(entries@.len() as int) =~= views);
                assert(out@ =~= old(out)@ + xml_node(p@));
            }
        },
    }
}

proof fn lemma_xml_items_snoc(items: Seq<PNode>, i: int)
    requires
        0 <= i < items.len(),
    ensures
        xml_items(items.take(i + 1)) == xml_items(items.take(i)) + xml_node(items[i]),
    decreases i,
{
    if i == 0 {
        reveal_with_fuel(xml_items, 2);
        assert(items.take(1) =~= seq![items[0]]);
        assert(items.take(1).drop_first() =~= Seq::<PNode>::empty());
        assert(items.take(0) =~= Seq::<PNode>::empty());
        assert(xml_items(items.take(1)) =~= xml_items(items.take(0)) + xml_node(items[0]));
    } else {
        let rest = items.drop_first();
        lemma_xml_items_snoc(rest, i - 1);
        assert(items.take(i + 1).drop_first() =~= rest.take(i));
        assert(items.take(i).drop_first() =~= rest.take(i - 1));
        assert(items.take(i + 1)[0] == items[0]);
        assert(items.take(i)[0] == items[0]);
        assert(rest[i - 1] == items[i]);
        assert(xml_node(items[0]) + (xml_items(rest.take(i - 1)) + xml_node(items[i])) =~= (
        xml_node(items[0]) + xml_items(rest.take(i - 1))) + xml_node(items[i]));
    }
}

proof fn lemma_xml_entries_snoc(entries: Seq<(Seq<char>, PNode)>, i: int)
    requires
        0 <= i < entries.len(),
    ensures
        xml_entries(entries.take(i + 1)) == xml_entries(entries.take(i)) + "<key>"@ + esc(
            entries[i].0,
        ) + "</key>"@ + xml_node(entries[i].1),
    decreases i,
{
    let e = "<key>"@ + esc(entries[i].0) + "</key>"@ + xml_node(entries[i].1);
    if i == 0 {
        reveal_with_fuel(xml_entries, 2);
        assert(entries.take(1) =~= seq![entries[0]]);
        assert(entries.take(1).drop_first() =~= Seq::<(Seq<char>, PNode)>::empty());
        assert(entries.take(0) =~= Seq::<(Seq<char>, PNode)>::empty());
        assert(xml_entries(entries.take(1)) =~= (((xml_entries(entries.take(0)) + "<key>"@) + esc(
            entries[0].0,
        )) + "</key>"@) + xml_node(entries[0].1));
    } else {
        let rest = entries.drop_first();
        lemma_xml_entries_snoc(rest, i - 1);
        assert(entries.take(i + 1).drop_first() =~= rest.take(i));
        assert(entries.take(i).drop_first() =~= rest.take(i - 1));
        assert(entries.take(i + 1)[0] == entries[0]);
        assert(entries.take(i)[0] == entries[0]);
        assert(rest[i - 1] == entries[i]);
        let h = "<key>"@ + esc(entries[0].0) + "</key>"@ + xml_node(entries[0].1);
        assert(xml_entries(entries.take(i + 1)) == h + xml_entries(rest.take(i)));
        assert(xml_entries(entries.take(i)) == h + xml_entries(rest.take(i - 1)));
        assert(h + ((((xml_entries(rest.take(i - 1)) + "<key>"@) + esc(entries[i].0)) + "</key>"@)
            + xml_node(entries[i].1)) =~= ((((h + xml_entries(rest.take(i - 1))) + "<key>"@) + esc(
            entries[i].0,
        )) + "</key>"@) + xml_node(entries[i].1));
        assert(xml_entries(entries.take(i + 1)) =~= xml_entries(entries.take(i)) + "<key>"@ + esc(
            entries[i].0,
        ) + "</key>"@ + xml_node(entries[i].1));
    }
}

impl Plist {
    /// Serializes the subtree rooted at this node into the textual wire
    /// representation; the node must be well-formed.
    pub fn to_xml(&self) -> (r: String)
        requires
            self.wf(),
        ensures
            r@ == xml_node(self@),
    {
        let mut out = String::new();
        xml_exec(self, &mut out);
        out
    }
}

/// Whether the text holds the given literal at the given position.
pub open spec fn lit_at(t: Seq<char>, pos: int, l: Seq<char>) -> bool {
    0 <= pos && pos + l.len() <= t.len() && t.subrange(pos, pos + l.len() as int) == l
}

/// The position of the first non-digit character at or after `j`.
pub open spec fn digits_end(t: Seq<char>, j: int) -> int
    decreases t.len() - j,
{
    if 0 <= j < t.len() && is_digit(t[j]) {
        digits_end(t, j + 1)
    } else {
        j
    }
}

/// Whether a character is a lowercase hexadecimal digit.
pub open spec fn is_hex(c: char) -> bool {
    is_digit(c) || 97 <= c as u32 <= 102
}

/// The value of a lowercase hexadecimal digit character.
pub open spec fn hex_val(c: char) -> int {
    if is_digit(c) {
        c as u32 - 48
    } else {
        c as u32 - 87
    }
}

/// The position of the first non-hexadecimal character at or after `j`.
pub open spec fn hex_end(t: Seq<char>, j: int) -> int
    decreases t.len() - j,
{
    if 0 <= j < t.len() && is_hex(t[j]) {
        hex_end(t, j + 1)
    } else {
        j
    }
}

/// The bytes denoted by an even run of hexadecimal digit characters.
pub open spec fn hex_decode(h: Seq<char>) -> Seq<u8>
    decreases h.len(),
{
    if h.len() < 2 {
        Seq::empty()
    } else {
        seq![(hex_val(h[0]) * 16 + hex_val(h[1])) as u8] + hex_decode(h.drop_first().drop_first())
    }
}

/// The unescaped text content read from a position up to the next raw
/// `<`, with the position of that `<`.  A raw `&` must open one of the
/// three escapes, and the NUL character is refused.
pub open spec fn xtext(t: Seq<char>, j: int) -> Option<(Seq<char>, int)>
    decreases t.len() - j,
{
    if j < 0 || j >= t.len() {
        Option::None
    } else if t[j] == '<' {
        Option::Some((Seq::empty(), j))
    } else if t[j] == '&' {
        if lit_at(t, j, "&amp;"@) && j + 5 <= t.len() {
            xtext_cons('&', xtext(t, j + 5))
        } else if lit_at(t, j, "&lt;"@) && j + 4 <= t.len() {
            xtext_cons('<', xtext(t, j + 4))
        } else if lit_at(t, j, "&gt;"@) && j + 4 <= t.len() {
            xtext_cons('>', xtext(t, j + 4))
        } else {
            Option::None
        }
    } else if t[j] == '\0' {
        Option::None
    } else {
        xtext_cons(t[j], xtext(t, j + 1))
    }
}

/// Joins an unescaped character onto the outcome of reading the rest of
/// the content.
pub open spec fn xtext_cons(c: char, rest: Option<(Seq<char>, int)>) -> Option<(Seq<char>, int)> {
    if rest is Some {
        Option::Some((seq![c] + (rest->0).0, (rest->0).1))
    } else {
        Option::None
    }
}

/// The node decoded at a position of the text.
pub open spec fn xparse_at(t: Seq<char>, pos: int) -> Option<(PNode, int)>
    decreases t.len() - pos, 0int,
{
    if pos < 0 || pos >= t.len() {
        Option::None
    } else if lit_at(t, pos, "<true/>"@) {
        Option::Some((PNode::Bool { b: true }, pos + 7))
    } else if lit_at(t, pos, "<false/>"@) {
        Option::Some((PNode::Bool { b: false }, pos + 8))
    } else if lit_at(t, pos, "<integer>"@) {
        let ds = pos + 9;
        let de = digits_end(t, ds);
        if de > ds && digits_value(t.subrange(ds, de)) <= u64::MAX && lit_at(
            t,
            de,
            "</integer>"@,
        ) {
            Option::Some((PNode::Int { i: digits_value(t.subrange(ds, de)) as u64 }, de + 10))
        } else {
            Option::None
        }
    } else if lit_at(t, pos, "<real>"@) {
        let ds = pos + 6;
        let de = digits_end(t, ds);
        if de > ds && digits_value(t.subrange(ds, de)) <= u64::MAX && lit_at(t, de, "</real>"@) {
            Option::Some((PNode::Real { bits: digits_value(t.subrange(ds, de)) as u64 }, de + 7))
        } else {
            Option::None
        }
    } else if lit_at(t, pos, "<date>"@) {
        let ds = pos + 6;
        let de = digits_end(t, ds);
        if de > ds && de < t.len() && digits_value(t.subrange(ds, de)) <= i32::MAX && t[de]
            == '.' {
            let us = de + 1;
            let ue = digits_end(t, us);
            if ue > us && digits_value(t.subrange(us, ue)) < 1000000 && lit_at(
                t,
                ue,
                "</date>"@,
            ) {
                Option::Some(
                    (
                        PNode::Date {
                            sec: digits_value(t.subrange(ds, de)) as i32,
                            usec: digits_value(t.subrange(us, ue)) as i32,
                        },
                        ue + 7,
                    ),
                )
            } else {
                Option::None
            }
        } else {
            Option::None
        }
    } else if lit_at(t, pos, "<data>"@) {
        let hs = pos + 6;
        let he = hex_end(t, hs);
        if (he - hs) % 2 == 0 && lit_at(t, he, "</data>"@) {
            Option::Some((PNode::Blob { bytes: hex_decode(t.subrange(hs, he)) }, he + 7))
        } else {
            Option::None
        }
    } else if lit_at(t, pos, "<string>"@) {
        let rr = xtext(t, pos + 8);
        if rr is Some && lit_at(t, (rr->0).1, "</string>"@) {
            Option::Some((PNode::Text { t: (rr->0).0 }, (rr->0).1 + 9))
        } else {
            Option::None
        }
    } else if lit_at(t, pos, "<key>"@) {
        let rr = xtext(t, pos + 5);
        if rr is Some && lit_at(t, (rr->0).1, "</key>"@) {
            Option::Some((PNode::Key { k: (rr->0).0 }, (rr->0).1 + 6))
        } else {
            Option::None
        }
    } else if lit_at(t, pos, "<uid>"@) {
        let ds = pos + 5;
        let de = digits_end(t, ds);
        if de > ds && digits_value(t.subrange(ds, de)) <= u64::MAX && lit_at(t, de, "</uid>"@) {
            Option::Some((PNode::Uid { uid: digits_value(t.subrange(ds, de)) as u64 }, de + 6))
        } else {
            Option::None
        }
    } else if lit_at(t, pos, "<array>"@) {
        let rr = if pos + 7 <= t.len() {
            xitems(t, pos + 7)
        } else {
            Option::None
        };
        if rr is Some {
            Option::Some((PNode::Arr { items: (rr->0).0 }, (rr->0).1 + 8))
        } else {
            Option::None
        }
    } else if lit_at(t, pos, "<dict>"@) {
        let rr = if pos + 6 <= t.len() {
            xentries(t, pos + 6)
        } else {
            Option::None
        };
        if rr is Some && crate::keys_unique((rr->0).0) {
            Option::Some((PNode::Dict { entries: (rr->0).0 }, (rr->0).1 + 7))
        } else {
            Option::None
        }
    } else {
        Option::None
    }
}

/// The children decoded up to the array's closing element, with the
/// position of that element.
pub open spec fn xitems(t: Seq<char>, j: int) -> Option<(Seq<PNode>, int)>
    decreases t.len() - j, 1int,
{
    if j < 0 || j > t.len() {
        Option::None
    } else if lit_at(t, j, "</array>"@) {
        Option::Some((Seq::empty(), j))
    } else {
        let rr = xparse_at(t, j);
        if rr is Some && j < (rr->0).1 <= t.len() {
            let rest = xitems(t, (rr->0).1);
            if rest is Some {
                Option::Some((seq![(rr->0).0] + (rest->0).0, (rest->0).1))
            } else {
                Option::None
            }
        } else {
            Option::None
        }
    }
}

/// The entries decoded up to the dictionary's closing element, with the
/// position of that element.
pub open spec fn xentries(t: Seq<char>, j: int) -> Option<(Seq<(Seq<char>, PNode)>, int)>
    decreases t.len() - j, 1int,
{
    if j < 0 || j > t.len() {
        Option::None
    } else if lit_at(t, j, "</dict>"@) {
        Option::Some((Seq::empty(), j))
    } else if lit_at(t, j, "<key>"@) {
        let kk = xtext(t, j + 5);
        if kk is Some && lit_at(t, (kk->0).1, "</key>"@) {
            let vstart = (kk->0).1 + 6;
            if j < vstart <= t.len() {
                let rr = xparse_at(t, vstart);
                if rr is Some && j < (rr->0).1 <= t.len() {
                    let rest = xentries(t, (rr->0).1);
                    if rest is Some {
                        Option::Some(
                            (seq![((kk->0).0, (rr->0).0)] + (rest->0).0, (rest->0).1),
                        )
                    } else {
                        Option::None
                    }
                } else {
                    Option::None
                }
            } else {
                Option::None
            }
        } else {
            Option::None
        }
    } else {
        Option::None
    }
}

/// The node held by a whole textual encoding: one node and nothing after
/// it.
pub open spec fn xparse(t: Seq<char>) -> Option<PNode> {
    let rr = xparse_at(t, 0);
    if rr is Some && (rr->0).1 == t.len() {
        Option::Some((rr->0).0)
    } else {
        Option::None
    }
}

proof fn lemma_digits_end_range(t: Seq<char>, j: int)
    requires
        0 <= j <= t.len(),
    ensures
        j <= digits_end(t, j) <= t.len(),
        forall|k: int| j <= k < digits_end(t, j) ==> is_digit(#[trigger] t[k]),
    decreases t.len() - j,
{
    if j < t.len() && is_digit(t[j]) {
        lemma_digits_end_range(t, j + 1);
    }
}

proof fn lemma_hex_end_range(t: Seq<char>, j: int)
    requires
        0 <= j <= t.len(),
    ensures
        j <= hex_end(t, j) <= t.len(),
        forall|k: int| j <= k < hex_end(t, j) ==> is_hex(#[trigger] t[k]),
    decreases t.len() - j,
{
    if j < t.len() && is_hex(t[j]) {
        lemma_hex_end_range(t, j + 1);
    }
}

/// Properties of reading text content: it stops at a `<` within the
/// text, and what it reads is free of the NUL terminator.
proof fn lemma_xtext_props(t: Seq<char>, j: int)
    requires
        xtext(t, j) is Some,
    ensures
        0 <= j <= (xtext(t, j)->0).1 <= t.len(),
        no_nul((xtext(t, j)->0).0),
    decreases t.len() - j,
{
    if t[j] == '<' {
    } else if t[j] == '&' {
        if lit_at(t, j, "&amp;"@) && j + 5 <= t.len() {
            lemma_xtext_props(t, j + 5);
            assert(no_nul(seq!['&'] + (xtext(t, j + 5)->0).0));
        } else if lit_at(t, j, "&lt;"@) && j + 4 <= t.len() {
            lemma_xtext_props(t, j + 4);
            assert(no_nul(seq!['<'] + (xtext(t, j + 4)->0).0));
        } else {
            lemma_xtext_props(t, j + 4);
            assert(no_nul(seq!['>'] + (xtext(t, j + 4)->0).0));
        }
    } else {
        lemma_xtext_props(t, j + 1);
        assert(no_nul(seq![t[j]] + (xtext(t, j + 1)->0).0));
    }
}

/// Whether the text holds the given literal at the given position.
#[verifier::loop_isolation(false)]
fn lit_match(s: &str, pos: usize, lit: &str) -> (r: bool)
    ensures
        r == lit_at(s@, pos as int, lit@),
{
    let sl = s.unicode_len();
    let ll = lit.unicode_len();
    if pos > sl || sl - pos < ll {
        return false;
    }
    let mut j: usize = 0;
    while j < ll
        invariant
            0 <= j <= ll,
            ll == lit@.len(),
            sl == s@.len(),
            pos + ll <= sl,
            forall|k: int| 0 <= k < j ==> s@[pos + k] == lit@[k],
        decreases ll - j,
    {
        if s.get_char(pos + j) != lit.get_char(j) {
            proof {
                if s@.subrange(pos as int, pos as int + lit@.len() as int) == lit@ {
                    assert(s@.subrange(pos as int, pos as int + lit@.len() as int)[j as int]
                        == s@[pos as int + j]);
                }
            }
            return false;
        }
        j += 1;
    }
    proof {
        assert(s@.subrange(pos as int, pos as int + lit@.len() as int) =~= lit@);
    }
    true
}

/// The position of the first non-digit character at or after `pos`.
#[verifier::loop_isolation(false)]
fn scan_digits(s: &str, pos: usize) -> (r: usize)
    requires
        pos <= s@.len(),
    ensures
        r as int == digits_end(s@, pos as int),
        pos <= r <= s@.len(),
{
    let n = s.unicode_len();
    let mut idx: usize = pos;
    while idx < n
        invariant
            pos <= idx <= n,
            n == s@.len(),
            digits_end(s@, pos as int) == digits_end(s@, idx as int),
        decreases n - idx,
    {
        let c = s.get_char(idx);
        let cv = c as u32;
        if cv < 48 || cv > 57 {
            proof {
                assert(!is_digit(s@[idx as int]));
            }
            return idx;
        }
        idx += 1;
    }
    idx
}

/// The position of the first non-hexadecimal character at or after `pos`.
#[verifier::loop_isolation(false)]
fn scan_hex(s: &str, pos: usize) -> (r: usize)
    requires
        pos <= s@.len(),
    ensures
        r as int == hex_end(s@, pos as int),
        pos <= r <= s@.len(),
{
    let n = s.unicode_len();
    let mut idx: usize = pos;
    while idx < n
        invariant
            pos <= idx <= n,
            n == s@.len(),
            hex_end(s@, pos as int) == hex_end(s@, idx as int),
        decreases n - idx,
    {
        let c = s.get_char(idx);
        let cv = c as u32;
        if !(48 <= cv && cv <= 57) && !(97 <= cv && cv <= 102) {
            proof {
                assert(!is_hex(s@[idx as int]));
            }
            return idx;
        }
        idx += 1;
    }
    idx
}

proof fn lemma_hex_decode_snoc(h: Seq<char>, i: int)
    requires
        0 <= i,
        2 * i + 2 <= h.len(),
    ensures
        hex_decode(h.take(2 * i + 2)) == hex_decode(h.take(2 * i)).push(
            (hex_val(h[2 * i]) * 16 + hex_val(h[2 * i + 1])) as u8,
        ),
    decreases i,
{
    let b = (hex_val(h[2 * i]) * 16 + hex_val(h[2 * i + 1])) as u8;
    if i == 0 {
        reveal_with_fuel(hex_decode, 2);
        assert(h.take(2) =~= seq![h[0], h[1]]);
        assert(h.take(2).drop_first().drop_first() =~= Seq::<char>::empty());
        assert(h.take(0) =~= Seq::<char>::empty());
        assert(hex_decode(h.take(2)) =~= hex_decode(h.take(0)).push(b));
    } else {
        let rest = h.drop_first().drop_first();
        lemma_hex_decode_snoc(rest, i - 1);
        assert(h.take(2 * i + 2).drop_first().drop_first() =~= rest.take(2 * i));
        assert(h.take(2 * i).drop_first().drop_first() =~= rest.take(2 * i - 2));
        assert(h.take(2 * i + 2)[0] == h[0]);
        assert(h.take(2 * i + 2)[1] == h[1]);
        assert(h.take(2 * i)[0] == h[0]);
        assert(h.take(2 * i)[1] == h[1]);
        assert(rest[2 * (i - 1)] == h[2 * i]);
        assert(rest[2 * (i - 1) + 1] == h[2 * i + 1]);
        let hb = seq![(hex_val(h[0]) * 16 + hex_val(h[1])) as u8];
        assert(hex_decode(h.take(2 * i + 2)) == hb + hex_decode(rest.take(2 * i)));
        assert(hex_decode(h.take(2 * i)) == hb + hex_decode(rest.take(2 * i - 2)));
        assert(hb + (hex_decode(rest.take(2 * i - 2)).push(b)) =~= (hb + hex_decode(
            rest.take(2 * i - 2),
        )).push(b));
        assert(hex_decode(h.take(2 * i + 2)) =~= hex_decode(h.take(2 * i)).push(b));
    }
}

/// Decodes an even run of hexadecimal digit characters into bytes.
#[verifier::loop_isolation(false)]
fn hex_decode_exec(s: &str, from: usize, to: usize) -> (r: Vec<u8>)
    requires
        from <= to <= s@.len(),
        (to - from) % 2 == 0,
        forall|k: int| from <= k < to ==> is_hex(#[trigger] s@[k]),
    ensures
        r@ == hex_decode(s@.subrange(from as int, to as int)),
{
    let ghost h = s@.subrange(from as int, to as int);
    let mut out: Vec<u8> = Vec::new();
    let mut i: usize = 0;
    let pairs: usize = (to - from) / 2;
    while i < pairs
        invariant
            0 <= i <= pairs,
            pairs == (to - from) / 2,
            h == s@.subrange(from as int, to as int),
            h.len() == to - from,
            out@ == hex_decode(h.take(2 * i as int)),
        decreases pairs - i,
    {
        let c1 = s.get_char(from + 2 * i);
        let c2 = s.get_char(from + 2 * i + 1);
        let v1: u32 = {
            let cv = c1 as u32;
            if 48 <= cv && cv <= 57 {
                cv - 48
            } else {
                cv - 87
            }
        };
        let v2: u32 = {
            let cv = c2 as u32;
            if 48 <= cv && cv <= 57 {
                cv - 48
            } else {
                cv - 87
            }
        };
        proof {
            assert(h[2 * i as int] == s@[from + 2 * i]);
            assert(h[2 * i as int + 1] == s@[from + 2 * i + 1]);
            assert(is_hex(h[2 * i as int]));
            assert(is_hex(h[2 * i as int + 1]));
        }
        out.push((v1 * 16 + v2) as u8);
        proof {
            lemma_hex_decode_snoc(h, i as int);
            assert(out@ =~= hex_decode(h.take(2 * (i as int + 1))));
        }
        i += 1;
    }
    proof {
        assert(h.take(2 * pairs as int) =~= h);
    }
    out
}

/// Joins already-read content onto the outcome of reading the rest.
pub open spec fn xtext_pre(prefix: Seq<char>, rest: Option<(Seq<char>, int)>) -> Option<
    (Seq<char>, int),
> {
    if rest is Some {
        Option::Some((prefix + (rest->0).0, (rest->0).1))
    } else {
        Option::None
    }
}

/// Reads unescaped text content up to the next raw `<`.
#[verifier::loop_isolation(false)]
#[verifier::rlimit(60)]
fn xtext_exec(s: &str, pos: usize) -> (r: Option<(String, usize)>)
    requires
        pos <= s@.len(),
    ensures
        r is Some <==> xtext(s@, pos as int) is Some,
        r is Some ==> {
            &&& (r->0).0@ == (xtext(s@, pos as int)->0).0
            &&& (r->0).1 as int == (xtext(s@, pos as int)->0).1
            &&& pos <= (r->0).1 <= s@.len()
        },
{
    let ghost t = s@;
    let n = s.unicode_len();
    let mut out = String::new();
    let mut cur: usize = pos;
    proof {
        reveal_strlit("&amp;");
        reveal_strlit("&lt;");
        reveal_strlit("&gt;");
        reveal_strlit("&");
        reveal_strlit("<");
        reveal_strlit(">");
    }
    loop
        invariant
            pos <= cur <= n,
            n == t.len(),
            t == s@,
            xtext(t, pos as int) == xtext_pre(out@, xtext(t, cur as int)),
        decreases n - cur,
    {
        if cur >= n {
            return None;
        }
        let c = s.get_char(cur);
        if c == '<' {
            proof {
                assert(xtext(t, cur as int) == Option::Some((Seq::<char>::empty(), cur as int)));
                assert(out@ + Seq::<char>::empty() =~= out@);
            }
            return Some((out, cur));
        }
        if c == '&' {
            let ghost pre = out@;
            if lit_match(s, cur, "&amp;") {
                out.append("&");
                proof {
                    let rest = xtext(t, cur as int + 5);
                    if rest is Some {
                        assert(pre + (seq!['&'] + (rest->0).0) =~= (pre + seq!['&']) + (
                        rest->0).0);
                        assert(out@ =~= pre + seq!['&']);
                    }
                }
                cur = cur + 5;
            } else if lit_match(s, cur, "&lt;") {
                out.append("<");
                proof {
                    let rest = xtext(t, cur as int + 4);
                    if rest is Some {
                        assert(pre + (seq!['<'] + (rest->0).0) =~= (pre + seq!['<']) + (
                        rest->0).0);
                        assert(out@ =~= pre + seq!['<']);
                    }
                }
                cur = cur + 4;
            } else if lit_match(s, cur, "&gt;") {
                out.append(">");
                proof {
                    let rest = xtext(t, cur as int + 4);
                    if rest is Some {
                        assert(pre + (seq!['>'] + (rest->0).0) =~= (pre + seq!['>']) + (
                        rest->0).0);
                        assert(out@ =~= pre + seq!['>']);
                    }
                }
                cur = cur + 4;
            } else {
                return None;
            }
        } else if c == '\0' {
            return None;
        } else {
            let ghost pre = out@;
            let piece = s.substring_char(cur, cur + 1);
            proof {
                assert(piece@ =~= seq![t[cur as int]]);
            }
            out.append(piece);
            proof {
                let rest = xtext(t, cur as int + 1);
                if rest is Some {
                    assert(pre + (seq![t[cur as int]] + (rest->0).0) =~= (pre + seq![
                        t[cur as int],
                    ]) + (rest->0).0);
                }
            }
            cur = cur + 1;
        }
    }
}

/// Decodes one node at a position of the text.
#[verifier::loop_isolation(false)]
#[verifier::rlimit(100)]
fn xparse_exec(s: &str, pos: usize) -> (r: Option<(Plist, usize)>)
    requires
        pos <= s@.len(),
    ensures
        r is Some <==> xparse_at(s@, pos as int) is Some,
        r is Some ==> {
            &&& (r->0).0@ == (xparse_at(s@, pos as int)->0).0
            &&& (r->0).1 as int == (xparse_at(s@, pos as int)->0).1
            &&& pos < (r->0).1 <= s@.len()
            &&& (r->0).0.wf()
            &&& (r->0).0.owning()
        },
    decreases s@.len() - pos, 1int,
{
    proof {
        reveal_strlit("<true/>");
        reveal_strlit("<false/>");
        reveal_strlit("<integer>");
        reveal_strlit("</integer>");
        reveal_strlit("<real>");
        reveal_strlit("</real>");
        reveal_strlit("<date>");
        reveal_strlit("</date>");
        reveal_strlit("<data>");
        reveal_strlit("</data>");
        reveal_strlit("<string>");
        reveal_strlit("</string>");
        reveal_strlit("<key>");
        reveal_strlit("</key>");
        reveal_strlit("<uid>");
        reveal_strlit("</uid>");
        reveal_strlit("<array>");
        reveal_strlit("</array>");
        reveal_strlit("<dict>");
        reveal_strlit("</dict>");
    }
    let ghost t = s@;
    let n = s.unicode_len();
    if pos >= n {
        return None;
    }
    if lit_match(s, pos, "<true/>") {
        Some((crate::make_node(PlistValue::Boolean(true), crate::PlistType::Boolean), pos + 7))
    } else if lit_match(s, pos, "<false/>") {
        Some((crate::make_node(PlistValue::Boolean(false), crate::PlistType::Boolean), pos + 8))
    } else if lit_match(s, pos, "<integer>") {
        let ds = pos + 9;
        let de = scan_digits(s, ds);
        proof {
            lemma_digits_end_range(t, ds as int);
        }
        match crate::path::parse_index(s.substring_char(ds, de)) {
            Some(v) => {
                if lit_match(s, de, "</integer>") {
                    Some(
                        (
                            crate::make_node(
                                PlistValue::Integer(v),
                                crate::PlistType::Integer,
                            ),
                            de + 10,
                        ),
                    )
                } else {
                    None
                }
            },
            None => None,
        }
    } else if lit_match(s, pos, "<real>") {
        let ds = pos + 6;
        let de = scan_digits(s, ds);
        proof {
            lemma_digits_end_range(t, ds as int);
        }
        match crate::path::parse_index(s.substring_char(ds, de)) {
            Some(v) => {
                if lit_match(s, de, "</real>") {
                    Some(
                        (crate::make_node(PlistValue::Real(v), crate::PlistType::Real), de + 7),
                    )
                } else {
                    None
                }
            },
            None => None,
        }
    } else if lit_match(s, pos, "<date>") {
        let ds = pos + 6;
        let de = scan_digits(s, ds);
        proof {
            lemma_digits_end_range(t, ds as int);
        }
        let sec64 = match crate::path::parse_index(s.substring_char(ds, de)) {
            Some(v) => v,
            None => {
                return None;
            },
        };
        if sec64 > 0x7fffffff {
            return None;
        }
        if de >= n {
            return None;
        }
        if s.get_char(de) != '.' {
            return None;
        }
        let us = de + 1;
        let ue = scan_digits(s, us);
        proof {
            lemma_digits_end_range(t, us as int);
        }
        let usec64 = match crate::path::parse_index(s.substring_char(us, ue)) {
            Some(v) => v,
            None => {
                return None;
            },
        };
        if usec64 >= 1000000 {
            return None;
        }
        if lit_match(s, ue, "</date>") {
            Some(
                (
                    crate::make_node(
                        PlistValue::Date(sec64 as i32, usec64 as i32),
                        crate::PlistType::Date,
                    ),
                    ue + 7,
                ),
            )
        } else {
            None
        }
    } else if lit_match(s, pos, "<data>") {
        let hs = pos + 6;
        let he = scan_hex(s, hs);
        proof {
            lemma_hex_end_range(t, hs as int);
        }
        if (he - hs) % 2 != 0 {
            return None;
        }
        if lit_match(s, he, "</data>") {
            let bytes = hex_decode_exec(s, hs, he);
            Some((crate::make_node(PlistValue::Data(bytes), crate::PlistType::Data), he + 7))
        } else {
            None
        }
    } else if lit_match(s, pos, "<string>") {
        match xtext_exec(s, pos + 8) {
            Some((content, e)) => {
                proof {
                    lemma_xtext_props(t, pos as int + 8);
                }
                if lit_match(s, e, "</string>") {
                    Some(
                        (
                            crate::make_node(
                                PlistValue::Text(content),
                                crate::PlistType::String,
                            ),
                            e + 9,
                        ),
                    )
                } else {
                    None
                }
            },
            None => None,
        }
    } else if lit_match(s, pos, "<key>") {
        match xtext_exec(s, pos + 5) {
            Some((content, e)) => {
                proof {
                    lemma_xtext_props(t, pos as int + 5);
                }
                if lit_match(s, e, "</key>") {
                    Some(
                        (
                            crate::make_node(PlistValue::KeyName(content), crate::PlistType::Key),
                            e + 6,
                        ),
                    )
                } else {
                    None
                }
            },
            None => None,
        }
    } else if lit_match(s, pos, "<uid>") {
        let ds = pos + 5;
        let de = scan_digits(s, ds);
        proof {
            lemma_digits_end_range(t, ds as int);
        }
        match crate::path::parse_index(s.substring_char(ds, de)) {
            Some(v) => {
                if lit_match(s, de, "</uid>") {
                    Some((crate::make_node(PlistValue::Uid(v), crate::PlistType::Uid), de + 6))
                } else {
                    None
                }
            },
            None => None,
        }
    } else if lit_match(s, pos, "<array>") {
        proof {
            assert(pos + 7 <= t.len());
        }
        let r = xparse_array(s, pos);
        proof {
            if xitems(t, pos as int + 7) is Some {
                assert((xparse_at(t, pos as int)->0).0 == (PNode::Arr {
                    items: (xitems(t, pos as int + 7)->0).0,
                }));
            }
        }
        r
    } else if lit_match(s, pos, "<dict>") {
        proof {
            assert(pos + 6 <= t.len());
        }
        let r = xparse_dict(s, pos);
        proof {
            let rr = xentries(t, pos as int + 6);
            if rr is Some && crate::keys_unique((rr->0).0) {
                assert((xparse_at(t, pos as int)->0).0 == (PNode::Dict {
                    entries: (rr->0).0,
                }));
            }
        }
        r
    } else {
        None
    }
}

/// Decodes an array element at a position of the text: the children up
/// to the closing element.
#[verifier::loop_isolation(false)]
#[verifier::rlimit(100)]
fn xparse_array(s: &str, pos: usize) -> (r: Option<(Plist, usize)>)
    requires
        pos + 7 <= s@.len(),
    ensures
        r is Some <==> xitems(s@, pos as int + 7) is Some,
        r is Some ==> {
            &&& (r->0).0@ == (PNode::Arr { items: (xitems(s@, pos as int + 7)->0).0 })
            &&& (r->0).1 as int == (xitems(s@, pos as int + 7)->0).1 + 8
            &&& pos < (r->0).1 <= s@.len()
            &&& (r->0).0.wf()
            &&& (r->0).0.owning()
        },
    decreases s@.len() - pos, 0int,
{
    let ghost t = s@;
    let n = s.unicode_len();
    let ghost base = pos as int + 7;
    let mut items: Vec<Plist> = Vec::new();
    let mut cur: usize = pos + 7;
    proof {
        assert(crate::views_of(items@) =~= Seq::<PNode>::empty());
        assert(crate::binary::cons_items(crate::views_of(items@), xitems(t, cur as int))
            =~= xitems(t, base));
    }
    loop
        invariant
            pos + 7 <= cur <= n,
            n == t.len(),
            t == s@,
            forall|j: int|
                0 <= j < items@.len() ==> (#[trigger] items@[j]).wf() && items@[j].owning(),
            xitems(t, base) == crate::binary::cons_items(
                crate::views_of(items@),
                xitems(t, cur as int),
            ),
        decreases n - cur,
    {
        proof {
            reveal_strlit("</array>");
        }
        if lit_match(s, cur, "</array>") {
            proof {
                assert(xitems(t, cur as int) == Option::Some(
                    (Seq::<PNode>::empty(), cur as int),
                ));
                assert(crate::views_of(items@) + Seq::<PNode>::empty() =~= crate::views_of(
                    items@,
                ));
                assert(xitems(t, base) == Option::Some((crate::views_of(items@), cur as int)));
            }
            let node = crate::make_node(PlistValue::Array(items), crate::PlistType::Array);
            proof {
                assert(node@ =~= (PNode::Arr { items: (xitems(t, base)->0).0 }));
            }
            return Some((node, cur + 8));
        }
        let ghost pre_views = crate::views_of(items@);
        match xparse_exec(s, cur) {
            None => {
                proof {
                    assert(xitems(t, cur as int) is None);
                }
                return None;
            },
            Some((node, np)) => {
                proof {
                    assert(xitems(t, cur as int) == crate::binary::cons_items(
                        seq![node@],
                        xitems(t, np as int),
                    ));
                    crate::lemma_views_of_push(items@, node);
                    if xitems(t, np as int) is Some {
                        let rest = xitems(t, np as int);
                        assert(pre_views + (seq![node@] + (rest->0).0) =~= (pre_views.push(
                            node@,
                        )) + (rest->0).0);
                    }
                }
                items.push(node);
                cur = np;
            },
        }
    }
}

/// Decodes a dictionary element at a position of the text: the keyed
/// entries up to the closing element, keys unique.
#[verifier::loop_isolation(false)]
#[verifier::rlimit(100)]
fn xparse_dict(s: &str, pos: usize) -> (r: Option<(Plist, usize)>)
    requires
        pos + 6 <= s@.len(),
    ensures
        r is Some <==> (xentries(s@, pos as int + 6) is Some && crate::keys_unique(
            (xentries(s@, pos as int + 6)->0).0,
        )),
        r is Some ==> {
            &&& (r->0).0@ == (PNode::Dict { entries: (xentries(s@, pos as int + 6)->0).0 })
            &&& (r->0).1 as int == (xentries(s@, pos as int + 6)->0).1 + 7
            &&& pos < (r->0).1 <= s@.len()
            &&& (r->0).0.wf()
            &&& (r->0).0.owning()
        },
    decreases s@.len() - pos, 0int,
{
    let ghost t = s@;
    let n = s.unicode_len();
    let ghost base = pos as int + 6;
    let mut entries: Vec<(String, Plist)> = Vec::new();
    let mut cur: usize = pos + 6;
    proof {
        assert(crate::entry_views_of(entries@) =~= Seq::<(Seq<char>, PNode)>::empty());
        assert(crate::binary::cons_entries(
            crate::entry_views_of(entries@),
            xentries(t, cur as int),
        ) =~= xentries(t, base));
    }
    loop
        invariant
            pos + 6 <= cur <= n,
            n == t.len(),
            t == s@,
            forall|j: int|
                0 <= j < entries@.len() ==> no_nul((#[trigger] entries@[j]).0@)
                    && entries@[j].1.wf() && entries@[j].1.owning(),
            crate::keys_unique(crate::entry_views_of(entries@)),
            xentries(t, base) == crate::binary::cons_entries(
                crate::entry_views_of(entries@),
                xentries(t, cur as int),
            ),
        decreases n - cur,
    {
        proof {
            reveal_strlit("</dict>");
            reveal_strlit("<key>");
            reveal_strlit("</key>");
        }
        if lit_match(s, cur, "</dict>") {
            proof {
                assert(xentries(t, cur as int) == Option::Some(
                    (Seq::<(Seq<char>, PNode)>::empty(), cur as int),
                ));
                assert(crate::entry_views_of(entries@) + Seq::<(Seq<char>, PNode)>::empty()
                    =~= crate::entry_views_of(entries@));
                assert(xentries(t, base) == Option::Some(
                    (crate::entry_views_of(entries@), cur as int),
                ));
            }
            let node = crate::make_node(
                PlistValue::Dictionary(entries),
                crate::PlistType::Dictionary,
            );
            proof {
                assert(node@ =~= (PNode::Dict { entries: (xentries(t, base)->0).0 }));
            }
            return Some((node, cur + 7));
        }
        if !lit_match(s, cur, "<key>") {
            proof {
                assert(xentries(t, cur as int) is None);
            }
            return None;
        }
        let ghost pre_views = crate::entry_views_of(entries@);
        let (kstr, e1) = match xtext_exec(s, cur + 5) {
            Some(ke) => ke,
            None => {
                proof {
                    assert(xentries(t, cur as int) is None);
                }
                return None;
            },
        };
        proof {
            lemma_xtext_props(t, cur as int + 5);
        }
        if !lit_match(s, e1, "</key>") {
            proof {
                assert(xentries(t, cur as int) is None);
            }
            return None;
        }
        let vstart = e1 + 6;
        match xparse_exec(s, vstart) {
            None => {
                proof {
                    assert(xentries(t, cur as int) is None);
                }
                return None;
            },
            Some((node, np)) => {
                proof {
                    assert(xentries(t, cur as int) == crate::binary::cons_entries(
                        seq![(kstr@, node@)],
                        xentries(t, np as int),
                    ));
                }
                match crate::dictionary::find_key(&entries, &kstr) {
                    Some(di) => {
                        proof {
                            crate::lemma_entry_views_of_index(entries@, di as int);
                            assert(pre_views[di as int].0 == kstr@);
                            let inner = xentries(t, cur as int);
                            let full = xentries(t, base);
                            if full is Some {
                                assert(inner is Some);
                                let es = (full->0).0;
                                assert(es == pre_views + (inner->0).0);
                                assert((inner->0).0[0] == (kstr@, node@));
                                assert(es[di as int] == pre_views[di as int]);
                                assert(es[pre_views.len() as int] == (kstr@, node@));
                                assert(!crate::keys_unique(es));
                            }
                        }
                        return None;
                    },
                    None => {
                        proof {
                            crate::lemma_entry_views_of_push(entries@, (kstr, node));
                            if xentries(t, np as int) is Some {
                                let rest = xentries(t, np as int);
                                assert(pre_views + (seq![(kstr@, node@)] + (rest->0).0) =~= (
                                pre_views.push((kstr@, node@))) + (rest->0).0);
                            }
                            assert forall|j: int, l: int|
                                0 <= j < l < pre_views.push((kstr@, node@)).len() implies (
                            pre_views.push((kstr@, node@))[j]).0 != (pre_views.push(
                                (kstr@, node@),
                            )[l]).0 by {
                                if l < pre_views.len() {
                                } else {
                                    assert(pre_views[j].0 != kstr@);
                                }
                            }
                        }
                        entries.push((kstr, node));
                        cur = np;
                    },
                }
            },
        }
    }
}

impl Plist {
    /// Decodes a textual encoding into an owning node tree.  Text with an
    /// embedded NUL terminator is refused as an invalid argument; after
    /// that, decoding succeeds exactly on strings holding one well-formed
    /// node of the textual shape and nothing else.
    pub fn from_xml(xml: String) -> (r: Result<Plist, PlistError>)
        ensures
            r is Ok <==> no_nul(xml@) && xparse(xml@) is Some,
            r is Ok ==> r->Ok_0@ == xparse(xml@)->0 && r->Ok_0.wf() && r->Ok_0.owning(),
            !no_nul(xml@) ==> r == Err::<Plist, PlistError>(PlistError::InvalidArg),
            no_nul(xml@) && xparse(xml@) is None ==> r == Err::<Plist, PlistError>(
                PlistError::Parse,
            ),
    {
        if !crate::binary::check_no_nul(xml.as_str()) {
            return Err(PlistError::InvalidArg);
        }
        let n = xml.as_str().unicode_len();
        match xparse_exec(xml.as_str(), 0) {
            Some((node, np)) => {
                if np == n {
                    Ok(node)
                } else {
                    Err(PlistError::Parse)
                }
            },
            None => Err(PlistError::Parse),
        }
    }

    /// Decodes a buffer holding either wire representation: a buffer
    /// opening with the binary magic prefix is decoded as binary, and any
    /// other buffer is taken as UTF-8 text and decoded as the textual
    /// representation.
    pub fn from_memory(bin: Vec<u8>) -> (r: Result<Plist, PlistError>)
        ensures
            r is Ok ==> r->Ok_0.wf() && r->Ok_0.owning(),
            crate::binary::is_binary_bytes(bin@) ==> {
                &&& (r is Ok <==> crate::binary::parse_bin(bin@) is Some)
                &&& (r is Ok ==> r->Ok_0@ == crate::binary::parse_bin(bin@)->0)
                &&& (r is Err ==> r->Err_0 == PlistError::Parse)
            },
            !crate::binary::is_binary_bytes(bin@) && vstd::utf8::valid_utf8(bin@) ==> {
                let text = vstd::utf8::decode_utf8(bin@);
                &&& (r is Ok <==> no_nul(text) && xparse(text) is Some)
                &&& (r is Ok ==> r->Ok_0@ == xparse(text)->0)
                &&& (!no_nul(text) ==> r == Err::<Plist, PlistError>(PlistError::InvalidArg))
                &&& (no_nul(text) && xparse(text) is None ==> r == Err::<Plist, PlistError>(
                    PlistError::Parse,
                ))
            },
            !crate::binary::is_binary_bytes(bin@) && !vstd::utf8::valid_utf8(bin@) ==> r == Err::<
                Plist,
                PlistError,
            >(PlistError::Parse),
    {
        if crate::binary::has_magic(bin.as_slice()) {
            Plist::from_bin(bin)
        } else {
            match crate::binary::string_from_utf8(bin) {
                Some(text) => Plist::from_xml(text),
                None => Err(PlistError::Parse),
            }
        }
    }
}

proof fn lemma_dec_seq_digits(v: int)
    requires
        v >= 0,
    ensures
        all_digits(dec_seq(v)),
        digits_value(dec_seq(v)) == v,
        dec_seq(v).len() >= 1,
    decreases v,
{
    if v < 10 {
        assert(digit_char(v) as u32 == 48 + v);
        assert(dec_seq(v) =~= seq![digit_char(v)]);
        assert(dec_seq(v).drop_last() =~= Seq::<char>::empty());
        assert(digits_value(dec_seq(v).drop_last()) == 0);
        assert(dec_seq(v).last() == digit_char(v));
        assert(digit_val(digit_char(v)) == v);
        assert(digits_value(dec_seq(v)) == v);
    } else {
        lemma_dec_seq_digits(v / 10);
        let s = dec_seq(v / 10);
        assert(digit_char(v % 10) as u32 == 48 + v % 10);
        assert(s.push(digit_char(v % 10)).drop_last() =~= s);
        assert(dec_seq(v) == s.push(digit_char(v % 10)));
        assert(dec_seq(v).last() == digit_char(v % 10));
        assert(digit_val(digit_char(v % 10)) == v % 10);
        assert(digits_value(dec_seq(v)) == digits_value(s.push(digit_char(v % 10)).drop_last())
            * 10 + digit_val(digit_char(v % 10)));
        assert(digits_value(s.push(digit_char(v % 10)).drop_last()) == digits_value(s));
        assert(digits_value(dec_seq(v)) == (v / 10) * 10 + v % 10);
        assert(digits_value(dec_seq(v)) == v);
        assert forall|j: int| 0 <= j < dec_seq(v).len() implies is_digit(
            #[trigger] dec_seq(v)[j],
        ) by {
            if j < s.len() {
                assert(dec_seq(v)[j] == s[j]);
            }
        }
    }
}

proof fn lemma_digits_end_exact(t: Seq<char>, start: int, end: int)
    requires
        0 <= start <= end <= t.len(),
        forall|k: int| start <= k < end ==> is_digit(#[trigger] t[k]),
        end == t.len() || !is_digit(t[end]),
    ensures
        digits_end(t, start) == end,
    decreases end - start,
{
    if start < end {
        lemma_digits_end_exact(t, start + 1, end);
    }
}

proof fn lemma_hex_end_exact(t: Seq<char>, start: int, end: int)
    requires
        0 <= start <= end <= t.len(),
        forall|k: int| start <= k < end ==> is_hex(#[trigger] t[k]),
        end == t.len() || !is_hex(t[end]),
    ensures
        hex_end(t, start) == end,
    decreases end - start,
{
    if start < end {
        lemma_hex_end_exact(t, start + 1, end);
    }
}

proof fn lemma_hex_of_props(bs: Seq<u8>)
    ensures
        hex_of(bs).len() == 2 * bs.len(),
        forall|k: int| 0 <= k < hex_of(bs).len() ==> is_hex(#[trigger] hex_of(bs)[k]),
        hex_decode(hex_of(bs)) == bs,
    decreases bs.len(),
{
    if bs.len() == 0 {
        assert(hex_decode(hex_of(bs)) =~= bs);
    } else {
        lemma_hex_of_props(bs.drop_first());
        let b = bs[0] as int;
        let c1 = hex_char(b / 16);
        let c2 = hex_char(b % 16);
        assert(is_hex(c1) && hex_val(c1) == b / 16) by {
            if b / 16 < 10 {
                assert(c1 as u32 == 48 + b / 16);
            } else {
                assert(c1 as u32 == 87 + b / 16);
            }
        }
        assert(is_hex(c2) && hex_val(c2) == b % 16) by {
            if b % 16 < 10 {
                assert(c2 as u32 == 48 + b % 16);
            } else {
                assert(c2 as u32 == 87 + b % 16);
            }
        }
        let h = hex_of(bs);
        assert(h == seq![c1, c2] + hex_of(bs.drop_first()));
        assert forall|k: int| 0 <= k < h.len() implies is_hex(#[trigger] h[k]) by {
            if k >= 2 {
                assert(h[k] == hex_of(bs.drop_first())[k - 2]);
            }
        }
        assert(h[0] == c1 && h[1] == c2);
        assert(h.drop_first().drop_first() =~= hex_of(bs.drop_first()));
        assert(hex_decode(h) == seq![((b / 16) * 16 + b % 16) as u8] + bs.drop_first());
        assert(seq![bs[0]] + bs.drop_first() =~= bs);
    }
}

/// Refutes a literal match from one differing character.
proof fn refute_lit(t: Seq<char>, pos: int, l: Seq<char>, k: int, c: char)
    requires
        0 <= k < l.len(),
        l[k] != c,
        0 <= pos,
        pos + k < t.len(),
        t[pos + k] == c,
    ensures
        !lit_at(t, pos, l),
{
    if lit_at(t, pos, l) {
        assert(t.subrange(pos, pos + l.len() as int)[k] == t[pos + k]);
    }
}

proof fn lemma_xtext_ser(content: Seq<char>, t: Seq<char>, j: int)
    requires
        no_nul(content),
        0 <= j,
        j + esc(content).len() < t.len(),
        t.subrange(j, j + esc(content).len() as int) == esc(content),
        t[j + esc(content).len()] == '<',
    ensures
        xtext(t, j) == Option::Some((content, j + esc(content).len() as int)),
    decreases content.len(),
{
    reveal_strlit("&amp;");
    reveal_strlit("&lt;");
    reveal_strlit("&gt;");
    let w = esc(content);
    assert forall|k: int| j <= k < j + w.len() implies #[trigger] t[k] == w[k - j] by {
        assert(t.subrange(j, j + w.len() as int)[k - j] == t[k]);
    }
    if content.len() == 0 {
        assert(t[j] == '<');
        assert(content =~= Seq::<char>::empty());
    } else {
        let c0 = content[0];
        let e0 = esc_char(c0);
        let rest = content.drop_first();
        assert(w == e0 + esc(rest));
        assert forall|k: int| 0 <= k < e0.len() implies #[trigger] w[k] == e0[k] by {
            assert((e0 + esc(rest))[k] == e0[k]);
        }
        let jr = j + e0.len() as int;
        assert forall|k: int| 0 <= k < esc(rest).len() implies t.subrange(
            jr,
            jr + esc(rest).len() as int,
        )[k] == esc(rest)[k] by {
            assert(t.subrange(jr, jr + esc(rest).len() as int)[k] == t[jr + k]);
            assert(w[e0.len() + k] == esc(rest)[k]);
        }
        assert(t.subrange(jr, jr + esc(rest).len() as int) =~= esc(rest));
        assert(no_nul(rest)) by {
            assert forall|k: int| 0 <= k < rest.len() implies rest[k] != '\0' by {
                assert(rest[k] == content[k + 1]);
            }
        }
        lemma_xtext_ser(rest, t, jr);
        if c0 == '&' {
            assert(t[j] == '&');
            assert(t.subrange(j, j + 5) =~= "&amp;"@);
            assert(lit_at(t, j, "&amp;"@));
            assert(seq!['&'] + rest =~= content);
        } else if c0 == '<' {
            assert(t[j] == '&');
            refute_lit(t, j, "&amp;"@, 1, 'l');
            assert(t.subrange(j, j + 4) =~= "&lt;"@);
            assert(lit_at(t, j, "&lt;"@));
            assert(seq!['<'] + rest =~= content);
        } else if c0 == '>' {
            assert(t[j] == '&');
            refute_lit(t, j, "&amp;"@, 1, 'g');
            refute_lit(t, j, "&lt;"@, 1, 'g');
            assert(t.subrange(j, j + 4) =~= "&gt;"@);
            assert(lit_at(t, j, "&gt;"@));
            assert(seq!['>'] + rest =~= content);
        } else {
            assert(t[j] == c0);
            assert(c0 != '<' && c0 != '&' && c0 != '\0');
            assert(seq![c0] + rest =~= content);
        }
    }
}

/// Every textual encoding opens with `<` and a name character, never the
/// closing slash.
proof fn lemma_xml_node_starts(n: PNode)
    ensures
        xml_node(n).len() >= 2,
        xml_node(n)[0] == '<',
        xml_node(n)[1] != '/',
{
    reveal_strlit("<true/>");
    reveal_strlit("<false/>");
    reveal_strlit("<integer>");
    reveal_strlit("<real>");
    reveal_strlit("<date>");
    reveal_strlit("<data>");
    reveal_strlit("<string>");
    reveal_strlit("<key>");
    reveal_strlit("<uid>");
    reveal_strlit("<array>");
    reveal_strlit("<dict>");
}

/// Law (round trip): decoding at the position where a well-formed node
/// was textually encoded yields that node back, and consumes exactly its
/// encoding.
#[verifier::rlimit(100)]
#[verifier::spinoff_prover]
proof fn lemma_xparse_ser(n: PNode, t: Seq<char>, pos: int)
    requires
        crate::pnode_wf(n),
        0 <= pos,
        pos + xml_node(n).len() <= t.len(),
        t.subrange(pos, pos + xml_node(n).len() as int) == xml_node(n),
    ensures
        xparse_at(t, pos) == Option::Some((n, pos + xml_node(n).len() as int)),
    decreases n,
{
    reveal_strlit("<true/>");
    reveal_strlit("<false/>");
    reveal_strlit("<integer>");
    reveal_strlit("</integer>");
    reveal_strlit("<real>");
    reveal_strlit("</real>");
    reveal_strlit("<date>");
    reveal_strlit("</date>");
    reveal_strlit("<data>");
    reveal_strlit("</data>");
    reveal_strlit("<string>");
    reveal_strlit("</string>");
    reveal_strlit("<key>");
    reveal_strlit("</key>");
    reveal_strlit("<uid>");
    reveal_strlit("</uid>");
    reveal_strlit("<array>");
    reveal_strlit("</array>");
    reveal_strlit("<dict>");
    reveal_strlit("</dict>");
    reveal_strlit(".");
    let w = xml_node(n);
    assert forall|k: int| pos <= k < pos + w.len() implies #[trigger] t[k] == w[k - pos] by {
        assert(t.subrange(pos, pos + w.len() as int)[k - pos] == t[k]);
    }
    match n {
        PNode::Bool { b } => {
            if b {
                assert(t.subrange(pos, pos + 7) =~= "<true/>"@);
                assert(lit_at(t, pos, "<true/>"@));
            } else {
                assert(t[pos + 1] == 'f');
                refute_lit(t, pos, "<true/>"@, 1, 'f');
                assert(t.subrange(pos, pos + 8) =~= "<false/>"@);
                assert(lit_at(t, pos, "<false/>"@));
            }
        },
        PNode::Int { i } => {
            let d = dec_seq(i as int);
            lemma_dec_seq_digits(i as int);
            assert(t[pos + 1] == 'i');
            refute_lit(t, pos, "<true/>"@, 1, 'i');
            refute_lit(t, pos, "<false/>"@, 1, 'i');
            assert forall|k: int| 0 <= k < 9 implies t.subrange(pos, pos + 9)[k]
                == "<integer>"@[k] by {
                assert(t.subrange(pos, pos + 9)[k] == t[pos + k]);
            }
            assert(t.subrange(pos, pos + 9) =~= "<integer>"@);
            assert(lit_at(t, pos, "<integer>"@));
            let ds = pos + 9;
            let de = ds + d.len() as int;
            assert forall|k: int| ds <= k < de implies is_digit(#[trigger] t[k]) by {
                assert(t[k] == w[k - pos]);
                assert(w[k - pos] == d[k - ds]);
            }
            assert(t[de] == '<');
            assert(!is_digit('<'));
            lemma_digits_end_exact(t, ds, de);
            assert forall|k: int| 0 <= k < d.len() implies t.subrange(ds, de)[k] == d[k] by {
                assert(t.subrange(ds, de)[k] == t[ds + k]);
            }
            assert(t.subrange(ds, de) =~= d);
            assert(digits_value(t.subrange(ds, de)) == i as int);
            assert forall|k: int| 0 <= k < 10 implies t.subrange(de, de + 10)[k]
                == "</integer>"@[k] by {
                assert(t.subrange(de, de + 10)[k] == t[de + k]);
            }
            assert(t.subrange(de, de + 10) =~= "</integer>"@);
            assert(lit_at(t, de, "</integer>"@));
        },
        PNode::Real { bits } => {
            let d = dec_seq(bits as int);
            lemma_dec_seq_digits(bits as int);
            assert(t[pos + 1] == 'r');
            refute_lit(t, pos, "<true/>"@, 1, 'r');
            refute_lit(t, pos, "<false/>"@, 1, 'r');
            refute_lit(t, pos, "<integer>"@, 1, 'r');
            assert forall|k: int| 0 <= k < 6 implies t.subrange(pos, pos + 6)[k] == "<real>"@[k] by {
                assert(t.subrange(pos, pos + 6)[k] == t[pos + k]);
            }
            assert(t.subrange(pos, pos + 6) =~= "<real>"@);
            assert(lit_at(t, pos, "<real>"@));
            let ds = pos + 6;
            let de = ds + d.len() as int;
            assert forall|k: int| ds <= k < de implies is_digit(#[trigger] t[k]) by {
                assert(t[k] == w[k - pos]);
                assert(w[k - pos] == d[k - ds]);
            }
            assert(t[de] == '<');
            lemma_digits_end_exact(t, ds, de);
            assert forall|k: int| 0 <= k < d.len() implies t.subrange(ds, de)[k] == d[k] by {
                assert(t.subrange(ds, de)[k] == t[ds + k]);
            }
            assert(t.subrange(ds, de) =~= d);
            assert forall|k: int| 0 <= k < 7 implies t.subrange(de, de + 7)[k] == "</real>"@[k] by {
                assert(t.subrange(de, de + 7)[k] == t[de + k]);
            }
            assert(t.subrange(de, de + 7) =~= "</real>"@);
            assert(lit_at(t, de, "</real>"@));
        },
        PNode::Uid { uid } => {
            let d = dec_seq(uid as int);
            lemma_dec_seq_digits(uid as int);
            assert(t[pos + 1] == 'u');
            refute_lit(t, pos, "<true/>"@, 1, 'u');
            refute_lit(t, pos, "<false/>"@, 1, 'u');
            refute_lit(t, pos, "<integer>"@, 1, 'u');
            refute_lit(t, pos, "<real>"@, 1, 'u');
            refute_lit(t, pos, "<date>"@, 1, 'u');
            refute_lit(t, pos, "<data>"@, 1, 'u');
            refute_lit(t, pos, "<string>"@, 1, 'u');
            refute_lit(t, pos, "<key>"@, 1, 'u');
            assert forall|k: int| 0 <= k < 5 implies t.subrange(pos, pos + 5)[k] == "<uid>"@[k] by {
                assert(t.subrange(pos, pos + 5)[k] == t[pos + k]);
            }
            assert(t.subrange(pos, pos + 5) =~= "<uid>"@);
            assert(lit_at(t, pos, "<uid>"@));
            let ds = pos + 5;
            let de = ds + d.len() as int;
            assert forall|k: int| ds <= k < de implies is_digit(#[trigger] t[k]) by {
                assert(t[k] == w[k - pos]);
                assert(w[k - pos] == d[k - ds]);
            }
            assert(t[de] == '<');
            lemma_digits_end_exact(t, ds, de);
            assert forall|k: int| 0 <= k < d.len() implies t.subrange(ds, de)[k] == d[k] by {
                assert(t.subrange(ds, de)[k] == t[ds + k]);
            }
            assert(t.subrange(ds, de) =~= d);
            assert forall|k: int| 0 <= k < 6 implies t.subrange(de, de + 6)[k] == "</uid>"@[k] by {
                assert(t.subrange(de, de + 6)[k] == t[de + k]);
            }
            assert(t.subrange(de, de + 6) =~= "</uid>"@);
            assert(lit_at(t, de, "</uid>"@));
        },
        PNode::Date { sec, usec } => {
            let d1 = dec_seq(sec as int);
            let d2 = dec_seq(usec as int);
            lemma_dec_seq_digits(sec as int);
            lemma_dec_seq_digits(usec as int);
            assert(t[pos + 1] == 'd');
            refute_lit(t, pos, "<true/>"@, 1, 'd');
            refute_lit(t, pos, "<false/>"@, 1, 'd');
            refute_lit(t, pos, "<integer>"@, 1, 'd');
            refute_lit(t, pos, "<real>"@, 1, 'd');
            assert forall|k: int| 0 <= k < 6 implies t.subrange(pos, pos + 6)[k] == "<date>"@[k] by {
                assert(t.subrange(pos, pos + 6)[k] == t[pos + k]);
            }
            assert(t.subrange(pos, pos + 6) =~= "<date>"@);
            assert(lit_at(t, pos, "<date>"@));
            let ds = pos + 6;
            let de = ds + d1.len() as int;
            assert forall|k: int| ds <= k < de implies is_digit(#[trigger] t[k]) by {
                assert(t[k] == w[k - pos]);
                assert(w[k - pos] == d1[k - ds]);
            }
            assert(t[de] == '.');
            assert(!is_digit('.'));
            lemma_digits_end_exact(t, ds, de);
            assert forall|k: int| 0 <= k < d1.len() implies t.subrange(ds, de)[k] == d1[k] by {
                assert(t.subrange(ds, de)[k] == t[ds + k]);
            }
            assert(t.subrange(ds, de) =~= d1);
            assert(digits_value(t.subrange(ds, de)) == sec as int);
            let us = de + 1;
            let ue = us + d2.len() as int;
            assert forall|k: int| us <= k < ue implies is_digit(#[trigger] t[k]) by {
                assert(t[k] == w[k - pos]);
                assert(w[k - pos] == d2[k - us]);
            }
            assert(t[ue] == '<');
            lemma_digits_end_exact(t, us, ue);
            assert forall|k: int| 0 <= k < d2.len() implies t.subrange(us, ue)[k] == d2[k] by {
                assert(t.subrange(us, ue)[k] == t[us + k]);
            }
            assert(t.subrange(us, ue) =~= d2);
            assert(digits_value(t.subrange(us, ue)) == usec as int);
            assert forall|k: int| 0 <= k < 7 implies t.subrange(ue, ue + 7)[k] == "</date>"@[k] by {
                assert(t.subrange(ue, ue + 7)[k] == t[ue + k]);
            }
            assert(t.subrange(ue, ue + 7) =~= "</date>"@);
            assert(lit_at(t, ue, "</date>"@));
        },
        PNode::Blob { bytes } => {
            let h = hex_of(bytes);
            lemma_hex_of_props(bytes);
            assert(t[pos + 1] == 'd');
            assert(t[pos + 4] == 'a');
            refute_lit(t, pos, "<true/>"@, 1, 'd');
            refute_lit(t, pos, "<false/>"@, 1, 'd');
            refute_lit(t, pos, "<integer>"@, 1, 'd');
            refute_lit(t, pos, "<real>"@, 1, 'd');
            refute_lit(t, pos, "<date>"@, 4, 'a');
            assert forall|k: int| 0 <= k < 6 implies t.subrange(pos, pos + 6)[k] == "<data>"@[k] by {
                assert(t.subrange(pos, pos + 6)[k] == t[pos + k]);
            }
            assert(t.subrange(pos, pos + 6) =~= "<data>"@);
            assert(lit_at(t, pos, "<data>"@));
            let hs = pos + 6;
            let he = hs + h.len() as int;
            assert forall|k: int| hs <= k < he implies is_hex(#[trigger] t[k]) by {
                assert(t[k] == w[k - pos]);
                assert(w[k - pos] == h[k - hs]);
            }
            assert(t[he] == '<');
            assert(!is_hex('<'));
            lemma_hex_end_exact(t, hs, he);
            assert((he - hs) % 2 == 0);
            assert forall|k: int| 0 <= k < h.len() implies t.subrange(hs, he)[k] == h[k] by {
                assert(t.subrange(hs, he)[k] == t[hs + k]);
            }
            assert(t.subrange(hs, he) =~= h);
            assert(hex_decode(t.subrange(hs, he)) == bytes);
            assert forall|k: int| 0 <= k < 7 implies t.subrange(he, he + 7)[k] == "</data>"@[k] by {
                assert(t.subrange(he, he + 7)[k] == t[he + k]);
            }
            assert(t.subrange(he, he + 7) =~= "</data>"@);
            assert(lit_at(t, he, "</data>"@));
        },
        PNode::Text { t: content } => {
            let e = esc(content);
            assert(t[pos + 1] == 's');
            refute_lit(t, pos, "<true/>"@, 1, 's');
            refute_lit(t, pos, "<false/>"@, 1, 's');
            refute_lit(t, pos, "<integer>"@, 1, 's');
            refute_lit(t, pos, "<real>"@, 1, 's');
            refute_lit(t, pos, "<date>"@, 1, 's');
            refute_lit(t, pos, "<data>"@, 1, 's');
            assert forall|k: int| 0 <= k < 8 implies t.subrange(pos, pos + 8)[k]
                == "<string>"@[k] by {
                assert(t.subrange(pos, pos + 8)[k] == t[pos + k]);
            }
            assert(t.subrange(pos, pos + 8) =~= "<string>"@);
            assert(lit_at(t, pos, "<string>"@));
            let cs = pos + 8;
            let ce = cs + e.len() as int;
            assert forall|k: int| 0 <= k < e.len() implies t.subrange(cs, ce)[k] == e[k] by {
                assert(t.subrange(cs, ce)[k] == t[cs + k]);
            }
            assert(t.subrange(cs, ce) =~= e);
            assert(t[ce] == '<');
            lemma_xtext_ser(content, t, cs);
            assert forall|k: int| 0 <= k < 9 implies t.subrange(ce, ce + 9)[k]
                == "</string>"@[k] by {
                assert(t.subrange(ce, ce + 9)[k] == t[ce + k]);
            }
            assert(t.subrange(ce, ce + 9) =~= "</string>"@);
            assert(lit_at(t, ce, "</string>"@));
        },
        PNode::Key { k: content } => {
            let e = esc(content);
            assert(t[pos + 1] == 'k');
            refute_lit(t, pos, "<true/>"@, 1, 'k');
            refute_lit(t, pos, "<false/>"@, 1, 'k');
            refute_lit(t, pos, "<integer>"@, 1, 'k');
            refute_lit(t, pos, "<real>"@, 1, 'k');
            refute_lit(t, pos, "<date>"@, 1, 'k');
            refute_lit(t, pos, "<data>"@, 1, 'k');
            refute_lit(t, pos, "<string>"@, 1, 'k');
            assert forall|k: int| 0 <= k < 5 implies t.subrange(pos, pos + 5)[k] == "<key>"@[k] by {
                assert(t.subrange(pos, pos + 5)[k] == t[pos + k]);
            }
            assert(t.subrange(pos, pos + 5) =~= "<key>"@);
            assert(lit_at(t, pos, "<key>"@));
            let cs = pos + 5;
            let ce = cs + e.len() as int;
            assert forall|k: int| 0 <= k < e.len() implies t.subrange(cs, ce)[k] == e[k] by {
                assert(t.subrange(cs, ce)[k] == t[cs + k]);
            }
            assert(t.subrange(cs, ce) =~= e);
            assert(t[ce] == '<');
            lemma_xtext_ser(content, t, cs);
            assert forall|k: int| 0 <= k < 6 implies t.subrange(ce, ce + 6)[k] == "</key>"@[k] by {
                assert(t.subrange(ce, ce + 6)[k] == t[ce + k]);
            }
            assert(t.subrange(ce, ce + 6) =~= "</key>"@);
            assert(lit_at(t, ce, "</key>"@));
        },
        PNode::Arr { items } => {
            let body = xml_items(items);
            assert(t[pos + 1] == 'a');
            refute_lit(t, pos, "<true/>"@, 1, 'a');
            refute_lit(t, pos, "<false/>"@, 1, 'a');
            refute_lit(t, pos, "<integer>"@, 1, 'a');
            refute_lit(t, pos, "<real>"@, 1, 'a');
            refute_lit(t, pos, "<date>"@, 1, 'a');
            refute_lit(t, pos, "<data>"@, 1, 'a');
            refute_lit(t, pos, "<string>"@, 1, 'a');
            refute_lit(t, pos, "<key>"@, 1, 'a');
            refute_lit(t, pos, "<uid>"@, 1, 'a');
            assert forall|k: int| 0 <= k < 7 implies t.subrange(pos, pos + 7)[k]
                == "<array>"@[k] by {
                assert(t.subrange(pos, pos + 7)[k] == t[pos + k]);
            }
            assert(t.subrange(pos, pos + 7) =~= "<array>"@);
            assert(lit_at(t, pos, "<array>"@));
            let bs = pos + 7;
            let be = bs + body.len() as int;
            assert forall|k: int| 0 <= k < body.len() implies t.subrange(bs, be)[k] == body[k] by {
                assert(t.subrange(bs, be)[k] == t[bs + k]);
            }
            assert(t.subrange(bs, be) =~= body);
            assert forall|k: int| 0 <= k < 8 implies t.subrange(be, be + 8)[k]
                == "</array>"@[k] by {
                assert(t.subrange(be, be + 8)[k] == t[be + k]);
            }
            assert(t.subrange(be, be + 8) =~= "</array>"@);
            assert(lit_at(t, be, "</array>"@));
            lemma_xparse_ser_items(items, t, bs);
        },
        PNode::Dict { entries } => {
            let body = xml_entries(entries);
            assert(t[pos + 1] == 'd');
            assert(t[pos + 2] == 'i');
            refute_lit(t, pos, "<true/>"@, 1, 'd');
            refute_lit(t, pos, "<false/>"@, 1, 'd');
            refute_lit(t, pos, "<integer>"@, 1, 'd');
            refute_lit(t, pos, "<real>"@, 1, 'd');
            refute_lit(t, pos, "<date>"@, 2, 'i');
            refute_lit(t, pos, "<data>"@, 2, 'i');
            refute_lit(t, pos, "<string>"@, 1, 'd');
            refute_lit(t, pos, "<key>"@, 1, 'd');
            refute_lit(t, pos, "<uid>"@, 1, 'd');
            refute_lit(t, pos, "<array>"@, 1, 'd');
            assert forall|k: int| 0 <= k < 6 implies t.subrange(pos, pos + 6)[k] == "<dict>"@[k] by {
                assert(t.subrange(pos, pos + 6)[k] == t[pos + k]);
            }
            assert(t.subrange(pos, pos + 6) =~= "<dict>"@);
            assert(lit_at(t, pos, "<dict>"@));
            let bs = pos + 6;
            let be = bs + body.len() as int;
            assert forall|k: int| 0 <= k < body.len() implies t.subrange(bs, be)[k] == body[k] by {
                assert(t.subrange(bs, be)[k] == t[bs + k]);
            }
            assert(t.subrange(bs, be) =~= body);
            assert forall|k: int| 0 <= k < 7 implies t.subrange(be, be + 7)[k] == "</dict>"@[k] by {
                assert(t.subrange(be, be + 7)[k] == t[be + k]);
            }
            assert(t.subrange(be, be + 7) =~= "</dict>"@);
            assert(lit_at(t, be, "</dict>"@));
            lemma_xparse_ser_entries(entries, t, bs);
            assert(crate::keys_unique(entries));
        },
    }
}

#[verifier::rlimit(100)]
#[verifier::spinoff_prover]
proof fn lemma_xparse_ser_items(items: Seq<PNode>, t: Seq<char>, j: int)
    requires
        forall|k: int| 0 <= k < items.len() ==> crate::pnode_wf(#[trigger] items[k]),
        0 <= j,
        j + xml_items(items).len() <= t.len(),
        t.subrange(j, j + xml_items(items).len() as int) == xml_items(items),
        lit_at(t, j + xml_items(items).len() as int, "</array>"@),
    ensures
        xitems(t, j) == Option::Some((items, j + xml_items(items).len() as int)),
    decreases items,
{
    reveal_strlit("</array>");
    if items.len() == 0 {
        assert(items =~= Seq::<PNode>::empty());
        assert(xml_items(items).len() == 0);
    } else {
        let first = items[0];
        let rest = items.drop_first();
        let w0 = xml_node(first);
        let wr = xml_items(rest);
        let w = xml_items(items);
        assert(w == w0 + wr);
        assert forall|k: int| j <= k < j + w.len() implies #[trigger] t[k] == w[k - j] by {
            assert(t.subrange(j, j + w.len() as int)[k - j] == t[k]);
        }
        lemma_xml_node_starts(first);
        assert(t[j] == '<' && t[j + 1] != '/') by {
            assert(w[0] == w0[0]);
            assert(w[1] == w0[1]);
        }
        refute_lit(t, j, "</array>"@, 1, t[j + 1]);
        assert forall|k: int| 0 <= k < w0.len() implies t.subrange(
            j,
            j + w0.len() as int,
        )[k] == w0[k] by {
            assert(t.subrange(j, j + w0.len() as int)[k] == t[j + k]);
            assert(w[k] == w0[k]);
        }
        assert(t.subrange(j, j + w0.len() as int) =~= w0);
        lemma_xparse_ser(first, t, j);
        let np = j + w0.len() as int;
        assert forall|k: int| 0 <= k < wr.len() implies t.subrange(
            np,
            np + wr.len() as int,
        )[k] == wr[k] by {
            assert(t.subrange(np, np + wr.len() as int)[k] == t[np + k]);
            assert(w[w0.len() + k] == wr[k]);
        }
        assert(t.subrange(np, np + wr.len() as int) =~= wr);
        assert forall|k: int| 0 <= k < rest.len() implies crate::pnode_wf(
            #[trigger] rest[k],
        ) by {
            assert(rest[k] == items[k + 1]);
        }
        lemma_xparse_ser_items(rest, t, np);
        assert(seq![first] + rest =~= items);
    }
}

#[verifier::rlimit(100)]
#[verifier::spinoff_prover]
proof fn lemma_xparse_ser_entries(entries: Seq<(Seq<char>, PNode)>, t: Seq<char>, j: int)
    requires
        forall|k: int|
            0 <= k < entries.len() ==> crate::pnode_wf((#[trigger] entries[k]).1) && no_nul(
                entries[k].0,
            ),
        0 <= j,
        j + xml_entries(entries).len() <= t.len(),
        t.subrange(j, j + xml_entries(entries).len() as int) == xml_entries(entries),
        lit_at(t, j + xml_entries(entries).len() as int, "</dict>"@),
    ensures
        xentries(t, j) == Option::Some((entries, j + xml_entries(entries).len() as int)),
    decreases entries,
{
    reveal_strlit("</dict>");
    reveal_strlit("<key>");
    reveal_strlit("</key>");
    if entries.len() == 0 {
        assert(entries =~= Seq::<(Seq<char>, PNode)>::empty());
        assert(xml_entries(entries).len() == 0);
    } else {
        let key = entries[0].0;
        let v = entries[0].1;
        let rest = entries.drop_first();
        let e = esc(key);
        let wk = "<key>"@ + e + "</key>"@;
        let w0 = xml_node(v);
        let wr = xml_entries(rest);
        let w = xml_entries(entries);
        assert(w =~= wk + w0 + wr);
        assert forall|k: int| j <= k < j + w.len() implies #[trigger] t[k] == w[k - j] by {
            assert(t.subrange(j, j + w.len() as int)[k - j] == t[k]);
        }
        assert forall|k: int| 0 <= k < wk.len() implies #[trigger] w[k] == wk[k] by {
            assert(((wk + w0) + wr)[k] == (wk + w0)[k]);
            assert((wk + w0)[k] == wk[k]);
        }
        assert(t[j + 1] == 'k') by {
            assert(wk[1] == 'k');
        }
        refute_lit(t, j, "</dict>"@, 1, 'k');
        assert forall|k: int| 0 <= k < 5 implies t.subrange(j, j + 5)[k] == "<key>"@[k] by {
            assert(t.subrange(j, j + 5)[k] == t[j + k]);
            assert(wk[k] == "<key>"@[k]);
        }
        assert(t.subrange(j, j + 5) =~= "<key>"@);
        assert(lit_at(t, j, "<key>"@));
        let cs = j + 5;
        let ce = cs + e.len() as int;
        assert forall|k: int| 0 <= k < e.len() implies t.subrange(cs, ce)[k] == e[k] by {
            assert(t.subrange(cs, ce)[k] == t[cs + k]);
            assert(wk[5 + k] == e[k]);
        }
        assert(t.subrange(cs, ce) =~= e);
        assert(t[ce] == '<') by {
            assert(wk[5 + e.len() as int] == '<');
        }
        lemma_xtext_ser(key, t, cs);
        assert forall|k: int| 0 <= k < 6 implies t.subrange(ce, ce + 6)[k] == "</key>"@[k] by {
            assert(t.subrange(ce, ce + 6)[k] == t[ce + k]);
            assert(wk[5 + e.len() as int + k] == "</key>"@[k]);
        }
        assert(t.subrange(ce, ce + 6) =~= "</key>"@);
        assert(lit_at(t, ce, "</key>"@));
        let vs = ce + 6;
        assert forall|k: int| 0 <= k < w0.len() implies t.subrange(
            vs,
            vs + w0.len() as int,
        )[k] == w0[k] by {
            assert(t.subrange(vs, vs + w0.len() as int)[k] == t[vs + k]);
            assert(((wk + w0) + wr)[wk.len() + k] == (wk + w0)[wk.len() + k]);
            assert((wk + w0)[wk.len() + k] == w0[k]);
            assert(w[wk.len() + k] == w0[k]);
        }
        assert(t.subrange(vs, vs + w0.len() as int) =~= w0);
        lemma_xparse_ser(v, t, vs);
        let np = vs + w0.len() as int;
        assert forall|k: int| 0 <= k < wr.len() implies t.subrange(
            np,
            np + wr.len() as int,
        )[k] == wr[k] by {
            assert(t.subrange(np, np + wr.len() as int)[k] == t[np + k]);
            assert(((wk + w0) + wr)[(wk + w0).len() + k] == wr[k]);
            assert(w[wk.len() + w0.len() + k] == wr[k]);
        }
        assert(t.subrange(np, np + wr.len() as int) =~= wr);
        assert forall|k: int| 0 <= k < rest.len() implies crate::pnode_wf(
            (#[trigger] rest[k]).1,
        ) && no_nul(rest[k].0) by {
            assert(rest[k] == entries[k + 1]);
        }
        lemma_xparse_ser_entries(rest, t, np);
        assert(seq![(key, v)] + rest =~= entries);
    }
}

/// Law (round trip): a well-formed node decodes from its own textual
/// encoding back to itself.  Every constructible node is well-formed, so
/// for every constructible scalar node the decode of the encode is the
/// node itself, under structural equality.
pub proof fn lemma_xml_round_trip(n: PNode)
    requires
        crate::pnode_wf(n),
    ensures
        xparse(xml_node(n)) == Option::Some(n),
{
    let t = xml_node(n);
    assert(t.subrange(0, t.len() as int) =~= t);
    lemma_xparse_ser(n, t, 0);
}

} // verus!
