//! Human-readable rendering of a node tree.
//!
//! Scalars render their natural value; arrays render as a
//! bracket-delimited concatenation of their children's renderings, with
//! no separator between elements; dictionaries render as
//! `{ key: value, ... }` with the trailing separator trimmed, which
//! leaves a bare ` }` for an empty dictionary.  Real, date, unique-identifier and key nodes have
//! no rendering here: excluding them is this call's precondition.

use vstd::prelude::*;
use vstd::string::*;

use crate::error::PlistError;
use crate::{lemma_view_unfold, PNode, Plist, PlistValue};

verus! {

broadcast use {lemma_view_unfold, crate::lemma_views_of_len, crate::lemma_views_of_index, crate::lemma_entry_views_of_len, crate::lemma_entry_views_of_index};

/// The decimal digit character for a value below ten.
pub open spec fn digit_char(d: int) -> char {
    ((48 + d) as u8) as char
}

/// The decimal rendering of a number, most significant digit first.
pub open spec fn dec_seq(v: int) -> Seq<char>
    decreases v,
{
    if v < 10 {
        seq![digit_char(if v < 0 {
            0
        } else {
            v
        })]
    } else {
        dec_seq(v / 10).push(digit_char(v % 10))
    }
}

/// Whether a node's whole subtree can be rendered: real, date,
/// unique-identifier and key nodes cannot.
pub open spec fn displayable(n: PNode) -> bool
    decreases n,
{
    match n {
        PNode::Real { .. } => false,
        PNode::Date { .. } => false,
        PNode::Uid { .. } => false,
        PNode::Key { .. } => false,
        PNode::Arr { items } => forall|j: int|
            0 <= j < items.len() ==> displayable(#[trigger] items[j]),
        PNode::Dict { entries } => forall|j: int|
            0 <= j < entries.len() ==> displayable((#[trigger] entries[j]).1),
        _ => true,
    }
}

/// The rendering of a node.
pub open spec fn display_of(n: PNode) -> Seq<char>
    decreases n, 1int,
{
    match n {
        PNode::Bool { b } => if b {
            "true"@
        } else {
            "false"@
        },
        PNode::Int { i } => dec_seq(i as int),
        PNode::Blob { bytes } => "["@ + bytes_disp(bytes) + "]"@,
        PNode::Text { t } => t,
        PNode::Arr { items } => "["@ + items_disp(items) + "]"@,
        PNode::Dict { entries } => {
            let body = "{ "@ + entries_disp(entries);
            body.take(body.len() - 2) + " }"@
        },
        _ => Seq::empty(),
    }
}

/// The comma-separated decimal rendering of a blob's bytes.
pub open spec fn bytes_disp(bytes: Seq<u8>) -> Seq<char>
    decreases bytes.len(),
{
    if bytes.len() == 0 {
        Seq::empty()
    } else if bytes.len() == 1 {
        dec_seq(bytes[0] as int)
    } else {
        dec_seq(bytes[0] as int) + ", "@ + bytes_disp(bytes.drop_first())
    }
}

/// The renderings of an array's children, concatenated without a
/// separator.
pub open spec fn items_disp(items: Seq<PNode>) -> Seq<char>
    decreases items, 0int,
{
    if items.len() == 0 {
        Seq::empty()
    } else {
        display_of(items[0]) + items_disp(items.drop_first())
    }
}

/// The renderings of a dictionary's entries, each `key: value, `.
pub open spec fn entries_disp(entries: Seq<(Seq<char>, PNode)>) -> Seq<char>
    decreases entries, 0int,
{
    if entries.len() == 0 {
        Seq::empty()
    } else {
        entries[0].0 + ": "@ + display_of(entries[0].1) + ", "@ + entries_disp(
            entries.drop_first(),
        )
    }
}

/// The decimal digit as a borrowed one-character string.
pub(crate) fn dec_digit_str(d: u64) -> (r: &'static str)
    requires
        d < 10,
    ensures
        r@ == seq![digit_char(d as int)],
{
    proof {
        reveal_strlit("0");
        reveal_strlit("1");
        reveal_strlit("2");
        reveal_strlit("3");
        reveal_strlit("4");
        reveal_strlit("5");
        reveal_strlit("6");
        reveal_strlit("7");
        reveal_strlit("8");
        reveal_strlit("9");
    }
    match d {
        0 => "0",
        1 => "1",
        2 => "2",
        3 => "3",
        4 => "4",
        5 => "5",
        6 => "6",
        7 => "7",
        8 => "8",
        _ => "9",
    }
}

/// The decimal rendering of a number.
pub(crate) fn u64_to_dec(v: u64) -> (r: String)
    ensures
        r@ == dec_seq(v as int),
    decreases v,
{
    if v < 10 {
        String::from_str(dec_digit_str(v))
    } else {
        let mut s = u64_to_dec(v / 10);
        s.append(dec_digit_str(v % 10));
        proof {
            assert(s@ =~= dec_seq(v as int));
        }
        s
    }
}

proof fn lemma_items_disp_snoc(items: Seq<PNode>, i: int)
    requires
        0 <= i < items.len(),
    ensures
        items_disp(items.take(i + 1)) == items_disp(items.take(i)) + display_of(items[i]),
    decreases i,
{
    if i == 0 {
        reveal_with_fuel(items_disp, 2);
        assert(items.take(1) =~= seq![items[0]]);
        assert(items.take(1).drop_first() =~= Seq::<PNode>::empty());
        assert(items.take(0) =~= Seq::<PNode>::empty());
        assert(items_disp(items.take(1)) =~= items_disp(items.take(0)) + display_of(items[0]));
    } else {
        let rest = items.drop_first();
        lemma_items_disp_snoc(rest, i - 1);
        assert(items.take(i + 1).drop_first() =~= rest.take(i));
        assert(items.take(i).drop_first() =~= rest.take(i - 1));
        assert(items.take(i + 1)[0] == items[0]);
        assert(items.take(i)[0] == items[0]);
        assert(rest[i - 1] == items[i]);
        assert(display_of(items[0]) + (items_disp(rest.take(i - 1)) + display_of(items[i])) =~= (
        display_of(items[0]) + items_disp(rest.take(i - 1))) + display_of(items[i]));
    }
}

proof fn lemma_entries_disp_snoc(entries: Seq<(Seq<char>, PNode)>, i: int)
    requires
        0 <= i < entries.len(),
    ensures
        entries_disp(entries.take(i + 1)) == entries_disp(entries.take(i)) + entries[i].0 + ": "@
            + display_of(entries[i].1) + ", "@,
    decreases i,
{
    let e = entries[i].0 + ": "@ + display_of(entries[i].1) + ", "@;
    if i == 0 {
        reveal_with_fuel(entries_disp, 2);
        assert(entries.take(1) =~= seq![entries[0]]);
        assert(entries.take(1).drop_first() =~= Seq::<(Seq<char>, PNode)>::empty());
        assert(entries.take(0) =~= Seq::<(Seq<char>, PNode)>::empty());
        assert(entries_disp(entries.take(1)) =~= (((entries_disp(entries.take(0)) + entries[0].0)
            + ": "@) + display_of(entries[0].1)) + ", "@);
    } else {
        let rest = entries.drop_first();
        lemma_entries_disp_snoc(rest, i - 1);
        assert(entries.take(i + 1).drop_first() =~= rest.take(i));
        assert(entries.take(i).drop_first() =~= rest.take(i - 1));
        assert(entries.take(i + 1)[0] == entries[0]);
        assert(entries.take(i)[0] == entries[0]);
        assert(rest[i - 1] == entries[i]);
        let h = entries[0].0 + ": "@ + display_of(entries[0].1) + ", "@;
        assert(entries_disp(entries.take(i + 1)) == h + entries_disp(rest.take(i)));
        assert(entries_disp(entries.take(i)) == h + entries_disp(rest.take(i - 1)));
        assert(h + (((entries_disp(rest.take(i - 1)) + entries[i].0) + ": "@ + display_of(
            entries[i].1,
        )) + ", "@) =~= (((h + entries_disp(rest.take(i - 1))) + entries[i].0) + ": "@
            + display_of(entries[i].1)) + ", "@);
        assert(entries_disp(entries.take(i + 1)) =~= entries_disp(entries.take(i)) + entries[i].0
            + ": "@ + display_of(entries[i].1) + ", "@);
    }
}

/// Renders one node.
#[verifier::loop_isolation(false)]
#[verifier::rlimit(80)]
fn render(p: &Plist) -> (r: String)
    requires
        displayable(p@),
    ensures
        r@ == display_of(p@),
    decreases *p,
{
    match &p.value {
        PlistValue::Boolean(b) => {
            if *b {
                String::from_str("true")
            } else {
                String::from_str("false")
            }
        },
        PlistValue::Integer(i) => u64_to_dec(*i),
        PlistValue::Data(bytes) => {
            let mut out = String::from_str("[");
            let mut idx: usize = 0;
            while idx < bytes.len()
                invariant
                    0 <= idx <= bytes@.len(),
                    out@ == "["@ + bytes_disp(bytes@.take(idx as int)),
                decreases bytes@.len() - idx,
            {
                if idx > 0 {
                    out.append(", ");
                }
                let d = u64_to_dec(bytes[idx] as u64);
                out.append(d.as_str());
                proof {
                    lemma_bytes_disp_snoc(bytes@, idx as int);
                    if idx == 0 {
                        assert(out@ =~= "["@ + bytes_disp(bytes@.take(1)));
                    } else {
                        assert(out@ =~= "["@ + bytes_disp(bytes@.take(idx as int + 1)));
                    }
                }
                idx += 1;
            }
            out.append("]");
            proof {
                assert(bytes@.take(bytes@.len() as int) =~= bytes@);
                assert(out@ =~= display_of(p@));
            }
            out
        },
        PlistValue::Text(t) => t.clone(),
        PlistValue::Array(items) => {
            proof {
                assert(p@->items == crate::views_of(items@));
            }
            let ghost views = crate::views_of(items@);
            let mut out = String::from_str("[");
            let mut idx: usize = 0;
            while idx < items.len()
                invariant
                    0 <= idx <= items@.len(),
                    out@ == "["@ + items_disp(views.take(idx as int)),
                decreases items@.len() - idx,
            {
                proof {
                    assert(p.value->Array_0 == *items);
                    assert(decreases_to!(*p => p.value->Array_0@[idx as int]));
                    assert(decreases_to!(*p => items@[idx as int]));
                    crate::lemma_views_of_index(items@, idx as int);
                    assert(displayable(p@->items[idx as int]));
                }
                let piece = render(&items[idx]);
                out.append(piece.as_str());
                proof {
                    lemma_items_disp_snoc(views, idx as int);
                    assert(out@ =~= "["@ + items_disp(views.take(idx as int + 1)));
                }
                idx += 1;
            }
            out.append("]");
            proof {
                assert(views.take(items@.len() as int) =~= views);
                assert(out@ =~= display_of(p@));
            }
            out
        },
        PlistValue::Dictionary(entries) => {
            proof {
                assert(p@->entries == crate::entry_views_of(entries@));
            }
            let ghost views = crate::entry_views_of(entries@);
            let mut out = String::from_str("{ ");
            let mut idx: usize = 0;
            while idx < entries.len()
                invariant
                    0 <= idx <= entries@.len(),
                    out@ == "{ "@ + entries_disp(views.take(idx as int)),
                decreases entries@.len() - idx,
            {
                proof {
                    assert(p.value->Dictionary_0 == *entries);
                    assert(decreases_to!(*p => p.value->Dictionary_0@[idx as int].1));
                    assert(decreases_to!(*p => entries@[idx as int].1));
                    crate::lemma_entry_views_of_index(entries@, idx as int);
                    assert(displayable(p@->entries[idx as int].1));
                }
                out.append(entries[idx].0.as_str());
                out.append(": ");
                let piece = render(&entries[idx].1);
                out.append(piece.as_str());
                out.append(", ");
                proof {
                    lemma_entries_disp_snoc(views, idx as int);
                    assert(out@ =~= "{ "@ + entries_disp(views.take(idx as int + 1)));
                }
                idx += 1;
            }
            proof {
                assert(views.take(entries@.len() as int) =~= views);
            }
            let n = out.as_str().unicode_len();
            proof {
                reveal_strlit("{ ");
                assert(out@.len() >= 2);
            }
            let trimmed = out.as_str().substring_char(0, n - 2);
            let mut res = String::from_str(trimmed);
            res.append(" }");
            proof {
                let body = "{ "@ + entries_disp(views);
                assert(body.len() >= 2) by {
                    reveal_strlit("{ ");
                }
                assert(trimmed@ =~= body.take(body.len() - 2));
                assert(res@ == display_of(p@));
            }
            res
        },
        _ => String::new(),
    }
}

proof fn lemma_bytes_disp_snoc(bytes: Seq<u8>, i: int)
    requires
        0 <= i < bytes.len(),
    ensures
        i == 0 ==> bytes_disp(bytes.take(1)) == dec_seq(bytes[0] as int),
        i > 0 ==> bytes_disp(bytes.take(i + 1)) == bytes_disp(bytes.take(i)) + ", "@ + dec_seq(
            bytes[i] as int,
        ),
    decreases i,
{
    if i == 0 {
        assert(bytes.take(1) =~= seq![bytes[0]]);
    } else if i == 1 {
        reveal_with_fuel(bytes_disp, 3);
        assert(bytes.take(2).drop_first() =~= seq![bytes[1]]);
        assert(bytes.take(2)[0] == bytes[0]);
        assert(bytes.take(1) =~= seq![bytes[0]]);
        assert(bytes_disp(bytes.take(2)) =~= (bytes_disp(bytes.take(1)) + ", "@) + dec_seq(
            bytes[1] as int,
        ));
    } else {
        let rest = bytes.drop_first();
        lemma_bytes_disp_snoc(rest, i - 1);
        assert(bytes.take(i + 1).drop_first() =~= rest.take(i));
        assert(bytes.take(i).drop_first() =~= rest.take(i - 1));
        assert(bytes.take(i + 1)[0] == bytes[0]);
        assert(bytes.take(i)[0] == bytes[0]);
        assert(rest[i - 1] == bytes[i]);
        assert(bytes.take(i + 1).len() >= 3);
        let h = dec_seq(bytes[0] as int) + ", "@;
        assert(bytes_disp(bytes.take(i + 1)) == h + bytes_disp(rest.take(i)));
        assert(bytes_disp(bytes.take(i)) == h + bytes_disp(rest.take(i - 1)));
        assert(h + ((bytes_disp(rest.take(i - 1)) + ", "@) + dec_seq(bytes[i] as int)) =~= ((h
            + bytes_disp(rest.take(i - 1))) + ", "@) + dec_seq(bytes[i] as int));
        assert(bytes_disp(bytes.take(i + 1)) =~= (bytes_disp(bytes.take(i)) + ", "@) + dec_seq(
            bytes[i] as int,
        ));
    }
}

impl Plist {
    /// Renders the subtree rooted at this node in a human-readable form.
    /// Real, date, unique-identifier and key nodes have no rendering:
    /// excluding them from the subtree is this call's precondition.
    pub fn get_display_value(&self) -> (r: Result<String, PlistError>)
        requires
            displayable(self@),
        ensures
            r is Ok,
            r->Ok_0@ == display_of(self@),
    {
        Ok(render(self))
    }
}

} // verus!
