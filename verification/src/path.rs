//! Path navigation: walking a node tree along a list of segments, where a
//! segment names a dictionary key, or an array index in decimal form.

use vstd::prelude::*;
use vstd::string::*;

use crate::dictionary::dict_lookup;
use crate::error::PlistError;
use crate::{lemma_view_unfold, no_nul, PNode, Plist, PlistType};

verus! {

broadcast use lemma_view_unfold;

/// Whether a character is a decimal digit.
pub open spec fn is_digit(c: char) -> bool {
    48 <= c as u32 <= 57
}

/// The value of a decimal digit character.
pub open spec fn digit_val(c: char) -> int {
    c as u32 - 48
}

/// Whether every character of the sequence is a decimal digit.
pub open spec fn all_digits(s: Seq<char>) -> bool {
    forall|j: int| 0 <= j < s.len() ==> is_digit(#[trigger] s[j])
}

/// The number denoted by a sequence of decimal digits, most significant
/// first.
pub open spec fn digits_value(s: Seq<char>) -> int
    decreases s.len(),
{
    if s.len() == 0 {
        0
    } else {
        digits_value(s.drop_last()) * 10 + digit_val(s.last())
    }
}

proof fn lemma_digits_value_nonneg(s: Seq<char>)
    requires
        all_digits(s),
    ensures
        digits_value(s) >= 0,
    decreases s.len(),
{
    if s.len() > 0 {
        assert(all_digits(s.drop_last()));
        lemma_digits_value_nonneg(s.drop_last());
    }
}

proof fn lemma_digits_value_mono(s: Seq<char>, k: int)
    requires
        all_digits(s),
        0 <= k <= s.len(),
    ensures
        digits_value(s) >= digits_value(s.take(k)),
    decreases s.len() - k,
{
    if k < s.len() {
        lemma_digits_value_mono(s, k + 1);
        let p = s.take(k + 1);
        assert(p.drop_last() =~= s.take(k));
        assert(all_digits(p));
        lemma_digits_value_nonneg(s.take(k));
        assert(digits_value(p) == digits_value(s.take(k)) * 10 + digit_val(p.last()));
    } else {
        assert(s.take(k) =~= s);
    }
}

/// Parses a whole decimal number.  Succeeds exactly on non-empty strings
/// of decimal digits whose value fits in 64 bits, and returns that value.
#[verifier::loop_isolation(false)]
pub fn parse_index(s: &str) -> (r: Option<u64>)
    ensures
        r is Some <==> s@.len() > 0 && all_digits(s@) && digits_value(s@) <= u64::MAX,
        r is Some ==> r->0 == digits_value(s@),
{
    let n = s.unicode_len();
    if n == 0 {
        return None;
    }
    let mut acc: u64 = 0;
    let mut idx: usize = 0;
    while idx < n
        invariant
            0 <= idx <= n,
            n == s@.len(),
            all_digits(s@.take(idx as int)),
            acc == digits_value(s@.take(idx as int)),
        decreases n - idx,
    {
        let c = s.get_char(idx);
        let cv = c as u32;
        if cv < 48 || cv > 57 {
            proof {
                assert(!is_digit(s@[idx as int]));
            }
            return None;
        }
        let d = (cv - 48) as u64;
        proof {
            assert(s@.take(idx as int + 1).drop_last() =~= s@.take(idx as int));
            assert(s@.take(idx as int + 1).last() == s@[idx as int]);
        }
        if acc > (u64::MAX - d) / 10 {
            proof {
                assert(all_digits(s@.take(idx as int + 1)));
                assert(digits_value(s@.take(idx as int + 1)) > u64::MAX);
                if all_digits(s@) {
                    lemma_digits_value_mono(s@, idx as int + 1);
                    assert(s@.take(s@.len() as int) =~= s@);
                    assert(digits_value(s@) > u64::MAX);
                }
            }
            return None;
        }
        acc = acc * 10 + d;
        idx += 1;
    }
    proof {
        assert(s@.take(n as int) =~= s@);
    }
    Some(acc)
}

/// The node reached by walking the segments from a starting node: each
/// segment indexes an array, in decimal and within the 32-bit range the
/// indexed access supports, or names a dictionary key.  The walk fails at
/// the first segment that does not apply to the node at hand.
pub open spec fn path_lookup(n: PNode, segs: Seq<Seq<char>>) -> Option<PNode>
    decreases segs.len(),
{
    if segs.len() == 0 {
        Option::Some(n)
    } else {
        let seg = segs[0];
        match n {
            PNode::Arr { items } => {
                if seg.len() > 0 && all_digits(seg) && digits_value(seg) < items.len()
                    && digits_value(seg) <= u32::MAX {
                    path_lookup(items[digits_value(seg)], segs.drop_first())
                } else {
                    Option::None
                }
            },
            PNode::Dict { entries } => {
                if dict_lookup(entries, seg) is Some {
                    path_lookup(dict_lookup(entries, seg)->0, segs.drop_first())
                } else {
                    Option::None
                }
            },
            _ => Option::None,
        }
    }
}

impl Plist {
    /// Walks the tree along the given segments, array indices in decimal
    /// form and dictionary keys, and returns a borrowed-alias handle to
    /// the node reached.  The first segment that does not apply to the
    /// node at hand, an out-of-range index and an absent key are refused.
    #[verifier::loop_isolation(false)]
    pub fn access_path(self, plists: Vec<String>) -> (r: Result<Plist, PlistError>)
        requires
            forall|j: int| 0 <= j < plists@.len() ==> no_nul((#[trigger] plists@[j])@),
        ensures
            r is Ok <==> path_lookup(self@, plists.deep_view()) is Some,
            r is Ok ==> r->Ok_0@ == path_lookup(self@, plists.deep_view())->0,
            r is Ok && self.wf() ==> r->Ok_0.wf(),
            !(path_lookup(self@, plists.deep_view()) is Some) ==> r == Err::<Plist, PlistError>(
                PlistError::InvalidArg,
            ),
    {
        let ghost segs = plists.deep_view();
        let ghost root = self@;
        let ghost root_wf = self.wf();
        let mut current = self;
        let mut i: usize = 0;
        proof {
            assert(segs.skip(0) =~= segs);
        }
        while i < plists.len()
            invariant
                0 <= i <= plists@.len(),
                segs.len() == plists@.len(),
                forall|j: int| 0 <= j < plists@.len() ==> segs[j] == (#[trigger] plists@[j])@,
                path_lookup(root, segs) == path_lookup(current@, segs.skip(i as int)),
                root_wf ==> current.wf(),
            decreases plists@.len() - i,
        {
            let ghost seg = segs[i as int];
            let ghost rest = segs.skip(i as int);
            proof {
                assert(rest[0] == seg);
                assert(rest.drop_first() =~= segs.skip(i as int + 1));
            }
            let t = current.get_node_type();
            if t == PlistType::Array {
                let idx64 = match parse_index(plists[i].as_str()) {
                    Some(v) => v,
                    None => {
                        proof {
                            assert(path_lookup(current@, rest) is None);
                        }
                        return Err(PlistError::InvalidArg);
                    },
                };
                if idx64 > 0xffff_ffff {
                    proof {
                        assert(path_lookup(current@, rest) is None);
                    }
                    return Err(PlistError::InvalidArg);
                }
                current = match current.array_get_item(idx64 as u32) {
                    Ok(item) => item,
                    Err(_) => {
                        proof {
                            assert(path_lookup(current@, rest) is None);
                        }
                        return Err(PlistError::InvalidArg);
                    },
                };
            } else if t == PlistType::Dictionary {
                current = match current.dict_get_item(plists[i].as_str()) {
                    Ok(item) => item,
                    Err(_) => {
                        proof {
                            assert(path_lookup(current@, rest) is None);
                        }
                        return Err(PlistError::InvalidArg);
                    },
                };
            } else {
                proof {
                    assert(path_lookup(current@, rest) is None);
                }
                return Err(PlistError::InvalidArg);
            }
            i += 1;
        }
        proof {
            assert(segs.skip(plists@.len() as int) =~= Seq::<Seq<char>>::empty());
        }
        Ok(current)
    }
}

} // verus!
