//! Content scanning for note references.
//!
//! A reference is a bracketed identifier — two opening brackets, 26
//! characters of the identifier alphabet, two closing brackets. The scan
//! walks the content left to right, takes each match together with a bounded
//! window of surrounding characters as its context, and resumes after the
//! match, so matches never overlap.

use vstd::prelude::*;
use crate::idgen::{check_id_char, is_id_char, ID_CHARS};
use crate::text::{chars_of, string_from_range};

verus! {

/// Characters of a whole reference: the brackets around an identifier.
pub const MATCH_CHARS: usize = 30;

/// Characters of context kept before a match.
pub const CONTEXT_BEFORE: usize = 40;

/// Characters of context kept from the match start on: the reference itself
/// and a tail of what follows it.
pub const CONTEXT_AFTER: usize = 66;

/// One discovered reference: the identifier it names and the surrounding
/// context window.
pub struct LinkMatch {
    pub target: String,
    pub context: String,
}

/// Mathematical model of a discovered reference.
pub ghost struct LinkMatchV {
    pub target: Seq<char>,
    pub context: Seq<char>,
}

impl View for LinkMatch {
    type V = LinkMatchV;

    open spec fn view(&self) -> LinkMatchV {
        LinkMatchV { target: self.target@, context: self.context@ }
    }
}

/// The models of a sequence of discovered references.
pub open spec fn matches_view(v: Seq<LinkMatch>) -> Seq<LinkMatchV> {
    v.map_values(|m: LinkMatch| m@)
}

/// A reference starts at position `i` of the content.
pub open spec fn match_at(c: Seq<char>, i: int) -> bool {
    &&& 0 <= i
    &&& i + MATCH_CHARS <= c.len()
    &&& c[i] == '['
    &&& c[i + 1] == '['
    &&& forall|k: int| 0 <= k < ID_CHARS ==> is_id_char(#[trigger] c[i + 2 + k])
    &&& c[i + 2 + ID_CHARS] == ']'
    &&& c[i + 3 + ID_CHARS] == ']'
}

/// The identifier named by the reference at position `i`.
pub open spec fn target_at(c: Seq<char>, i: int) -> Seq<char> {
    c.subrange(i + 2, i + 2 + ID_CHARS)
}

/// The context window around the reference at position `i`: a fixed number
/// of characters before the match start through a fixed number after it,
/// clipped to the content bounds.
pub open spec fn context_at(c: Seq<char>, i: int) -> Seq<char> {
    let start = if i >= CONTEXT_BEFORE {
        i - CONTEXT_BEFORE
    } else {
        0
    };
    let end = if i + CONTEXT_AFTER <= c.len() {
        i + CONTEXT_AFTER
    } else {
        c.len() as int
    };
    c.subrange(start, end)
}

/// Every reference found at or after position `i`, in order, resuming after
/// each match.
pub open spec fn scan_from(c: Seq<char>, i: int) -> Seq<LinkMatchV>
    decreases c.len() - i,
{
    if i < 0 || i + MATCH_CHARS > c.len() {
        Seq::empty()
    } else if match_at(c, i) {
        seq![LinkMatchV { target: target_at(c, i), context: context_at(c, i) }] + scan_from(
            c,
            i + MATCH_CHARS,
        )
    } else {
        seq![] + scan_from(c, i + 1)
    }
}

/// Every reference in the content, in order.
pub open spec fn scan_links(c: Seq<char>) -> Seq<LinkMatchV> {
    scan_from(c, 0)
}

/// Decides whether a reference starts at position `i`.
fn match_at_check(cs: &Vec<char>, i: usize) -> (r: bool)
    requires
        i < cs@.len(),
        cs@.len() - i >= MATCH_CHARS,
    ensures
        r == match_at(cs@, i as int),
{
    let n = cs.len();
    if !(cs[i] == '[' && cs[i + 1] == '[') {
        return false;
    }
    if !(cs[i + 2 + ID_CHARS] == ']' && cs[i + 3 + ID_CHARS] == ']') {
        return false;
    }
    for k in 0..ID_CHARS
        invariant
            i < cs@.len(),
            cs@.len() - i >= MATCH_CHARS,
            cs@.len() <= usize::MAX,
            forall|j: int| 0 <= j < k ==> is_id_char(#[trigger] cs@[i + 2 + j]),
    {
        if !check_id_char(cs[i + 2 + k]) {
            return false;
        }
    }
    true
}

/// Scans content for references: every non-overlapping bracketed identifier,
/// each with its context window.
pub fn scan_content(content: &String) -> (r: Vec<LinkMatch>)
    ensures
        matches_view(r@) == scan_links(content@),
{
    let cs = chars_of(content.as_str());
    let ghost c = content@;
    let mut out: Vec<LinkMatch> = Vec::new();
    let mut i: usize = 0;
    while i < cs.len() && cs.len() - i >= MATCH_CHARS
        invariant
            cs@ == c,
            i <= cs@.len(),
            scan_links(c) == matches_view(out@) + scan_from(c, i as int),
        decreases cs@.len() - i,
    {
        let ghost prev = matches_view(out@);
        if match_at_check(&cs, i) {
            let target = string_from_range(&cs, i + 2, i + 2 + ID_CHARS);
            let start = if i >= CONTEXT_BEFORE {
                i - CONTEXT_BEFORE
            } else {
                0
            };
            let end = if cs.len() - i >= CONTEXT_AFTER {
                i + CONTEXT_AFTER
            } else {
                cs.len()
            };
            let context = string_from_range(&cs, start, end);
            let m = LinkMatch { target, context };
            proof {
                assert(m@ == (LinkMatchV {
                    target: target_at(c, i as int),
                    context: context_at(c, i as int),
                }));
            }
            out.push(m);
            proof {
                assert(matches_view(out@) =~= prev.push(
                    LinkMatchV { target: target_at(c, i as int), context: context_at(c, i as int) },
                ));
                assert(scan_from(c, i as int) =~= seq![
                    LinkMatchV { target: target_at(c, i as int), context: context_at(c, i as int) },
                ] + scan_from(c, i + MATCH_CHARS));
                assert(matches_view(out@) + scan_from(c, i + MATCH_CHARS as int) =~= prev
                    + scan_from(c, i as int));
            }
            i = i + MATCH_CHARS;
        } else {
            proof {
                assert(scan_from(c, i as int) =~= scan_from(c, i + 1));
            }
            i = i + 1;
        }
    }
    proof {
        assert(scan_from(c, i as int) =~= Seq::<LinkMatchV>::empty());
        assert(matches_view(out@) =~= matches_view(out@) + scan_from(c, i as int));
    }
    out
}

} // verus!
