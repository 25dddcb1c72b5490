//! The meaning of the markup dialect: a recursive-descent reading of a
//! sequence of characters, as mathematics, from a position to a result and
//! the position after it.

use vstd::prelude::*;
use crate::text::{is_ws, trim};
use crate::tree::{Payload, Tree};

verus! {

/// The model of a parse failure.
pub enum Fault {
    UnexpectedEndOfInput,
    MalformedTag,
    MalformedClosingTag,
    TagMismatch { expected: Seq<char>, found: Seq<char> },
}

/// The first position at or after `p` that does not hold whitespace.
pub open spec fn skip_ws(s: Seq<char>, p: int) -> int
    decreases s.len() - p,
{
    if 0 <= p < s.len() && is_ws(s[p]) {
        skip_ws(s, p + 1)
    } else {
        p
    }
}

/// The first position at or after `p` that holds `d`, or the end of `s`.
pub open spec fn scan_end(s: Seq<char>, p: int, d: char) -> int
    decreases s.len() - p,
{
    if 0 <= p < s.len() && s[p] != d {
        scan_end(s, p + 1, d)
    } else {
        p
    }
}

/// Whether a closing tag starts at `p`.
pub open spec fn at_close(s: Seq<char>, p: int) -> bool {
    0 <= p && p + 1 < s.len() && s[p] == '<' && s[p + 1] == '/'
}

/// Skipping whitespace stays within the input, stops on a character that is
/// not whitespace, and skipping again does nothing.
pub proof fn lemma_skip_ws(s: Seq<char>, p: int)
    requires
        0 <= p <= s.len(),
    ensures
        p <= skip_ws(s, p) <= s.len(),
        skip_ws(s, p) < s.len() ==> !is_ws(s[skip_ws(s, p)]),
        skip_ws(s, skip_ws(s, p)) == skip_ws(s, p),
    decreases s.len() - p,
{
    if p < s.len() && is_ws(s[p]) {
        lemma_skip_ws(s, p + 1);
    }
}

/// A scan for `d` stays within the input, passes only characters other than
/// `d`, and stops on `d` unless the input ends first.
pub proof fn lemma_scan_end(s: Seq<char>, p: int, d: char)
    requires
        0 <= p <= s.len(),
    ensures
        p <= scan_end(s, p, d) <= s.len(),
        scan_end(s, p, d) < s.len() ==> s[scan_end(s, p, d)] == d,
        forall|i: int| p <= i < scan_end(s, p, d) ==> s[i] != d,
    decreases s.len() - p,
{
    if p < s.len() && s[p] != d {
        lemma_scan_end(s, p + 1, d);
    }
}

/// The siblings that start at `p`: after whitespace, nothing more at the
/// end of the input or where a closing tag starts; else one node and the
/// siblings after it.
pub open spec fn parse_siblings(s: Seq<char>, p: int) -> Result<(Seq<Tree>, int), Fault>
    decreases s.len() - p, 2int,
{
    if !(0 <= p <= s.len()) {
        Err(Fault::UnexpectedEndOfInput)
    } else {
        let q = skip_ws(s, p);
        proof {
            lemma_skip_ws(s, p);
        }
        if q >= s.len() || at_close(s, q) {
            Ok((Seq::empty(), q))
        } else {
            match parse_node(s, q) {
                Err(e) => Err(e),
                Ok((t, r)) => if q < r <= s.len() {
                    match parse_siblings(s, r) {
                        Err(e) => Err(e),
                        Ok((ts, e)) => Ok((seq![t] + ts, e)),
                    }
                } else {
                    // a node that parses always consumes input, so this
                    // branch is never taken
                    Err(Fault::UnexpectedEndOfInput)
                },
            }
        }
    }
}

/// One node at `p`: an element where `p` holds `<`, else text.
pub open spec fn parse_node(s: Seq<char>, p: int) -> Result<(Tree, int), Fault>
    decreases s.len() - p, 1int,
{
    if !(0 <= p < s.len()) {
        Err(Fault::UnexpectedEndOfInput)
    } else if s[p] == '<' {
        parse_tag(s, p)
    } else {
        parse_text(s, p)
    }
}

/// A text node at `p`: the characters up to the next `<`, trimmed.
pub open spec fn parse_text(s: Seq<char>, p: int) -> Result<(Tree, int), Fault> {
    let e = scan_end(s, p, '<');
    Ok((Tree { children: Seq::empty(), payload: Payload::Text(trim(s.subrange(p, e))) }, e))
}

/// An element at `p`: `<`, a name up to `>`, `>`, its children, then `</`,
/// the same name and `>`.
pub open spec fn parse_tag(s: Seq<char>, p: int) -> Result<(Tree, int), Fault>
    decreases s.len() - p, 0int,
{
    if !(0 <= p < s.len() && s[p] == '<') {
        Err(Fault::MalformedTag)
    } else {
        let e = scan_end(s, p + 1, '>');
        proof {
            lemma_scan_end(s, p + 1, '>');
        }
        if e >= s.len() {
            Err(Fault::MalformedTag)
        } else {
            let name = s.subrange(p + 1, e);
            match parse_siblings(s, e + 1) {
                Err(x) => Err(x),
                Ok((children, q)) => {
                    if !(0 <= q < s.len() && s[q] == '<') {
                        Err(Fault::MalformedClosingTag)
                    } else if !(q + 1 < s.len() && s[q + 1] == '/') {
                        Err(Fault::MalformedClosingTag)
                    } else {
                        let f = scan_end(s, q + 2, '>');
                        let found = s.subrange(q + 2, f);
                        if found != name {
                            Err(Fault::TagMismatch { expected: name, found })
                        } else if f >= s.len() {
                            Err(Fault::MalformedClosingTag)
                        } else {
                            Ok((Tree { children, payload: Payload::Element(name) }, f + 1))
                        }
                    }
                },
            }
        }
    }
}

/// A whole document: the siblings from its first character. Input after a
/// closing tag that no element opened is not read.
pub open spec fn parse_document(s: Seq<char>) -> Result<Seq<Tree>, Fault> {
    match parse_siblings(s, 0) {
        Ok((ts, _)) => Ok(ts),
        Err(e) => Err(e),
    }
}

} // verus!
