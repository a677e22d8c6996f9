//! The mathematical model of the markup language.
//!
//! Everything here is specification-level: a ghost tree type, the positions
//! of delimiter signs in a character sequence, and a recursive definition of
//! what parsing and serializing a buffer mean. The executable parser in
//! `content` is proved to return exactly what these functions describe.

use vstd::prelude::*;

verus! {

use crate::content::{Sign, TagType};
use crate::error::ParseError;

/// The model of one parsed node: a run of plain text, or a named tag holding
/// child nodes in document order.
pub enum NodeV {
    Text(Seq<char>),
    Tag(Seq<char>, Seq<NodeV>),
}

/// An opening sign `<<` starts at index `i`.
pub open spec fn open_sign_at(s: Seq<char>, i: int) -> bool {
    &&& 0 <= i
    &&& i + 1 < s.len()
    &&& s[i] == '<'
    &&& s[i + 1] == '<'
}

/// A closing sign `>>` starts at index `i`.
pub open spec fn close_sign_at(s: Seq<char>, i: int) -> bool {
    &&& 0 <= i
    &&& i + 1 < s.len()
    &&& s[i] == '>'
    &&& s[i + 1] == '>'
}

/// Either sign starts at index `i`.
pub open spec fn sign_at(s: Seq<char>, i: int) -> bool {
    open_sign_at(s, i) || close_sign_at(s, i)
}

/// Which sign starts at index `i`, assuming one does.
pub open spec fn sign_of(s: Seq<char>, i: int) -> Sign {
    if s[i] == '<' {
        Sign::Opening
    } else {
        Sign::Closing
    }
}

/// The index of the first sign at or after `i`, if any sign remains.
pub open spec fn first_sign_from(s: Seq<char>, i: int) -> Option<int>
    decreases s.len() - i,
{
    if i + 1 >= s.len() {
        None
    } else if sign_at(s, i) {
        Some(i)
    } else {
        first_sign_from(s, i + 1)
    }
}

/// What `first_sign_from` finds is the first sign: a sign in bounds, with no
/// sign before it, or nothing when no sign remains.
pub proof fn lemma_first_sign_from(s: Seq<char>, i: int)
    ensures
        match first_sign_from(s, i) {
            Some(p) => {
                &&& i <= p
                &&& p + 1 < s.len()
                &&& sign_at(s, p)
                &&& forall|j: int| i <= j < p ==> !sign_at(s, j)
            },
            None => forall|j: int| j >= i ==> !sign_at(s, j),
        },
    decreases s.len() - i,
{
    if i + 1 >= s.len() {
    } else if sign_at(s, i) {
    } else {
        lemma_first_sign_from(s, i + 1);
    }
}

/// A sign at `p` with none between `i` and `p` is the one
/// `first_sign_from` finds.
pub proof fn lemma_first_sign_value(s: Seq<char>, i: int, p: int)
    requires
        i <= p,
        p + 1 < s.len(),
        sign_at(s, p),
        forall|j: int| i <= j < p ==> !sign_at(s, j),
    ensures
        first_sign_from(s, i) == Some(p),
{
    lemma_first_sign_from(s, i);
    match first_sign_from(s, i) {
        None => {
            assert(!sign_at(s, p));
        },
        Some(p2) => {
            if p2 < p {
                assert(!sign_at(s, p2));
            } else if p2 > p {
                assert(!sign_at(s, p));
            }
        },
    }
}

/// With no sign anywhere at or after `i`, `first_sign_from` finds none.
pub proof fn lemma_first_sign_none(s: Seq<char>, i: int)
    requires
        forall|j: int| j >= i ==> !sign_at(s, j),
    ensures
        first_sign_from(s, i) is None,
{
    lemma_first_sign_from(s, i);
    if first_sign_from(s, i) is Some {
        let p = first_sign_from(s, i)->0;
        assert(!sign_at(s, p));
    }
}

/// A run of whitespace from `i` to `e`, stopped there, pins `ws_end`.
pub proof fn lemma_ws_end_value(s: Seq<char>, i: int, e: int)
    requires
        0 <= i <= e <= s.len(),
        forall|j: int| i <= j < e ==> is_space(#[trigger] s[j]),
        e < s.len() ==> !is_space(s[e]),
    ensures
        ws_end(s, i) == e,
    decreases e - i,
{
    if i < e {
        lemma_ws_end_value(s, i + 1, e);
    }
}

/// A run of alphabetic characters from `i` to `e`, stopped there, pins
/// `alpha_end`.
pub proof fn lemma_alpha_end_value(s: Seq<char>, i: int, e: int)
    requires
        0 <= i <= e <= s.len(),
        forall|j: int| i <= j < e ==> is_alpha(#[trigger] s[j]),
        e < s.len() ==> !is_alpha(s[e]),
    ensures
        alpha_end(s, i) == e,
    decreases e - i,
{
    if i < e {
        lemma_alpha_end_value(s, i + 1, e);
    }
}

/// The position just past the first sign at or after `i`, or the end of the
/// buffer when no sign remains.
pub open spec fn after_sign(s: Seq<char>, i: int) -> int {
    match first_sign_from(s, i) {
        None => s.len() as int,
        Some(p) => p + 2,
    }
}

/// ASCII whitespace, as skipped before a tag name.
pub open spec fn is_space(c: char) -> bool {
    c == ' ' || c == '\t' || c == '\n' || c == '\r' || c == '\u{c}'
}

/// ASCII alphabetic, the only characters a tag name may hold.
pub open spec fn is_alpha(c: char) -> bool {
    ('a' <= c && c <= 'z') || ('A' <= c && c <= 'Z')
}

/// The first index at or after `i` whose character is not ASCII whitespace.
pub open spec fn ws_end(s: Seq<char>, i: int) -> int
    decreases s.len() - i,
{
    if 0 <= i < s.len() && is_space(s[i]) {
        ws_end(s, i + 1)
    } else {
        i
    }
}

/// The first index at or after `i` whose character is not ASCII alphabetic.
pub open spec fn alpha_end(s: Seq<char>, i: int) -> int
    decreases s.len() - i,
{
    if 0 <= i < s.len() && is_alpha(s[i]) {
        alpha_end(s, i + 1)
    } else {
        i
    }
}

pub proof fn lemma_ws_end(s: Seq<char>, i: int)
    requires
        0 <= i <= s.len(),
    ensures
        i <= ws_end(s, i) <= s.len(),
        forall|j: int| i <= j < ws_end(s, i) ==> is_space(#[trigger] s[j]),
        ws_end(s, i) < s.len() ==> !is_space(s[ws_end(s, i)]),
    decreases s.len() - i,
{
    if i < s.len() && is_space(s[i]) {
        lemma_ws_end(s, i + 1);
    }
}

pub proof fn lemma_alpha_end(s: Seq<char>, i: int)
    requires
        0 <= i <= s.len(),
    ensures
        i <= alpha_end(s, i) <= s.len(),
        forall|j: int| i <= j < alpha_end(s, i) ==> is_alpha(#[trigger] s[j]),
        alpha_end(s, i) < s.len() ==> !is_alpha(s[alpha_end(s, i)]),
    decreases s.len() - i,
{
    if i < s.len() && is_alpha(s[i]) {
        lemma_alpha_end(s, i + 1);
    }
}

/// The tag name read at `i`: leading whitespace skipped, then a maximal run
/// of ASCII alphabetic characters.
pub open spec fn spec_tag_name(s: Seq<char>, i: int) -> Seq<char> {
    s.subrange(ws_end(s, i), alpha_end(s, ws_end(s, i)))
}

/// The position just past the name read at `i`.
pub open spec fn name_end(s: Seq<char>, i: int) -> int {
    alpha_end(s, ws_end(s, i))
}

/// The kind of the next tag boundary at or after `i`: the first sign,
/// classified by the sign after it. No sign at all is no boundary; a first
/// sign with no partner, or a closing-then-opening pair, is malformed input.
pub open spec fn spec_find_tag(s: Seq<char>, i: int) -> Result<Option<TagType>, ParseError> {
    match first_sign_from(s, i) {
        None => Ok(None),
        Some(p) => match first_sign_from(s, p + 2) {
            None => Err(ParseError::MalformedDelimiter),
            Some(q) => match (sign_of(s, p), sign_of(s, q)) {
                (Sign::Opening, Sign::Opening) => Ok(Some(TagType::Opening)),
                (Sign::Closing, Sign::Closing) => Ok(Some(TagType::Closing)),
                (Sign::Opening, Sign::Closing) => Ok(Some(TagType::SelfClosing)),
                (Sign::Closing, Sign::Opening) => Err(ParseError::MalformedDelimiter),
            },
        },
    }
}

/// The run of plain text between positions `a` and `b`: one text node, or
/// nothing when the run is empty.
pub open spec fn text_nodes(s: Seq<char>, a: int, b: int) -> Seq<NodeV> {
    if a == b {
        seq![]
    } else {
        seq![NodeV::Text(s.subrange(a, b))]
    }
}

/// Parse one full tag whose boundary is the first sign at or after `p`:
/// the result is the tag's name, its children and the position just past it.
///
/// An opening boundary consumes its two signs and name, parses its body
/// recursively, and then requires a closing boundary bearing the same name;
/// a self-closing boundary consumes its signs and name and has no body.
/// The guards on positions can never fail; they keep the definition total.
pub open spec fn spec_tag(s: Seq<char>, p: int) -> Result<(Seq<char>, Seq<NodeV>, int), ParseError>
    decreases s.len() - p, 0int,
{
    match spec_find_tag(s, p) {
        Ok(Some(TagType::Opening)) => match first_sign_from(s, p) {
            Some(k) => if p <= k && k + 1 < s.len() {
                let i1 = k + 2;
                let name = spec_tag_name(s, i1);
                let i2 = name_end(s, i1);
                let i3 = after_sign(s, i2);
                if k < i3 <= s.len() {
                    match spec_content(s, i3) {
                        Err(e) => Err(e),
                        Ok((children, i4)) => match first_sign_from(s, i4) {
                            None => Err(ParseError::NoClosingTag),
                            Some(q) => match spec_find_tag(s, i4) {
                                Err(e) => Err(e),
                                Ok(None) => Err(ParseError::MalformedDelimiter),
                                Ok(Some(TagType::Closing)) => {
                                    let i5 = q + 2;
                                    let cname = spec_tag_name(s, i5);
                                    let i6 = name_end(s, i5);
                                    let i7 = after_sign(s, i6);
                                    if cname == name {
                                        Ok((name, children, i7))
                                    } else {
                                        Err(ParseError::InvalidClosingTag)
                                    }
                                },
                                Ok(Some(_)) => Ok((name, children, q)),
                            },
                        },
                    }
                } else {
                    Err(ParseError::MalformedDelimiter)
                }
            } else {
                Err(ParseError::MalformedDelimiter)
            },
            None => Err(ParseError::MalformedDelimiter),
        },
        Ok(Some(TagType::SelfClosing)) => match first_sign_from(s, p) {
            Some(k) => if p <= k && k + 1 < s.len() {
                let i1 = k + 2;
                let name = spec_tag_name(s, i1);
                let i2 = name_end(s, i1);
                let i3 = after_sign(s, i2);
                Ok((name, seq![], i3))
            } else {
                Err(ParseError::MalformedDelimiter)
            },
            None => Err(ParseError::MalformedDelimiter),
        },
        _ => Err(ParseError::MalformedDelimiter),
    }
}

/// Parse a run of content starting at `pos`: alternating text runs and full
/// tags, stopping (without consuming) before a closing boundary or at the end
/// of the buffer. The result is the nodes in document order and the position
/// where the run stopped.
pub open spec fn spec_content(s: Seq<char>, pos: int) -> Result<(Seq<NodeV>, int), ParseError>
    decreases s.len() - pos, 1int,
{
    match first_sign_from(s, pos) {
        None => Ok((text_nodes(s, pos, s.len() as int), s.len() as int)),
        Some(p) => if pos <= p {
            match spec_find_tag(s, pos) {
                Err(e) => Err(e),
                Ok(None) => Err(ParseError::MalformedDelimiter),
                Ok(Some(TagType::Closing)) => Ok((text_nodes(s, pos, p), p)),
                Ok(Some(_)) => match spec_tag(s, p) {
                    Err(e) => Err(e),
                    Ok((name, children, q)) => if pos < q <= s.len() {
                        match spec_content(s, q) {
                            Err(e) => Err(e),
                            Ok((nodes, r)) => Ok(
                                (text_nodes(s, pos, p) + seq![NodeV::Tag(name, children)] + nodes, r),
                            ),
                        }
                    } else {
                        Err(ParseError::MalformedDelimiter)
                    },
                },
            }
        } else {
            Err(ParseError::MalformedDelimiter)
        },
    }
}

/// The result of parsing a whole buffer: the content run must consume all of
/// it. A leftover closing boundary has no opening counterpart; any other
/// leftover shape is malformed input.
pub open spec fn spec_parse(s: Seq<char>) -> Result<Seq<NodeV>, ParseError> {
    match spec_content(s, 0) {
        Err(e) => Err(e),
        Ok((nodes, end)) => if end == s.len() {
            Ok(nodes)
        } else {
            match spec_find_tag(s, end) {
                Err(e) => Err(e),
                Ok(Some(TagType::Closing)) => Err(ParseError::NoOpeningTag),
                _ => Err(ParseError::MalformedDelimiter),
            }
        },
    }
}

/// Serialize one node back to surface syntax: text verbatim; a tag with an
/// empty body in the self-closing form, any other tag in the open form.
pub open spec fn ser_node(n: NodeV) -> Seq<char>
    decreases n, 0int, 0int,
{
    match n {
        NodeV::Text(t) => t,
        NodeV::Tag(name, children) => if children.len() == 0 {
            seq!['<', '<'] + name + seq!['>', '>']
        } else {
            seq!['<', '<'] + name + seq!['<', '<'] + ser_nodes_from(children, 0) + seq!['>', '>']
                + name + seq!['>', '>']
        },
    }
}

/// Serialize the nodes from index `i` on, concatenated in document order.
pub open spec fn ser_nodes_from(nodes: Seq<NodeV>, i: int) -> Seq<char>
    decreases nodes, 1int, nodes.len() - i,
{
    if 0 <= i < nodes.len() {
        ser_node(nodes[i]) + ser_nodes_from(nodes, i + 1)
    } else {
        seq![]
    }
}

/// Serialize a whole content run.
pub open spec fn ser(nodes: Seq<NodeV>) -> Seq<char> {
    ser_nodes_from(nodes, 0)
}

} // verus!
