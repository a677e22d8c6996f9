//! The content tree and its recursive-descent parser.
//!
//! `Content` is an ordered run of nodes; a node is plain text or a named tag
//! holding its own `Content`. `Content::parse` builds the tree from raw text
//! and is proved to return exactly what the model in [`crate::model`]
//! describes; `Content::render` writes a tree back to surface syntax.

use vstd::prelude::*;

verus! {

use vstd::string::{StrSliceExecFns, StringExecFns};

use crate::cursor::Cursor;

broadcast use {crate::cursor::Cursor::lemma_wf_bounds, vstd::std_specs::vec::group_vec_axioms};
use crate::error::ParseError;
use crate::model::{
    NodeV, after_sign, alpha_end, first_sign_from, is_alpha, is_space, lemma_alpha_end,
    lemma_first_sign_from, lemma_ws_end, name_end, ser, ser_node, ser_nodes_from, sign_at, sign_of,
    spec_content, spec_find_tag, spec_parse, spec_tag, spec_tag_name, text_nodes, ws_end,
};

/// Which of the two reserved delimiters a sign occurrence is.
#[derive(Debug, Clone, Copy, PartialEq, Eq, Structural)]
pub enum Sign {
    Opening,
    Closing,
}

/// The kind of tag structure that begins at a sign, decided by the sign that
/// follows it.
#[derive(Debug, Clone, Copy, PartialEq, Eq, Structural)]
pub enum TagType {
    Opening,
    Closing,
    SelfClosing,
}

/// An ordered run of nodes; order is document order.
#[derive(Debug, PartialEq)]
pub struct Content {
    pub children: Vec<Node>,
}

/// One node: plain text, or a tag.
#[derive(Debug, PartialEq)]
pub enum Node {
    Tag(Tag),
    Text(String),
}

/// A named tag and the content of its body. The name never changes after
/// construction; only the content is replaced during flattening.
#[derive(Debug, PartialEq)]
pub struct Tag {
    pub name: String,
    pub content: Content,
}

/// The views of a run of nodes, in order.
pub open spec fn view_nodes(nodes: Vec<Node>) -> Seq<NodeV>
    decreases nodes,
{
    Seq::new(
        nodes@.len(),
        |i: int|
            if 0 <= i < nodes@.len() {
                nodes[i]@
            } else {
                NodeV::Text(Seq::empty())
            },
    )
}

impl View for Node {
    type V = NodeV;

    open spec fn view(&self) -> NodeV
        decreases self,
    {
        match self {
            Node::Text(t) => NodeV::Text(t@),
            Node::Tag(t) => NodeV::Tag(t.name@, view_nodes(t.content.children)),
        }
    }
}

impl View for Content {
    type V = Seq<NodeV>;

    open spec fn view(&self) -> Seq<NodeV> {
        view_nodes(self.children)
    }
}

/// Advance the cursor to rest exactly at the first sign at or after its
/// position and report which sign it is, or to the end of the buffer when no
/// sign remains.
pub fn find_sign(cursor: &mut Cursor) -> (r: Option<Sign>)
    requires
        old(cursor).wf(),
    ensures
        final(cursor).wf(),
        final(cursor).chars() == old(cursor).chars(),
        old(cursor).at() <= final(cursor).at(),
        match first_sign_from(old(cursor).chars(), old(cursor).at()) {
            Some(p) => final(cursor).at() == p && r == Some(sign_of(old(cursor).chars(), p)),
            None => final(cursor).at() == old(cursor).chars().len() as int && r is None,
        },
{
    let ghost s = old(cursor).chars();
    let ghost i0 = old(cursor).at();
    loop
        invariant
            s == old(cursor).chars(),
            i0 == old(cursor).at(),
            cursor.wf(),
            cursor.chars() == s,
            i0 <= cursor.at() <= s.len(),
            first_sign_from(s, i0) == first_sign_from(s, cursor.at()),
        decreases s.len() - cursor.at(),
    {
        let ghost i = cursor.at();
        let a = match cursor.first() {
            Some(a) => a,
            None => {
                return None;
            },
        };
        match cursor.second() {
            Some(b) => {
                if a == '<' && b == '<' {
                    proof {
                        assert(sign_at(s, i));
                        assert(first_sign_from(s, i) == Some(i));
                    }
                    return Some(Sign::Opening);
                }
                if a == '>' && b == '>' {
                    proof {
                        assert(sign_at(s, i));
                        assert(first_sign_from(s, i) == Some(i));
                    }
                    return Some(Sign::Closing);
                }
                if b == '<' || b == '>' {
                    proof {
                        assert(!sign_at(s, i));
                        assert(first_sign_from(s, i) == first_sign_from(s, i + 1));
                    }
                    cursor.skip(1);
                } else {
                    proof {
                        assert(!sign_at(s, i));
                        assert(!sign_at(s, i + 1));
                        assert(first_sign_from(s, i) == first_sign_from(s, i + 1));
                    }
                    cursor.skip(2);
                }
            },
            None => {
                proof {
                    assert(first_sign_from(s, i) is None);
                }
                cursor.skip(1);
                return None;
            },
        }
    }
}

/// Classify the next tag boundary without consuming it: the cursor comes to
/// rest at the first sign (or at the end when none remains), and the
/// boundary's kind is decided by the sign one delimiter further ahead.
pub fn find_tag(cursor: &mut Cursor) -> (r: Result<Option<TagType>, ParseError>)
    requires
        old(cursor).wf(),
    ensures
        final(cursor).wf(),
        final(cursor).chars() == old(cursor).chars(),
        old(cursor).at() <= final(cursor).at(),
        r == spec_find_tag(old(cursor).chars(), old(cursor).at()),
        final(cursor).at() == match first_sign_from(old(cursor).chars(), old(cursor).at()) {
            Some(p) => p,
            None => old(cursor).chars().len() as int,
        },
{
    let ghost s = old(cursor).chars();
    let ghost i0 = old(cursor).at();
    let first = find_sign(cursor);
    proof {
        lemma_first_sign_from(s, i0);
    }
    let mut lookahead = *cursor;
    lookahead.skip(2);
    let second = find_sign(&mut lookahead);
    match (first, second) {
        (None, _) => Ok(None),
        (Some(_), None) => Err(ParseError::MalformedDelimiter),
        (Some(a), Some(b)) => match (a, b) {
            (Sign::Opening, Sign::Opening) => Ok(Some(TagType::Opening)),
            (Sign::Closing, Sign::Closing) => Ok(Some(TagType::Closing)),
            (Sign::Opening, Sign::Closing) => Ok(Some(TagType::SelfClosing)),
            (Sign::Closing, Sign::Opening) => Err(ParseError::MalformedDelimiter),
        },
    }
}

/// Advance the cursor just past the next sign, or to the end of the buffer
/// when no sign remains.
pub fn skip_sign(cursor: &mut Cursor)
    requires
        old(cursor).wf(),
    ensures
        final(cursor).wf(),
        final(cursor).chars() == old(cursor).chars(),
        old(cursor).at() <= final(cursor).at(),
        final(cursor).at() == after_sign(old(cursor).chars(), old(cursor).at()),
{
    let ghost s = old(cursor).chars();
    let ghost i0 = old(cursor).at();
    find_sign(cursor);
    proof {
        lemma_first_sign_from(s, i0);
    }
    cursor.skip(2);
}

/// Read a tag name at the cursor: skip ASCII whitespace, then take the
/// maximal run of ASCII alphabetic characters.
pub fn parse_tag_name<'a>(cursor: &mut Cursor<'a>) -> (r: &'a str)
    requires
        old(cursor).wf(),
    ensures
        final(cursor).wf(),
        final(cursor).chars() == old(cursor).chars(),
        r@ == spec_tag_name(old(cursor).chars(), old(cursor).at()),
        final(cursor).at() == name_end(old(cursor).chars(), old(cursor).at()),
        old(cursor).at() <= final(cursor).at(),
{
    let ghost s = old(cursor).chars();
    let ghost i0 = old(cursor).at();
    let space = |c: char| -> (b: bool)
        ensures
            b == is_space(c),
        {
            c == ' ' || c == '\t' || c == '\n' || c == '\r' || c == '\u{c}'
        };
    cursor.skip_while(space);
    proof {
        lemma_ws_end(s, i0);
        assert(cursor.at() == ws_end(s, i0)) by {
            if cursor.at() < ws_end(s, i0) {
                assert(is_space(s[cursor.at()]));
            } else if cursor.at() > ws_end(s, i0) {
                assert(call_ensures(space, (s[ws_end(s, i0)],), true));
            }
        }
    }
    let ghost i1 = cursor.at();
    let alpha = |c: char| -> (b: bool)
        ensures
            b == is_alpha(c),
        {
            let u: u32 = c as u32;
            (97 <= u && u <= 122) || (65 <= u && u <= 90)
        };
    let name = cursor.take_while(alpha);
    proof {
        lemma_alpha_end(s, i1);
        assert(cursor.at() == alpha_end(s, i1)) by {
            if cursor.at() < alpha_end(s, i1) {
                assert(is_alpha(s[cursor.at()]));
            } else if cursor.at() > alpha_end(s, i1) {
                assert(call_ensures(alpha, (s[alpha_end(s, i1)],), true));
            }
        }
    }
    name
}

/// Consume the run of plain text up to the next tag boundary and return it,
/// or nothing when the run is empty.
pub fn build_text(cursor: &mut Cursor) -> (r: Result<Option<String>, ParseError>)
    requires
        old(cursor).wf(),
    ensures
        final(cursor).wf(),
        final(cursor).chars() == old(cursor).chars(),
        old(cursor).at() <= final(cursor).at(),
        ({
            let s = old(cursor).chars();
            let i0 = old(cursor).at();
            match spec_find_tag(s, i0) {
                Err(e) => r == Err::<Option<String>, ParseError>(e),
                Ok(_) => {
                    let p = match first_sign_from(s, i0) {
                        Some(p) => p,
                        None => s.len() as int,
                    };
                    &&& final(cursor).at() == p
                    &&& match r {
                        Ok(t) => if i0 == p {
                            t is None
                        } else {
                            t matches Some(x) && x@ == s.subrange(i0, p)
                        },
                        Err(_) => false,
                    }
                },
            }
        }),
{
    let ghost s = old(cursor).chars();
    let ghost i0 = old(cursor).at();
    let start = cursor.position();
    let ft = find_tag(cursor);
    proof {
        lemma_first_sign_from(s, i0);
    }
    match ft {
        Err(e) => Err(e),
        Ok(_) => {
            let end = cursor.position();
            if end > start {
                let t = cursor.input().substring_char(start, end);
                Ok(Some(String::from_str(t)))
            } else {
                Ok(None)
            }
        },
    }
}

/// Parse one full tag. The cursor must effectively sit at a tag boundary:
/// the function classifies the boundary itself and yields the tag described
/// by [`spec_tag`], or the error it prescribes (a closing boundary here is
/// malformed input, as is a sign without a partner).
pub fn build_tag<'a>(cursor: &mut Cursor<'a>) -> (r: Result<Tag, ParseError>)
    requires
        old(cursor).wf(),
    ensures
        final(cursor).wf(),
        final(cursor).chars() == old(cursor).chars(),
        match spec_tag(old(cursor).chars(), old(cursor).at()) {
            Ok((name, children, end)) => {
                &&& r matches Ok(t) && t.name@ == name && t.content@ == children
                &&& final(cursor).at() == end
                &&& old(cursor).at() < end <= old(cursor).chars().len()
            },
            Err(e) => r matches Err(e2) && e2 == e,
        },
    decreases old(cursor).chars().len() - old(cursor).at(), 0int,
{
    let ghost s = old(cursor).chars();
    let ghost p0 = old(cursor).at();
    let tag_t = match find_tag(cursor) {
        Ok(t) => t,
        Err(e) => {
            return Err(e);
        },
    };
    proof {
        lemma_first_sign_from(s, p0);
    }
    let ghost k = cursor.at();
    match tag_t {
        None => Err(ParseError::MalformedDelimiter),
        Some(TagType::Closing) => Err(ParseError::MalformedDelimiter),
        Some(TagType::Opening) => {
            proof {
                assert(sign_at(s, k));
                assert(first_sign_from(s, k) == Some(k));
            }
            skip_sign(cursor);
            let ghost i1 = cursor.at();
            proof {
                assert(i1 == k + 2);
                lemma_ws_end(s, i1);
                lemma_alpha_end(s, ws_end(s, i1));
            }
            let name = parse_tag_name(cursor);
            let ghost i2 = cursor.at();
            proof {
                lemma_first_sign_from(s, i2);
            }
            skip_sign(cursor);
            let ghost i3 = cursor.at();
            proof {
                assert(k < i3 <= s.len());
            }
            let content = match build_content(cursor) {
                Ok(c) => c,
                Err(e) => {
                    return Err(e);
                },
            };
            let ghost i4 = cursor.at();
            let second = match find_tag(cursor) {
                Ok(t) => t,
                Err(e) => {
                    return Err(e);
                },
            };
            proof {
                lemma_first_sign_from(s, i4);
            }
            let ghost q = cursor.at();
            match second {
                None => Err(ParseError::NoClosingTag),
                Some(TagType::Closing) => {
                    proof {
                        assert(sign_at(s, q));
                        assert(first_sign_from(s, q) == Some(q));
                    }
                    skip_sign(cursor);
                    let ghost i5 = cursor.at();
                    proof {
                        assert(i5 == q + 2);
                        lemma_ws_end(s, i5);
                        lemma_alpha_end(s, ws_end(s, i5));
                    }
                    let closing_name = parse_tag_name(cursor);
                    skip_sign(cursor);
                    let opening = String::from_str(name);
                    let closing = String::from_str(closing_name);
                    if closing == opening {
                        Ok(Tag { name: opening, content })
                    } else {
                        Err(ParseError::InvalidClosingTag)
                    }
                },
                Some(_) => Ok(Tag { name: String::from_str(name), content }),
            }
        },
        Some(TagType::SelfClosing) => {
            proof {
                assert(sign_at(s, k));
                assert(first_sign_from(s, k) == Some(k));
            }
            skip_sign(cursor);
            let ghost i1 = cursor.at();
            proof {
                assert(i1 == k + 2);
                lemma_ws_end(s, i1);
                lemma_alpha_end(s, ws_end(s, i1));
            }
            let name = parse_tag_name(cursor);
            let ghost i2 = cursor.at();
            proof {
                lemma_first_sign_from(s, i2);
            }
            skip_sign(cursor);
            let tag = Tag { name: String::from_str(name), content: Content { children: Vec::new() } };
            proof {
                assert(tag.content@ =~= Seq::<NodeV>::empty());
            }
            Ok(tag)
        },
    }
}

/// Parse a run of content: alternating text runs and full tags, stopping
/// before a closing boundary (it belongs to the enclosing tag) or at the end
/// of the buffer. Returns exactly what [`spec_content`] describes.
pub fn build_content(cursor: &mut Cursor) -> (r: Result<Content, ParseError>)
    requires
        old(cursor).wf(),
    ensures
        final(cursor).wf(),
        final(cursor).chars() == old(cursor).chars(),
        match spec_content(old(cursor).chars(), old(cursor).at()) {
            Ok((nodes, end)) => {
                &&& r matches Ok(c) && c@ == nodes
                &&& final(cursor).at() == end
                &&& old(cursor).at() <= end <= old(cursor).chars().len()
            },
            Err(e) => r matches Err(e2) && e2 == e,
        },
    decreases old(cursor).chars().len() - old(cursor).at(), 1int,
{
    let ghost s = old(cursor).chars();
    let ghost pos0 = old(cursor).at();
    let text = match build_text(cursor) {
        Ok(t) => t,
        Err(e) => {
            return Err(e);
        },
    };
    proof {
        lemma_first_sign_from(s, pos0);
    }
    let ghost p = cursor.at();
    let tag_t = match find_tag(cursor) {
        Ok(t) => t,
        Err(e) => {
            proof {
                assert(first_sign_from(s, p) == first_sign_from(s, pos0));
            }
            return Err(e);
        },
    };
    proof {
        assert(first_sign_from(s, p) == first_sign_from(s, pos0));
        assert(spec_find_tag(s, p) == spec_find_tag(s, pos0));
    }
    match tag_t {
        None => {
            let mut children: Vec<Node> = Vec::new();
            match text {
                Some(t) => children.push(Node::Text(t)),
                None => (),
            }
            let result = Content { children };
            proof {
                assert(result@ =~= text_nodes(s, pos0, s.len() as int));
            }
            Ok(result)
        },
        Some(TagType::Closing) => {
            let mut children: Vec<Node> = Vec::new();
            match text {
                Some(t) => children.push(Node::Text(t)),
                None => (),
            }
            let result = Content { children };
            proof {
                assert(result@ =~= text_nodes(s, pos0, p));
            }
            Ok(result)
        },
        Some(_) => {
            let tag = match build_tag(cursor) {
                Ok(t) => t,
                Err(e) => {
                    return Err(e);
                },
            };
            let ghost q = cursor.at();
            let rest = match build_content(cursor) {
                Ok(c) => c,
                Err(e) => {
                    return Err(e);
                },
            };
            let mut children: Vec<Node> = Vec::new();
            match text {
                Some(t) => children.push(Node::Text(t)),
                None => (),
            }
            children.push(Node::Tag(tag));
            let mut rest_children = rest.children;
            children.append(&mut rest_children);
            let result = Content { children };
            proof {
                let spec_r = spec_content(s, pos0);
                let tagv = spec_tag(s, p)->Ok_0;
                let restv = spec_content(s, q)->Ok_0;
                assert(result@ =~= text_nodes(s, pos0, p) + seq![NodeV::Tag(tagv.0, tagv.1)]
                    + restv.0);
            }
            Ok(result)
        },
    }
}

impl Content {
    /// Parse a whole buffer into a content tree, yielding exactly what
    /// [`spec_parse`] describes: the tree on success, and otherwise the one
    /// error the buffer's shape prescribes.
    pub fn parse(input: &str) -> (r: Result<Content, ParseError>)
        ensures
            match spec_parse(input@) {
                Ok(nodes) => r matches Ok(c) && c@ == nodes,
                Err(e) => r matches Err(e2) && e2 == e,
            },
    {
        let mut cursor = Cursor::new(input);
        let content = match build_content(&mut cursor) {
            Ok(c) => c,
            Err(e) => {
                return Err(e);
            },
        };
        if cursor.first().is_some() {
            match find_tag(&mut cursor) {
                Err(e) => Err(e),
                Ok(Some(TagType::Closing)) => Err(ParseError::NoOpeningTag),
                Ok(_) => Err(ParseError::MalformedDelimiter),
            }
        } else {
            Ok(content)
        }
    }
}

impl Node {
    /// Serialize one node back to surface syntax.
    pub fn render(&self) -> (r: String)
        ensures
            r@ == ser_node(self@),
        decreases self,
    {
        match self {
            Node::Text(t) => t.clone(),
            Node::Tag(t) => {
                let mut out = String::from_str("<<");
                out.append(t.name.as_str());
                if t.content.children.len() == 0 {
                    out.append(">>");
                    proof {
                        reveal_strlit("<<");
                        reveal_strlit(">>");
                        assert(out@ =~= ser_node(self@));
                    }
                    out
                } else {
                    out.append("<<");
                    let body = t.content.render();
                    out.append(body.as_str());
                    out.append(">>");
                    out.append(t.name.as_str());
                    out.append(">>");
                    proof {
                        reveal_strlit("<<");
                        reveal_strlit(">>");
                        assert(out@ =~= ser_node(self@));
                    }
                    out
                }
            },
        }
    }

    /// An independent owned copy of this node.
    pub fn deep_clone(&self) -> (r: Node)
        ensures
            r@ == self@,
        decreases self,
    {
        match self {
            Node::Text(t) => Node::Text(t.clone()),
            Node::Tag(t) => Node::Tag(
                Tag { name: t.name.clone(), content: t.content.deep_clone() },
            ),
        }
    }
}

impl Content {
    /// Serialize the run back to surface syntax, nodes in document order:
    /// text verbatim, a tag with an empty body as `<<name>>`, any other tag
    /// as `<<name<<` + its serialized body + `>>name>>`.
    pub fn render(&self) -> (r: String)
        ensures
            r@ == ser(self@),
        decreases self,
    {
        let mut out = String::new();
        let n = self.children.len();
        let mut i: usize = 0;
        while i < n
            invariant
                n == self.children.len(),
                i <= n,
                ser_nodes_from(self@, 0) == out@ + ser_nodes_from(self@, i as int),
            decreases n - i,
        {
            let piece = self.children[i].render();
            out.append(piece.as_str());
            i = i + 1;
            proof {
                assert(ser_nodes_from(self@, 0) =~= out@ + ser_nodes_from(self@, i as int));
            }
        }
        proof {
            assert(ser_nodes_from(self@, n as int) =~= Seq::<char>::empty());
            assert(out@ =~= ser(self@));
        }
        out
    }

    /// An independent owned copy of this run.
    pub fn deep_clone(&self) -> (r: Content)
        ensures
            r@ == self@,
        decreases self,
    {
        let n = self.children.len();
        let mut children: Vec<Node> = Vec::new();
        let mut i: usize = 0;
        while i < n
            invariant
                n == self.children.len(),
                i <= n,
                children@.len() == i,
                forall|j: int| 0 <= j < i ==> children[j]@ == self.children[j]@,
            decreases n - i,
        {
            children.push(self.children[i].deep_clone());
            i = i + 1;
        }
        let result = Content { children };
        proof {
            assert(result@ =~= self@);
        }
        result
    }
}

} // verus!
