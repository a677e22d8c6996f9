//! Laws of the library, stated and proved over the model: facts that hold
//! of every input, beyond the contracts of the individual functions.

use vstd::prelude::*;

verus! {

use crate::content::{Sign, TagType};
use crate::error::ParseError;
use crate::model::{
    NodeV, after_sign, close_sign_at, first_sign_from, is_alpha, is_space, lemma_alpha_end_value,
    lemma_first_sign_from, lemma_first_sign_none, lemma_first_sign_value, lemma_ws_end_value,
    ser, ser_node, ser_nodes_from, sign_at, sign_of, spec_content, spec_find_tag, spec_parse,
    spec_tag, spec_tag_name, text_nodes,
};
use crate::templates::{edge_parent, has_tag, spec_flatten, trailing_ws_text, ws_only};

/// Neither delimiter occurs anywhere in the run.
pub open spec fn no_sign_in(t: Seq<char>) -> bool {
    forall|j: int| !sign_at(t, j)
}

/// Every character of the name is ASCII alphabetic.
pub open spec fn all_alpha(name: Seq<char>) -> bool {
    forall|j: int| 0 <= j < name.len() ==> is_alpha(#[trigger] name[j])
}

/// A tree the parser could have produced: text nodes are non-empty and free
/// of signs, tag names are alphabetic, a text node directly before a tag
/// does not end in the opening delimiter's character, and the last text node
/// of a tag's body does not end in the closing delimiter's character.
/// Serialization round-trips exactly on such trees.
pub open spec fn wf_node(n: NodeV) -> bool
    decreases n,
{
    match n {
        NodeV::Text(t) => t.len() > 0 && no_sign_in(t),
        NodeV::Tag(name, children) => {
            &&& all_alpha(name)
            &&& wf_run(children)
            &&& (children.len() > 0 && children.last() is Text ==> children.last()->Text_0.last()
                != '>')
        },
    }
}

/// Every node of the run is well-formed, and a text node is never followed
/// by another text node, nor ends in `<` when a tag follows it.
pub open spec fn wf_run(nodes: Seq<NodeV>) -> bool
    decreases nodes,
{
    &&& forall|i: int| 0 <= i < nodes.len() ==> wf_node(#[trigger] nodes[i])
    &&& forall|i: int|
        0 <= i && i + 1 < nodes.len() && (#[trigger] nodes[i]) is Text ==> nodes[i + 1] is Tag
            && nodes[i]->Text_0.last() != '<'
}

#[verifier::rlimit(100)]
proof fn lemma_rt_tag(s: Seq<char>, p: int, n: NodeV, end: int)
    requires
        n is Tag,
        wf_node(n),
        0 <= p <= end <= s.len(),
        s.subrange(p, end) == ser_node(n),
    ensures
        first_sign_from(s, p) == Some(p),
        spec_find_tag(s, p) == Ok::<Option<TagType>, ParseError>(
            Some(
                if n->Tag_1.len() == 0 {
                    TagType::SelfClosing
                } else {
                    TagType::Opening
                },
            ),
        ),
        spec_tag(s, p) == Ok::<(Seq<char>, Seq<NodeV>, int), ParseError>((n->Tag_0, n->Tag_1, end)),
    decreases n, 0int, 0int,
{
    let name = n->Tag_0;
    let children = n->Tag_1;
    let nl = name.len() as int;
    let sn = ser_node(n);
    assert forall|c: char| is_alpha(c) implies c != '<' && c != '>' && !is_space(c) by {}
    if children.len() == 0 {
        // the self-closing form
        let chain = seq!['<', '<'] + name + seq!['>', '>'];
        assert(sn =~= chain);
        assert(sn.len() == end - p) by {
            assert(s.subrange(p, end).len() == end - p);
        }
        assert(end - p == nl + 4);
        assert forall|o: int| #![trigger chain[o]] 0 <= o < end - p implies s[p + o]
            == chain[o] by {
            assert(s.subrange(p, end)[o] == s[p + o]);
        }
        assert(chain[0] == '<' && chain[1] == '<');
        assert(chain[2 + nl] == '>' && chain[3 + nl] == '>');
        assert(s[p] == '<' && s[p + 1] == '<') by {
            assert(s[p + 0] == chain[0] && s[p + 1] == chain[1]);
        }
        assert(s[p + 2 + nl] == '>' && s[p + 3 + nl] == '>') by {
            assert(s[p + (2 + nl)] == chain[2 + nl] && s[p + (3 + nl)] == chain[3 + nl]);
        }
        assert forall|j: int| 0 <= j < nl implies s[p + 2 + j] == name[j] by {
            assert(s[p + (2 + j)] == chain[2 + j]);
            assert(chain[2 + j] == name[j]);
        }
        assert(sign_at(s, p));
        assert(sign_at(s, p + 2 + nl));
        assert forall|j: int| p + 2 <= j < p + 2 + nl implies !sign_at(s, j) by {
            assert(s[p + 2 + (j - p - 2)] == name[j - p - 2]);
            assert(is_alpha(name[j - p - 2]));
        }
        lemma_first_sign_value(s, p, p);
        lemma_first_sign_value(s, p + 2, p + 2 + nl);
        assert(sign_of(s, p) == Sign::Opening);
        assert(sign_of(s, p + 2 + nl) == Sign::Closing);
        assert(spec_find_tag(s, p) == Ok::<Option<TagType>, ParseError>(
            Some(TagType::SelfClosing),
        ));
        assert(!is_space(s[p + 2]) && (nl > 0 ==> is_alpha(s[p + 2]))) by {
            if nl > 0 {
                assert(s[p + 2 + 0] == name[0]);
                assert(is_alpha(name[0]));
            }
        }
        assert forall|j: int| p + 2 <= j < p + 2 + nl implies is_alpha(#[trigger] s[j]) by {
            assert(s[p + 2 + (j - p - 2)] == name[j - p - 2]);
            assert(is_alpha(name[j - p - 2]));
        }
        lemma_ws_end_value(s, p + 2, p + 2);
        lemma_alpha_end_value(s, p + 2, p + 2 + nl);
        assert(spec_tag_name(s, p + 2) =~= name) by {
            assert forall|j: int| 0 <= j < nl implies s.subrange(p + 2, p + 2 + nl)[j]
                == name[j] by {
                assert(s[p + 2 + j] == name[j]);
            }
        }
        lemma_first_sign_value(s, p + 2 + nl, p + 2 + nl);
        assert(after_sign(s, p + 2 + nl) == end);
        assert(children =~= seq![]);
        assert(spec_tag(s, p) == Ok::<(Seq<char>, Seq<NodeV>, int), ParseError>(
            (name, children, end),
        ));
    } else {
        // the opening form, with a body
        let body = ser_nodes_from(children, 0);
        let bl = body.len() as int;
        let b0 = p + 4 + nl;
        let q0 = b0 + bl;
        let chain = seq!['<', '<'] + name + seq!['<', '<'] + body + seq!['>', '>'] + name
            + seq!['>', '>'];
        assert(sn =~= chain);
        assert(sn.len() == end - p) by {
            assert(s.subrange(p, end).len() == end - p);
        }
        assert(end - p == 2 * nl + 8 + bl);
        assert forall|o: int| #![trigger chain[o]] 0 <= o < end - p implies s[p + o]
            == chain[o] by {
            assert(s.subrange(p, end)[o] == s[p + o]);
        }
        assert(chain[0] == '<' && chain[1] == '<');
        assert(chain[2 + nl] == '<' && chain[3 + nl] == '<');
        assert(chain[4 + nl + bl] == '>' && chain[5 + nl + bl] == '>');
        assert(chain[6 + nl + bl + nl] == '>' && chain[7 + nl + bl + nl] == '>');
        assert(s[p] == '<' && s[p + 1] == '<') by {
            assert(s[p + 0] == chain[0] && s[p + 1] == chain[1]);
        }
        assert(s[p + 2 + nl] == '<' && s[p + 3 + nl] == '<') by {
            assert(s[p + (2 + nl)] == chain[2 + nl] && s[p + (3 + nl)] == chain[3 + nl]);
        }
        assert(s[q0] == '>' && s[q0 + 1] == '>') by {
            assert(s[p + (4 + nl + bl)] == chain[4 + nl + bl] && s[p + (5 + nl + bl)] == chain[5
                + nl + bl]);
        }
        assert(s[q0 + 2 + nl] == '>' && s[q0 + 3 + nl] == '>') by {
            assert(s[p + (6 + nl + bl + nl)] == chain[6 + nl + bl + nl] && s[p + (7 + nl + bl
                + nl)] == chain[7 + nl + bl + nl]);
        }
        assert forall|j: int| 0 <= j < nl implies s[p + 2 + j] == name[j] && s[q0 + 2 + j]
            == name[j] by {
            assert(s[p + (2 + j)] == chain[2 + j]);
            assert(chain[2 + j] == name[j]);
            assert(s[p + (6 + nl + bl + j)] == chain[6 + nl + bl + j]);
            assert(chain[6 + nl + bl + j] == name[j]);
        }
        assert forall|o: int| 0 <= o < bl implies s[b0 + o] == body[o] by {
            assert(s[p + (4 + nl + o)] == chain[4 + nl + o]);
            assert(chain[4 + nl + o] == body[o]);
        }
        // the boundary and its classifying second sign
        assert(sign_at(s, p));
        assert(sign_at(s, p + 2 + nl));
        assert forall|j: int| p + 2 <= j < p + 2 + nl implies !sign_at(s, j) by {
            assert(s[p + 2 + (j - p - 2)] == name[j - p - 2]);
            assert(is_alpha(name[j - p - 2]));
        }
        lemma_first_sign_value(s, p, p);
        lemma_first_sign_value(s, p + 2, p + 2 + nl);
        assert(sign_of(s, p) == Sign::Opening);
        assert(sign_of(s, p + 2 + nl) == Sign::Opening);
        assert(spec_find_tag(s, p) == Ok::<Option<TagType>, ParseError>(Some(TagType::Opening)));
        // the name and the sign that opens the body
        assert(!is_space(s[p + 2]) && (nl > 0 ==> is_alpha(s[p + 2]))) by {
            if nl > 0 {
                assert(s[p + 2 + 0] == name[0]);
                assert(is_alpha(name[0]));
            }
        }
        assert forall|j: int| p + 2 <= j < p + 2 + nl implies is_alpha(#[trigger] s[j]) by {
            assert(s[p + 2 + (j - p - 2)] == name[j - p - 2]);
            assert(is_alpha(name[j - p - 2]));
        }
        lemma_ws_end_value(s, p + 2, p + 2);
        lemma_alpha_end_value(s, p + 2, p + 2 + nl);
        assert(spec_tag_name(s, p + 2) =~= name) by {
            assert forall|j: int| 0 <= j < nl implies s.subrange(p + 2, p + 2 + nl)[j]
                == name[j] by {
                assert(s[p + 2 + j] == name[j]);
            }
        }
        lemma_first_sign_value(s, p + 2 + nl, p + 2 + nl);
        assert(after_sign(s, p + 2 + nl) == b0);
        // the closing boundary after the body classifies as closing
        assert(sign_at(s, q0));
        assert(sign_at(s, q0 + 2 + nl));
        assert forall|j: int| q0 + 2 <= j < q0 + 2 + nl implies !sign_at(s, j) by {
            assert(s[q0 + 2 + (j - q0 - 2)] == name[j - q0 - 2]);
            assert(is_alpha(name[j - q0 - 2]));
        }
        lemma_first_sign_value(s, q0, q0);
        lemma_first_sign_value(s, q0 + 2, q0 + 2 + nl);
        assert(sign_of(s, q0) == Sign::Closing);
        assert(sign_of(s, q0 + 2 + nl) == Sign::Closing);
        assert(spec_find_tag(s, q0) == Ok::<Option<TagType>, ParseError>(
            Some(TagType::Closing),
        ));
        // the body parses back to the children
        assert(s.subrange(b0, q0) =~= body) by {
            assert forall|o: int| 0 <= o < bl implies s.subrange(b0, q0)[o] == body[o] by {
                assert(s.subrange(b0, q0)[o] == s[b0 + o]);
                assert(s[b0 + o] == body[o]);
            }
        }
        lemma_rt_content(s, b0, children, 0, q0);
        assert(children.skip(0) =~= children);
        // the closing name matches the opening one
        assert(!is_space(s[q0 + 2]) && (nl > 0 ==> is_alpha(s[q0 + 2]))) by {
            if nl > 0 {
                assert(s[q0 + 2 + 0] == name[0]);
                assert(is_alpha(name[0]));
            }
        }
        assert forall|j: int| q0 + 2 <= j < q0 + 2 + nl implies is_alpha(#[trigger] s[j]) by {
            assert(s[q0 + 2 + (j - q0 - 2)] == name[j - q0 - 2]);
            assert(is_alpha(name[j - q0 - 2]));
        }
        lemma_ws_end_value(s, q0 + 2, q0 + 2);
        lemma_alpha_end_value(s, q0 + 2, q0 + 2 + nl);
        assert(spec_tag_name(s, q0 + 2) =~= name) by {
            assert forall|j: int| 0 <= j < nl implies s.subrange(q0 + 2, q0 + 2 + nl)[j]
                == name[j] by {
                assert(s[q0 + 2 + j] == name[j]);
            }
        }
        lemma_first_sign_value(s, q0 + 2 + nl, q0 + 2 + nl);
        assert(after_sign(s, q0 + 2 + nl) == end);
        assert(spec_tag(s, p) == Ok::<(Seq<char>, Seq<NodeV>, int), ParseError>(
            (name, children, end),
        ));
    }
}

#[verifier::rlimit(100)]
proof fn lemma_rt_content(s: Seq<char>, pos: int, nodes: Seq<NodeV>, i: int, end: int)
    requires
        wf_run(nodes),
        0 <= i <= nodes.len(),
        0 <= pos <= end <= s.len(),
        s.subrange(pos, end) == ser_nodes_from(nodes, i),
        end < s.len() ==> close_sign_at(s, end) && spec_find_tag(s, end) == Ok::<
            Option<TagType>,
            ParseError,
        >(Some(TagType::Closing)),
        end < s.len() && nodes.len() > 0 && nodes.last() is Text ==> nodes.last()->Text_0.last()
            != '>',
    ensures
        spec_content(s, pos) == Ok::<(Seq<NodeV>, int), ParseError>((nodes.skip(i), end)),
    decreases nodes, 1int, nodes.len() - i,
{
    let run = ser_nodes_from(nodes, i);
    assert forall|o: int| #![trigger run[o]] 0 <= o < end - pos implies s[pos + o] == run[o] by {
        assert(s.subrange(pos, end)[o] == s[pos + o]);
    }
    if i >= nodes.len() {
        // nothing left: the run is empty and parsing stops right here
        assert(run.len() == 0);
        assert(pos == end);
        assert(nodes.skip(i) =~= Seq::<NodeV>::empty());
        if end == s.len() {
            lemma_first_sign_none(s, pos);
            assert(text_nodes(s, pos, s.len() as int) =~= Seq::<NodeV>::empty());
        } else {
            assert(sign_at(s, pos));
            lemma_first_sign_value(s, pos, pos);
            assert(text_nodes(s, pos, pos) =~= Seq::<NodeV>::empty());
        }
    } else if nodes[i] is Text {
        let t = nodes[i]->Text_0;
        let tl = t.len() as int;
        assert(wf_node(nodes[i]));
        assert(ser_nodes_from(nodes, i) == ser_node(nodes[i]) + ser_nodes_from(nodes, i + 1));
        assert(ser_node(nodes[i]) == t);
        let p1 = pos + tl;
        assert forall|o: int| 0 <= o < tl implies s[pos + o] == t[o] by {
            assert(s[pos + o] == run[o]);
            assert(run[o] == t[o]);
        }
        // no sign inside the text run
        assert forall|j: int| pos <= j < p1 - 1 implies !sign_at(s, j) by {
            if sign_at(s, j) {
                assert(s[pos + (j - pos)] == t[j - pos]);
                assert(s[pos + (j - pos + 1)] == t[j - pos + 1]);
                assert(sign_at(t, j - pos));
            }
        }
        if i + 1 == nodes.len() {
            // the run ends with this text
            assert(run.len() == tl) by {
                assert(ser_nodes_from(nodes, i + 1).len() == 0);
            }
            assert(p1 == end);
            if end == s.len() {
                assert forall|j: int| j >= pos implies !sign_at(s, j) by {
                    if sign_at(s, j) {
                        assert(pos <= j < p1 - 1);
                    }
                }
                lemma_first_sign_none(s, pos);
                assert(s.subrange(pos, s.len() as int) =~= t);
                assert(text_nodes(s, pos, s.len() as int) =~= seq![nodes[i]]);
                assert(nodes.skip(i) =~= seq![nodes[i]]);
            } else {
                assert(s[end] == '>');
                assert(nodes.last() == nodes[i]);
                assert(t.last() != '>');
                assert(!sign_at(s, end - 1)) by {
                    assert(s[pos + (tl - 1)] == t[tl - 1]);
                }
                lemma_first_sign_value(s, pos, end);
                assert(spec_find_tag(s, pos) == spec_find_tag(s, end)) by {
                    assert(sign_at(s, end));
                    lemma_first_sign_value(s, end, end);
                }
                assert(s.subrange(pos, end) =~= t);
                assert(text_nodes(s, pos, end) =~= seq![nodes[i]]);
                assert(nodes.skip(i) =~= seq![nodes[i]]);
            }
        } else {
            // a tag follows the text
            assert(nodes[i + 1] is Tag && t.last() != '<');
            assert(wf_node(nodes[i + 1]));
            let tser = ser_node(nodes[i + 1]);
            let tag_end = p1 + tser.len();
            assert(ser_nodes_from(nodes, i + 1) == ser_node(nodes[i + 1]) + ser_nodes_from(
                nodes,
                i + 2,
            ));
            assert(run =~= t + tser + ser_nodes_from(nodes, i + 2));
            assert(tag_end <= end);
            assert(tser[0] == '<' && tser[1] == '<') by {
                if nodes[i + 1]->Tag_1.len() == 0 {
                    let chain = seq!['<', '<'] + nodes[i + 1]->Tag_0 + seq!['>', '>'];
                    assert(tser =~= chain);
                    assert(chain[0] == '<' && chain[1] == '<');
                } else {
                    let chain = seq!['<', '<'] + nodes[i + 1]->Tag_0 + seq!['<', '<']
                        + ser_nodes_from(nodes[i + 1]->Tag_1, 0) + seq!['>', '>'] + nodes[i
                        + 1]->Tag_0 + seq!['>', '>'];
                    assert(tser =~= chain);
                    assert(chain[0] == '<' && chain[1] == '<');
                }
            }
            assert(s[p1] == '<' && s[p1 + 1] == '<') by {
                assert(s[pos + tl] == run[tl] && run[tl] == tser[0]);
                assert(s[pos + (tl + 1)] == run[tl + 1] && run[tl + 1] == tser[1]);
            }
            assert(!sign_at(s, p1 - 1)) by {
                assert(s[pos + (tl - 1)] == t[tl - 1]);
            }
            assert(sign_at(s, p1));
            lemma_first_sign_value(s, pos, p1);
            assert(s.subrange(p1, tag_end) =~= tser) by {
                assert forall|o: int| 0 <= o < tser.len() implies s.subrange(p1, tag_end)[o]
                    == tser[o] by {
                    assert(s.subrange(p1, tag_end)[o] == s[p1 + o]);
                    assert(s[pos + (tl + o)] == run[tl + o]);
                    assert(run[tl + o] == tser[o]);
                }
            }
            lemma_rt_tag(s, p1, nodes[i + 1], tag_end);
            assert(spec_find_tag(s, pos) == spec_find_tag(s, p1));
            assert(s.subrange(tag_end, end) =~= ser_nodes_from(nodes, i + 2)) by {
                assert forall|o: int| 0 <= o < end - tag_end implies s.subrange(tag_end, end)[o]
                    == ser_nodes_from(nodes, i + 2)[o] by {
                    assert(s.subrange(tag_end, end)[o] == s[tag_end + o]);
                    assert(s[pos + (tl + tser.len() + o)] == run[tl + tser.len() + o]);
                    assert(run[tl + tser.len() + o] == ser_nodes_from(nodes, i + 2)[o]);
                }
            }
            lemma_rt_content(s, tag_end, nodes, i + 2, end);
            assert(s.subrange(pos, p1) =~= t) by {
                assert forall|o: int| 0 <= o < tl implies s.subrange(pos, p1)[o] == t[o] by {
                    assert(s.subrange(pos, p1)[o] == s[pos + o]);
                }
            }
            assert(text_nodes(s, pos, p1) =~= seq![nodes[i]]);
            assert(NodeV::Tag(nodes[i + 1]->Tag_0, nodes[i + 1]->Tag_1) == nodes[i + 1]);
            assert(text_nodes(s, pos, p1) + seq![nodes[i + 1]] + nodes.skip(i + 2) =~= nodes.skip(
                i,
            ));
        }
    } else {
        // a tag stands first
        assert(wf_node(nodes[i]));
        let tser = ser_node(nodes[i]);
        let tag_end = pos + tser.len();
        assert(ser_nodes_from(nodes, i) == ser_node(nodes[i]) + ser_nodes_from(nodes, i + 1));
        assert(run =~= tser + ser_nodes_from(nodes, i + 1));
        assert(tag_end <= end);
        assert(s.subrange(pos, tag_end) =~= tser) by {
            assert forall|o: int| 0 <= o < tser.len() implies s.subrange(pos, tag_end)[o]
                == tser[o] by {
                assert(s.subrange(pos, tag_end)[o] == s[pos + o]);
                assert(s[pos + o] == run[o]);
                assert(run[o] == tser[o]);
            }
        }
        lemma_rt_tag(s, pos, nodes[i], tag_end);
        assert(s.subrange(tag_end, end) =~= ser_nodes_from(nodes, i + 1)) by {
            assert forall|o: int| 0 <= o < end - tag_end implies s.subrange(tag_end, end)[o]
                == ser_nodes_from(nodes, i + 1)[o] by {
                assert(s.subrange(tag_end, end)[o] == s[tag_end + o]);
                assert(s[pos + (tser.len() + o)] == run[tser.len() + o]);
                assert(run[tser.len() + o] == ser_nodes_from(nodes, i + 1)[o]);
            }
        }
        lemma_rt_content(s, tag_end, nodes, i + 1, end);
        assert(text_nodes(s, pos, pos) =~= Seq::<NodeV>::empty());
        assert(NodeV::Tag(nodes[i]->Tag_0, nodes[i]->Tag_1) == nodes[i]);
        assert(text_nodes(s, pos, pos) + seq![nodes[i]] + nodes.skip(i + 1) =~= nodes.skip(i));
    }
}

#[verifier::rlimit(100)]
proof fn lemma_tag_wf(s: Seq<char>, p: int)
    requires
        0 <= p <= s.len(),
        spec_tag(s, p) is Ok,
    ensures
        ({
            let r = spec_tag(s, p)->Ok_0;
            &&& wf_node(NodeV::Tag(r.0, r.1))
            &&& p < r.2 <= s.len()
        }),
    decreases s.len() - p, 0int,
{
    let r = spec_tag(s, p)->Ok_0;
    lemma_first_sign_from(s, p);
    let k = first_sign_from(s, p)->0;
    let i1 = k + 2;
    crate::model::lemma_ws_end(s, i1);
    crate::model::lemma_alpha_end(s, crate::model::ws_end(s, i1));
    let i2 = crate::model::name_end(s, i1);
    assert(i1 <= i2 <= s.len());
    lemma_first_sign_from(s, i2);
    let i3 = after_sign(s, i2);
    assert(p < i3 <= s.len());
    // the name is an alphabetic run
    assert(all_alpha(spec_tag_name(s, i1))) by {
        let w = crate::model::ws_end(s, i1);
        assert forall|j: int| 0 <= j < spec_tag_name(s, i1).len() implies is_alpha(
            #[trigger] spec_tag_name(s, i1)[j],
        ) by {
            assert(spec_tag_name(s, i1)[j] == s[w + j]);
        }
    }
    if spec_find_tag(s, p) == Ok::<Option<TagType>, ParseError>(Some(TagType::Opening)) {
        lemma_content_wf(s, i3);
        let body = spec_content(s, i3)->Ok_0;
        let i4 = body.1;
        assert(i3 <= i4 <= s.len());
        lemma_first_sign_from(s, i4);
        match first_sign_from(s, i4) {
            Some(q2) => {
                assert(i4 <= q2 && q2 + 1 < s.len());
                let i5 = q2 + 2;
                crate::model::lemma_ws_end(s, i5);
                crate::model::lemma_alpha_end(s, crate::model::ws_end(s, i5));
                let i6 = crate::model::name_end(s, i5);
                assert(i5 <= i6 <= s.len());
                lemma_first_sign_from(s, i6);
                let i7 = after_sign(s, i6);
                assert(p < i7 <= s.len());
                assert(r.2 == i7 || r.2 == q2);
            },
            None => {},
        }
    } else {
        assert(spec_find_tag(s, p) == Ok::<Option<TagType>, ParseError>(
            Some(TagType::SelfClosing),
        ));
        assert(r.2 == i3);
    }
}

#[verifier::rlimit(100)]
proof fn lemma_content_wf(s: Seq<char>, pos: int)
    requires
        0 <= pos <= s.len(),
        spec_content(s, pos) is Ok,
    ensures
        ({
            let r = spec_content(s, pos)->Ok_0;
            &&& wf_run(r.0)
            &&& pos <= r.1 <= s.len()
            &&& (r.0.len() > 0 && r.0.last() is Text && r.1 < s.len()
                ==> r.0.last()->Text_0.last() != '>')
        }),
    decreases s.len() - pos, 1int,
{
    let r = spec_content(s, pos)->Ok_0;
    lemma_first_sign_from(s, pos);
    match first_sign_from(s, pos) {
        None => {
            // everything left is one text run
            let t = s.subrange(pos, s.len() as int);
            assert(no_sign_in(t)) by {
                assert forall|j: int| !sign_at(t, j) by {
                    if sign_at(t, j) {
                        assert(t[j] == s[pos + j] && t[j + 1] == s[pos + j + 1]);
                        assert(sign_at(s, pos + j));
                    }
                }
            }
            assert(wf_run(text_nodes(s, pos, s.len() as int)));
        },
        Some(p) => {
            match spec_find_tag(s, pos) {
                Ok(Some(TagType::Closing)) => {
                    // the run stops before the closing boundary
                    let t = s.subrange(pos, p);
                    assert(no_sign_in(t)) by {
                        assert forall|j: int| !sign_at(t, j) by {
                            if sign_at(t, j) {
                                assert(t[j] == s[pos + j] && t[j + 1] == s[pos + j + 1]);
                                assert(sign_at(s, pos + j));
                            }
                        }
                    }
                    assert(wf_run(text_nodes(s, pos, p)));
                    if pos < p {
                        // the text stops right at a closing sign
                        assert(s[p] == '>');
                        assert(!sign_at(s, p - 1));
                        assert(t.last() == s[p - 1]);
                        assert(t.last() != '>');
                    }
                },
                Ok(Some(_)) => {
                    // a tag, between the leading text and the rest
                    let t = s.subrange(pos, p);
                    assert(no_sign_in(t)) by {
                        assert forall|j: int| !sign_at(t, j) by {
                            if sign_at(t, j) {
                                assert(t[j] == s[pos + j] && t[j + 1] == s[pos + j + 1]);
                                assert(sign_at(s, pos + j));
                            }
                        }
                    }
                    assert(s[p] == '<');
                    lemma_tag_wf(s, p);
                    let tag = spec_tag(s, p)->Ok_0;
                    let q = tag.2;
                    lemma_content_wf(s, q);
                    let rest = spec_content(s, q)->Ok_0;
                    let head = text_nodes(s, pos, p);
                    let nodes = head + seq![NodeV::Tag(tag.0, tag.1)] + rest.0;
                    assert(r.0 == nodes);
                    if pos < p {
                        assert(t.last() == s[p - 1]);
                        assert(!sign_at(s, p - 1));
                        assert(t.last() != '<');
                    }
                    assert(wf_run(nodes)) by {
                        assert(head.len() <= 1);
                        assert forall|i: int| 0 <= i < nodes.len() implies wf_node(
                            #[trigger] nodes[i],
                        ) by {
                            if i < head.len() {
                                assert(nodes[i] == head[0]);
                            } else if i == head.len() {
                                assert(nodes[i] == NodeV::Tag(tag.0, tag.1));
                            } else {
                                assert(nodes[i] == rest.0[i - head.len() - 1]);
                            }
                        }
                        assert forall|i: int|
                            0 <= i && i + 1 < nodes.len() && (#[trigger] nodes[i]) is Text implies
                            nodes[i + 1] is Tag && nodes[i]->Text_0.last() != '<' by {
                            if i < head.len() {
                                assert(nodes[i] == head[0]);
                                assert(nodes[i + 1] == NodeV::Tag(tag.0, tag.1));
                            } else if i == head.len() {
                                assert(nodes[i] == NodeV::Tag(tag.0, tag.1));
                            } else {
                                assert(nodes[i] == rest.0[i - head.len() - 1]);
                                assert(nodes[i + 1] == rest.0[i - head.len()]);
                            }
                        }
                    }
                    if nodes.len() > 0 && nodes.last() is Text && r.1 < s.len() {
                        assert(rest.0.len() > 0);
                        assert(nodes.last() == rest.0.last());
                    }
                },
                _ => {
                    assert(false);
                },
            }
        },
    }
}

/// What parsing produced is a well-formed tree: serialization round-trips
/// on it exactly.
pub proof fn lemma_parse_wf(s: Seq<char>)
    requires
        spec_parse(s) is Ok,
    ensures
        wf_run(spec_parse(s)->Ok_0),
{
    lemma_content_wf(s, 0);
}

/// Serializing a well-formed tree and parsing the result yields the same
/// tree: the round trip loses nothing, for every tree the parser could have
/// produced.
pub proof fn lemma_render_parse_round_trip(nodes: Seq<NodeV>)
    requires
        wf_run(nodes),
    ensures
        spec_parse(ser(nodes)) == Ok::<Seq<NodeV>, ParseError>(nodes),
{
    let s = ser(nodes);
    assert(s.subrange(0, s.len() as int) =~= s);
    lemma_rt_content(s, 0, nodes, 0, s.len() as int);
    assert(nodes.skip(0) =~= nodes);
}

/// Round trip: serializing a parsed tree and parsing the result yields the
/// same tree, for every input the parser accepts.
pub proof fn lemma_parse_round_trip(s: Seq<char>)
    requires
        spec_parse(s) is Ok,
    ensures
        spec_parse(ser(spec_parse(s)->Ok_0)) == spec_parse(s),
{
    lemma_parse_wf(s);
    lemma_render_parse_round_trip(spec_parse(s)->Ok_0);
}

/// Parsing a non-empty input in which neither delimiter occurs yields a
/// tree with exactly one text node, equal to the whole input.
pub proof fn lemma_parse_all_text(s: Seq<char>)
    requires
        s.len() > 0,
        forall|i: int| !sign_at(s, i),
    ensures
        spec_parse(s) == Ok::<Seq<NodeV>, ParseError>(seq![NodeV::Text(s)]),
{
    lemma_first_sign_from(s, 0);
    if first_sign_from(s, 0) is Some {
        let p = first_sign_from(s, 0)->0;
        assert(sign_at(s, p));
    }
    assert(s.subrange(0, s.len() as int) =~= s);
    assert(text_nodes(s, 0, s.len() as int) =~= seq![NodeV::Text(s)]);
    assert(spec_content(s, 0) == Ok::<(Seq<NodeV>, int), ParseError>(
        (seq![NodeV::Text(s)], s.len() as int),
    ));
}

/// Flattening any body against an empty override run leaves it unchanged;
/// in particular, a root template flattened with no overrides is itself.
pub proof fn lemma_flatten_empty_override(parent: Seq<NodeV>)
    ensures
        spec_flatten(parent, seq![]) == parent,
{
    assert forall|name: Seq<char>| !has_tag(Seq::<NodeV>::empty(), name) by {
        assert(Seq::<NodeV>::empty().len() == 0);
    }
    assert(seq![] =~= Seq::<NodeV>::empty());
    assert(spec_flatten(parent, seq![]) =~= parent);
}

/// A trailing whitespace-only text node after a single-node body does not
/// change which parent, if any, the template extends.
pub proof fn lemma_edge_ignores_trailing_ws(nodes: Seq<NodeV>, t: Seq<char>)
    requires
        nodes.len() == 1,
        ws_only(t),
    ensures
        edge_parent(nodes.push(NodeV::Text(t))) == edge_parent(nodes),
{
    let padded = nodes.push(NodeV::Text(t));
    assert(padded.len() == 2);
    assert(padded[0] == nodes[0]);
    assert(padded[1] == NodeV::Text(t));
    assert(trailing_ws_text(padded));
}

} // verus!
