//! The inheritance engine: extends-edges, hierarchies, and flattening.
//!
//! A template whose whole body is one wrapper tag (optionally followed by a
//! whitespace-only text run) extends the template named by that tag; the
//! wrapper's body holds its block overrides. `create_edges` reads that
//! convention off parsed trees, `build_hierarchy` turns the edge set into a
//! forest of names, and `flatten`/`flatten_all` substitute overrides into
//! the already-flattened parent, parents before children.

use vstd::prelude::*;

verus! {

use vstd::string::StrSliceExecFns;

use crate::content::{Content, Node, Tag};
use crate::model::{NodeV, is_space};

broadcast use vstd::std_specs::vec::group_vec_axioms;

/// Every character of the run is ASCII whitespace.
pub open spec fn ws_only(t: Seq<char>) -> bool {
    forall|i: int| 0 <= i < t.len() ==> is_space(#[trigger] t[i])
}

/// The run is one node followed by a whitespace-only text node.
pub open spec fn trailing_ws_text(nodes: Seq<NodeV>) -> bool {
    nodes.len() == 2 && match nodes[1] {
        NodeV::Text(t) => ws_only(t),
        _ => false,
    }
}

/// The parent a parsed template extends, if any: its body must be exactly
/// one tag, except for an optional trailing whitespace-only text node, and
/// the parent is that tag's name.
pub open spec fn edge_parent(nodes: Seq<NodeV>) -> Option<Seq<char>> {
    if (nodes.len() == 1 || trailing_ws_text(nodes)) && nodes[0] is Tag {
        Some(nodes[0]->Tag_0)
    } else {
        None
    }
}

/// Some top-level tag in the run bears this name.
pub open spec fn has_tag(nodes: Seq<NodeV>, name: Seq<char>) -> bool {
    exists|i: int| 0 <= i < nodes.len() && #[trigger] nodes[i] is Tag && nodes[i]->Tag_0 == name
}

/// The body of the last top-level tag bearing this name (empty when none
/// does; `has_tag` says whether one does).
pub open spec fn last_tag_content(nodes: Seq<NodeV>, name: Seq<char>) -> Seq<NodeV>
    decreases nodes.len(),
{
    if nodes.len() == 0 {
        seq![]
    } else if nodes.last() is Tag && nodes.last()->Tag_0 == name {
        nodes.last()->Tag_1
    } else {
        last_tag_content(nodes.drop_last(), name)
    }
}

/// No later top-level tag in the run repeats the name of the tag at `i`.
pub open spec fn is_last_tag_at(nodes: Seq<NodeV>, i: int) -> bool {
    &&& nodes[i] is Tag
    &&& forall|j: int|
        i < j < nodes.len() ==> !(#[trigger] nodes[j] is Tag && nodes[j]->Tag_0 == nodes[i]->Tag_0)
}

/// The merge of a child's overrides into a parent's body: each top-level
/// parent tag that is the last of its name, and whose name some top-level
/// child tag bears, takes the body of the last such child tag; every other
/// node is kept as it stands.
pub open spec fn spec_flatten(parent: Seq<NodeV>, child: Seq<NodeV>) -> Seq<NodeV> {
    Seq::new(
        parent.len(),
        |i: int|
            if parent[i] is Tag && is_last_tag_at(parent, i) && has_tag(child, parent[i]->Tag_0) {
                NodeV::Tag(parent[i]->Tag_0, last_tag_content(child, parent[i]->Tag_0))
            } else {
                parent[i]
            },
    )
}

/// Whether the tag at `i` is the last top-level tag of its name.
fn last_with_name(children: &Vec<Node>, i: usize) -> (r: bool)
    requires
        i < children@.len(),
        crate::content::view_nodes(*children)[i as int] is Tag,
    ensures
        r == is_last_tag_at(crate::content::view_nodes(*children), i as int),
{
    let ghost nodes = crate::content::view_nodes(*children);
    let name = match &children[i] {
        Node::Tag(t) => &t.name,
        Node::Text(_) => {
            proof {
                assert(false);
            }
            return false;
        },
    };
    let n = children.len();
    let mut j = i + 1;
    while j < n
        invariant
            nodes == crate::content::view_nodes(*children),
            i < j <= n,
            n == children@.len(),
            children@[i as int] is Tag,
            nodes[i as int] is Tag,
            name@ == nodes[i as int]->Tag_0,
            forall|k: int|
                i < k < j ==> !(#[trigger] nodes[k] is Tag && nodes[k]->Tag_0 == nodes[i as int]->Tag_0),
        decreases n - j,
    {
        match &children[j] {
            Node::Tag(t) => {
                if t.name == *name {
                    proof {
                        assert(nodes[j as int] is Tag && nodes[j as int]->Tag_0 == nodes[i as int]->Tag_0);
                    }
                    return false;
                }
            },
            Node::Text(_) => (),
        }
        j = j + 1;
    }
    true
}

/// The body of the last top-level tag in `child` bearing `name`, if any.
fn find_override<'a>(child: &'a Content, name: &String) -> (r: Option<&'a Content>)
    ensures
        match r {
            Some(c) => has_tag(child@, name@) && c@ == last_tag_content(child@, name@),
            None => !has_tag(child@, name@),
        },
{
    let m = child.children.len();
    proof {
        assert(child@.take(m as int) =~= child@);
    }
    let mut k = m;
    while k > 0
        invariant
            k <= m,
            m == child.children@.len(),
            forall|j: int|
                k <= j < m ==> !(#[trigger] child@[j] is Tag && child@[j]->Tag_0 == name@),
            last_tag_content(child@, name@) == last_tag_content(child@.take(k as int), name@),
            has_tag(child@, name@) == has_tag(child@.take(k as int), name@),
        decreases k,
    {
        k = k - 1;
        proof {
            assert(child@.take(k + 1).drop_last() =~= child@.take(k as int));
            assert(child@.take(k + 1).last() == child@[k as int]);
        }
        match &child.children[k] {
            Node::Tag(t) => {
                if t.name == *name {
                    proof {
                        assert(has_tag(child@.take(k + 1), name@));
                    }
                    return Some(&t.content);
                }
            },
            Node::Text(_) => (),
        }
        proof {
            assert(!(child@[k as int] is Tag && child@[k as int]->Tag_0 == name@));
        }
    }
    proof {
        assert(child@.take(0) =~= Seq::<NodeV>::empty());
        assert(!has_tag(child@.take(0), name@));
    }
    None
}

/// Merge a child's overrides into a (cloned) parent body, by tag name:
/// exactly [`spec_flatten`] of the two views.
pub fn flatten(parent: &Content, child: &Content) -> (r: Content)
    ensures
        r@ == spec_flatten(parent@, child@),
{
    let n = parent.children.len();
    let mut out: Vec<Node> = Vec::new();
    let mut i: usize = 0;
    while i < n
        invariant
            i <= n,
            n == parent.children@.len(),
            out@.len() == i,
            forall|j: int| 0 <= j < i ==> out@[j]@ == spec_flatten(parent@, child@)[j],
        decreases n - i,
    {
        match &parent.children[i] {
            Node::Text(t) => {
                out.push(Node::Text(t.clone()));
            },
            Node::Tag(t) => {
                let is_last = last_with_name(&parent.children, i);
                if is_last {
                    match find_override(child, &t.name) {
                        Some(c) => {
                            out.push(Node::Tag(Tag { name: t.name.clone(), content: c.deep_clone() }));
                        },
                        None => {
                            out.push(
                                Node::Tag(Tag { name: t.name.clone(), content: t.content.deep_clone() }),
                            );
                        },
                    }
                } else {
                    out.push(
                        Node::Tag(Tag { name: t.name.clone(), content: t.content.deep_clone() }),
                    );
                }
            },
        }
        i = i + 1;
    }
    let result = Content { children: out };
    proof {
        assert(result@ =~= spec_flatten(parent@, child@));
    }
    result
}

/// The extends-edge views of a run of named templates.
pub open spec fn template_views(ts: Vec<(String, Content)>) -> Seq<(Seq<char>, Seq<NodeV>)> {
    Seq::new(
        ts@.len(),
        |i: int|
            if 0 <= i < ts@.len() {
                (ts[i].0@, ts[i].1@)
            } else {
                (Seq::empty(), Seq::empty())
            },
    )
}

/// The views of an edge list.
pub open spec fn edge_views(edges: Vec<(Option<String>, String)>) -> Seq<
    (Option<Seq<char>>, Seq<char>),
> {
    Seq::new(
        edges@.len(),
        |i: int|
            if 0 <= i < edges@.len() {
                (
                    match edges[i].0 {
                        Some(p) => Some(p@),
                        None => None,
                    },
                    edges[i].1@,
                )
            } else {
                (None, Seq::empty())
            },
    )
}

/// The edges prescribed by the templates: entry by entry, the optional
/// parent given by [`edge_parent`] and the template's own name.
pub open spec fn spec_edges(ts: Seq<(Seq<char>, Seq<NodeV>)>) -> Seq<
    (Option<Seq<char>>, Seq<char>),
> {
    Seq::new(ts.len(), |i: int| (edge_parent(ts[i].1), ts[i].0))
}

/// Every character of the text is ASCII whitespace.
fn text_is_whitespace(t: &String) -> (r: bool)
    ensures
        r == ws_only(t@),
{
    let s = t.as_str();
    let n = s.unicode_len();
    let mut i: usize = 0;
    while i < n
        invariant
            i <= n,
            n == s@.len(),
            s@ == t@,
            forall|j: int| 0 <= j < i ==> is_space(#[trigger] t@[j]),
        decreases n - i,
    {
        let c = s.get_char(i);
        let sp = c == ' ' || c == '\t' || c == '\n' || c == '\r' || c == '\u{c}';
        if !sp {
            return false;
        }
        i = i + 1;
    }
    true
}

/// Decide, template by template, whether it extends a parent: its body must
/// be exactly one tag, optionally followed by one whitespace-only text node,
/// and the parent is that tag's name; anything else is a root.
pub fn create_edges(content: &Vec<(String, Content)>) -> (r: Vec<(Option<String>, String)>)
    ensures
        edge_views(r) == spec_edges(template_views(*content)),
{
    let n = content.len();
    let mut out: Vec<(Option<String>, String)> = Vec::new();
    let mut i: usize = 0;
    while i < n
        invariant
            i <= n,
            n == content@.len(),
            out@.len() == i,
            forall|j: int|
                0 <= j < i ==> #[trigger] edge_views(out)[j] == spec_edges(template_views(*content))[j],
        decreases n - i,
    {
            let name = &content[i].0;
        let c = &content[i].1;
        let len = c.children.len();
        let has_trailing_ws = if len == 2 {
            match &c.children[1] {
                Node::Text(t) => text_is_whitespace(t),
                Node::Tag(_) => false,
            }
        } else {
            false
        };
        let parent: Option<String> = if len == 1 || has_trailing_ws {
            match &c.children[0] {
                Node::Tag(t) => Some(t.name.clone()),
                Node::Text(_) => None,
            }
        } else {
            None
        };
        let ghost out0 = out;
        out.push((parent, name.clone()));
        i = i + 1;
        proof {
            assert(c@.len() == c.children@.len());
            assert forall|j: int|
                0 <= j < i implies #[trigger] edge_views(out)[j] == spec_edges(
                template_views(*content),
            )[j] by {
                if j < i - 1 {
                    assert(out@[j] == out0@[j]);
                    assert(edge_views(out0)[j] == spec_edges(template_views(*content))[j]);
                    assert(edge_views(out)[j] == edge_views(out0)[j]);
                } else {
                    assert(edge_views(out)[j] == spec_edges(template_views(*content))[j]);
                }
            }
        }
    }
    proof {
        assert(edge_views(out) =~= spec_edges(template_views(*content)));
    }
    out
}

/// The model of a hierarchy node: a template name and its children, in the
/// order they are attached.
pub struct HierV {
    pub name: Seq<char>,
    pub children: Seq<HierV>,
}

/// One node of the name forest: a template and the templates extending it.
#[derive(Debug)]
pub struct Hierarchy {
    pub name: String,
    pub children: Vec<Hierarchy>,
}

/// The views of a run of hierarchy nodes, in order.
pub open spec fn view_hiers(hs: Vec<Hierarchy>) -> Seq<HierV>
    decreases hs,
{
    Seq::new(
        hs@.len(),
        |i: int|
            if 0 <= i < hs@.len() {
                hs[i]@
            } else {
                HierV { name: Seq::empty(), children: Seq::empty() }
            },
    )
}

impl View for Hierarchy {
    type V = HierV;

    open spec fn view(&self) -> HierV
        decreases self,
    {
        HierV { name: self.name@, children: view_hiers(self.children) }
    }
}

/// The views of a run of names.
pub open spec fn name_views(names: Vec<String>) -> Seq<Seq<char>> {
    Seq::new(names@.len(), |i: int| if 0 <= i < names@.len() { names[i]@ } else { Seq::empty() })
}

/// How many edges are not yet attached, counting from index `i`.
pub open spec fn unused_from(used: Seq<bool>, i: int) -> nat
    decreases used.len() - i,
{
    if 0 <= i < used.len() {
        (if used[i] {
            0nat
        } else {
            1nat
        }) + unused_from(used, i + 1)
    } else {
        0nat
    }
}

/// How many edges are not yet attached.
pub open spec fn unused_count(used: Seq<bool>) -> nat {
    unused_from(used, 0)
}

proof fn lemma_unused_mono(a: Seq<bool>, b: Seq<bool>, i: int)
    requires
        0 <= i,
        a.len() == b.len(),
        forall|j: int| 0 <= j < a.len() ==> (a[j] ==> #[trigger] b[j]),
    ensures
        unused_from(b, i) <= unused_from(a, i),
        (exists|j: int| i <= j < a.len() && !a[j] && #[trigger] b[j]) ==> unused_from(b, i)
            < unused_from(a, i),
    decreases a.len() - i,
{
    if 0 <= i < a.len() {
        lemma_unused_mono(a, b, i + 1);
        assert(unused_from(a, i) == (if a[i] { 0nat } else { 1nat }) + unused_from(a, i + 1));
        assert(unused_from(b, i) == (if b[i] { 0nat } else { 1nat }) + unused_from(b, i + 1));
        if exists|j: int| i <= j < a.len() && !a[j] && #[trigger] b[j] {
            let j = choose|j: int| i <= j < a.len() && !a[j] && #[trigger] b[j];
            if j > i {
                assert(exists|j2: int| i + 1 <= j2 < a.len() && !a[j2] && #[trigger] b[j2]);
            } else {
                assert(!a[i] && b[i]);
            }
        }
    }
}

/// The names, latest edge first, of the not-yet-attached edges among the
/// first `i` whose parent is `name`.
pub open spec fn pending_rev(
    edges: Seq<(Option<Seq<char>>, Seq<char>)>,
    used: Seq<bool>,
    name: Seq<char>,
    i: int,
) -> Seq<Seq<char>>
    decreases i,
{
    if i <= 0 {
        seq![]
    } else {
        let rest = pending_rev(edges, used, name, i - 1);
        if 0 <= i - 1 < used.len() && !used[i - 1] && edges[i - 1].0 == Some(name) {
            seq![edges[i - 1].1] + rest
        } else {
            rest
        }
    }
}

proof fn lemma_pending_rev_nonempty(
    edges: Seq<(Option<Seq<char>>, Seq<char>)>,
    used: Seq<bool>,
    name: Seq<char>,
    i: int,
)
    ensures
        pending_rev(edges, used, name, i).len() > 0 <==> exists|j: int|
            0 <= j < i && j < used.len() && !used[j] && #[trigger] edges[j].0 == Some(name),
    decreases i,
{
    if i > 0 {
        lemma_pending_rev_nonempty(edges, used, name, i - 1);
    }
}

/// Mark every pending edge whose parent is `name` as attached.
pub open spec fn mark_children(
    edges: Seq<(Option<Seq<char>>, Seq<char>)>,
    used: Seq<bool>,
    name: Seq<char>,
) -> Seq<bool> {
    Seq::new(used.len(), |i: int| used[i] || (0 <= i < edges.len() && edges[i].0 == Some(name)))
}

proof fn lemma_mark_children(
    edges: Seq<(Option<Seq<char>>, Seq<char>)>,
    used: Seq<bool>,
    name: Seq<char>,
)
    requires
        used.len() == edges.len(),
    ensures
        unused_count(mark_children(edges, used, name)) <= unused_count(used),
        pending_rev(edges, used, name, edges.len() as int).len() > 0 ==> unused_count(
            mark_children(edges, used, name),
        ) < unused_count(used),
{
    let marked = mark_children(edges, used, name);
    assert(forall|j: int| 0 <= j < used.len() ==> (used[j] ==> #[trigger] marked[j]));
    lemma_unused_mono(used, marked, 0);
    lemma_pending_rev_nonempty(edges, used, name, edges.len() as int);
    if pending_rev(edges, used, name, edges.len() as int).len() > 0 {
        let j = choose|j: int|
            0 <= j < edges.len() && j < used.len() && !used[j] && #[trigger] edges[j].0 == Some(
                name,
            );
        assert(marked[j]);
        assert(exists|j2: int| 0 <= j2 < used.len() && !used[j2] && #[trigger] marked[j2]);
    }
}

/// Attach to the node named `name` every pending edge bearing that parent
/// name, latest edge first, and recursively attach their own children. The
/// second result is the attachment state afterwards; the guards on the
/// counts can never fail and only keep the definition total.
pub open spec fn spec_attach_node(
    edges: Seq<(Option<Seq<char>>, Seq<char>)>,
    used: Seq<bool>,
    name: Seq<char>,
) -> (HierV, Seq<bool>)
    decreases unused_count(used), 0int, 0int,
{
    let pending = pending_rev(edges, used, name, edges.len() as int);
    if pending.len() == 0 {
        (HierV { name, children: seq![] }, used)
    } else {
        let used1 = mark_children(edges, used, name);
        if unused_count(used1) < unused_count(used) {
            let r = spec_attach_list(edges, used1, pending);
            (HierV { name, children: r.0 }, r.1)
        } else {
            (HierV { name, children: seq![] }, used)
        }
    }
}

/// Attach a run of subtrees, one per pending child name, threading the
/// attachment state from one to the next.
pub open spec fn spec_attach_list(
    edges: Seq<(Option<Seq<char>>, Seq<char>)>,
    used: Seq<bool>,
    names: Seq<Seq<char>>,
) -> (Seq<HierV>, Seq<bool>)
    decreases unused_count(used), 1int, names.len(),
{
    if names.len() == 0 {
        (seq![], used)
    } else {
        let r = spec_attach_node(edges, used, names[0]);
        if unused_count(r.1) <= unused_count(used) {
            let rest = spec_attach_list(edges, r.1, names.drop_first());
            (seq![r.0] + rest.0, rest.1)
        } else {
            (seq![], used)
        }
    }
}

/// Scan the edges in order; every root edge (no parent) seeds one tree,
/// filled by [`spec_attach_node`] before the scan moves on.
pub open spec fn spec_build_from(
    edges: Seq<(Option<Seq<char>>, Seq<char>)>,
    used: Seq<bool>,
    i: int,
) -> (Seq<HierV>, Seq<bool>)
    decreases unused_count(used), 2int, edges.len() - i,
{
    if i < 0 || i >= edges.len() {
        (seq![], used)
    } else if edges[i].0 is None {
        let r = spec_attach_node(edges, used, edges[i].1);
        if unused_count(r.1) <= unused_count(used) {
            let rest = spec_build_from(edges, r.1, i + 1);
            (seq![r.0] + rest.0, rest.1)
        } else {
            (seq![], used)
        }
    } else {
        spec_build_from(edges, used, i + 1)
    }
}

/// The forest an edge list prescribes, starting with nothing attached.
pub open spec fn spec_hierarchy(edges: Seq<(Option<Seq<char>>, Seq<char>)>) -> Seq<HierV> {
    spec_build_from(edges, Seq::new(edges.len(), |i: int| false), 0).0
}

fn attach_node(
    edges: &Vec<(Option<String>, String)>,
    used: &mut Vec<bool>,
    name: &String,
) -> (h: Hierarchy)
    requires
        old(used)@.len() == edges@.len(),
    ensures
        final(used)@.len() == edges@.len(),
        ({
            let r = spec_attach_node(edge_views(*edges), old(used)@, name@);
            h@ == r.0 && final(used)@ == r.1
        }),
        unused_count(final(used)@) <= unused_count(old(used)@),
    decreases unused_count(old(used)@), 0int, 0int,
{
    let ghost ev = edge_views(*edges);
    let ghost used0 = used@;
    let n = edges.len();
    let mut pending: Vec<String> = Vec::new();
    let mut k = n;
    while k > 0
        invariant
            ev == edge_views(*edges),
            used0 == old(used)@,
            k <= n,
            n == edges@.len(),
            used@ == used0,
            used0.len() == n,
            name_views(pending) + pending_rev(ev, used0, name@, k as int) == pending_rev(
                ev,
                used0,
                name@,
                n as int,
            ),
        decreases k,
    {
        k = k - 1;
        let ghost pending0 = pending;
        let hit = if !used[k] {
            match &edges[k].0 {
                Some(p) => *p == *name,
                None => false,
            }
        } else {
            false
        };
        if hit {
            pending.push(edges[k].1.clone());
        }
        proof {
            assert(ev[k as int] == edge_views(*edges)[k as int]);
            assert(hit == (!used0[k as int] && ev[k as int].0 == Some(name@)));
            if hit {
                assert(name_views(pending) =~= name_views(pending0).push(ev[k as int].1));
                assert(name_views(pending) + pending_rev(ev, used0, name@, k as int) =~= name_views(
                    pending0,
                ) + pending_rev(ev, used0, name@, k + 1));
            } else {
                assert(name_views(pending) + pending_rev(ev, used0, name@, k as int) =~= name_views(
                    pending,
                ) + pending_rev(ev, used0, name@, k + 1));
            }
        }
    }
    proof {
        assert(pending_rev(ev, used0, name@, 0) =~= Seq::<Seq<char>>::empty());
        assert(name_views(pending) =~= pending_rev(ev, used0, name@, n as int));
    }
    let mut idx: usize = 0;
    while idx < n
        invariant
            ev == edge_views(*edges),
            used0 == old(used)@,
            idx <= n,
            n == edges@.len(),
            used@.len() == n,
            used0.len() == n,
            forall|j: int|
                0 <= j < idx ==> used@[j] == (used0[j] || (#[trigger] ev[j].0 == Some(name@))),
            forall|j: int| idx <= j < n ==> used@[j] == used0[j],
        decreases n - idx,
    {
        let hit = match &edges[idx].0 {
            Some(p) => *p == *name,
            None => false,
        };
        proof {
            assert(ev[idx as int] == edge_views(*edges)[idx as int]);
            assert(hit == (ev[idx as int].0 == Some(name@)));
        }
        if hit {
            used[idx] = true;
        }
        idx = idx + 1;
    }
    if pending.len() == 0 {
        proof {
            assert(pending_rev(ev, used0, name@, n as int).len() == 0) by {
                assert(name_views(pending).len() == 0);
            }
            lemma_pending_rev_nonempty(ev, used0, name@, n as int);
            assert forall|j: int| 0 <= j < n implies used@[j] == used0[j] by {
                assert(used@[j] == (used0[j] || (ev[j].0 == Some(name@))));
                if ev[j].0 == Some(name@) && !used0[j] {
                    assert(exists|j2: int|
                        0 <= j2 < n && j2 < used0.len() && !used0[j2] && #[trigger] ev[j2].0
                            == Some(name@));
                }
            }
            assert(used@ =~= used0);
        }
        let h = Hierarchy { name: name.clone(), children: Vec::new() };
        proof {
            assert(view_hiers(h.children) =~= Seq::<HierV>::empty());
        }
        return h;
    }
    proof {
        assert(used@ =~= mark_children(ev, used0, name@));
        lemma_mark_children(ev, used0, name@);
    }
    let children = attach_list(edges, used, &pending, 0);
    proof {
        assert(name_views(pending).skip(0) =~= name_views(pending));
    }
    Hierarchy { name: name.clone(), children }
}

fn attach_list(
    edges: &Vec<(Option<String>, String)>,
    used: &mut Vec<bool>,
    names: &Vec<String>,
    i: usize,
) -> (hs: Vec<Hierarchy>)
    requires
        old(used)@.len() == edges@.len(),
        i <= names@.len(),
    ensures
        final(used)@.len() == edges@.len(),
        ({
            let r = spec_attach_list(edge_views(*edges), old(used)@, name_views(*names).skip(i as int));
            view_hiers(hs) == r.0 && final(used)@ == r.1
        }),
        unused_count(final(used)@) <= unused_count(old(used)@),
    decreases unused_count(old(used)@), 1int, names@.len() - i,
{
    let ghost rest_names = name_views(*names).skip(i as int);
    if i >= names.len() {
        let hs: Vec<Hierarchy> = Vec::new();
        proof {
            assert(rest_names =~= Seq::<Seq<char>>::empty());
            assert(view_hiers(hs) =~= Seq::<HierV>::empty());
        }
        return hs;
    }
    proof {
        assert(rest_names[0] == name_views(*names)[i as int]);
        assert(rest_names.drop_first() =~= name_views(*names).skip(i as int + 1));
    }
    let h = attach_node(edges, used, &names[i]);
    let rest = attach_list(edges, used, names, i + 1);
    let mut hs: Vec<Hierarchy> = Vec::new();
    hs.push(h);
    let mut rest_mut = rest;
    hs.append(&mut rest_mut);
    proof {
        let r = spec_attach_list(edge_views(*edges), old(used)@, rest_names);
        assert(view_hiers(hs) =~= r.0);
    }
    hs
}

fn build_from(
    edges: &Vec<(Option<String>, String)>,
    used: &mut Vec<bool>,
    i: usize,
) -> (hs: Vec<Hierarchy>)
    requires
        old(used)@.len() == edges@.len(),
        i <= edges@.len(),
    ensures
        final(used)@.len() == edges@.len(),
        ({
            let r = spec_build_from(edge_views(*edges), old(used)@, i as int);
            view_hiers(hs) == r.0 && final(used)@ == r.1
        }),
        unused_count(final(used)@) <= unused_count(old(used)@),
    decreases unused_count(old(used)@), 2int, edges@.len() - i,
{
    if i >= edges.len() {
        let hs: Vec<Hierarchy> = Vec::new();
        proof {
            assert(view_hiers(hs) =~= Seq::<HierV>::empty());
        }
        return hs;
    }
    let is_root = match &edges[i].0 {
        Some(_) => false,
        None => true,
    };
    if is_root {
        let h = attach_node(edges, used, &edges[i].1);
        let rest = build_from(edges, used, i + 1);
        let mut hs: Vec<Hierarchy> = Vec::new();
        hs.push(h);
        let mut rest_mut = rest;
        hs.append(&mut rest_mut);
        proof {
            let r = spec_build_from(edge_views(*edges), old(used)@, i as int);
            assert(view_hiers(hs) =~= r.0);
        }
        hs
    } else {
        build_from(edges, used, i + 1)
    }
}

/// Convert the edge list into its forest of name trees: every edge without
/// a parent seeds a root, in edge order, and each node's children are the
/// edges bearing its name, latest edge first, attached depth-first. Each
/// edge is attached at most once; a well-formed edge set (one parent per
/// child, no cycles) is assumed, as unattachable edges are silently left
/// out.
pub fn build_hierarchy(edges: &Vec<(Option<String>, String)>) -> (r: Vec<Hierarchy>)
    ensures
        view_hiers(r) == spec_hierarchy(edge_views(*edges)),
{
    let n = edges.len();
    let mut used: Vec<bool> = Vec::new();
    while used.len() < n
        invariant
            used@.len() <= n,
            forall|j: int| 0 <= j < used@.len() ==> !used@[j],
        decreases n - used@.len(),
    {
        used.push(false);
    }
    proof {
        assert(used@ =~= Seq::new(edge_views(*edges).len(), |i: int| false));
    }
    build_from(edges, &mut used, 0)
}

/// The body of the first template bearing this name, if any.
pub open spec fn lookup(ts: Seq<(Seq<char>, Seq<NodeV>)>, name: Seq<char>) -> Option<Seq<NodeV>>
    decreases ts.len(),
{
    if ts.len() == 0 {
        None
    } else if ts[0].0 == name {
        Some(ts[0].1)
    } else {
        lookup(ts.drop_first(), name)
    }
}

/// The override run a child template's body carries: the body of its outer
/// wrapper tag. A body that does not begin with a tag carries no overrides
/// (only a template that bypassed the extends convention has one).
pub open spec fn override_of(body: Option<Seq<NodeV>>) -> Seq<NodeV> {
    match body {
        Some(nodes) => if nodes.len() > 0 && nodes[0] is Tag {
            nodes[0]->Tag_1
        } else {
            seq![]
        },
        None => seq![],
    }
}

/// The flattened entries contributed by the subtrees under `kids`, from
/// index `i` on, when the parent's flattened body is `flat`: each child's
/// entry is the merge of `flat` with the child's overrides, followed by the
/// entries of the child's own subtree, computed against that merge.
pub open spec fn spec_flatten_kids(
    ts: Seq<(Seq<char>, Seq<NodeV>)>,
    kids: Seq<HierV>,
    flat: Seq<NodeV>,
    i: int,
) -> Seq<(Seq<char>, Seq<NodeV>)>
    decreases kids, kids.len() - i,
{
    if 0 <= i < kids.len() {
        let c = kids[i];
        let f = spec_flatten(flat, override_of(lookup(ts, c.name)));
        seq![(c.name, f)] + spec_flatten_kids(ts, c.children, f, 0) + spec_flatten_kids(
            ts,
            kids,
            flat,
            i + 1,
        )
    } else {
        seq![]
    }
}

/// The flattened entries of whole trees, roots first: a root is standalone
/// already and is emitted as parsed, then its subtree against it.
pub open spec fn spec_flatten_roots(
    ts: Seq<(Seq<char>, Seq<NodeV>)>,
    hiers: Seq<HierV>,
    i: int,
) -> Seq<(Seq<char>, Seq<NodeV>)>
    decreases hiers, hiers.len() - i,
{
    if 0 <= i < hiers.len() {
        let root = hiers[i];
        let f = match lookup(ts, root.name) {
            Some(c) => c,
            None => seq![],
        };
        seq![(root.name, f)] + spec_flatten_kids(ts, root.children, f, 0) + spec_flatten_roots(
            ts,
            hiers,
            i + 1,
        )
    } else {
        seq![]
    }
}

/// One standalone body per template: the forest of the templates' extends
/// edges, flattened parents before children.
pub open spec fn spec_flatten_all(ts: Seq<(Seq<char>, Seq<NodeV>)>) -> Seq<
    (Seq<char>, Seq<NodeV>),
> {
    spec_flatten_roots(ts, spec_hierarchy(spec_edges(ts)), 0)
}

/// The first template bearing this name, if any.
fn lookup_content<'a>(ts: &'a Vec<(String, Content)>, name: &String) -> (r: Option<&'a Content>)
    ensures
        match r {
            Some(c) => lookup(template_views(*ts), name@) == Some(c@),
            None => lookup(template_views(*ts), name@) is None,
        },
{
    let ghost tv = template_views(*ts);
    let n = ts.len();
    proof {
        assert(tv.skip(0) =~= tv);
    }
    let mut i: usize = 0;
    while i < n
        invariant
            tv == template_views(*ts),
            i <= n,
            n == ts@.len(),
            lookup(tv, name@) == lookup(tv.skip(i as int), name@),
        decreases n - i,
    {
        proof {
            assert(tv.skip(i as int)[0] == tv[i as int]);
            assert(tv.skip(i as int).drop_first() =~= tv.skip(i as int + 1));
        }
        if ts[i].0 == *name {
            return Some(&ts[i].1);
        }
        i = i + 1;
    }
    proof {
        assert(tv.skip(n as int) =~= Seq::<(Seq<char>, Seq<NodeV>)>::empty());
    }
    None
}

/// The overrides a child's parsed body carries, as an owned run.
fn override_content(ts: &Vec<(String, Content)>, name: &String) -> (r: Content)
    ensures
        r@ == override_of(lookup(template_views(*ts), name@)),
{
    match lookup_content(ts, name) {
        Some(body) => {
            if body.children.len() > 0 {
                match &body.children[0] {
                    Node::Tag(t) => t.content.deep_clone(),
                    Node::Text(_) => {
                        let r = Content { children: Vec::new() };
                        proof {
                            assert(r@ =~= Seq::<NodeV>::empty());
                        }
                        r
                    },
                }
            } else {
                let r = Content { children: Vec::new() };
                proof {
                    assert(r@ =~= Seq::<NodeV>::empty());
                }
                r
            }
        },
        None => {
            let r = Content { children: Vec::new() };
            proof {
                assert(r@ =~= Seq::<NodeV>::empty());
            }
            r
        },
    }
}

fn flatten_kids(
    ts: &Vec<(String, Content)>,
    kids: &Vec<Hierarchy>,
    flat: &Content,
    i: usize,
) -> (out: Vec<(String, Content)>)
    requires
        i <= kids@.len(),
    ensures
        template_views(out) == spec_flatten_kids(
            template_views(*ts),
            view_hiers(*kids),
            flat@,
            i as int,
        ),
    decreases *kids, kids@.len() - i,
{
    if i >= kids.len() {
        let out: Vec<(String, Content)> = Vec::new();
        proof {
            assert(template_views(out) =~= Seq::<(Seq<char>, Seq<NodeV>)>::empty());
        }
        return out;
    }
    let c = &kids[i];
    let ov = override_content(ts, &c.name);
    let f = flatten(flat, &ov);
    let mut sub = flatten_kids(ts, &c.children, &f, 0);
    let mut rest = flatten_kids(ts, kids, flat, i + 1);
    let mut out: Vec<(String, Content)> = Vec::new();
    out.push((c.name.clone(), f));
    out.append(&mut sub);
    out.append(&mut rest);
    proof {
        assert(template_views(out) =~= spec_flatten_kids(
            template_views(*ts),
            view_hiers(*kids),
            flat@,
            i as int,
        ));
    }
    out
}

fn flatten_roots(
    ts: &Vec<(String, Content)>,
    hiers: &Vec<Hierarchy>,
    i: usize,
) -> (out: Vec<(String, Content)>)
    requires
        i <= hiers@.len(),
    ensures
        template_views(out) == spec_flatten_roots(
            template_views(*ts),
            view_hiers(*hiers),
            i as int,
        ),
    decreases *hiers, hiers@.len() - i,
{
    if i >= hiers.len() {
        let out: Vec<(String, Content)> = Vec::new();
        proof {
            assert(template_views(out) =~= Seq::<(Seq<char>, Seq<NodeV>)>::empty());
        }
        return out;
    }
    let root = &hiers[i];
    let f = match lookup_content(ts, &root.name) {
        Some(c) => c.deep_clone(),
        None => {
            let r = Content { children: Vec::new() };
            proof {
                assert(r@ =~= Seq::<NodeV>::empty());
            }
            r
        },
    };
    let mut sub = flatten_kids(ts, &root.children, &f, 0);
    let mut rest = flatten_roots(ts, hiers, i + 1);
    let mut out: Vec<(String, Content)> = Vec::new();
    out.push((root.name.clone(), f));
    out.append(&mut sub);
    out.append(&mut rest);
    proof {
        assert(template_views(out) =~= spec_flatten_roots(
            template_views(*ts),
            view_hiers(*hiers),
            i as int,
        ));
    }
    out
}

/// Make every template standalone: read the extends edges off the parsed
/// bodies, build the name forest, and flatten each tree parents-first, so
/// that a child's merge always reads its parent's already-flattened entry.
/// The result holds one entry per template, in traversal order.
pub fn flatten_all(templates: &Vec<(String, Content)>) -> (r: Vec<(String, Content)>)
    ensures
        template_views(r) == spec_flatten_all(template_views(*templates)),
{
    let edges = create_edges(templates);
    let hiers = build_hierarchy(&edges);
    flatten_roots(templates, &hiers, 0)
}

} // verus!
