//! Reading automaton descriptions from diagram files in XML.
use vstd::prelude::*;
use crate::automaton::{
    Automaton, AutomatonType, build_automaton, build_error, built_from, occurs_in, occurs_in_exec,
};
use crate::data::{AutomatonData, VertexId};
use crate::parsing::{DataView, IdGenerator, assign, datas_view, push_data};
use crate::text::{chars_of, string_of, trim, trim_chars, same_chars};

verus! {

/// Whether `p` occurs in `s` at position `i`.
pub open spec fn starts_at(s: Seq<char>, p: Seq<char>, i: int) -> bool {
    0 <= i && i + p.len() <= s.len() && s.subrange(i, i + p.len()) == p
}

fn starts_at_exec(s: &Vec<char>, p: &Vec<char>, i: usize) -> (r: bool)
    requires
        i <= s.len(),
    ensures
        r == starts_at(s@, p@, i as int),
{
    if p.len() > s.len() - i {
        return false;
    }
    let mut j: usize = 0;
    while j < p.len()
        invariant
            j <= p.len(),
            i + p.len() <= s.len(),
            forall|x: int| 0 <= x < j ==> s@[i + x] == p@[x],
        decreases p.len() - j,
    {
        if s[i + j] != p[j] {
            assert(s@.subrange(i as int, i + p.len())[j as int] != p@[j as int]);
            return false;
        }
        j += 1;
    }
    assert(s@.subrange(i as int, i + p.len()) =~= p@);
    true
}

/// `s` with every occurrence of `p`, found from the left without overlap, removed.
pub open spec fn remove_all(s: Seq<char>, p: Seq<char>) -> Seq<char>
    decreases s.len(),
{
    if s.len() == 0 {
        s
    } else if p.len() > 0 && starts_at(s, p, 0) {
        remove_all(s.subrange(p.len() as int, s.len() as int), p)
    } else {
        seq![s[0]] + remove_all(s.drop_first(), p)
    }
}

fn remove_all_exec(s: &Vec<char>, p: &Vec<char>) -> (r: Vec<char>)
    ensures
        r@ == remove_all(s@, p@),
{
    let mut out: Vec<char> = Vec::new();
    let mut i: usize = 0;
    assert(s@.subrange(0, s.len() as int) =~= s@);
    while i < s.len()
        invariant
            i <= s.len(),
            out@ + remove_all(s@.subrange(i as int, s.len() as int), p@) == remove_all(s@, p@),
        decreases s.len() - i,
    {
        let ghost rest = s@.subrange(i as int, s.len() as int);
        if p.len() > 0 && starts_at_exec(s, p, i) {
            assert(rest.subrange(0, p@.len() as int) =~= s@.subrange(i as int, i + p@.len()));
            assert(rest.subrange(p@.len() as int, rest.len() as int) =~= s@.subrange(i + p@.len(), s.len() as int));
            i += p.len();
        } else {
            proof {
                if p@.len() > 0 && starts_at(rest, p@, 0) {
                    assert(rest.subrange(0, p@.len() as int) =~= s@.subrange(i as int, i + p@.len()));
                }
            }
            assert(rest.drop_first() =~= s@.subrange(i + 1, s.len() as int));
            out.push(s[i]);
            i += 1;
            assert(out@ + remove_all(s@.subrange(i as int, s.len() as int), p@) =~= remove_all(s@, p@));
        }
    }
    assert(remove_all(s@.subrange(i as int, s.len() as int), p@) =~= Seq::<char>::empty());
    assert(out@ + Seq::<char>::empty() =~= out@);
    out
}

/// The pieces of `s` between the occurrences of `p`, found from the left without
/// overlap; there is always at least one.
pub open spec fn split_at_pattern(s: Seq<char>, p: Seq<char>) -> Seq<Seq<char>>
    decreases s.len(),
{
    if s.len() == 0 {
        seq![Seq::empty()]
    } else if p.len() > 0 && starts_at(s, p, 0) {
        seq![Seq::<char>::empty()] + split_at_pattern(s.subrange(p.len() as int, s.len() as int), p)
    } else {
        let r = split_at_pattern(s.drop_first(), p);
        r.update(0, seq![s[0]] + r[0])
    }
}

proof fn lemma_split_pattern_nonempty(s: Seq<char>, p: Seq<char>)
    ensures
        split_at_pattern(s, p).len() >= 1,
    decreases s.len(),
{
    if s.len() > 0 {
        if p.len() > 0 && starts_at(s, p, 0) {
            lemma_split_pattern_nonempty(s.subrange(p.len() as int, s.len() as int), p);
        } else {
            lemma_split_pattern_nonempty(s.drop_first(), p);
        }
    }
}

/// `r` with `c` put before its first piece.
pub open spec fn prepend(c: Seq<char>, r: Seq<Seq<char>>) -> Seq<Seq<char>> {
    r.update(0, c + r[0])
}

fn split_pattern_exec(s: &Vec<char>, p: &Vec<char>) -> (r: Vec<Vec<char>>)
    ensures
        r@.len() == split_at_pattern(s@, p@).len(),
        forall|i: int| 0 <= i < r@.len() ==> #[trigger] r@[i]@ == split_at_pattern(s@, p@)[i],
{
    let mut done: Vec<Vec<char>> = Vec::new();
    let mut cur: Vec<char> = Vec::new();
    let ghost whole = split_at_pattern(s@, p@);
    let mut i: usize = 0;
    assert(s@.subrange(0, s.len() as int) =~= s@);
    proof { lemma_split_pattern_nonempty(s@, p@); }
    assert(prepend(cur@, whole) =~= whole);
    while i < s.len()
        invariant
            i <= s.len(),
            whole == split_at_pattern(s@, p@),
            forall|j: int| 0 <= j < done@.len() ==> #[trigger] done@[j]@ == whole[j],
            done@.len() + split_at_pattern(s@.subrange(i as int, s.len() as int), p@).len() == whole.len(),
            prepend(cur@, split_at_pattern(s@.subrange(i as int, s.len() as int), p@)) == whole.subrange(
                done@.len() as int,
                whole.len() as int,
            ),
        decreases s.len() - i,
    {
        let ghost rest = s@.subrange(i as int, s.len() as int);
        let ghost d = done@.len() as int;
        if p.len() > 0 && starts_at_exec(s, p, i) {
            assert(rest.subrange(0, p@.len() as int) =~= s@.subrange(i as int, i + p@.len()));
            let ghost after = s@.subrange(i + p@.len(), s.len() as int);
            assert(rest.subrange(p@.len() as int, rest.len() as int) =~= after);
            proof { lemma_split_pattern_nonempty(after, p@); }
            assert(split_at_pattern(rest, p@) == seq![Seq::<char>::empty()] + split_at_pattern(after, p@));
            assert(split_at_pattern(rest, p@)[0] =~= Seq::<char>::empty());
            assert(prepend(cur@, split_at_pattern(rest, p@))[0] =~= cur@);
            assert(whole.subrange(d, whole.len() as int)[0] == whole[d]);
            assert(whole[d] == cur@);
            let ghost old_cur = cur@;
            assert(prepend(old_cur, split_at_pattern(rest, p@)) =~= seq![old_cur] + split_at_pattern(after, p@));
            let ghost tail = whole.subrange(d, whole.len() as int);
            assert(tail == seq![old_cur] + split_at_pattern(after, p@));
            assert forall|k: int| 0 <= k < whole.len() - d - 1 implies #[trigger] whole.subrange(d + 1, whole.len() as int)[k] == split_at_pattern(after, p@)[k] by {
                assert(whole.subrange(d + 1, whole.len() as int)[k] == tail[k + 1]);
            }
            assert(whole.subrange(d + 1, whole.len() as int) =~= split_at_pattern(after, p@));
            done.push(cur);
            cur = Vec::new();
            i += p.len();
            assert(cur@ + split_at_pattern(after, p@)[0] =~= split_at_pattern(after, p@)[0]);
            assert(prepend(cur@, split_at_pattern(after, p@)) =~= whole.subrange(d + 1, whole.len() as int));
        } else {
            proof {
                if p@.len() > 0 && starts_at(rest, p@, 0) {
                    assert(rest.subrange(0, p@.len() as int) =~= s@.subrange(i as int, i + p@.len()));
                }
            }
            let ghost after = s@.subrange(i + 1, s.len() as int);
            assert(rest.drop_first() =~= after);
            proof { lemma_split_pattern_nonempty(after, p@); }
            let ghost before = cur@;
            let ghost c = s@[i as int];
            assert(split_at_pattern(rest, p@) == split_at_pattern(after, p@).update(0, seq![c] + split_at_pattern(after, p@)[0]));
            assert(before + (seq![c] + split_at_pattern(after, p@)[0]) =~= before.push(c) + split_at_pattern(after, p@)[0]);
            cur.push(s[i]);
            i += 1;
            assert(prepend(cur@, split_at_pattern(after, p@)) =~= prepend(before, split_at_pattern(rest, p@)));
        }
    }
    let ghost rest = s@.subrange(i as int, s.len() as int);
    assert(rest =~= Seq::<char>::empty());
    assert(split_at_pattern(rest, p@) == seq![Seq::<char>::empty()]);
    assert(prepend(cur@, split_at_pattern(rest, p@))[0] =~= cur@);
    assert(whole.subrange(done@.len() as int, whole.len() as int)[0] == whole[done@.len() as int]);
    assert(whole[done@.len() as int] == cur@);
    done.push(cur);
    done
}

/// `s` without the characters `<`, `>` and `/`.
pub open spec fn strip_tags(s: Seq<char>) -> Seq<char> {
    s.filter(|c: char| c != '<' && c != '>' && c != '/')
}

fn strip_tags_exec(s: &Vec<char>) -> (r: Vec<char>)
    ensures
        r@ == strip_tags(s@),
{
    let mut out: Vec<char> = Vec::new();
    let mut i: usize = 0;
    while i < s.len()
        invariant
            i <= s.len(),
            out@ == strip_tags(s@.subrange(0, i as int)),
        decreases s.len() - i,
    {
        assert(s@.subrange(0, i + 1).drop_last() =~= s@.subrange(0, i as int));
        let c = s[i];
        if c != '<' && c != '>' && c != '/' {
            out.push(c);
        }
        i += 1;
        assert(s@.subrange(0, i as int) =~= s@.subrange(0, i - 1).push(c));
        proof {
            s@.subrange(0, i - 1).lemma_filter_push(c, |c: char| c != '<' && c != '>' && c != '/');
        }
        assert(out@ =~= strip_tags(s@.subrange(0, i as int)));
    }
    assert(s@.subrange(0, s.len() as int) =~= s@);
    out
}

/// The edge labels that a diagram label holds: `<br>` removed, the rest split at
/// each `div`, each piece without `<`, `>` and `/` and trimmed, empty pieces left out.
pub open spec fn label_pieces(label: Seq<char>) -> Seq<Seq<char>> {
    split_at_pattern(remove_all(label, "<br>"@), "div"@).map_values(|l: Seq<char>| trim(strip_tags(l))).filter(
        |l: Seq<char>| l.len() > 0,
    )
}

/// The edge labels that a diagram label holds.
pub fn sanitize_label(label: &str) -> (r: Vec<String>)
    ensures
        r@.len() == label_pieces(label@).len(),
        forall|i: int| 0 <= i < r@.len() ==> #[trigger] r@[i]@ == label_pieces(label@)[i],
{
    let cleaned = remove_all_exec(&chars_of(label), &chars_of("<br>"));
    let pieces = split_pattern_exec(&cleaned, &chars_of("div"));
    let ghost mapped = split_at_pattern(cleaned@, "div"@).map_values(|l: Seq<char>| trim(strip_tags(l)));
    let mut r: Vec<String> = Vec::new();
    let mut i: usize = 0;
    while i < pieces.len()
        invariant
            i <= pieces.len(),
            mapped.len() == pieces@.len(),
            mapped == split_at_pattern(cleaned@, "div"@).map_values(|l: Seq<char>| trim(strip_tags(l))),
            forall|j: int| 0 <= j < pieces@.len() ==> #[trigger] pieces@[j]@ == split_at_pattern(cleaned@, "div"@)[j],
            r@.len() == mapped.subrange(0, i as int).filter(|l: Seq<char>| l.len() > 0).len(),
            forall|j: int| 0 <= j < r@.len() ==> #[trigger] r@[j]@ == mapped.subrange(0, i as int).filter(|l: Seq<char>| l.len() > 0)[j],
        decreases pieces.len() - i,
    {
        let t = trim_chars(&strip_tags_exec(&pieces[i]));
        assert(t@ == mapped[i as int]);
        let ghost pre = mapped.subrange(0, i as int);
        assert(mapped.subrange(0, i + 1) =~= pre.push(t@));
        proof { pre.lemma_filter_push(t@, |l: Seq<char>| l.len() > 0); }
        if t.len() > 0 {
            r.push(string_of(&t));
        }
        i += 1;
    }
    assert(mapped.subrange(0, pieces.len() as int) =~= mapped);
    r
}

/// An XML node as the diagram reader sees it: its attributes in order (namespace,
/// local name, value), the `id` attribute of its parent, and its parent's tag name.
pub struct XmlNode {
    pub attributes: Vec<(Option<String>, String, String)>,
    pub parent_id: Option<String>,
    pub parent_tag: Option<String>,
}

/// An attribute, mathematically: whether it has a namespace, its local name, its value.
pub type AttrView = (bool, Seq<char>, Seq<char>);

/// An XML node, mathematically.
pub type NodeView = (Seq<AttrView>, Option<Seq<char>>, Option<Seq<char>>);

pub open spec fn opt_view(o: Option<String>) -> Option<Seq<char>> {
    match o {
        Some(v) => Some(v@),
        None => None,
    }
}

pub open spec fn node_view(n: XmlNode) -> NodeView {
    (n.attributes@.map_values(|a: (Option<String>, String, String)| (a.0 is Some, a.1@, a.2@)), opt_view(n.parent_id), opt_view(n.parent_tag))
}

pub open spec fn nodes_view(ns: Seq<XmlNode>) -> Seq<NodeView> {
    ns.map_values(|n: XmlNode| node_view(n))
}

/// The nodes of the XML document that `text` holds, in document order, or `None`
/// where `text` is not well-formed XML.
pub uninterp spec fn xml_nodes_of(text: Seq<char>) -> Option<Seq<NodeView>>;

/// Relies on roxmltree's `Document::parse` (an error for text that is not
/// well-formed XML) and on `Document::descendants`, `Node::attributes` and
/// `Node::parent` and `Node::tag_name`: every node of the document in order, the
/// root first, with its attributes, its parent's `id` and its parent's tag name
/// (empty for the document root).
#[verifier::external_body]
fn xml_nodes(text: &str) -> (r: Option<Vec<XmlNode>>)
    ensures
        match r {
            Some(v) => xml_nodes_of(text@) == Some(nodes_view(v@)),
            None => xml_nodes_of(text@) is None,
        },
{
    let doc = roxmltree::Document::parse(text).ok()?;
    Some(doc.descendants().map(|n| XmlNode {
        attributes: n.attributes().map(|a| (a.namespace().map(|v| v.to_string()), a.name().to_string(), a.value().to_string())).collect(),
        parent_id: n.parent().and_then(|p| p.attribute("id")).map(|v| v.to_string()),
        parent_tag: n.parent().map(|p| p.tag_name().name().to_string()),
    }).collect())
}

/// The value of the first attribute named `name` without a namespace.
pub open spec fn attr(attrs: Seq<AttrView>, name: Seq<char>) -> Option<Seq<char>>
    decreases attrs.len(),
{
    if attrs.len() == 0 {
        None
    } else {
        match attr(attrs.drop_last(), name) {
            Some(v) => Some(v),
            None => if !attrs.last().0 && attrs.last().1 == name {
                Some(attrs.last().2)
            } else {
                None
            },
        }
    }
}

fn attr_exec(n: &XmlNode, name: &str) -> (r: Option<Vec<char>>)
    ensures
        match r {
            Some(v) => attr(node_view(*n).0, name@) == Some(v@),
            None => attr(node_view(*n).0, name@) is None,
        },
{
    let ghost av = node_view(*n).0;
    let key = chars_of(name);
    let mut i: usize = 0;
    while i < n.attributes.len()
        invariant
            i <= n.attributes.len(),
            av == node_view(*n).0,
            av.len() == n.attributes@.len(),
            key@ == name@,
            attr(av.subrange(0, i as int), name@) is None,
        decreases n.attributes.len() - i,
    {
        assert(av.subrange(0, i + 1).drop_last() =~= av.subrange(0, i as int));
        let a = &n.attributes[i];
        assert(av[i as int] == (a.0 is Some, a.1@, a.2@));
        if a.0.is_none() && same_chars(&chars_of(a.1.as_str()), &key) {
            proof { lemma_attr_prefix(av, name@, i + 1); }
            return Some(chars_of(a.2.as_str()));
        }
        i += 1;
    }
    assert(av.subrange(0, n.attributes.len() as int) =~= av);
    None
}

proof fn lemma_attr_prefix(attrs: Seq<AttrView>, name: Seq<char>, j: int)
    requires
        0 <= j <= attrs.len(),
        attr(attrs.subrange(0, j), name) is Some,
    ensures
        attr(attrs, name) == attr(attrs.subrange(0, j), name),
    decreases attrs.len() - j,
{
    if j < attrs.len() {
        assert(attrs.subrange(0, j + 1).drop_last() =~= attrs.subrange(0, j));
        lemma_attr_prefix(attrs, name, j + 1);
    } else {
        assert(attrs.subrange(0, j) =~= attrs);
    }
}

/// Whether the style of `n` (or "NOSTYLE" where it has none) holds `pat`, without
/// regard to ASCII case.
pub open spec fn style_has(n: NodeView, pat: Seq<char>) -> bool {
    match attr(n.0, "style"@) {
        Some(st) => occurs_in(st, pat),
        None => occurs_in("NOSTYLE"@, pat),
    }
}

fn style_has_exec(n: &XmlNode, pat: &str) -> (r: bool)
    ensures
        r == style_has(node_view(*n), pat@),
{
    let p = chars_of(pat);
    match attr_exec(n, "style") {
        Some(st) => occurs_in_exec(&st, &p),
        None => occurs_in_exec(&chars_of("NOSTYLE"), &p),
    }
}

/// Whether `n` is a label placed on an edge.
pub open spec fn is_label(n: NodeView) -> bool {
    attr(n.0, "vertex"@) is Some && style_has(n, "edgelabel"@)
}

/// The label of the edge `id`: the value of the first label whose parent is `id`;
/// `Some(None)` where there is none, `None` where a label before it has no parent
/// or it has no value.
pub open spec fn related_label(labels: Seq<NodeView>, id: Seq<char>) -> Option<Option<Seq<char>>>
    decreases labels.len(),
{
    if labels.len() == 0 {
        Some(None)
    } else {
        match attr(labels[0].0, "parent"@) {
            None => None,
            Some(p) => if p == id {
                match attr(labels[0].0, "value"@) {
                    Some(v) => Some(Some(v)),
                    None => None,
                }
            } else {
                related_label(labels.drop_first(), id)
            },
        }
    }
}

/// The edges that one label piece gives between the handles `a` and `b`, by the
/// arrows that the edge shows.
pub open spec fn arrow_edges(a: VertexId, b: VertexId, l: Seq<char>, start: bool, end: bool) -> Seq<DataView> {
    if start == end {
        seq![DataView::Edge(a, b, l), DataView::Edge(b, a, l)]
    } else if start {
        seq![DataView::Edge(b, a, l)]
    } else {
        seq![DataView::Edge(a, b, l)]
    }
}

/// The state of the reader: the names known, and the declarations so far.
pub type ReadState = (Seq<Seq<char>>, Seq<DataView>);

/// The declarations of an edge from `src` to `tgt`, one label piece at a time.
pub open spec fn pieces_fold(st: ReadState, src: Seq<char>, tgt: Seq<char>, pieces: Seq<Seq<char>>, start: bool, end: bool) -> Option<ReadState>
    decreases pieces.len(),
{
    if pieces.len() == 0 {
        Some(st)
    } else {
        match pieces_fold(st, src, tgt, pieces.drop_last(), start, end) {
            Some(s2) => match assign(s2.0, src) {
                Some(a) => match assign(a.0, tgt) {
                    Some(b) => Some((b.0, s2.1 + arrow_edges(a.1, b.1, pieces.last(), start, end))),
                    None => None,
                },
                None => None,
            },
            None => None,
        }
    }
}

/// What one node of a diagram declares: a vertex styled as a double ellipse is a
/// final state; an edge between two vertices gives its labelled transitions; an
/// edge that touches one vertex marks it as a start state.
pub open spec fn xml_step(st: ReadState, n: NodeView, labels: Seq<NodeView>) -> Option<ReadState> {
    if attr(n.0, "vertex"@) is Some {
        if style_has(n, "shape=doubleellipse"@) {
            let id = match attr(n.0, "id"@) {
                Some(i) => Some(i),
                None => n.1,
            };
            match id {
                None => None,
                Some(i) => match assign(st.0, i) {
                    Some(a) => Some((a.0, st.1.push(DataView::Final(a.1)))),
                    None => None,
                },
            }
        } else {
            Some(st)
        }
    } else if attr(n.0, "edge"@) is Some {
        let src = attr(n.0, "source"@);
        let tgt = attr(n.0, "target"@);
        if src is Some && tgt is Some {
            match attr(n.0, "id"@) {
                None => None,
                Some(id) => {
                    let value = match attr(n.0, "value"@) {
                        Some(v) => v,
                        None => Seq::empty(),
                    };
                    let label = if value.len() > 0 {
                        Some(Some(value))
                    } else {
                        related_label(labels, id)
                    };
                    match label {
                        None => None,
                        Some(None) => Some(st),
                        Some(Some(l)) => pieces_fold(
                            st,
                            src->0,
                            tgt->0,
                            label_pieces(l),
                            style_has(n, "startarrow="@) && !style_has(n, "startarrow=none"@),
                            !style_has(n, "endarrow=none"@),
                        ),
                    }
                },
            }
        } else if src is Some || tgt is Some {
            let end = if tgt is Some {
                tgt->0
            } else {
                src->0
            };
            match assign(st.0, end) {
                Some(a) => Some((a.0, st.1.push(DataView::Start(a.1)))),
                None => None,
            }
        } else {
            Some(st)
        }
    } else {
        Some(st)
    }
}

/// The state after the first `n` nodes.
pub open spec fn xml_fold(nodes: Seq<NodeView>, labels: Seq<NodeView>, n: int) -> Option<ReadState>
    decreases n,
{
    if n <= 0 {
        Some((Seq::empty(), Seq::empty()))
    } else {
        match xml_fold(nodes, labels, n - 1) {
            Some(st) => xml_step(st, nodes[n - 1], labels),
            None => None,
        }
    }
}

/// The declarations that a diagram's nodes make.
pub open spec fn node_declarations(nodes: Seq<NodeView>) -> Option<Seq<DataView>> {
    match xml_fold(nodes, nodes.filter(|n: NodeView| is_label(n)), nodes.len() as int) {
        Some(st) => Some(st.1),
        None => None,
    }
}

/// The declarations that a diagram file makes.
pub open spec fn xml_declarations(text: Seq<char>) -> Option<Seq<DataView>> {
    match xml_nodes_of(text) {
        Some(nodes) => node_declarations(nodes),
        None => None,
    }
}

fn is_label_exec(n: &XmlNode) -> (r: bool)
    ensures
        r == is_label(node_view(*n)),
{
    attr_exec(n, "vertex").is_some() && style_has_exec(n, "edgelabel")
}

/// The places of the labels among `nodes`.
fn label_places(nodes: &Vec<XmlNode>) -> (r: Vec<usize>)
    ensures
        r@.len() == nodes_view(nodes@).filter(|n: NodeView| is_label(n)).len(),
        forall|k: int| 0 <= k < r@.len() ==> #[trigger] r@[k] < nodes@.len() && nodes_view(nodes@)[r@[k] as int]
            == nodes_view(nodes@).filter(|n: NodeView| is_label(n))[k],
{
    let ghost nv = nodes_view(nodes@);
    let mut r: Vec<usize> = Vec::new();
    let mut i: usize = 0;
    while i < nodes.len()
        invariant
            i <= nodes.len(),
            nv == nodes_view(nodes@),
            nv.len() == nodes@.len(),
            r@.len() == nv.subrange(0, i as int).filter(|n: NodeView| is_label(n)).len(),
            forall|k: int| 0 <= k < r@.len() ==> #[trigger] r@[k] < i && nv[r@[k] as int]
                == nv.subrange(0, i as int).filter(|n: NodeView| is_label(n))[k],
        decreases nodes.len() - i,
    {
        let ghost pre = nv.subrange(0, i as int);
        assert(nv.subrange(0, i + 1) =~= pre.push(nv[i as int]));
        proof { pre.lemma_filter_push(nv[i as int], |n: NodeView| is_label(n)); }
        assert(nv[i as int] == node_view(nodes@[i as int]));
        if is_label_exec(&nodes[i]) {
            r.push(i);
        }
        i += 1;
    }
    assert(nv.subrange(0, nodes.len() as int) =~= nv);
    r
}

fn related_label_exec(nodes: &Vec<XmlNode>, labels: &Vec<usize>, id: &Vec<char>) -> (r: Option<Option<Vec<char>>>)
    requires
        labels@.len() == nodes_view(nodes@).filter(|n: NodeView| is_label(n)).len(),
        forall|k: int| 0 <= k < labels@.len() ==> #[trigger] labels@[k] < nodes@.len() && nodes_view(nodes@)[labels@[k] as int]
            == nodes_view(nodes@).filter(|n: NodeView| is_label(n))[k],
    ensures
        match r {
            None => related_label(nodes_view(nodes@).filter(|n: NodeView| is_label(n)), id@) is None,
            Some(None) => related_label(nodes_view(nodes@).filter(|n: NodeView| is_label(n)), id@) == Some(None::<Seq<char>>),
            Some(Some(v)) => related_label(nodes_view(nodes@).filter(|n: NodeView| is_label(n)), id@) == Some(Some(v@)),
        },
{
    let ghost ls = nodes_view(nodes@).filter(|n: NodeView| is_label(n));
    let mut k: usize = 0;
    assert(ls.subrange(0, ls.len() as int) =~= ls);
    while k < labels.len()
        invariant
            k <= labels.len(),
            ls == nodes_view(nodes@).filter(|n: NodeView| is_label(n)),
            labels@.len() == ls.len(),
            forall|x: int| 0 <= x < labels@.len() ==> #[trigger] labels@[x] < nodes@.len() && nodes_view(nodes@)[labels@[x] as int] == ls[x],
            related_label(ls, id@) == related_label(ls.subrange(k as int, ls.len() as int), id@),
        decreases labels.len() - k,
    {
        let ghost rest = ls.subrange(k as int, ls.len() as int);
        let node = &nodes[labels[k]];
        assert(rest[0] == ls[k as int]);
        assert(nodes_view(nodes@)[labels@[k as int] as int] == node_view(*node));
        assert(rest.drop_first() =~= ls.subrange(k + 1, ls.len() as int));
        match attr_exec(node, "parent") {
            None => {
                return None;
            },
            Some(p) => {
                if same_chars(&p, id) {
                    return match attr_exec(node, "value") {
                        Some(v) => Some(Some(v)),
                        None => None,
                    };
                }
            },
        }
        k += 1;
    }
    Some(None)
}

fn push_edges(out: &mut Vec<AutomatonData>, a: VertexId, b: VertexId, l: &String, start: bool, end: bool)
    ensures
        datas_view(final(out)@) == datas_view(old(out)@) + arrow_edges(a, b, l@, start, end),
{
    let ghost before = datas_view(out@);
    if start == end {
        push_data(out, AutomatonData::Edge(a, b, string_of(&chars_of(l.as_str()))));
        push_data(out, AutomatonData::Edge(b, a, string_of(&chars_of(l.as_str()))));
    } else if start {
        push_data(out, AutomatonData::Edge(b, a, string_of(&chars_of(l.as_str()))));
    } else {
        push_data(out, AutomatonData::Edge(a, b, string_of(&chars_of(l.as_str()))));
    }
    assert(datas_view(out@) =~= before + arrow_edges(a, b, l@, start, end));
}

proof fn lemma_pieces_fail(st: ReadState, src: Seq<char>, tgt: Seq<char>, pieces: Seq<Seq<char>>, start: bool, end: bool, j: int)
    requires
        0 <= j <= pieces.len(),
        pieces_fold(st, src, tgt, pieces.subrange(0, j), start, end) is None,
    ensures
        pieces_fold(st, src, tgt, pieces, start, end) is None,
    decreases pieces.len() - j,
{
    if j < pieces.len() {
        assert(pieces.subrange(0, j + 1).drop_last() =~= pieces.subrange(0, j));
        lemma_pieces_fail(st, src, tgt, pieces, start, end, j + 1);
    } else {
        assert(pieces.subrange(0, j) =~= pieces);
    }
}

proof fn lemma_xml_fail(nodes: Seq<NodeView>, labels: Seq<NodeView>, j: int)
    requires
        0 <= j <= nodes.len(),
        xml_fold(nodes, labels, j) is None,
    ensures
        xml_fold(nodes, labels, nodes.len() as int) is None,
    decreases nodes.len() - j,
{
    if j < nodes.len() {
        lemma_xml_fail(nodes, labels, j + 1);
    }
}

/// Declares the transitions of one edge, one label piece at a time.
fn edge_pieces(
    idgen: &mut IdGenerator,
    out: &mut Vec<AutomatonData>,
    src: &Vec<char>,
    tgt: &Vec<char>,
    label: &Vec<char>,
    start: bool,
    end: bool,
) -> (ok: bool)
    ensures
        match pieces_fold((old(idgen)@, datas_view(old(out)@)), src@, tgt@, label_pieces(label@), start, end) {
            Some(st) => ok && st == (final(idgen)@, datas_view(final(out)@)),
            None => !ok,
        },
{
    let pieces = sanitize_label(string_of(label).as_str());
    let ghost ps = label_pieces(label@);
    let ghost st0 = (idgen@, datas_view(out@));
    let mut j: usize = 0;
    while j < pieces.len()
        invariant
            j <= pieces.len(),
            ps == label_pieces(label@),
            st0 == (old(idgen)@, datas_view(old(out)@)),
            pieces@.len() == ps.len(),
            forall|x: int| 0 <= x < pieces@.len() ==> #[trigger] pieces@[x]@ == ps[x],
            pieces_fold(st0, src@, tgt@, ps.subrange(0, j as int), start, end) == Some((idgen@, datas_view(out@))),
        decreases pieces.len() - j,
    {
        assert(ps.subrange(0, j + 1).drop_last() =~= ps.subrange(0, j as int));
        assert(ps.subrange(0, j + 1).last() == ps[j as int]);
        let ghost names0 = idgen@;
        let a = match idgen.get(src) {
            Some(a) => a,
            None => {
                assert(assign(names0, src@) is None);
                assert(pieces_fold(st0, src@, tgt@, ps.subrange(0, j + 1), start, end) is None);
                proof { lemma_pieces_fail(st0, src@, tgt@, ps, start, end, j + 1); }
                return false;
            },
        };
        let ghost names1 = idgen@;
        let b = match idgen.get(tgt) {
            Some(b) => b,
            None => {
                assert(assign(names1, tgt@) is None);
                assert(pieces_fold(st0, src@, tgt@, ps.subrange(0, j + 1), start, end) is None);
                proof { lemma_pieces_fail(st0, src@, tgt@, ps, start, end, j + 1); }
                return false;
            },
        };
        push_edges(out, a, b, &pieces[j], start, end);
        j += 1;
    }
    assert(ps.subrange(0, pieces.len() as int) =~= ps);
    true
}

/// The declarations that the nodes of a diagram make, or `None` where a final
/// vertex has no id, an edge between two vertices has none, its label cannot be
/// found, or the handles run out.
pub fn xml_data(nodes: &Vec<XmlNode>) -> (r: Option<Vec<AutomatonData>>)
    ensures
        match r {
            Some(v) => node_declarations(nodes_view(nodes@)) == Some(datas_view(v@)),
            None => node_declarations(nodes_view(nodes@)) is None,
        },
{
    let ghost nv = nodes_view(nodes@);
    let ghost ls = nv.filter(|n: NodeView| is_label(n));
    let labels = label_places(nodes);
    let mut idgen = IdGenerator::new();
    let mut out: Vec<AutomatonData> = Vec::new();
    assert(datas_view(out@) =~= Seq::<DataView>::empty());
    let mut i: usize = 0;
    while i < nodes.len()
        invariant
            i <= nodes.len(),
            nv == nodes_view(nodes@),
            nv.len() == nodes@.len(),
            ls == nv.filter(|n: NodeView| is_label(n)),
            labels@.len() == ls.len(),
            forall|k: int| 0 <= k < labels@.len() ==> #[trigger] labels@[k] < nodes@.len() && nv[labels@[k] as int] == ls[k],
            xml_fold(nv, ls, i as int) == Some((idgen@, datas_view(out@))),
        decreases nodes.len() - i,
    {
        let node = &nodes[i];
        let ghost n = nv[i as int];
        assert(n == node_view(*node));
        if attr_exec(node, "vertex").is_some() {
            if style_has_exec(node, "shape=doubleellipse") {
                let id = match attr_exec(node, "id") {
                    Some(v) => v,
                    None => match &node.parent_id {
                        Some(p) => chars_of(p.as_str()),
                        None => {
                            proof { lemma_xml_fail(nv, ls, i + 1); }
                            return None;
                        },
                    },
                };
                match idgen.get(&id) {
                    Some(a) => push_data(&mut out, AutomatonData::Final(a)),
                    None => {
                        proof { lemma_xml_fail(nv, ls, i + 1); }
                        return None;
                    },
                }
            }
        } else if attr_exec(node, "edge").is_some() {
            let src = attr_exec(node, "source");
            let tgt = attr_exec(node, "target");
            match (src, tgt) {
                (Some(s), Some(t)) => {
                    let id = match attr_exec(node, "id") {
                        Some(v) => v,
                        None => {
                            proof { lemma_xml_fail(nv, ls, i + 1); }
                            return None;
                        },
                    };
                    let value = match attr_exec(node, "value") {
                        Some(v) => v,
                        None => Vec::new(),
                    };
                    let label = if value.len() > 0 {
                        value
                    } else {
                        match related_label_exec(nodes, &labels, &id) {
                            None => {
                                proof { lemma_xml_fail(nv, ls, i + 1); }
                                return None;
                            },
                            Some(None) => {
                                i += 1;
                                continue;
                            },
                            Some(Some(v)) => v,
                        }
                    };
                    let start = style_has_exec(node, "startarrow=") && !style_has_exec(node, "startarrow=none");
                    let end = !style_has_exec(node, "endarrow=none");
                    if !edge_pieces(&mut idgen, &mut out, &s, &t, &label, start, end) {
                        proof { lemma_xml_fail(nv, ls, i + 1); }
                        return None;
                    }
                },
                (None, Some(end)) | (Some(end), None) => {
                    match idgen.get(&end) {
                        Some(a) => push_data(&mut out, AutomatonData::Start(a)),
                        None => {
                            proof { lemma_xml_fail(nv, ls, i + 1); }
                            return None;
                        },
                    }
                },
                (None, None) => {},
            }
        }
        i += 1;
    }
    Some(out)
}

/// Reads the declarations of a diagram file: `None` where the text is not
/// well-formed XML or its nodes declare no automaton (see `xml_data`).
pub fn parse_xml(file: String) -> (r: Option<Vec<AutomatonData>>)
    ensures
        match r {
            Some(v) => xml_declarations(file@) == Some(datas_view(v@)),
            None => xml_declarations(file@) is None,
        },
{
    match xml_nodes(file.as_str()) {
        Some(nodes) => xml_data(&nodes),
        None => None,
    }
}

/// What one node declares in the plain diagram layout: a vertex inside an element
/// other than `root` marks that element as a final state; an edge between two
/// vertices is a transition labelled by its value (`e` if it has none); an edge
/// that touches one vertex marks it as a start state. `None` where a final
/// vertex's parent has no id or an edge touches no vertex.
pub open spec fn plain_step(st: ReadState, n: NodeView) -> Option<ReadState> {
    if attr(n.0, "vertex"@) is Some {
        match n.2 {
            None => None,
            Some(tag) => if tag == "root"@ {
                Some(st)
            } else {
                match n.1 {
                    None => None,
                    Some(id) => match assign(st.0, id) {
                        Some(a) => Some((a.0, st.1.push(DataView::Final(a.1)))),
                        None => None,
                    },
                }
            },
        }
    } else if attr(n.0, "edge"@) is Some {
        let src = attr(n.0, "source"@);
        let tgt = attr(n.0, "target"@);
        if src is Some && tgt is Some {
            let label = match attr(n.0, "value"@) {
                Some(v) => v,
                None => seq!['e'],
            };
            match assign(st.0, src->0) {
                Some(a) => match assign(a.0, tgt->0) {
                    Some(b) => Some((b.0, st.1.push(DataView::Edge(a.1, b.1, label)))),
                    None => None,
                },
                None => None,
            }
        } else if src is Some || tgt is Some {
            let end = if tgt is Some {
                tgt->0
            } else {
                src->0
            };
            match assign(st.0, end) {
                Some(a) => Some((a.0, st.1.push(DataView::Start(a.1)))),
                None => None,
            }
        } else {
            None
        }
    } else {
        Some(st)
    }
}

/// The state after the first `n` nodes of the plain layout.
pub open spec fn plain_fold(nodes: Seq<NodeView>, n: int) -> Option<ReadState>
    decreases n,
{
    if n <= 0 {
        Some((Seq::empty(), Seq::empty()))
    } else {
        match plain_fold(nodes, n - 1) {
            Some(st) => plain_step(st, nodes[n - 1]),
            None => None,
        }
    }
}

/// The declarations that the nodes of a diagram in the plain layout make.
pub open spec fn plain_nodes_declarations(nodes: Seq<NodeView>) -> Option<Seq<DataView>> {
    match plain_fold(nodes, nodes.len() as int) {
        Some(st) => Some(st.1),
        None => None,
    }
}

/// The declarations that a diagram file in the plain layout makes.
pub open spec fn plain_declarations(text: Seq<char>) -> Option<Seq<DataView>> {
    match xml_nodes_of(text) {
        Some(nodes) => plain_nodes_declarations(nodes),
        None => None,
    }
}

proof fn lemma_plain_fail(nodes: Seq<NodeView>, j: int)
    requires
        0 <= j <= nodes.len(),
        plain_fold(nodes, j) is None,
    ensures
        plain_fold(nodes, nodes.len() as int) is None,
    decreases nodes.len() - j,
{
    if j < nodes.len() {
        lemma_plain_fail(nodes, j + 1);
    }
}

/// The declarations that the nodes of a diagram in the plain layout make.
pub fn plain_data(nodes: &Vec<XmlNode>) -> (r: Option<Vec<AutomatonData>>)
    ensures
        match r {
            Some(v) => plain_nodes_declarations(nodes_view(nodes@)) == Some(datas_view(v@)),
            None => plain_nodes_declarations(nodes_view(nodes@)) is None,
        },
{
    let ghost nv = nodes_view(nodes@);
    let mut idgen = IdGenerator::new();
    let mut out: Vec<AutomatonData> = Vec::new();
    assert(datas_view(out@) =~= Seq::<DataView>::empty());
    let mut i: usize = 0;
    while i < nodes.len()
        invariant
            i <= nodes.len(),
            nv == nodes_view(nodes@),
            nv.len() == nodes@.len(),
            plain_fold(nv, i as int) == Some((idgen@, datas_view(out@))),
        decreases nodes.len() - i,
    {
        let node = &nodes[i];
        assert(nv[i as int] == node_view(*node));
        if attr_exec(node, "vertex").is_some() {
            let tag = match &node.parent_tag {
                Some(t) => chars_of(t.as_str()),
                None => {
                    proof { lemma_plain_fail(nv, i + 1); }
                    return None;
                },
            };
            if !same_chars(&tag, &chars_of("root")) {
                let id = match &node.parent_id {
                    Some(p) => chars_of(p.as_str()),
                    None => {
                        proof { lemma_plain_fail(nv, i + 1); }
                        return None;
                    },
                };
                match idgen.get(&id) {
                    Some(a) => push_data(&mut out, AutomatonData::Final(a)),
                    None => {
                        proof { lemma_plain_fail(nv, i + 1); }
                        return None;
                    },
                }
            }
        } else if attr_exec(node, "edge").is_some() {
            let src = attr_exec(node, "source");
            let tgt = attr_exec(node, "target");
            match (src, tgt) {
                (Some(s), Some(t)) => {
                    let label = match attr_exec(node, "value") {
                        Some(v) => string_of(&v),
                        None => {
                            let mut e: Vec<char> = Vec::new();
                            e.push('e');
                            assert(e@ =~= seq!['e']);
                            string_of(&e)
                        },
                    };
                    let a = match idgen.get(&s) {
                        Some(a) => a,
                        None => {
                            proof { lemma_plain_fail(nv, i + 1); }
                            return None;
                        },
                    };
                    let b = match idgen.get(&t) {
                        Some(b) => b,
                        None => {
                            proof { lemma_plain_fail(nv, i + 1); }
                            return None;
                        },
                    };
                    push_data(&mut out, AutomatonData::Edge(a, b, label));
                },
                (None, Some(end)) | (Some(end), None) => {
                    match idgen.get(&end) {
                        Some(a) => push_data(&mut out, AutomatonData::Start(a)),
                        None => {
                            proof { lemma_plain_fail(nv, i + 1); }
                            return None;
                        },
                    }
                },
                (None, None) => {
                    proof { lemma_plain_fail(nv, i + 1); }
                    return None;
                },
            }
        }
        i += 1;
    }
    Some(out)
}

/// Reads a DFA from a diagram file in the plain layout (see `plain_step`); `None`
/// where the text is not well-formed XML, its nodes declare no automaton, or the
/// DFA cannot be built.
pub fn parse_xml_automaton(file: String) -> (r: Option<Automaton>)
    ensures
        plain_declarations(file@) is None ==> r is None,
        match r {
            Some(a) => exists|data: Seq<AutomatonData>|
                plain_declarations(file@) == Some(datas_view(data)) && #[trigger] built_from(a, AutomatonType::DFA, data),
            None => plain_declarations(file@) is None || exists|data: Seq<AutomatonData>|
                plain_declarations(file@) == Some(datas_view(data)) && #[trigger] build_error(AutomatonType::DFA, data) is Some,
        },
{
    let nodes = match xml_nodes(file.as_str()) {
        Some(n) => n,
        None => {
            return None;
        },
    };
    let data = match plain_data(&nodes) {
        Some(d) => d,
        None => {
            return None;
        },
    };
    let ghost dv = data@;
    match build_automaton(AutomatonType::DFA, data) {
        Ok(a) => {
            assert(built_from(a, AutomatonType::DFA, dv));
            Some(a)
        },
        Err(_) => {
            assert(build_error(AutomatonType::DFA, dv) is Some);
            None
        },
    }
}

} // verus!
