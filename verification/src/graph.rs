//! The desktop app's views of a vault: its summary, its link graph, and the
//! note paths a burst of filesystem events touched.

use vstd::prelude::*;

use crate::index::{IndexedNote, VaultIndex, copy_string, path_of, resolve_spec};
use crate::links::strings_view;
use crate::note::after_last;
use crate::paths::pieces;
use crate::text::{chars_of, lowercase, string_of, to_lower, vec_eq};
use crate::vault::{Vault, named_as_note, relative_of_spec};

verus! {

pub struct VaultSummary {
    pub name: String,
    pub path: String,
    pub notes: usize,
    pub folders: Vec<String>,
    pub tags: Vec<TagCount>,
    pub unresolved: usize,
}

pub struct TagCount {
    pub tag: String,
    pub notes: usize,
}

/// One node in the vault graph. Ghost nodes (`exists: false`) stand for links
/// that point at notes nobody has written yet.
pub struct GraphNode {
    /// Vault path for real notes; the lowercased link target for ghosts.
    pub id: String,
    pub label: String,
    pub exists: bool,
    /// Total links in and out, used to size the node.
    pub degree: usize,
    pub tags: Vec<String>,
}

pub struct GraphEdge {
    pub source: String,
    pub target: String,
}

pub struct GraphData {
    pub nodes: Vec<GraphNode>,
    pub edges: Vec<GraphEdge>,
}

/// A search as the desktop app asks for it.
pub struct SearchRequest {
    pub root: String,
    pub query: String,
    pub folder: Option<String>,
    pub tag: Option<String>,
    pub limit: Option<usize>,
}

// ---------------------------------------------------------------------------
// the graph
// ---------------------------------------------------------------------------

/// Edges and ghosts found so far: edges as `(source, target)`, ghosts as
/// `(key, label)`.
pub struct GraphState {
    pub edges: Seq<(Seq<char>, Seq<char>)>,
    pub ghosts: Seq<(Seq<char>, Seq<char>)>,
}

pub open spec fn has_key(s: Seq<(Seq<char>, Seq<char>)>, k: Seq<char>) -> bool {
    exists|i: int| 0 <= i < s.len() && (#[trigger] s[i]).0 == k
}

/// One link of the note at `source` added to the graph: to the note it
/// resolves to, else (when ghosts are wanted) to a ghost keyed on the
/// lowercased target and labelled as first written. Self-links and repeats
/// add no edge.
pub open spec fn graph_step(
    ns: Seq<IndexedNote>,
    ghosts: bool,
    source: Seq<char>,
    target: Seq<char>,
    st: GraphState,
) -> GraphState {
    if target.len() == 0 {
        st
    } else {
        let resolved = resolve_spec(ns, source, target);
        if resolved is None && !ghosts {
            st
        } else {
            let t = match resolved {
                Some(p) => p,
                None => lowercase(target),
            };
            let gs = if resolved is None && !has_key(st.ghosts, t) {
                st.ghosts.push((t, target))
            } else {
                st.ghosts
            };
            let es = if t != source && !st.edges.contains((source, t)) {
                st.edges.push((source, t))
            } else {
                st.edges
            };
            GraphState { edges: es, ghosts: gs }
        }
    }
}

/// The links `k..` of note `i`, added.
pub open spec fn graph_links(ns: Seq<IndexedNote>, ghosts: bool, i: int, k: int, st: GraphState) -> GraphState
    decreases ns[i].links@.len() - k,
{
    if k < 0 || k >= ns[i].links@.len() {
        st
    } else {
        graph_links(ns, ghosts, i, k + 1, graph_step(ns, ghosts, path_of(ns[i]), ns[i].links@[k].target@, st))
    }
}

/// The notes `i..`, added.
pub open spec fn graph_notes(ns: Seq<IndexedNote>, ghosts: bool, i: int, st: GraphState) -> GraphState
    decreases ns.len() - i,
{
    if i < 0 || i >= ns.len() {
        st
    } else {
        graph_notes(ns, ghosts, i + 1, graph_links(ns, ghosts, i, 0, st))
    }
}

pub open spec fn empty_graph() -> GraphState {
    GraphState { edges: seq![], ghosts: seq![] }
}

/// Edges with an end at `x`.
pub open spec fn degree_of(edges: Seq<(Seq<char>, Seq<char>)>, x: Seq<char>) -> nat
    decreases edges.len(),
{
    if edges.len() == 0 {
        0
    } else {
        degree_of(edges.drop_last(), x) + if edges.last().0 == x || edges.last().1 == x {
            1nat
        } else {
            0nat
        }
    }
}

pub struct SpecNode {
    pub id: Seq<char>,
    pub label: Seq<char>,
    pub exists: bool,
    pub degree: nat,
    pub tags: Seq<Seq<char>>,
}

pub open spec fn node_view(n: GraphNode) -> SpecNode {
    SpecNode {
        id: n.id@,
        label: n.label@,
        exists: n.exists,
        degree: n.degree as nat,
        tags: strings_view(n.tags@),
    }
}

pub open spec fn edge_view(e: GraphEdge) -> (Seq<char>, Seq<char>) {
    (e.source@, e.target@)
}

/// The whole vault as a link graph: a node per note (in index order), then a
/// node per ghost (in the order first linked), and the distinct edges in the
/// order first found.
pub open spec fn graph_spec(ns: Seq<IndexedNote>, ghosts: bool) -> (Seq<SpecNode>, Seq<(Seq<char>, Seq<char>)>) {
    let st = graph_notes(ns, ghosts, 0, empty_graph());
    let notes = Seq::new(
        ns.len(),
        |i: int|
            SpecNode {
                id: path_of(ns[i]),
                label: ns[i].meta.title@,
                exists: true,
                degree: degree_of(st.edges, path_of(ns[i])),
                tags: strings_view(ns[i].meta.tags@),
            },
    );
    let gs = Seq::new(
        st.ghosts.len(),
        |i: int|
            SpecNode {
                id: st.ghosts[i].0,
                label: st.ghosts[i].1,
                exists: false,
                degree: degree_of(st.edges, st.ghosts[i].0),
                tags: seq![],
            },
    );
    (notes + gs, st.edges)
}

/// No edge listed twice, no note linked to itself, no ghost key twice.
pub open spec fn graph_state_ok(st: GraphState) -> bool {
    &&& forall|i: int, j: int| 0 <= i < j < st.edges.len() ==> #[trigger] st.edges[i] != #[trigger] st.edges[j]
    &&& forall|i: int| 0 <= i < st.edges.len() ==> (#[trigger] st.edges[i]).0 != st.edges[i].1
    &&& forall|i: int, j: int| 0 <= i < j < st.ghosts.len() ==> (#[trigger] st.ghosts[i]).0 != (#[trigger] st.ghosts[j]).0
}

proof fn lemma_graph_step_ok(ns: Seq<IndexedNote>, ghosts: bool, source: Seq<char>, target: Seq<char>, st: GraphState)
    requires
        graph_state_ok(st),
    ensures
        graph_state_ok(graph_step(ns, ghosts, source, target, st)),
{
    let r = graph_step(ns, ghosts, source, target, st);
    if target.len() > 0 {
        let resolved = resolve_spec(ns, source, target);
        if !(resolved is None && !ghosts) {
            let t = match resolved {
                Some(p) => p,
                None => lowercase(target),
            };
            if t != source && !st.edges.contains((source, t)) {
                assert forall|i: int, j: int| 0 <= i < j < r.edges.len() implies #[trigger] r.edges[i] != #[trigger] r.edges[j] by {
                    if j == st.edges.len() {
                        assert(r.edges[i] == st.edges[i]);
                        if r.edges[i] == (source, t) {
                            assert(st.edges.contains((source, t)));
                        }
                    } else {
                        assert(r.edges[i] == st.edges[i] && r.edges[j] == st.edges[j]);
                    }
                }
                assert forall|i: int| 0 <= i < r.edges.len() implies (#[trigger] r.edges[i]).0 != r.edges[i].1 by {
                    if i < st.edges.len() {
                        assert(r.edges[i] == st.edges[i]);
                    }
                }
            }
            if resolved is None && !has_key(st.ghosts, t) {
                assert forall|i: int, j: int| 0 <= i < j < r.ghosts.len() implies (#[trigger] r.ghosts[i]).0 != (#[trigger] r.ghosts[j]).0 by {
                    if j == st.ghosts.len() {
                        assert(r.ghosts[i] == st.ghosts[i]);
                        if r.ghosts[i].0 == t {
                            assert(has_key(st.ghosts, t));
                        }
                    } else {
                        assert(r.ghosts[i] == st.ghosts[i] && r.ghosts[j] == st.ghosts[j]);
                    }
                }
            }
        }
    }
}

proof fn lemma_graph_links_ok(ns: Seq<IndexedNote>, ghosts: bool, i: int, k: int, st: GraphState)
    requires
        graph_state_ok(st),
    ensures
        graph_state_ok(graph_links(ns, ghosts, i, k, st)),
    decreases ns[i].links@.len() - k,
{
    if 0 <= k < ns[i].links@.len() {
        let next = graph_step(ns, ghosts, path_of(ns[i]), ns[i].links@[k].target@, st);
        lemma_graph_step_ok(ns, ghosts, path_of(ns[i]), ns[i].links@[k].target@, st);
        lemma_graph_links_ok(ns, ghosts, i, k + 1, next);
    }
}

proof fn lemma_graph_notes_ok(ns: Seq<IndexedNote>, ghosts: bool, i: int, st: GraphState)
    requires
        graph_state_ok(st),
    ensures
        graph_state_ok(graph_notes(ns, ghosts, i, st)),
    decreases ns.len() - i,
{
    if 0 <= i < ns.len() {
        lemma_graph_links_ok(ns, ghosts, i, 0, st);
        lemma_graph_notes_ok(ns, ghosts, i + 1, graph_links(ns, ghosts, i, 0, st));
    }
}

/// The vault graph draws one edge per linked pair however often the link is
/// written, no edge from a note to itself, and one ghost node per target
/// (ghost ids are the lowercased target, so `[[Ideas]]` and `[[ideas]]`
/// share one).
pub proof fn lemma_graph_edges_unique(ns: Seq<IndexedNote>, ghosts: bool)
    ensures
        forall|i: int, j: int|
            0 <= i < j < graph_spec(ns, ghosts).1.len() ==> #[trigger] graph_spec(ns, ghosts).1[i]
                != #[trigger] graph_spec(ns, ghosts).1[j],
        forall|i: int|
            0 <= i < graph_spec(ns, ghosts).1.len() ==> (#[trigger] graph_spec(ns, ghosts).1[i]).0
                != graph_spec(ns, ghosts).1[i].1,
        forall|i: int, j: int|
            ns.len() <= i < j < graph_spec(ns, ghosts).0.len() ==> (#[trigger] graph_spec(ns, ghosts).0[i]).id
                != (#[trigger] graph_spec(ns, ghosts).0[j]).id,
{
    let st = graph_notes(ns, ghosts, 0, empty_graph());
    lemma_graph_notes_ok(ns, ghosts, 0, empty_graph());
    let g = graph_spec(ns, ghosts);
    assert forall|i: int, j: int| ns.len() <= i < j < g.0.len() implies (#[trigger] g.0[i]).id != (#[trigger] g.0[j]).id by {
        assert(g.0[i].id == st.ghosts[i - ns.len()].0);
        assert(g.0[j].id == st.ghosts[j - ns.len()].0);
    }
}

pub open spec fn pairs_view(v: Seq<(String, String)>) -> Seq<(Seq<char>, Seq<char>)> {
    v.map_values(|p: (String, String)| (p.0@, p.1@))
}

fn find_pair(v: &Vec<(String, String)>, a: &[char], b: &[char]) -> (r: bool)
    ensures
        r == pairs_view(v@).contains((a@, b@)),
{
    let ghost pv = pairs_view(v@);
    let mut k: usize = 0;
    while k < v.len()
        invariant
            k <= v@.len(),
            pv == pairs_view(v@),
            forall|m: int| 0 <= m < k ==> pv[m] != (a@, b@),
        decreases v@.len() - k,
    {
        assert(pv[k as int] == (v@[k as int].0@, v@[k as int].1@));
        if vec_eq(chars_of(v[k].0.as_str()).as_slice(), a) && vec_eq(chars_of(v[k].1.as_str()).as_slice(), b) {
            assert(pv[k as int] == (a@, b@));
            return true;
        }
        k += 1;
    }
    false
}

fn find_key(v: &Vec<(String, String)>, key: &[char]) -> (r: bool)
    ensures
        r == has_key(pairs_view(v@), key@),
{
    let ghost pv = pairs_view(v@);
    let mut k: usize = 0;
    while k < v.len()
        invariant
            k <= v@.len(),
            pv == pairs_view(v@),
            forall|m: int| 0 <= m < k ==> pv[m].0 != key@,
        decreases v@.len() - k,
    {
        assert(pv[k as int] == (v@[k as int].0@, v@[k as int].1@));
        if vec_eq(chars_of(v[k].0.as_str()).as_slice(), key) {
            return true;
        }
        k += 1;
    }
    false
}

fn degree_exec(edges: &Vec<(String, String)>, x: &[char]) -> (r: usize)
    ensures
        r == degree_of(pairs_view(edges@), x@),
{
    let ghost pv = pairs_view(edges@);
    let mut d: usize = 0;
    let mut k: usize = 0;
    while k < edges.len()
        invariant
            k <= edges@.len(),
            pv == pairs_view(edges@),
            d == degree_of(pv.subrange(0, k as int), x@),
            d <= k,
        decreases edges@.len() - k,
    {
        assert(pv.subrange(0, k + 1).drop_last() =~= pv.subrange(0, k as int));
        assert(pv[k as int] == (edges@[k as int].0@, edges@[k as int].1@));
        if vec_eq(chars_of(edges[k].0.as_str()).as_slice(), x) || vec_eq(chars_of(edges[k].1.as_str()).as_slice(), x) {
            d += 1;
        }
        k += 1;
    }
    assert(pv.subrange(0, k as int) =~= pv);
    d
}

fn copy_strings(v: &Vec<String>) -> (r: Vec<String>)
    ensures
        strings_view(r@) == strings_view(v@),
{
    let mut out: Vec<String> = Vec::new();
    let mut k: usize = 0;
    while k < v.len()
        invariant
            k <= v@.len(),
            strings_view(out@) == strings_view(v@).subrange(0, k as int),
        decreases v@.len() - k,
    {
        let ghost before = strings_view(out@);
        out.push(copy_string(&v[k]));
        assert(strings_view(out@) =~= before.push(v@[k as int]@));
        assert(strings_view(out@) =~= strings_view(v@).subrange(0, k + 1));
        k += 1;
    }
    assert(strings_view(v@).subrange(0, k as int) =~= strings_view(v@));
    out
}

impl VaultIndex {
    /// The vault as a link graph. Unresolved targets become "ghost" nodes
    /// (when `include_ghosts`), which show where the vault wants to grow;
    /// linking to the same note several times is one edge.
    pub fn graph(&self, include_ghosts: bool) -> (r: GraphData)
        ensures
            r.nodes@.map_values(|n: GraphNode| node_view(n)) == graph_spec(self.notes_view(), include_ghosts).0,
            r.edges@.map_values(|e: GraphEdge| edge_view(e)) == graph_spec(self.notes_view(), include_ghosts).1,
    {
        let notes = self.notes();
        let ghost ns = self.notes_view();
        let mut edges: Vec<(String, String)> = Vec::new();
        let mut ghosts: Vec<(String, String)> = Vec::new();
        let ghost total = graph_notes(ns, include_ghosts, 0, empty_graph());
        proof {
            assert(pairs_view(edges@) =~= Seq::<(Seq<char>, Seq<char>)>::empty());
            assert(pairs_view(ghosts@) =~= Seq::<(Seq<char>, Seq<char>)>::empty());
        }
        let mut i: usize = 0;
        while i < notes.len()
            invariant
                i <= ns.len(),
                notes@ == ns,
                ns == self.notes_view(),
                graph_notes(
                    ns,
                    include_ghosts,
                    i as int,
                    GraphState { edges: pairs_view(edges@), ghosts: pairs_view(ghosts@) },
                ) == total,
            decreases ns.len() - i,
        {
            let note = &notes[i];
            let source = chars_of(note.meta.path.as_str());
            let mut k: usize = 0;
            while k < note.links.len()
                invariant
                    k <= note.links@.len(),
                    i < ns.len(),
                    notes@ == ns,
                    ns == self.notes_view(),
                    note == ns[i as int],
                    source@ == path_of(ns[i as int]),
                    graph_notes(
                        ns,
                        include_ghosts,
                        i + 1,
                        graph_links(
                            ns,
                            include_ghosts,
                            i as int,
                            k as int,
                            GraphState { edges: pairs_view(edges@), ghosts: pairs_view(ghosts@) },
                        ),
                    ) == total,
                decreases note.links@.len() - k,
            {
                let tc = chars_of(note.links[k].target.as_str());
                let ghost before = GraphState { edges: pairs_view(edges@), ghosts: pairs_view(ghosts@) };
                let ghost target = ns[i as int].links@[k as int].target@;
                assert(tc@ == target);
                if tc.len() > 0 {
                    let resolved = self.resolve(note.meta.path.as_str(), note.links[k].target.as_str());
                    let go = resolved.is_some() || include_ghosts;
                    if go {
                        let t: Vec<char> = match &resolved {
                            Some(p) => chars_of(p.as_str()),
                            None => {
                                let key = to_lower(tc.as_slice());
                                if !find_key(&ghosts, key.as_slice()) {
                                    let ghost g0 = pairs_view(ghosts@);
                                    ghosts.push((string_of(key.as_slice()), copy_string(&note.links[k].target)));
                                    assert(pairs_view(ghosts@) =~= g0.push((key@, target)));
                                }
                                key
                            },
                        };
                        let ghost spec_t = match resolve_spec(ns, path_of(ns[i as int]), target) {
                            Some(p) => p,
                            None => lowercase(target),
                        };
                        assert(t@ == spec_t);
                        if !vec_eq(t.as_slice(), source.as_slice()) && !find_pair(&edges, source.as_slice(), t.as_slice()) {
                            let ghost e0 = pairs_view(edges@);
                            edges.push((string_of(source.as_slice()), string_of(t.as_slice())));
                            assert(pairs_view(edges@) =~= e0.push((source@, t@)));
                        }
                    }
                }
                proof {
                    let after = GraphState { edges: pairs_view(edges@), ghosts: pairs_view(ghosts@) };
                    let expect = graph_step(ns, include_ghosts, path_of(ns[i as int]), target, before);
                    assert(after.edges =~= expect.edges);
                    assert(after.ghosts =~= expect.ghosts);
                    assert(after == expect);
                }
                k += 1;
            }
            i += 1;
        }
        let mut nodes: Vec<GraphNode> = Vec::new();
        let ghost spec = graph_spec(ns, include_ghosts).0;
        let mut j: usize = 0;
        while j < notes.len()
            invariant
                j <= ns.len(),
                notes@ == ns,
                total == (GraphState { edges: pairs_view(edges@), ghosts: pairs_view(ghosts@) }),
                total == graph_notes(ns, include_ghosts, 0, empty_graph()),
                spec == graph_spec(ns, include_ghosts).0,
                nodes@.map_values(|n: GraphNode| node_view(n)) == spec.subrange(0, j as int),
            decreases ns.len() - j,
        {
            let note = &notes[j];
            let p = chars_of(note.meta.path.as_str());
            let node = GraphNode {
                id: copy_string(&note.meta.path),
                label: copy_string(&note.meta.title),
                exists: true,
                degree: degree_exec(&edges, p.as_slice()),
                tags: copy_strings(&note.meta.tags),
            };
            assert(node_view(node) == spec[j as int]);
            let ghost before = nodes@.map_values(|n: GraphNode| node_view(n));
            nodes.push(node);
            assert(nodes@.map_values(|n: GraphNode| node_view(n)) =~= before.push(node_view(node)));
            assert(nodes@.map_values(|n: GraphNode| node_view(n)) =~= spec.subrange(0, j + 1));
            j += 1;
        }
        let mut g: usize = 0;
        while g < ghosts.len()
            invariant
                g <= ghosts@.len(),
                notes@ == ns,
                total == graph_notes(ns, include_ghosts, 0, empty_graph()),
                total == (GraphState { edges: pairs_view(edges@), ghosts: pairs_view(ghosts@) }),
                spec == graph_spec(ns, include_ghosts).0,
                spec.len() == ns.len() + ghosts@.len(),
                nodes@.map_values(|n: GraphNode| node_view(n)) == spec.subrange(0, ns.len() + g),
            decreases ghosts@.len() - g,
        {
            assert(pairs_view(ghosts@)[g as int] == (ghosts@[g as int].0@, ghosts@[g as int].1@));
            let key = chars_of(ghosts[g].0.as_str());
            let no_tags: Vec<String> = Vec::new();
            assert(strings_view(no_tags@) =~= Seq::<Seq<char>>::empty());
            let node = GraphNode {
                id: copy_string(&ghosts[g].0),
                label: copy_string(&ghosts[g].1),
                exists: false,
                degree: degree_exec(&edges, key.as_slice()),
                tags: no_tags,
            };
            assert(node_view(node) == spec[ns.len() + g]);
            let ghost before = nodes@.map_values(|n: GraphNode| node_view(n));
            nodes.push(node);
            assert(nodes@.map_values(|n: GraphNode| node_view(n)) =~= before.push(node_view(node)));
            assert(nodes@.map_values(|n: GraphNode| node_view(n)) =~= spec.subrange(0, ns.len() + g + 1));
            g += 1;
        }
        assert(spec.subrange(0, ns.len() + g) =~= spec);
        let mut out_edges: Vec<GraphEdge> = Vec::new();
        let mut e: usize = 0;
        while e < edges.len()
            invariant
                e <= edges@.len(),
                out_edges@.map_values(|x: GraphEdge| edge_view(x)) == pairs_view(edges@).subrange(0, e as int),
            decreases edges@.len() - e,
        {
            let ghost before = out_edges@.map_values(|x: GraphEdge| edge_view(x));
            let edge = GraphEdge { source: copy_string(&edges[e].0), target: copy_string(&edges[e].1) };
            assert(edge_view(edge) == pairs_view(edges@)[e as int]);
            out_edges.push(edge);
            assert(out_edges@.map_values(|x: GraphEdge| edge_view(x)) =~= before.push(edge_view(edge)));
            assert(out_edges@.map_values(|x: GraphEdge| edge_view(x)) =~= pairs_view(edges@).subrange(0, e + 1));
            e += 1;
        }
        assert(pairs_view(edges@).subrange(0, e as int) =~= pairs_view(edges@));
        GraphData { nodes, edges: out_edges }
    }
}

// ---------------------------------------------------------------------------
// filesystem events
// ---------------------------------------------------------------------------

/// Some `/`-separated segment of the path starts with `.`: a dotfile or
/// something inside a dot directory.
pub open spec fn hidden(text: Seq<char>) -> bool {
    exists|i: int|
        0 <= i < pieces(text, '/').len() && (#[trigger] pieces(text, '/')[i]).len() > 0 && pieces(text, '/')[i][0]
            == '.'
}

/// The vault-relative note path an event path names, if it names a note
/// that is part of the vault's content.
pub open spec fn change_of(root: Seq<char>, path: Seq<char>) -> Option<Seq<char>> {
    match relative_of_spec(root, path) {
        Some(text) => if text.len() > 0 && !hidden(text) && named_as_note(text) {
            Some(text)
        } else {
            None
        },
        None => None,
    }
}

fn hidden_exec(text: &[char]) -> (r: bool)
    ensures
        r == hidden(text@),
{
    let segs = crate::paths::pieces_exec(text, '/');
    let ghost sv = segs@.map_values(|q: Vec<char>| q@);
    let mut k: usize = 0;
    while k < segs.len()
        invariant
            k <= segs@.len(),
            sv == segs@.map_values(|q: Vec<char>| q@),
            sv == pieces(text@, '/'),
            forall|m: int| 0 <= m < k ==> !((#[trigger] sv[m]).len() > 0 && sv[m][0] == '.'),
        decreases segs@.len() - k,
    {
        assert(sv[k as int] == segs@[k as int]@);
        if segs[k].len() > 0 && segs[k][0] == '.' {
            return true;
        }
        k += 1;
    }
    false
}

/// How many changed paths one change report lists.
pub const CHANGE_REPORT_LIMIT: usize = 200;

/// The strings of `s`, each once, in increasing order.
pub open spec fn sorted_set(s: Seq<Seq<char>>) -> Seq<Seq<char>> {
    choose|t: Seq<Seq<char>>|
        crate::sorting::strictly_sorted(t) && forall|x: Seq<char>| #[trigger] t.contains(x) <==> s.contains(x)
}

/// What one burst of changes reports: the changed paths in increasing
/// order, at most `CHANGE_REPORT_LIMIT` of them, and whether any were left
/// out.
pub fn change_report(changed: Vec<String>) -> (r: (Vec<String>, bool))
    ensures
        strings_view(r.0@) == sorted_set(strings_view(changed@)).take(
            if sorted_set(strings_view(changed@)).len() > CHANGE_REPORT_LIMIT {
                CHANGE_REPORT_LIMIT as int
            } else {
                sorted_set(strings_view(changed@)).len() as int
            },
        ),
        r.1 == (sorted_set(strings_view(changed@)).len() > CHANGE_REPORT_LIMIT),
{
    let ghost cv = strings_view(changed@);
    let sorted = crate::sorting::sorted_unique(changed);
    let ghost sv = strings_view(sorted@);
    proof {
        assert(crate::sorting::strictly_sorted(sv) && forall|x: Seq<char>| #[trigger] sv.contains(x) <==> cv.contains(x));
        let c = sorted_set(cv);
        crate::sorting::lemma_sorted_unique_eq(c, sv);
    }
    let n = if sorted.len() > CHANGE_REPORT_LIMIT {
        CHANGE_REPORT_LIMIT
    } else {
        sorted.len()
    };
    let mut out: Vec<String> = Vec::new();
    let mut k: usize = 0;
    while k < n
        invariant
            k <= n <= sorted@.len(),
            sv == strings_view(sorted@),
            strings_view(out@) == sv.take(k as int),
        decreases n - k,
    {
        let ghost before = strings_view(out@);
        let c = copy_string(&sorted[k]);
        out.push(c);
        assert(strings_view(out@) =~= before.push(c@));
        assert(sv[k as int] == sorted@[k as int]@);
        assert(strings_view(out@) =~= sv.take(k + 1));
        k += 1;
    }
    (out, sorted.len() > CHANGE_REPORT_LIMIT)
}


/// Reduce the paths of a raw filesystem event to the vault-relative note
/// paths it touched, adding each to `out` once.
pub fn collect_changes(vault: &Vault, paths: &Vec<String>, out: &mut Vec<String>)
    requires
        crate::sorting::distinct(strings_view(old(out)@)),
    ensures
        crate::sorting::distinct(strings_view(final(out)@)),
        forall|x: Seq<char>|
            #[trigger] strings_view(final(out)@).contains(x) <==> (strings_view(old(out)@).contains(x)
                || exists|k: int| 0 <= k < paths@.len() && change_of(vault.root_view(), (#[trigger] paths@[k])@) == Some(x)),
{
    let ghost start = strings_view(out@);
    let mut k: usize = 0;
    while k < paths.len()
        invariant
            k <= paths@.len(),
            crate::sorting::distinct(strings_view(out@)),
            forall|x: Seq<char>|
                #[trigger] strings_view(out@).contains(x) <==> (start.contains(x) || exists|j: int|
                    0 <= j < k && change_of(vault.root_view(), (#[trigger] paths@[j])@) == Some(x)),
        decreases paths@.len() - k,
    {
        let ghost before = strings_view(out@);
        match vault.relative_of(paths[k].as_str()) {
            Some(text) => {
                let tc = chars_of(text.as_str());
                let a = crate::paths::after_last_exec(tc.as_slice(), '.');
                let is_note = a > 0 && crate::vault::is_note_ext_exec(crate::text::slice_of(tc.as_slice(), a, tc.len()).as_slice());
                if tc.len() > 0 && !hidden_exec(tc.as_slice()) && is_note {
                    let mut seen = false;
                    let mut m: usize = 0;
                    while m < out.len()
                        invariant
                            m <= out@.len(),
                            seen == exists|y: int| 0 <= y < m && out@[y]@ == tc@,
                        decreases out@.len() - m,
                    {
                        if vec_eq(chars_of(out[m].as_str()).as_slice(), tc.as_slice()) {
                            seen = true;
                        }
                        m += 1;
                    }
                    if !seen {
                        out.push(text);
                    } else {
                        proof {
                            let y = choose|y: int| 0 <= y < m && out@[y]@ == tc@;
                            assert(strings_view(out@)[y] == tc@);
                        }
                    }
                    assert(change_of(vault.root_view(), paths@[k as int]@) == Some(tc@));
                } else {
                    assert(change_of(vault.root_view(), paths@[k as int]@) is None);
                }
            },
            None => {
                assert(change_of(vault.root_view(), paths@[k as int]@) is None);
            },
        }
        proof {
            let now = strings_view(out@);
            if now.len() > before.len() {
                assert(now =~= before.push(now.last()));
                assert forall|a: int, b: int| 0 <= a < b < now.len() implies now[a] != now[b] by {
                    if b == now.len() - 1 {
                        assert(now[a] == before[a]);
                        assert(before.contains(before[a]));
                    } else {
                        assert(now[a] == before[a] && now[b] == before[b]);
                    }
                }
            } else {
                assert(now =~= before);
            }
            assert forall|x: Seq<char>|
                #[trigger] now.contains(x) <==> (start.contains(x) || exists|j: int|
                    0 <= j < k + 1 && change_of(vault.root_view(), (#[trigger] paths@[j])@) == Some(x)) by {
                if now.contains(x) {
                    let y = choose|y: int| 0 <= y < now.len() && now[y] == x;
                    if y < before.len() {
                        assert(before[y] == x);
                        assert(before.contains(x));
                    }
                }
                if before.contains(x) {
                    let y = choose|y: int| 0 <= y < before.len() && before[y] == x;
                    assert(now[y] == x);
                }
                if exists|j: int| 0 <= j < k + 1 && change_of(vault.root_view(), (#[trigger] paths@[j])@) == Some(x) {
                    let j = choose|j: int| 0 <= j < k + 1 && change_of(vault.root_view(), (#[trigger] paths@[j])@) == Some(x);
                    if j == k {
                        if now.len() > before.len() {
                            assert(now[now.len() - 1] == x);
                        }
                    }
                }
            }
        }
        k += 1;
    }
}

} // verus!
